//! Transactions of ecash proofs, and the proofs that they leave in the wallet.

use itertools::Itertools;
use vstd::prelude::*;

use crate::collections::Table;
use crate::error::{outcome, Error, Fault};
use crate::event::{Event, TX_KIND};
use crate::nuts::{Proof, ProofInfo, UncheckedUrl};
use crate::sealing::{
    authored, open_payload, opened, seal, sealing_fault, wallet_link, wallet_link_tag,
    WalletKeys,
};
use crate::tag::{lemma_tag_names, tag_views, texts, Tag, TagView, ID_LINK_TAG};

verus! {

/// Proofs of one mint as contracts speak of them: the mint's address and the proofs.
pub type Group = (Seq<char>, Seq<Proof>);

/// Proofs of one mint, as an event lists them
#[derive(Debug)]
pub struct EventProofs {
    pub mint_url: UncheckedUrl,
    pub proofs: Vec<Proof>,
}

impl View for EventProofs {
    type V = Group;

    open spec fn view(&self) -> Group {
        (self.mint_url@, self.proofs@)
    }
}

/// The views of a row of groups.
pub open spec fn groups(s: Seq<EventProofs>) -> Seq<Group> {
    s.map_values(|g: EventProofs| g@)
}

/// A transaction: the proofs that came in and those that went out
#[derive(Debug)]
pub struct TxInfo {
    pub inputs: Vec<EventProofs>,
    pub outputs: Vec<EventProofs>,
}

/// The runs of neighbours that have the same mint, in order.
pub open spec fn runs(items: Seq<ProofInfo>) -> Seq<(Seq<char>, Seq<ProofInfo>)>
    decreases items.len(),
{
    if items.len() == 0 {
        Seq::empty()
    } else {
        let before = runs(items.drop_last());
        let item = items.last();
        if before.len() > 0 && before.last().0 == item.mint_url@ {
            before.drop_last().push((before.last().0, before.last().1.push(item)))
        } else {
            before.push((item.mint_url@, seq![item]))
        }
    }
}

/// The proofs of each run of neighbours that have the same mint.
pub open spec fn grouped(items: Seq<ProofInfo>) -> Seq<Group> {
    runs(items).map_values(
        |run: (Seq<char>, Seq<ProofInfo>)| (run.0, run.1.map_values(|p: ProofInfo| p.cash)),
    )
}

/// `Itertools::chunk_by` of the `itertools` crate, with the text of the mint's address as the key
/// and the chunks taken in order: neighbours with the same key form one chunk, which comes with
/// that key and keeps their order, and a new chunk begins where the key changes.
#[verifier::external_body]
fn chunk_by_mint(items: Vec<ProofInfo>) -> (r: Vec<(String, Vec<ProofInfo>)>)
    ensures
        r@.map_values(|c: (String, Vec<ProofInfo>)| (c.0@, c.1@)) == runs(items@),
{
    items.into_iter()
        .chunk_by(|item| item.mint_url.text.clone())
        .into_iter()
        .map(|(key, chunk)| (key, chunk.collect()))
        .collect()
}

/// The proofs of each run of neighbours that have the same mint.
fn group(items: Vec<ProofInfo>) -> (r: Vec<EventProofs>)
    ensures
        groups(r@) == grouped(items@),
{
    let ghost all = items@;
    let chunks = chunk_by_mint(items);
    let ghost chunk_views = chunks@.map_values(|c: (String, Vec<ProofInfo>)| (c.0@, c.1@));
    let mut r: Vec<EventProofs> = Vec::new();
    let ghost chunk_seq = chunks@;
    for chunk in it: chunks
        invariant
            it.seq() == chunk_seq,
            chunk_views == runs(all),
            chunk_views == chunk_seq.map_values(|c: (String, Vec<ProofInfo>)| (c.0@, c.1@)),
            groups(r@) == grouped(all).take(it.index()),
    {
        let ghost i = it.index();
        let (text, infos) = chunk;
        let ghost info_seq = infos@;
        let mut proofs: Vec<Proof> = Vec::new();
        for info in inner: infos
            invariant
                inner.seq() == info_seq,
                proofs@ == info_seq.take(inner.index()).map_values(|p: ProofInfo| p.cash),
        {
            proofs.push(info.cash);
            assert(proofs@ =~= info_seq.take(inner.index() + 1).map_values(
                |p: ProofInfo| p.cash,
            ));
        }
        assert(info_seq.take(info_seq.len() as int) =~= info_seq);
        assert(chunk_views[i] == (text@, info_seq));
        let ghost before = groups(r@);
        r.push(EventProofs { mint_url: UncheckedUrl { text }, proofs });
        assert(groups(r@) =~= before.push(grouped(all)[i]));
        assert(groups(r@) =~= grouped(all).take(i + 1));
    }
    assert(grouped(all).take(grouped(all).len() as int) =~= grouped(all));
    r
}

/// The messages that the wallet reads from events, up to the first that it cannot decrypt, and what
/// is wrong with that one, if there is one.
pub open spec fn opened_texts(keys: WalletKeys, events: Seq<Event>) -> (
    Seq<Seq<char>>,
    Option<Fault>,
)
    decreases events.len(),
{
    if events.len() == 0 {
        (Seq::empty(), None)
    } else {
        let before = opened_texts(keys, events.drop_last());
        if before.1 is Some {
            before
        } else {
            match opened(keys, events.last().content@) {
                Ok(text) => (before.0.push(text), None),
                Err(fault) => (before.0, Some(fault)),
            }
        }
    }
}

/// Once an event cannot be decrypted, the events behind it change nothing.
proof fn lemma_opened_texts_fault(keys: WalletKeys, events: Seq<Event>, i: int)
    requires
        0 <= i <= events.len(),
        opened_texts(keys, events.take(i)).1 is Some,
    ensures
        opened_texts(keys, events) == opened_texts(keys, events.take(i)),
    decreases events.len() - i,
{
    if i < events.len() {
        assert(events.take(i + 1).drop_last() =~= events.take(i));
        lemma_opened_texts_fault(keys, events, i + 1);
    } else {
        assert(events.take(i) =~= events);
    }
}

/// One message is read from each event, in order, up to the first that cannot be decrypted. What
/// is wrong with that one is what comes out; where every event can be decrypted, nothing is.
pub proof fn law_texts_are_those_of_the_events(keys: WalletKeys, events: Seq<Event>)
    ensures
        opened_texts(keys, events).0.len() <= events.len(),
        forall|i: int|
            0 <= i < opened_texts(keys, events).0.len() ==> opened(
                keys,
                (#[trigger] events[i]).content@,
            ) == Ok::<Seq<char>, Fault>(opened_texts(keys, events).0[i]),
        match opened_texts(keys, events).1 {
            None => opened_texts(keys, events).0.len() == events.len(),
            Some(fault) => {
                let n = opened_texts(keys, events).0.len() as int;
                &&& n < events.len()
                &&& opened(keys, events[n].content@) == Err::<Seq<char>, Fault>(fault)
            },
        },
    decreases events.len(),
{
    if events.len() > 0 {
        let rest = events.drop_last();
        law_texts_are_those_of_the_events(keys, rest);
        let before = opened_texts(keys, rest).0;
        let after = opened_texts(keys, events).0;
        assert forall|i: int| 0 <= i < after.len() implies opened(
            keys,
            (#[trigger] events[i]).content@,
        ) == Ok::<Seq<char>, Fault>(after[i]) by {
            if i < before.len() {
                assert(opened(keys, rest[i].content@) == Ok::<Seq<char>, Fault>(before[i]));
            }
        }
    }
}

/// Whether a result is what writing the JSON text of a transaction for a wallet gives: an event
/// that keeps it and from which it can be read, or what stands in the way of encrypting it.
pub open spec fn transaction_written(
    keys: WalletKeys,
    wallet_id: Seq<char>,
    json: Seq<char>,
    r: Result<Event, Error>,
) -> bool {
    match r {
        Ok(event) => {
            &&& sealing_fault(keys, json) is None
            &&& event.kind == TX_KIND
            &&& tag_views(event.tags@) == seq![
                seq![ID_LINK_TAG@, wallet_link(wallet_id, keys.public_key@)],
            ]
            &&& opened(keys, event.content@) == Ok::<Seq<char>, Fault>(json)
            &&& authored(keys, event)
        },
        Err(e) => sealing_fault(keys, json) == Some(e@),
    }
}

impl TxInfo {
    /// Lists the proofs of a transaction by mint, neighbours of the same mint together.
    pub fn new(inputs: Vec<ProofInfo>, outputs: Vec<ProofInfo>) -> (r: Self)
        ensures
            groups(r.inputs@) == grouped(inputs@),
            groups(r.outputs@) == grouped(outputs@),
    {
        TxInfo { inputs: group(inputs), outputs: group(outputs) }
    }

    /// The JSON text of the transaction that an event keeps.
    pub fn from_event(event: &Event, keys: &WalletKeys) -> (r: Result<String, Error>)
        ensures
            outcome(r) == opened(*keys, event.content@),
    {
        open_payload(event.content.as_str(), keys)
    }

    /// The JSON texts of the transactions that events keep, up to the first event that cannot be
    /// decrypted, and what is wrong with that one, if there is one.
    pub fn texts_from_events(events: &Vec<Event>, keys: &WalletKeys) -> (r: (
        Vec<String>,
        Result<(), Error>,
    ))
        ensures
            opened_texts(*keys, events@) == (
                texts(r.0@),
                match r.1 {
                    Ok(_) => None::<Fault>,
                    Err(e) => Some(e@),
                },
            ),
    {
        let mut all: Vec<String> = Vec::new();
        assert(texts(all@) =~= Seq::empty());
        for i in 0..events.len()
            invariant
                opened_texts(*keys, events@.take(i as int)) == (texts(all@), None::<Fault>),
        {
            assert(events@.take(i + 1).drop_last() =~= events@.take(i as int));
            match TxInfo::from_event(&events[i], keys) {
                Ok(text) => {
                    let ghost before = texts(all@);
                    all.push(text);
                    assert(texts(all@) =~= before.push(text@));
                },
                Err(e) => {
                    proof {
                        lemma_opened_texts_fault(*keys, events@, i + 1);
                    }
                    return (all, Err(e));
                },
            }
        }
        assert(events@.take(events@.len() as int) =~= events@);
        (all, Ok(()))
    }

    /// Writes a transaction, given as its JSON text, as the event that keeps it. Reading the event
    /// gives the text back.
    pub fn to_event(json: &str, wallet_id: &str, keys: &WalletKeys) -> (r: Result<Event, Error>)
        ensures
            transaction_written(*keys, wallet_id@, json@, r),
    {
        let mut tags: Vec<Tag> = Vec::new();
        tags.push(wallet_link_tag(wallet_id, keys));
        let ghost tag: TagView = seq![ID_LINK_TAG@, wallet_link(wallet_id@, keys.public_key@)];
        assert(tag_views(tags@) =~= seq![tag]);
        proof {
            lemma_tag_names();
            assert(seq![tag][0] == tag);
        }
        seal(TX_KIND, json, tags, keys)
    }
}

/// The proofs of a wallet as contracts speak of them: the mints in the order in which they came
/// up, and the proofs of each.
#[verifier::ext_equal]
pub struct Purse {
    pub mints: Seq<Seq<char>>,
    pub proofs: Map<Seq<char>, Seq<Proof>>,
}

impl Purse {
    pub open spec fn empty() -> Purse {
        Purse { mints: Seq::empty(), proofs: Map::empty() }
    }

    /// Puts the proofs of a group behind those of the same mint.
    pub open spec fn plus_group(self, group: Group) -> Purse {
        if self.proofs.contains_key(group.0) {
            Purse {
                mints: self.mints,
                proofs: self.proofs.insert(group.0, self.proofs[group.0] + group.1),
            }
        } else {
            Purse {
                mints: self.mints.push(group.0),
                proofs: self.proofs.insert(group.0, group.1),
            }
        }
    }

    /// Puts the proofs of groups behind those of the same mint, one group after the other.
    pub open spec fn plus(self, added: Seq<Group>) -> Purse
        decreases added.len(),
    {
        if added.len() == 0 {
            self
        } else {
            self.plus(added.drop_last()).plus_group(added.last())
        }
    }

    /// The proofs, each with its mint, mint after mint.
    pub open spec fn listed(self) -> Seq<(Seq<char>, Proof)> {
        listed_of(self.mints, self.proofs)
    }

    /// Puts all proofs that transactions name behind those of the same mint: for each
    /// transaction first those that went out, then those that came in.
    pub open spec fn plus_txs(self, txs: Seq<TxInfo>) -> Purse
        decreases txs.len(),
    {
        if txs.len() == 0 {
            self
        } else {
            self.plus_txs(txs.drop_last()).plus(groups(txs.last().outputs@)).plus(
                groups(txs.last().inputs@),
            )
        }
    }
}

/// The proofs of mints, each with its mint, mint after mint.
pub open spec fn listed_of(
    mints: Seq<Seq<char>>,
    proofs: Map<Seq<char>, Seq<Proof>>,
) -> Seq<(Seq<char>, Proof)>
    decreases mints.len(),
{
    if mints.len() == 0 {
        Seq::empty()
    } else {
        listed_of(mints.drop_last(), proofs) + with_mint((mints.last(), proofs[mints.last()]))
    }
}

/// The proofs of a group, each with the mint.
pub open spec fn with_mint(group: Group) -> Seq<(Seq<char>, Proof)> {
    group.1.map_values(|p: Proof| (group.0, p))
}

/// The proofs of a wallet by mint
#[derive(Debug)]
pub struct WalletProofs {
    proofs: Table<UncheckedUrl, Vec<Proof>>,
}

impl View for WalletProofs {
    type V = Purse;

    closed spec fn view(&self) -> Purse {
        Purse {
            mints: self.proofs.order(),
            proofs: self.proofs@.map_values(|v: Vec<Proof>| v@),
        }
    }
}

impl WalletProofs {
    pub fn new() -> (r: Self)
        ensures
            r@ == Purse::empty(),
    {
        let r = WalletProofs { proofs: Table::new() };
        assert(r@.proofs =~= Map::empty());
        r
    }

    /// Adds the proofs of one group.
    fn add_group(&mut self, group: EventProofs)
        ensures
            final(self)@ == old(self)@.plus_group(group@),
    {
        let ghost before = self@;
        let EventProofs { mint_url, proofs } = group;
        match self.proofs.position(&mint_url) {
            Some(i) => {
                let mut added = proofs;
                let mut all = self.proofs.replace(i, Vec::new());
                all.append(&mut added);
                let _ = self.proofs.replace(i, all);
                assert(self@.proofs =~= before.plus_group(group@).proofs);
            },
            None => {
                self.proofs.insert(mint_url, proofs);
                assert(self@.proofs =~= before.plus_group(group@).proofs);
            },
        }
    }

    /// Adds the proofs of groups.
    fn add_groups(&mut self, added: Vec<EventProofs>)
        ensures
            final(self)@ == old(self)@.plus(groups(added@)),
    {
        let ghost before = self@;
        let ghost all = added@;
        for group in it: added
            invariant
                it.seq() == all,
                self@ == before.plus(groups(all).take(it.index())),
        {
            let ghost i = it.index();
            self.add_group(group);
            assert(groups(all).take(i + 1).drop_last() =~= groups(all).take(i));
        }
        assert(groups(all).take(groups(all).len() as int) =~= groups(all));
    }

    /// Adds the proofs of both sides of a transaction.
    pub fn update(&mut self, inputs: Vec<EventProofs>, outputs: Vec<EventProofs>)
        ensures
            final(self)@ == old(self)@.plus(groups(inputs@)).plus(groups(outputs@)),
    {
        self.add_groups(inputs);
        self.add_groups(outputs);
    }

    /// The proofs that transactions name.
    pub fn from(txs: Vec<TxInfo>) -> (r: Self)
        ensures
            r@ == Purse::empty().plus_txs(txs@),
    {
        let ghost all = txs@;
        let mut r = WalletProofs::new();
        for tx in it: txs
            invariant
                it.seq() == all,
                r@ == Purse::empty().plus_txs(all.take(it.index())),
        {
            let ghost i = it.index();
            let TxInfo { inputs, outputs } = tx;
            r.update(outputs, inputs);
            assert(all.take(i + 1).drop_last() =~= all.take(i));
        }
        assert(all.take(all.len() as int) =~= all);
        r
    }

    /// The mints and their proofs.
    pub fn into_groups(self) -> (r: Vec<EventProofs>)
        ensures
            groups(r@) == Seq::new(
                self@.mints.len(),
                |i: int| (self@.mints[i], self@.proofs[self@.mints[i]]),
            ),
            self@.mints.no_duplicates(),
            self@.proofs.dom() == self@.mints.to_set(),
    {
        let ghost purse = self@;
        let entries = self.proofs.into_entries();
        let ghost all = entries@;
        let ghost target = Seq::new(
            purse.mints.len(),
            |i: int| (purse.mints[i], purse.proofs[purse.mints[i]]),
        );
        let mut r: Vec<EventProofs> = Vec::new();
        for entry in it: entries
            invariant
                it.seq() == all,
                all.len() == target.len(),
                target == Seq::new(
                    purse.mints.len(),
                    |i: int| (purse.mints[i], purse.proofs[purse.mints[i]]),
                ),
                forall|i: int|
                    0 <= i < all.len() ==> (#[trigger] all[i]).0@ == target[i].0 && all[i].1@
                        == target[i].1,
                groups(r@) == target.take(it.index()),
        {
            let ghost i = it.index();
            let (mint_url, proofs) = entry;
            let ghost before = groups(r@);
            assert(all[i].0@ == target[i].0);
            r.push(EventProofs { mint_url, proofs });
            assert(groups(r@) =~= before.push(target[i]));
            assert(groups(r@) =~= target.take(i + 1));
        }
        assert(target.take(target.len() as int) =~= target);
        r
    }
}

/// The proofs of groups, each with its mint, group after group.
pub open spec fn all_listed(s: Seq<Group>) -> Seq<(Seq<char>, Proof)>
    decreases s.len(),
{
    if s.len() == 0 {
        Seq::empty()
    } else {
        all_listed(s.drop_last()) + with_mint(s.last())
    }
}

/// The proofs of a mint among proofs that come each with its mint.
pub open spec fn of_mint(listed: Seq<(Seq<char>, Proof)>, mint: Seq<char>) -> Seq<Proof>
    decreases listed.len(),
{
    if listed.len() == 0 {
        Seq::empty()
    } else {
        let before = of_mint(listed.drop_last(), mint);
        if listed.last().0 == mint {
            before.push(listed.last().1)
        } else {
            before
        }
    }
}

/// Proofs, each with its mint, as the wallet hands them over.
pub open spec fn handed_over(items: Seq<ProofInfo>) -> Seq<(Seq<char>, Proof)> {
    items.map_values(|p: ProofInfo| (p.mint_url@, p.cash))
}

impl Purse {
    /// Every mint is listed once.
    pub open spec fn wf(self) -> bool {
        &&& self.mints.no_duplicates()
        &&& self.proofs.dom() == self.mints.to_set()
    }

    /// The proofs of a mint, none where the mint never came up.
    pub open spec fn held(self, mint: Seq<char>) -> Seq<Proof> {
        if self.proofs.contains_key(mint) {
            self.proofs[mint]
        } else {
            Seq::empty()
        }
    }
}

pub(crate) proof fn lemma_of_mint_concat(
    a: Seq<(Seq<char>, Proof)>,
    b: Seq<(Seq<char>, Proof)>,
    mint: Seq<char>,
)
    ensures
        of_mint(a + b, mint) == of_mint(a, mint) + of_mint(b, mint),
    decreases b.len(),
{
    if b.len() == 0 {
        assert(a + b =~= a);
        assert(of_mint(a, mint) + of_mint(b, mint) =~= of_mint(a, mint));
    } else {
        lemma_of_mint_concat(a, b.drop_last(), mint);
        assert((a + b).drop_last() =~= a + b.drop_last());
        assert(of_mint(a + b, mint) =~= of_mint(a, mint) + of_mint(b, mint));
    }
}

pub(crate) proof fn lemma_of_mint_group(g: Group, mint: Seq<char>)
    ensures
        of_mint(with_mint(g), mint) == (if g.0 == mint {
            g.1
        } else {
            Seq::empty()
        }),
    decreases g.1.len(),
{
    if g.1.len() == 0 {
        assert(of_mint(with_mint(g), mint) =~= Seq::empty());
        assert(g.1 =~= Seq::empty());
    } else {
        let rest: Group = (g.0, g.1.drop_last());
        lemma_of_mint_group(rest, mint);
        assert(with_mint(g).drop_last() =~= with_mint(rest));
        assert(with_mint(g).last() == (g.0, g.1.last()));
        assert(g.1.drop_last().push(g.1.last()) =~= g.1);
    }
}

/// Grouping the proofs of a transaction loses nothing and changes no order: listed group after
/// group they are the proofs that were handed over. No group is empty, and no two neighbours are
/// of the same mint.
pub proof fn law_grouping_is_lossless(items: Seq<ProofInfo>)
    ensures
        all_listed(grouped(items)) == handed_over(items),
        forall|i: int| 0 <= i < grouped(items).len() ==> (#[trigger] grouped(items)[i]).1.len() > 0,
        forall|i: int, j: int|
            0 <= i && j == i + 1 && j < grouped(items).len() ==> (
            #[trigger] grouped(items)[i]).0 != (#[trigger] grouped(items)[j]).0,
    decreases items.len(),
{
    if items.len() == 0 {
        assert(all_listed(grouped(items)) =~= handed_over(items));
    } else {
        let rest = items.drop_last();
        let item = items.last();
        law_grouping_is_lossless(rest);
        let before = grouped(rest);
        let after = grouped(items);
        let url = item.mint_url@;
        assert(handed_over(items) =~= handed_over(rest).push((url, item.cash)));
        if before.len() > 0 && before.last().0 == url {
            let last = runs(rest).last();
            let grown: Group = (before.last().0, before.last().1.push(item.cash));
            assert(runs(items) == runs(rest).drop_last().push((last.0, last.1.push(item))));
            assert(last.1.push(item).map_values(|p: ProofInfo| p.cash) =~= last.1.map_values(
                |p: ProofInfo| p.cash,
            ).push(item.cash));
            assert(after =~= before.drop_last().push(grown));
            assert(after.drop_last() =~= before.drop_last());
            assert(with_mint(grown) =~= with_mint(before.last()).push((url, item.cash)));
            assert(all_listed(after) =~= all_listed(before).push((url, item.cash)));
            assert forall|i: int, j: int| 0 <= i && j == i + 1 && j < after.len() implies (
            #[trigger] after[i]).0 != (#[trigger] after[j]).0 by {
                assert(before[i].0 != before[j].0);
            }
            assert forall|i: int| 0 <= i < after.len() implies (#[trigger] after[i]).1.len() > 0 by {
                if i < before.len() - 1 {
                    assert(before[i].1.len() > 0);
                }
            }
        } else {
            let single: Group = (url, seq![item.cash]);
            assert(seq![item].map_values(|p: ProofInfo| p.cash) =~= seq![item.cash]);
            assert(after =~= before.push(single));
            assert(after.drop_last() =~= before);
            assert(with_mint(single) =~= seq![(url, item.cash)]);
            assert(all_listed(after) =~= all_listed(before).push((url, item.cash)));
            assert forall|i: int, j: int| 0 <= i && j == i + 1 && j < after.len() implies (
            #[trigger] after[i]).0 != (#[trigger] after[j]).0 by {
                if j < before.len() {
                    assert(before[i].0 != before[j].0);
                }
            }
            assert forall|i: int| 0 <= i < after.len() implies (#[trigger] after[i]).1.len() > 0 by {
                if i < before.len() {
                    assert(before[i].1.len() > 0);
                }
            }
        }
    }
}

/// Adding groups puts the proofs of each mint, in order, behind those that were there.
pub proof fn law_groups_are_appended(purse: Purse, added: Seq<Group>, mint: Seq<char>)
    ensures
        purse.plus(added).held(mint) == purse.held(mint) + of_mint(all_listed(added), mint),
    decreases added.len(),
{
    if added.len() == 0 {
        assert(purse.held(mint) + of_mint(all_listed(added), mint) =~= purse.held(mint));
    } else {
        let rest = added.drop_last();
        law_groups_are_appended(purse, rest, mint);
        lemma_of_mint_concat(all_listed(rest), with_mint(added.last()), mint);
        lemma_of_mint_group(added.last(), mint);
        let before = purse.plus(rest).held(mint);
        let new = of_mint(with_mint(added.last()), mint);
        assert(purse.plus(added) == purse.plus(rest).plus_group(added.last()));
        assert(purse.plus(added).held(mint) =~= before + new);
        assert(before + new =~= purse.held(mint) + (of_mint(all_listed(rest), mint) + new));
    }
}

/// A transaction adds all proofs that were handed over for it to those of their mints: first the
/// removed ones, then the added ones.
pub proof fn law_transaction_adds_both_sides(
    purse: Purse,
    tx: TxInfo,
    added: Seq<ProofInfo>,
    removed: Seq<ProofInfo>,
    mint: Seq<char>,
)
    requires
        groups(tx.inputs@) == grouped(added),
        groups(tx.outputs@) == grouped(removed),
    ensures
        purse.plus_txs(seq![tx]).held(mint) == purse.held(mint) + of_mint(
            handed_over(removed),
            mint,
        ) + of_mint(handed_over(added), mint),
{
    assert(seq![tx].drop_last() =~= Seq::<TxInfo>::empty());
    assert(purse.plus_txs(Seq::<TxInfo>::empty()) == purse);
    law_grouping_is_lossless(added);
    law_grouping_is_lossless(removed);
    law_groups_are_appended(purse, grouped(removed), mint);
    law_groups_are_appended(purse.plus(grouped(removed)), grouped(added), mint);
}

/// Transactions can be taken in in two parts.
pub proof fn law_transactions_in_two_parts(purse: Purse, first: Seq<TxInfo>, second: Seq<TxInfo>)
    ensures
        purse.plus_txs(first + second) == purse.plus_txs(first).plus_txs(second),
    decreases second.len(),
{
    if second.len() == 0 {
        assert(first + second =~= first);
    } else {
        law_transactions_in_two_parts(purse, first, second.drop_last());
        assert((first + second).drop_last() =~= first + second.drop_last());
    }
}

/// No transaction takes a proof away: the proofs of a mint before it are the first of those after
/// it.
pub proof fn law_no_proof_is_dropped(purse: Purse, txs: Seq<TxInfo>, mint: Seq<char>)
    ensures
        purse.held(mint).is_prefix_of(purse.plus_txs(txs).held(mint)),
    decreases txs.len(),
{
    if txs.len() > 0 {
        let rest = txs.drop_last();
        law_no_proof_is_dropped(purse, rest, mint);
        let between = purse.plus_txs(rest);
        law_groups_are_appended(between, groups(txs.last().outputs@), mint);
        law_groups_are_appended(
            between.plus(groups(txs.last().outputs@)),
            groups(txs.last().inputs@),
            mint,
        );
    }
}

proof fn lemma_plus_group_wf(purse: Purse, added: Group)
    requires
        purse.wf(),
    ensures
        purse.plus_group(added).wf(),
{
    let after = purse.plus_group(added);
    if purse.proofs.contains_key(added.0) {
        assert(after.proofs.dom() =~= purse.mints.to_set());
    } else {
        assert(!purse.mints.to_set().contains(added.0));
        assert forall|m: Seq<char>| after.mints.contains(m) <==> (purse.mints.contains(m) || m
            == added.0) by {
            if purse.mints.contains(m) {
                let i = choose|i: int| 0 <= i < purse.mints.len() && purse.mints[i] == m;
                assert(after.mints[i] == m);
            }
            assert(after.mints[purse.mints.len() as int] == added.0);
        }
        assert(after.proofs.dom() =~= after.mints.to_set());
    }
}

proof fn lemma_plus_wf(purse: Purse, added: Seq<Group>)
    requires
        purse.wf(),
    ensures
        purse.plus(added).wf(),
    decreases added.len(),
{
    if added.len() > 0 {
        lemma_plus_wf(purse, added.drop_last());
        lemma_plus_group_wf(purse.plus(added.drop_last()), added.last());
    }
}

/// Whatever transactions a wallet has seen, it lists every mint once.
pub proof fn law_mints_are_listed_once(txs: Seq<TxInfo>)
    ensures
        Purse::empty().plus_txs(txs).wf(),
    decreases txs.len(),
{
    if txs.len() == 0 {
        assert(Purse::empty().proofs.dom() =~= Purse::empty().mints.to_set());
    } else {
        law_mints_are_listed_once(txs.drop_last());
        let before = Purse::empty().plus_txs(txs.drop_last());
        lemma_plus_wf(before, groups(txs.last().outputs@));
        lemma_plus_wf(before.plus(groups(txs.last().outputs@)), groups(txs.last().inputs@));
    }
}

/// Listing the proofs of a wallet mint after mint leaves none out and repeats none.
pub proof fn law_listing_is_complete(purse: Purse, mint: Seq<char>)
    requires
        purse.wf(),
    ensures
        of_mint(purse.listed(), mint) == purse.held(mint),
{
    lemma_listed_of(purse.mints, purse.proofs, mint);
    assert(purse.proofs.contains_key(mint) == purse.mints.to_set().contains(mint));
}

proof fn lemma_listed_of(
    mints: Seq<Seq<char>>,
    proofs: Map<Seq<char>, Seq<Proof>>,
    mint: Seq<char>,
)
    requires
        mints.no_duplicates(),
    ensures
        of_mint(listed_of(mints, proofs), mint) == (if mints.contains(mint) {
            proofs[mint]
        } else {
            Seq::empty()
        }),
    decreases mints.len(),
{
    if mints.len() > 0 {
        let rest = mints.drop_last();
        let last: Group = (mints.last(), proofs[mints.last()]);
        lemma_listed_of(rest, proofs, mint);
        lemma_of_mint_concat(listed_of(rest, proofs), with_mint(last), mint);
        lemma_of_mint_group(last, mint);
        assert(mints.contains(mint) <==> (rest.contains(mint) || mint == mints.last())) by {
            if mints.contains(mint) {
                let i = choose|i: int| 0 <= i < mints.len() && mints[i] == mint;
                if i < rest.len() {
                    assert(rest[i] == mint);
                }
            }
            if rest.contains(mint) {
                let i = choose|i: int| 0 <= i < rest.len() && rest[i] == mint;
                assert(mints[i] == mint);
            }
            assert(mints[mints.len() - 1] == mints.last());
        }
        if mint == mints.last() {
            assert(!rest.contains(mint));
            assert(Seq::<Proof>::empty() + proofs[mint] =~= proofs[mint]);
        } else if rest.contains(mint) {
            assert(proofs[mint] + Seq::<Proof>::empty() =~= proofs[mint]);
        } else {
            assert(Seq::<Proof>::empty() + Seq::<Proof>::empty() =~= Seq::<Proof>::empty());
        }
    }
}

} // verus!
