//! The wallet database: what it keeps in memory, what it asks the relays for, and what it makes of
//! the events that come back.

use vstd::prelude::*;

use crate::collections::{with_last, Table};
use crate::error::{Error, Fault, Nut00Error};
use crate::event::{
    distinct, is_latest, latest_event, unique_events, Event, EventId, Filter, QUOTE_KIND, TX_KIND,
    WALLET_INFO_KIND,
};
use crate::keysets::{KeysetStore, Keysets};
use crate::melt_quote::{
    find_melt_quote, melt_quote_deletions, melt_quote_reader, melt_quote_to_event,
    melt_quote_with, melt_quote_written, melt_quotes_from_events, MeltQuote, MeltQuoteView,
};
use crate::mint_quote::{
    find_mint_quote, mint_quote_deletions, mint_quote_reader, mint_quote_to_event,
    mint_quote_views, mint_quote_with, mint_quote_written, mint_quotes_from_events, MintQuote,
    MintQuoteView,
};
use crate::nuts::{
    condition_text, proof_query, CurrencyUnit, Id, KeySetInfo, Keys, Proof, ProofInfo,
    ProofInfoView, ProofQuery, PublicKey, SpendingConditions, State, UncheckedUrl,
};
use crate::proofs::{
    grouped, groups, handed_over, law_grouping_is_lossless, law_groups_are_appended,
    law_listing_is_complete, law_mints_are_listed_once, law_no_proof_is_dropped,
    law_transactions_in_two_parts, listed_of, of_mint, opened_texts, transaction_written,
    with_mint, EventProofs, Purse, TxInfo, WalletProofs,
};
use crate::quotes::{all_read, deletions, found, quote_tags};
use crate::sealing::{sealing_fault, wallet_link, WalletKeys};
use crate::tag::{tag_views, tags_json, texts, Tag, TagView, ID_LINK_TAG, ID_TAG};
use crate::wallet_info::{info_kept, info_written, WalletInfo, WalletInfoView};

verus! {

/// Wallet on Nostr
#[derive(Debug)]
pub struct WalletNostrDatabase {
    id: String,
    keys: WalletKeys,
    local: bool,
    keysets: KeysetStore,
    mint_keys: Table<Id, Keys>,
    proof_states: Table<PublicKey, State>,
}

/// A wallet database as contracts speak of it: the wallet's id and keys, whether events are kept
/// locally too, the known keysets, the keys of keysets, and the states of proofs.
#[verifier::ext_equal]
pub struct Store {
    pub id: Seq<char>,
    pub keys: WalletKeys,
    pub local: bool,
    pub keysets: Keysets,
    pub mint_keys: Map<u64, Keys>,
    pub proof_states: Map<Seq<char>, State>,
}

impl View for WalletNostrDatabase {
    type V = Store;

    closed spec fn view(&self) -> Store {
        Store {
            id: self.id@,
            keys: self.keys,
            local: self.local,
            keysets: self.keysets@,
            mint_keys: self.mint_keys@,
            proof_states: self.proof_states@,
        }
    }
}

impl Store {
    /// The database of a wallet, with nothing in memory.
    pub open spec fn new(id: Seq<char>, keys: WalletKeys, local: bool) -> Store {
        Store {
            id,
            keys,
            local,
            keysets: Keysets::empty(),
            mint_keys: Map::empty(),
            proof_states: Map::empty(),
        }
    }

    /// The state of a proof. One of which nothing is known is unspent.
    pub open spec fn state_of(self, y: Seq<char>) -> State {
        if self.proof_states.contains_key(y) {
            self.proof_states[y]
        } else {
            State::Unspent
        }
    }

    /// What is known of a proof of a mint whose secret hashes to a point. Nothing is, where its
    /// keyset is not known.
    pub open spec fn described(self, mint: Seq<char>, cash: Proof) -> Option<ProofInfoView> {
        if self.keysets.infos.contains_key(cash.keyset_id@) {
            Some(
                ProofInfoView {
                    cash,
                    y: cash.y->0@,
                    mint_url: mint,
                    state: self.state_of(cash.y->0@),
                    spending_condition: condition_text(cash.spending_condition),
                    unit: self.keysets.infos[cash.keyset_id@].unit,
                },
            )
        } else {
            None
        }
    }

    /// Of proofs that come each with its mint, what is known of those that a query asks for, in
    /// order. A secret that hashes to no point makes it fail.
    pub open spec fn chosen(
        self,
        listed: Seq<(Seq<char>, Proof)>,
        query: ProofQuery,
    ) -> Result<Seq<ProofInfoView>, Fault>
        decreases listed.len(),
    {
        if listed.len() == 0 {
            Ok(Seq::empty())
        } else {
            let (mint, cash) = listed.last();
            match self.chosen(listed.drop_last(), query) {
                Err(fault) => Err(fault),
                Ok(before) => if cash.y is None {
                    Err(Fault::Nut00(Nut00Error::NoPoint))
                } else {
                    match self.described(mint, cash) {
                        Some(info) => if info.fits(query) {
                            Ok(before.push(info))
                        } else {
                            Ok(before)
                        },
                        None => Ok(before),
                    }
                },
            }
        }
    }
}

/// Once the secret of a proof hashes to no point, the proofs behind it change nothing.
proof fn lemma_chosen_fault(
    store: Store,
    listed: Seq<(Seq<char>, Proof)>,
    query: ProofQuery,
    i: int,
)
    requires
        0 <= i <= listed.len(),
        store.chosen(listed.take(i), query) is Err,
    ensures
        store.chosen(listed, query) == store.chosen(listed.take(i), query),
    decreases listed.len() - i,
{
    if i < listed.len() {
        assert(listed.take(i + 1).drop_last() =~= listed.take(i));
        lemma_chosen_fault(store, listed, query, i + 1);
    } else {
        assert(listed.take(i) =~= listed);
    }
}

/// The proofs of the first mints come first.
proof fn lemma_listed_prefix(
    mints: Seq<Seq<char>>,
    proofs: Map<Seq<char>, Seq<Proof>>,
    i: int,
)
    requires
        0 <= i <= mints.len(),
    ensures
        listed_of(mints.take(i), proofs).is_prefix_of(listed_of(mints, proofs)),
    decreases mints.len() - i,
{
    if i < mints.len() {
        lemma_listed_prefix(mints, proofs, i + 1);
        assert(mints.take(i + 1).drop_last() =~= mints.take(i));
    } else {
        assert(mints.take(i) =~= mints);
    }
}

/// The views of a row of proofs.
pub open spec fn info_views(s: Seq<ProofInfo>) -> Seq<ProofInfoView> {
    s.map_values(|p: ProofInfo| p@)
}

impl WalletNostrDatabase {
    /// Create a new WalletNostrDatabase
    pub fn remote(id: String, keys: WalletKeys) -> (r: Self)
        ensures
            r@ == Store::new(id@, keys, false),
    {
        WalletNostrDatabase::new(id, keys, false)
    }

    /// Create a new WalletNostrDatabase with a local database
    pub fn local(id: String, keys: WalletKeys) -> (r: Self)
        ensures
            r@ == Store::new(id@, keys, true),
    {
        WalletNostrDatabase::new(id, keys, true)
    }

    fn new(id: String, keys: WalletKeys, local: bool) -> (r: Self)
        ensures
            r@ == Store::new(id@, keys, local),
    {
        WalletNostrDatabase {
            id,
            keys,
            local,
            keysets: KeysetStore::new(),
            mint_keys: Table::new(),
            proof_states: Table::new(),
        }
    }

    /// Whether events are kept locally too.
    pub fn is_local(&self) -> (r: bool)
        ensures
            r == self@.local,
    {
        self.local
    }

    /// The wallet's keys.
    pub fn keys(&self) -> (r: &WalletKeys)
        ensures
            *r == self@.keys,
    {
        &self.keys
    }

    /// Asks for the events that keep the wallet's info.
    pub fn wallet_info_filter(&self) -> (r: Filter)
        ensures
            r.kind == WALLET_INFO_KIND,
            r.tag matches Some(tag) && tag@ == seq![ID_TAG@, self@.id],
    {
        Filter {
            kind: WALLET_INFO_KIND,
            tag: Some(Tag::with_value(ID_TAG, self.id.as_str())),
        }
    }

    /// Asks for the events that keep quotes.
    pub fn quote_filter(&self) -> (r: Filter)
        ensures
            r.kind == QUOTE_KIND,
            r.tag is None,
    {
        Filter { kind: QUOTE_KIND, tag: None }
    }

    /// Asks for the events that keep the wallet's transactions, by the wallet's bare id.
    pub fn proofs_filter(&self) -> (r: Filter)
        ensures
            r.kind == TX_KIND,
            r.tag matches Some(tag) && tag@ == seq![ID_LINK_TAG@, self@.id],
    {
        Filter { kind: TX_KIND, tag: Some(Tag::with_value(ID_LINK_TAG, self.id.as_str())) }
    }

    /// Asks for the transactions that tell when the wallet was last checked.
    pub fn last_checked_filter(&self) -> (r: Filter)
        ensures
            r.kind == TX_KIND,
            r.tag matches Some(tag) && tag@ == seq![ID_TAG@, self@.id],
    {
        Filter { kind: TX_KIND, tag: Some(Tag::with_value(ID_TAG, self.id.as_str())) }
    }

    /// The wallet's info, from the latest of the events that keep it. Where there is none, it is
    /// an info that holds only the wallet's id, and comes with an event that keeps it.
    pub fn get_wallet_info(&self, events: Vec<Event>) -> (r: Result<
        (WalletInfo, Option<Event>),
        Error,
    >)
        ensures
            events@.len() == 0 ==> match r {
                Ok((info, event)) => {
                    &&& info@ == WalletInfoView::named(self@.id)
                    &&& event is Some
                    &&& info_written(self@.keys, info, Ok(event->0))
                },
                Err(e) => sealing_fault(self@.keys, tags_json(Seq::empty())) == Some(e@),
            },
            events@.len() > 0 ==> exists|i: int| #[trigger]
                is_latest(events@, i) && match r {
                    Ok((info, event)) => {
                        &&& info_kept(
                            self@.keys,
                            tag_views(events@[i].tags@),
                            events@[i].content@,
                        ) == Ok::<WalletInfoView, Fault>(info@)
                        &&& event is None
                    },
                    Err(e) => info_kept(
                        self@.keys,
                        tag_views(events@[i].tags@),
                        events@[i].content@,
                    ) == Err::<WalletInfoView, Fault>(e@),
                },
    {
        let ghost all = events@;
        match latest_event(events) {
            Some(event) => {
                let ghost i = choose|i: int| is_latest(all, i) && event == all[i];
                assert(is_latest(all, i));
                match WalletInfo::from_event(&event, &self.keys) {
                    Ok(info) => Ok((info, None)),
                    Err(e) => Err(e),
                }
            },
            None => {
                let info = WalletInfo::named(self.id.clone());
                match self.save_wallet_info(&info) {
                    Ok(event) => Ok((info, Some(event))),
                    Err(e) => Err(e),
                }
            },
        }
    }

    /// Writes the wallet's info as the event that keeps it.
    pub fn save_wallet_info(&self, info: &WalletInfo) -> (r: Result<Event, Error>)
        ensures
            info_written(self@.keys, *info, r),
    {
        info.to_event(&self.keys)
    }

    /// Adds a mint to the wallet's info, and writes the info.
    pub fn add_mint(&self, info: &mut WalletInfo, mint_url: UncheckedUrl) -> (r: Result<
        Event,
        Error,
    >)
        ensures
            final(info)@ == old(info)@.with_mint(mint_url@),
            *final(info) == (WalletInfo { mints: final(info).mints, ..*old(info) }),
            final(info).mints.order() == with_last(old(info).mints.order(), mint_url@),
            info_written(self@.keys, *final(info), r),
    {
        info.add_mint(mint_url);
        self.save_wallet_info(info)
    }

    /// Takes a mint out of the wallet's info, and writes the info.
    pub fn remove_mint(&self, info: &mut WalletInfo, mint_url: &UncheckedUrl) -> (r: Result<
        Event,
        Error,
    >)
        ensures
            final(info)@ == old(info)@.without_mint(mint_url@),
            *final(info) == (WalletInfo { mints: final(info).mints, ..*old(info) }),
            final(info).mints.order() == old(info).mints.order().remove_value(mint_url@),
            info_written(self@.keys, *final(info), r),
    {
        info.remove_mint(mint_url);
        self.save_wallet_info(info)
    }

    /// Puts one mint in the place of another in the wallet's info, and writes the info.
    pub fn update_mint_url(
        &self,
        info: &mut WalletInfo,
        old_mint_url: &UncheckedUrl,
        new_mint_url: UncheckedUrl,
    ) -> (r: Result<Event, Error>)
        ensures
            final(info)@ == old(info)@.without_mint(old_mint_url@).with_mint(new_mint_url@),
            *final(info) == (WalletInfo { mints: final(info).mints, ..*old(info) }),
            final(info).mints.order() == with_last(
                old(info).mints.order().remove_value(old_mint_url@),
                new_mint_url@,
            ),
            info_written(self@.keys, *final(info), r),
    {
        info.update_mint_url(old_mint_url, new_mint_url);
        self.save_wallet_info(info)
    }

    /// Raises the counter of a keyset in the wallet's info, and writes the info.
    pub fn increment_keyset_counter(&self, info: &mut WalletInfo, keyset_id: &Id, count: u32) -> (r:
        Result<Event, Error>)
        requires
            old(info)@.counter(keyset_id@) + count <= u32::MAX,
        ensures
            final(info)@ == old(info)@.raised(keyset_id@, count),
            *final(info) == (WalletInfo { counters: final(info).counters, ..*old(info) }),
            final(info).counters.order() == with_last(old(info).counters.order(), keyset_id@),
            info_written(self@.keys, *final(info), r),
    {
        info.increment_keyset_counter(keyset_id, count);
        self.save_wallet_info(info)
    }

    /// Takes in the keysets of a mint.
    pub fn add_mint_keysets(&mut self, mint_url: UncheckedUrl, keysets: Vec<KeySetInfo>)
        ensures
            final(self)@ == (Store {
                keysets: old(self)@.keysets.plus_all(mint_url@, keysets@),
                ..old(self)@
            }),
    {
        self.keysets.add_mint_keysets(mint_url, keysets);
    }

    /// The keysets of a mint, where it has come up.
    pub fn get_mint_keysets(&self, mint_url: &UncheckedUrl) -> (r: Option<Vec<KeySetInfo>>)
        ensures
            match r {
                Some(keysets) => {
                    &&& self@.keysets.by_mint.contains_key(mint_url@)
                    &&& keysets@ == self@.keysets.by_mint[mint_url@].map_values(
                        |id: u64| self@.keysets.infos[id],
                    )
                },
                None => !self@.keysets.by_mint.contains_key(mint_url@),
            },
    {
        self.keysets.get_mint_keysets(mint_url)
    }

    /// The info of a keyset.
    pub fn get_keyset_by_id(&self, keyset_id: &Id) -> (r: Option<KeySetInfo>)
        ensures
            r == (if self@.keysets.infos.contains_key(keyset_id@) {
                Some(self@.keysets.infos[keyset_id@])
            } else {
                None
            }),
    {
        self.keysets.get_keyset_by_id(keyset_id)
    }

    /// Writes a mint quote as the event that keeps it.
    pub fn add_mint_quote(&self, quote: &MintQuote) -> (r: Result<Event, Error>)
        ensures
            mint_quote_written(self@.keys, self@.id, quote@, r),
    {
        mint_quote_to_event(self.id.as_str(), quote, &self.keys)
    }

    /// The mint quotes that events keep, each event taken once.
    pub fn get_mint_quotes(&self, events: Vec<Event>) -> (r: Result<Vec<MintQuote>, Error>)
        ensures
            match r {
                Ok(quotes) => all_read(distinct(events@), mint_quote_reader(self@.keys)) == Ok::<
                    Seq<MintQuoteView>,
                    Fault,
                >(mint_quote_views(quotes@)),
                Err(e) => all_read(distinct(events@), mint_quote_reader(self@.keys)) == Err::<
                    Seq<MintQuoteView>,
                    Fault,
                >(e@),
            },
    {
        let events = unique_events(events);
        mint_quotes_from_events(&events, &self.keys)
    }

    /// The first mint quote that has an id.
    pub fn get_mint_quote(&self, events: Vec<Event>, quote_id: &str) -> (r: Result<
        Option<MintQuote>,
        Error,
    >)
        ensures
            found(
                all_read(distinct(events@), mint_quote_reader(self@.keys)),
                mint_quote_with(quote_id@),
            ) == (match r {
                Ok(Some(quote)) => Ok::<Option<MintQuoteView>, Fault>(Some(quote@)),
                Ok(None) => Ok(None),
                Err(e) => Err(e@),
            }),
    {
        match self.get_mint_quotes(events) {
            Ok(quotes) => Ok(find_mint_quote(quotes, quote_id)),
            Err(e) => Err(e),
        }
    }

    /// The events to delete so that a mint quote is gone, up to the first event that keeps no mint
    /// quote, and what is wrong with that one, if there is one.
    pub fn remove_mint_quote(&self, events: &Vec<Event>, quote_id: &str) -> (r: (
        Vec<EventId>,
        Result<(), Error>,
    ))
        ensures
            deletions(events@, mint_quote_reader(self@.keys), mint_quote_with(quote_id@)) == (
                r.0@.map_values(|id: EventId| id@),
                match r.1 {
                    Ok(_) => None::<Fault>,
                    Err(e) => Some(e@),
                },
            ),
    {
        mint_quote_deletions(events, quote_id, &self.keys)
    }

    /// Writes a melt quote as the event that keeps it.
    pub fn add_melt_quote(&self, quote: &MeltQuote) -> (r: Result<Event, Error>)
        ensures
            melt_quote_written(self@.keys, self@.id, quote@, r),
    {
        melt_quote_to_event(self.id.as_str(), quote, &self.keys)
    }

    /// The first melt quote that has an id, each event taken once.
    pub fn get_melt_quote(&self, events: Vec<Event>, quote_id: &str) -> (r: Result<
        Option<MeltQuote>,
        Error,
    >)
        ensures
            found(
                all_read(distinct(events@), melt_quote_reader(self@.keys)),
                melt_quote_with(quote_id@),
            ) == (match r {
                Ok(Some(quote)) => Ok::<Option<MeltQuoteView>, Fault>(Some(quote@)),
                Ok(None) => Ok(None),
                Err(e) => Err(e@),
            }),
    {
        let events = unique_events(events);
        match melt_quotes_from_events(&events, &self.keys) {
            Ok(quotes) => Ok(find_melt_quote(quotes, quote_id)),
            Err(e) => Err(e),
        }
    }

    /// The events to delete so that a melt quote is gone, up to the first event that keeps no melt
    /// quote, and what is wrong with that one, if there is one.
    pub fn remove_melt_quote(&self, events: &Vec<Event>, quote_id: &str) -> (r: (
        Vec<EventId>,
        Result<(), Error>,
    ))
        ensures
            deletions(events@, melt_quote_reader(self@.keys), melt_quote_with(quote_id@)) == (
                r.0@.map_values(|id: EventId| id@),
                match r.1 {
                    Ok(_) => None::<Fault>,
                    Err(e) => Some(e@),
                },
            ),
    {
        melt_quote_deletions(events, quote_id, &self.keys)
    }

    /// Keeps the keys of a keyset.
    pub fn add_keys(&mut self, id: Id, keys: Keys)
        ensures
            final(self)@ == (Store {
                mint_keys: old(self)@.mint_keys.insert(id@, keys),
                ..old(self)@
            }),
    {
        self.mint_keys.insert(id, keys);
    }

    /// The keys of a keyset.
    pub fn get_keys(&self, id: &Id) -> (r: Option<&Keys>)
        ensures
            r is Some <==> self@.mint_keys.contains_key(id@),
            r matches Some(keys) ==> *keys == self@.mint_keys[id@],
    {
        self.mint_keys.get(id)
    }

    /// Forgets the keys of a keyset.
    pub fn remove_keys(&mut self, id: &Id)
        ensures
            final(self)@ == (Store {
                mint_keys: old(self)@.mint_keys.remove(id@),
                ..old(self)@
            }),
    {
        self.mint_keys.remove(id);
    }

    /// Sets the state of a proof.
    pub fn set_proof_state(&mut self, y: PublicKey, state: State)
        ensures
            final(self)@ == (Store {
                proof_states: old(self)@.proof_states.insert(y@, state),
                ..old(self)@
            }),
    {
        self.proof_states.insert(y, state);
    }

    /// The JSON texts of the transactions that events keep, each event taken once, up to the first
    /// that cannot be decrypted, and what is wrong with that one, if there is one.
    pub fn transaction_texts(&self, events: Vec<Event>) -> (r: (Vec<String>, Result<(), Error>))
        ensures
            opened_texts(self@.keys, distinct(events@)) == (
                texts(r.0@),
                match r.1 {
                    Ok(_) => None::<Fault>,
                    Err(e) => Some(e@),
                },
            ),
    {
        let events = unique_events(events);
        TxInfo::texts_from_events(&events, &self.keys)
    }

    /// The proofs of one mint that a query asks for, behind those that were found before.
    fn choose_proofs(
        &self,
        group: EventProofs,
        mint_url: &Option<UncheckedUrl>,
        unit: &Option<CurrencyUnit>,
        state: &Option<Vec<State>>,
        spending_conditions: &Option<Vec<SpendingConditions>>,
        before: Vec<ProofInfo>,
        Ghost(listed): Ghost<Seq<(Seq<char>, Proof)>>,
    ) -> (r: Result<Vec<ProofInfo>, Error>)
        requires
            self@.chosen(
                listed,
                proof_query(*mint_url, *unit, *state, *spending_conditions),
            ) == Ok::<Seq<ProofInfoView>, Fault>(info_views(before@)),
        ensures
            match r {
                Ok(proofs) => self@.chosen(
                    listed + with_mint(group@),
                    proof_query(*mint_url, *unit, *state, *spending_conditions),
                ) == Ok::<Seq<ProofInfoView>, Fault>(info_views(proofs@)),
                Err(e) => self@.chosen(
                    listed + with_mint(group@),
                    proof_query(*mint_url, *unit, *state, *spending_conditions),
                ) == Err::<Seq<ProofInfoView>, Fault>(e@),
            },
    {
        let ghost query = proof_query(*mint_url, *unit, *state, *spending_conditions);
        let ghost whole = listed + with_mint(group@);
        let EventProofs { mint_url: wallet_mint_url, proofs: mint_proofs } = group;
        let ghost all = mint_proofs@;
        let mut proofs = before;
        assert(whole.take(listed.len() as int) =~= listed);
        for cash in it: mint_proofs
            invariant
                it.seq() == all,
                group@ == (wallet_mint_url@, all),
                whole == listed + with_mint(group@),
                query == proof_query(*mint_url, *unit, *state, *spending_conditions),
                self@.chosen(whole.take(listed.len() + it.index()), query) == Ok::<
                    Seq<ProofInfoView>,
                    Fault,
                >(info_views(proofs@)),
        {
            let ghost i = it.index();
            let ghost k = listed.len() + i;
            assert(whole.take(k + 1).drop_last() =~= whole.take(k));
            assert(whole.take(k + 1).last() == (wallet_mint_url@, cash));
            let proof_state = match &cash.y {
                Some(y) => match self.proof_states.get(y) {
                    Some(known) => *known,
                    None => State::Unspent,
                },
                None => {
                    proof {
                        lemma_chosen_fault(self@, whole, query, k + 1);
                    }
                    return Err(Error::Nut00(Nut00Error::NoPoint));
                },
            };
            if let Some(info) = self.get_keyset_by_id(&cash.keyset_id) {
                match ProofInfo::new(cash, wallet_mint_url.clone(), proof_state, info.unit) {
                    Ok(found_proof) => {
                        if found_proof.matches_conditions(
                            mint_url,
                            unit,
                            state,
                            spending_conditions,
                        ) {
                            let ghost earlier = info_views(proofs@);
                            proofs.push(found_proof);
                            assert(info_views(proofs@) =~= earlier.push(found_proof@));
                        }
                    },
                    Err(e) => {
                        return Err(e);
                    },
                }
            }
        }
        assert(whole.take(whole.len() as int) =~= whole);
        Ok(proofs)
    }

    /// The proofs that transactions name and that fit a query, mint after mint, with what is known
    /// of them. Proofs of unknown keysets are left out. A secret that hashes to no point makes it
    /// fail.
    pub fn get_proofs(
        &self,
        txs: Vec<TxInfo>,
        mint_url: &Option<UncheckedUrl>,
        unit: &Option<CurrencyUnit>,
        state: &Option<Vec<State>>,
        spending_conditions: &Option<Vec<SpendingConditions>>,
    ) -> (r: Result<Vec<ProofInfo>, Error>)
        ensures
            match r {
                Ok(proofs) => self@.chosen(
                    Purse::empty().plus_txs(txs@).listed(),
                    proof_query(*mint_url, *unit, *state, *spending_conditions),
                ) == Ok::<Seq<ProofInfoView>, Fault>(info_views(proofs@)),
                Err(e) => self@.chosen(
                    Purse::empty().plus_txs(txs@).listed(),
                    proof_query(*mint_url, *unit, *state, *spending_conditions),
                ) == Err::<Seq<ProofInfoView>, Fault>(e@),
            },
    {
        let ghost query = proof_query(*mint_url, *unit, *state, *spending_conditions);
        let wallet_proofs = WalletProofs::from(txs);
        let ghost purse = wallet_proofs@;
        let mint_groups = wallet_proofs.into_groups();
        let ghost all = mint_groups@;
        let mut proofs: Vec<ProofInfo> = Vec::new();
        assert(info_views(proofs@) =~= Seq::empty());
        for group in it: mint_groups
            invariant
                it.seq() == all,
                query == proof_query(*mint_url, *unit, *state, *spending_conditions),
                purse == Purse::empty().plus_txs(txs@),
                groups(all) == Seq::new(
                    purse.mints.len(),
                    |i: int| (purse.mints[i], purse.proofs[purse.mints[i]]),
                ),
                self@.chosen(listed_of(purse.mints.take(it.index()), purse.proofs), query) == Ok::<
                    Seq<ProofInfoView>,
                    Fault,
                >(info_views(proofs@)),
        {
            let ghost i = it.index();
            let ghost before = listed_of(purse.mints.take(i), purse.proofs);
            assert(groups(all)[i] == group@);
            assert(groups(all).len() == purse.mints.len());
            assert(purse.mints.take(i + 1).drop_last() =~= purse.mints.take(i));
            assert(listed_of(purse.mints.take(i + 1), purse.proofs) == before + with_mint(group@));
            match self.choose_proofs(
                group,
                mint_url,
                unit,
                state,
                spending_conditions,
                proofs,
                Ghost(before),
            ) {
                Ok(more) => {
                    proofs = more;
                },
                Err(e) => {
                    proof {
                        let listed = purse.listed();
                        let after = before + with_mint(group@);
                        lemma_listed_prefix(purse.mints, purse.proofs, i + 1);
                        assert(listed.take(after.len() as int) =~= after);
                        lemma_chosen_fault(self@, listed, query, after.len() as int);
                    }
                    return Err(e);
                },
            }
        }
        assert(groups(all).len() == purse.mints.len());
        assert(purse.mints.take(purse.mints.len() as int) =~= purse.mints);
        Ok(proofs)
    }

    /// Writes a transaction, given as its JSON text, as the event that keeps it.
    pub fn update_proofs(&self, json: &str) -> (r: Result<Event, Error>)
        ensures
            transaction_written(self@.keys, self@.id, json@, r),
    {
        TxInfo::to_event(json, self.id.as_str(), &self.keys)
    }

    /// When the latest of some events was made, in seconds of UNIX time, of which the lower 32
    /// bits are given.
    pub fn get_nostr_last_checked(&self, events: Vec<Event>) -> (r: Option<u32>)
        ensures
            match r {
                Some(time) => exists|i: int| #[trigger]
                    is_latest(events@, i) && time == events@[i].created_at % 0x1_0000_0000,
                None => events@.len() == 0,
            },
    {
        let ghost all = events@;
        match latest_event(events) {
            Some(event) => {
                let ghost i = choose|i: int| is_latest(all, i) && event == all[i];
                assert(is_latest(all, i));
                let time: u64 = event.created_at;
                assert(time as u32 == time % 0x1_0000_0000) by (bit_vector);
                Some(#[verifier::truncate] (time as u32))
            },
            None => None,
        }
    }
}

/// A proof of which nothing was said is unspent. Setting the state of a proof gives it that state
/// and leaves the states of other proofs alone.
pub proof fn law_proof_states(store: Store, y: Seq<char>, state: State, other: Seq<char>)
    ensures
        Store::new(store.id, store.keys, store.local).state_of(y) is Unspent,
        ({
            let after = Store { proof_states: store.proof_states.insert(y, state), ..store };
            &&& after.state_of(y) == state
            &&& other != y ==> after.state_of(other) == store.state_of(other)
        }),
{
}

/// The keys of a keyset are there from when they are added until they are removed, and adding or
/// removing them leaves those of other keysets alone.
pub proof fn law_keys_kept_until_removed(kept: Map<u64, Keys>, id: u64, keys: Keys, other: u64)
    ensures
        kept.insert(id, keys).contains_key(id),
        kept.insert(id, keys)[id] == keys,
        !kept.remove(id).contains_key(id),
        kept.insert(id, keys).remove(id) == kept.remove(id),
        other != id ==> {
            &&& kept.insert(id, keys).contains_key(other) == kept.contains_key(other)
            &&& kept.remove(id).contains_key(other) == kept.contains_key(other)
            &&& kept.contains_key(other) ==> kept.insert(id, keys)[other] == kept[other]
            &&& kept.contains_key(other) ==> kept.remove(id)[other] == kept[other]
        },
{
    assert(kept.insert(id, keys).remove(id) =~= kept.remove(id));
}

/// Asking for proofs fails exactly when the secret of one of them hashes to no point, and then for
/// that reason.
pub proof fn law_proofs_need_points(
    store: Store,
    listed: Seq<(Seq<char>, Proof)>,
    query: ProofQuery,
)
    ensures
        store.chosen(listed, query) is Ok <==> forall|i: int|
            0 <= i < listed.len() ==> (#[trigger] listed[i]).1.y is Some,
        store.chosen(listed, query) matches Err(fault) ==> fault == Fault::Nut00(
            Nut00Error::NoPoint,
        ),
    decreases listed.len(),
{
    if listed.len() > 0 {
        let rest = listed.drop_last();
        law_proofs_need_points(store, rest, query);
        if forall|i: int| 0 <= i < listed.len() ==> (#[trigger] listed[i]).1.y is Some {
            assert forall|i: int| 0 <= i < rest.len() implies (#[trigger] rest[i]).1.y is Some by {
                assert(listed[i].1.y is Some);
            }
            assert(listed[listed.len() - 1].1.y is Some);
        }
        if store.chosen(listed, query) is Ok {
            assert forall|i: int| 0 <= i < listed.len() implies (
            #[trigger] listed[i]).1.y is Some by {
                if i < rest.len() {
                    assert(rest[i].1.y is Some);
                }
            }
        }
    }
}

/// Every proof that is handed out fits the query and is one of those that were listed, and every
/// listed proof of a known keyset that fits the query is handed out.
pub proof fn law_proofs_fit_the_query(
    store: Store,
    listed: Seq<(Seq<char>, Proof)>,
    query: ProofQuery,
    info: ProofInfoView,
)
    ensures
        store.chosen(listed, query) matches Ok(proofs) ==> (proofs.contains(info) <==> (info.fits(
            query,
        ) && exists|i: int|
            0 <= i < listed.len() && #[trigger] store.described(listed[i].0, listed[i].1) == Some(
                info,
            ))),
    decreases listed.len(),
{
    if listed.len() > 0 && store.chosen(listed, query) is Ok {
        let rest = listed.drop_last();
        law_proofs_fit_the_query(store, rest, query, info);
        let proofs = store.chosen(listed, query)->Ok_0;
        let before = store.chosen(rest, query)->Ok_0;
        let last = store.described(listed.last().0, listed.last().1);
        assert(proofs.contains(info) <==> (before.contains(info) || (last == Some(info)
            && info.fits(query)))) by {
            if before.contains(info) {
                let j = choose|j: int| 0 <= j < before.len() && before[j] == info;
                assert(proofs[j] == info);
            }
            if last == Some(info) && info.fits(query) {
                assert(proofs[before.len() as int] == info);
            }
        }
        assert((exists|i: int|
            0 <= i < listed.len() && #[trigger] store.described(listed[i].0, listed[i].1) == Some(
                info,
            )) <==> ((exists|i: int|
            0 <= i < rest.len() && #[trigger] store.described(rest[i].0, rest[i].1) == Some(info))
            || last == Some(info))) by {
            if exists|i: int|
                0 <= i < listed.len() && #[trigger] store.described(listed[i].0, listed[i].1)
                    == Some(info) {
                let i = choose|i: int|
                    0 <= i < listed.len() && #[trigger] store.described(listed[i].0, listed[i].1)
                        == Some(info);
                if i < rest.len() {
                    assert(store.described(rest[i].0, rest[i].1) == Some(info));
                }
            }
            if exists|i: int|
                0 <= i < rest.len() && #[trigger] store.described(rest[i].0, rest[i].1) == Some(
                    info,
                ) {
                let i = choose|i: int|
                    0 <= i < rest.len() && #[trigger] store.described(rest[i].0, rest[i].1) == Some(
                        info,
                    );
                assert(store.described(listed[i].0, listed[i].1) == Some(info));
            }
            assert(store.described(
                listed[listed.len() - 1].0,
                listed[listed.len() - 1].1,
            ) == last);
        }
    }
}

proof fn lemma_of_mint_contains(
    listed: Seq<(Seq<char>, Proof)>,
    mint: Seq<char>,
    cash: Proof,
)
    ensures
        of_mint(listed, mint).contains(cash) <==> listed.contains((mint, cash)),
    decreases listed.len(),
{
    if listed.len() > 0 {
        let rest = listed.drop_last();
        lemma_of_mint_contains(rest, mint, cash);
        let before = of_mint(rest, mint);
        let after = of_mint(listed, mint);
        let last = listed.last();
        assert(listed.contains((mint, cash)) <==> (rest.contains((mint, cash)) || last == (
            mint,
            cash,
        ))) by {
            if listed.contains((mint, cash)) {
                let i = choose|i: int| 0 <= i < listed.len() && listed[i] == (mint, cash);
                if i < rest.len() {
                    assert(rest[i] == (mint, cash));
                }
            }
            if rest.contains((mint, cash)) {
                let i = choose|i: int| 0 <= i < rest.len() && rest[i] == (mint, cash);
                assert(listed[i] == (mint, cash));
            }
            assert(listed[listed.len() - 1] == last);
        }
        assert(after.contains(cash) <==> (before.contains(cash) || last == (mint, cash))) by {
            if before.contains(cash) {
                let i = choose|i: int| 0 <= i < before.len() && before[i] == cash;
                assert(after[i] == cash);
            }
            if last == (mint, cash) {
                assert(after[before.len() as int] == cash);
            }
            if after.contains(cash) {
                let i = choose|i: int| 0 <= i < after.len() && after[i] == cash;
                if i < before.len() {
                    assert(before[i] == cash);
                }
            }
        }
    }
}

/// Every proof that was handed over for a transaction, whether as added or as removed, is listed
/// once the transaction is taken in, whatever other transactions there are. Where its keyset is
/// known and it fits the query, it is handed out.
pub proof fn law_every_proof_is_found(
    store: Store,
    txs: Seq<TxInfo>,
    t: int,
    added: Seq<ProofInfo>,
    removed: Seq<ProofInfo>,
    item: ProofInfo,
    query: ProofQuery,
)
    requires
        0 <= t < txs.len(),
        groups(txs[t].inputs@) == grouped(added),
        groups(txs[t].outputs@) == grouped(removed),
        added.contains(item) || removed.contains(item),
    ensures
        Purse::empty().plus_txs(txs).listed().contains((item.mint_url@, item.cash)),
        store.chosen(Purse::empty().plus_txs(txs).listed(), query) matches Ok(proofs) ==> (
        store.described(item.mint_url@, item.cash) matches Some(info) ==> (info.fits(query)
            ==> proofs.contains(info))),
{
    let mint = item.mint_url@;
    let cash = item.cash;
    let before = Purse::empty().plus_txs(txs.take(t));
    let after = Purse::empty().plus_txs(txs.take(t + 1));
    let whole = Purse::empty().plus_txs(txs);
    assert(txs.take(t + 1).drop_last() =~= txs.take(t));
    assert(after == before.plus(grouped(removed)).plus(grouped(added)));
    law_grouping_is_lossless(added);
    law_grouping_is_lossless(removed);
    law_groups_are_appended(before, grouped(removed), mint);
    law_groups_are_appended(before.plus(grouped(removed)), grouped(added), mint);
    lemma_of_mint_contains(handed_over(added), mint, cash);
    lemma_of_mint_contains(handed_over(removed), mint, cash);
    let r = of_mint(handed_over(removed), mint);
    let a = of_mint(handed_over(added), mint);
    let held = after.held(mint);
    assert(held == before.held(mint) + r + a);
    assert(held.contains(cash)) by {
        if added.contains(item) {
            let i = choose|i: int| 0 <= i < added.len() && added[i] == item;
            assert(handed_over(added)[i] == (mint, cash));
            let j = choose|j: int| 0 <= j < a.len() && a[j] == cash;
            assert(held[before.held(mint).len() + r.len() + j] == cash);
        } else {
            let i = choose|i: int| 0 <= i < removed.len() && removed[i] == item;
            assert(handed_over(removed)[i] == (mint, cash));
            let j = choose|j: int| 0 <= j < r.len() && r[j] == cash;
            assert(held[before.held(mint).len() + j] == cash);
        }
    }
    assert(txs =~= txs.take(t + 1) + txs.skip(t + 1));
    law_transactions_in_two_parts(Purse::empty(), txs.take(t + 1), txs.skip(t + 1));
    law_no_proof_is_dropped(after, txs.skip(t + 1), mint);
    assert(whole.held(mint).contains(cash)) by {
        let j = choose|j: int| 0 <= j < held.len() && held[j] == cash;
        assert(whole.held(mint)[j] == cash);
    }
    law_mints_are_listed_once(txs);
    law_listing_is_complete(whole, mint);
    let listed = whole.listed();
    lemma_of_mint_contains(listed, mint, cash);
    if store.chosen(listed, query) is Ok && store.described(mint, cash) is Some {
        let info = store.described(mint, cash)->0;
        law_proofs_fit_the_query(store, listed, query, info);
        let k = choose|k: int| 0 <= k < listed.len() && listed[k] == (mint, cash);
        assert(store.described(listed[k].0, listed[k].1) == Some(info));
    }
}

/// The filter for the wallet's info selects the events in which the info is written.
pub proof fn law_info_is_found(filter: Filter, id: Seq<char>)
    requires
        filter.kind == WALLET_INFO_KIND,
        filter.tag matches Some(tag) && tag@ == seq![ID_TAG@, id],
    ensures
        filter.selects(WALLET_INFO_KIND, seq![seq![ID_TAG@, id]]),
{
    let tags: Seq<TagView> = seq![seq![ID_TAG@, id]];
    assert(tags[0] == seq![ID_TAG@, id]);
}

/// The filter for quotes selects the events in which quotes are written, of any wallet.
pub proof fn law_quotes_are_found(
    filter: Filter,
    id: Seq<char>,
    public_key: Seq<char>,
    expiry: u64,
)
    requires
        filter.kind == QUOTE_KIND,
        filter.tag is None,
    ensures
        filter.selects(QUOTE_KIND, quote_tags(id, public_key, expiry)),
{
}

/// Transactions are linked to the wallet by more than its id: a filter that asks for the bare id
/// selects none of the events in which the wallet writes its transactions.
pub proof fn law_bare_id_selects_no_transaction(
    filter: Filter,
    name: Seq<char>,
    id: Seq<char>,
    public_key: Seq<char>,
)
    requires
        filter.tag matches Some(tag) && tag@ == seq![name, id],
    ensures
        !filter.selects(TX_KIND, seq![seq![ID_LINK_TAG@, wallet_link(id, public_key)]]),
{
    let link: TagView = seq![ID_LINK_TAG@, wallet_link(id, public_key)];
    let tags = seq![link];
    reveal_strlit(":");
    assert(wallet_link(id, public_key).len() > id.len());
    assert forall|i: int| 0 <= i < tags.len() implies (#[trigger] tags[i]) == link by {}
}

} // verus!
