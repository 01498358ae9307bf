//! What a wallet knows of itself, and the event that keeps it.

use vstd::prelude::*;

use crate::collections::{lemma_table_keys, with_last, KeySet, Table};
use crate::error::{outcome, Error, Fault};
use crate::event::{Event, WALLET_INFO_KIND};
use crate::nuts::{
    id_of_text, id_text, is_id, law_id_round_trip, Amount, CurrencyUnit, Id, UncheckedUrl,
};
use crate::sealing::{
    authored, open_tags, opened_tags, seal, sealing_fault, SecretKey, WalletKeys,
};
use crate::tag::{
    all_named, fold_tags, lemma_fold_concat, lemma_fold_fault, lemma_fold_one, lemma_tag_names,
    required_content, tag_views, tags_json, tags_to_json, Tag, TagView, BALANCE_TAG, COUNTER_TAG,
    DESCRIPTION_TAG, ID_TAG, MINT_TAG, NAME_TAG, PRIVKEY_TAG, RELAY_TAG, UNIT_TAG,
};
use crate::text::{
    decimal, decimal_text, law_decimal_round_trip, parse_decimal, parse_number, same_text,
};

verus! {

/// Wallet info
#[derive(Debug)]
pub struct WalletInfo {
    /// Wallet id
    pub id: String,
    /// Saved balance
    pub balance: Option<Amount>,
    /// List of mints
    pub mints: KeySet<UncheckedUrl>,
    /// Name
    pub name: Option<String>,
    /// Currency unit
    pub unit: Option<CurrencyUnit>,
    /// Description
    pub description: Option<String>,
    /// List of relays
    pub relays: KeySet<UncheckedUrl>,
    /// NIP-61 private key
    pub p2pk_priv_key: Option<SecretKey>,
    /// Key index counter
    pub counters: Table<Id, u32>,
}

/// Wallet info as contracts speak of it.
#[verifier::ext_equal]
pub struct WalletInfoView {
    pub id: Seq<char>,
    pub balance: Option<u64>,
    pub mints: Set<Seq<char>>,
    pub name: Option<Seq<char>>,
    pub unit: Option<CurrencyUnit>,
    pub description: Option<Seq<char>>,
    pub relays: Set<Seq<char>>,
    pub p2pk_priv_key: Option<Seq<char>>,
    pub counters: Map<u64, u32>,
}

/// The view of a value that may be missing.
pub open spec fn optional<T: View>(o: Option<T>) -> Option<T::V> {
    match o {
        Some(v) => Some(v@),
        None => None,
    }
}

impl View for WalletInfo {
    type V = WalletInfoView;

    open spec fn view(&self) -> WalletInfoView {
        WalletInfoView {
            id: self.id@,
            balance: match self.balance {
                Some(amount) => Some(amount.value),
                None => None,
            },
            mints: self.mints@,
            name: optional(self.name),
            unit: self.unit,
            description: optional(self.description),
            relays: self.relays@,
            p2pk_priv_key: optional(self.p2pk_priv_key),
            counters: self.counters@,
        }
    }
}

impl Clone for WalletInfo {
    fn clone(&self) -> (r: Self)
        ensures
            r@ == self@,
            r.content() == self.content(),
    {
        WalletInfo {
            id: self.id.clone(),
            balance: self.balance,
            mints: self.mints.clone(),
            name: self.name.clone(),
            unit: self.unit,
            description: self.description.clone(),
            relays: self.relays.clone(),
            p2pk_priv_key: match &self.p2pk_priv_key {
                Some(key) => Some(SecretKey { text: key.text.clone() }),
                None => None,
            },
            counters: self.counters.clone(),
        }
    }
}

impl WalletInfoView {
    /// The info of a wallet of which nothing but its id is known.
    pub open spec fn named(id: Seq<char>) -> WalletInfoView {
        WalletInfoView {
            id,
            balance: None,
            mints: Set::empty(),
            name: None,
            unit: None,
            description: None,
            relays: Set::empty(),
            p2pk_priv_key: None,
            counters: Map::empty(),
        }
    }

    /// Takes in what a tag says. Tags of other names say nothing.
    pub open spec fn with_tag(self, tag: TagView) -> Result<WalletInfoView, Fault> {
        let kind = tag[0];
        if kind == MINT_TAG@ {
            match required_content(tag) {
                Ok(text) => Ok(WalletInfoView { mints: self.mints.insert(text), ..self }),
                Err(fault) => Err(fault),
            }
        } else if kind == RELAY_TAG@ {
            match required_content(tag) {
                Ok(text) => Ok(WalletInfoView { relays: self.relays.insert(text), ..self }),
                Err(fault) => Err(fault),
            }
        } else if kind == UNIT_TAG@ {
            match required_content(tag) {
                Ok(text) => match CurrencyUnit::named(text) {
                    Ok(unit) => Ok(WalletInfoView { unit: Some(unit), ..self }),
                    Err(fault) => Err(fault),
                },
                Err(fault) => Err(fault),
            }
        } else if kind == NAME_TAG@ {
            match required_content(tag) {
                Ok(text) => Ok(WalletInfoView { name: Some(text), ..self }),
                Err(fault) => Err(fault),
            }
        } else if kind == DESCRIPTION_TAG@ {
            match required_content(tag) {
                Ok(text) => Ok(WalletInfoView { description: Some(text), ..self }),
                Err(fault) => Err(fault),
            }
        } else if kind == BALANCE_TAG@ {
            match required_content(tag) {
                Ok(text) => match parse_decimal(text, u64::MAX as nat) {
                    Ok(balance) => Ok(WalletInfoView { balance: Some(balance as u64), ..self }),
                    Err(cause) => Err(Fault::ParseInt(cause)),
                },
                Err(fault) => Err(fault),
            }
        } else if kind == PRIVKEY_TAG@ {
            match required_content(tag) {
                Ok(text) => match SecretKey::read(text) {
                    Ok(key) => Ok(WalletInfoView { p2pk_priv_key: Some(key), ..self }),
                    Err(fault) => Err(fault),
                },
                Err(fault) => Err(fault),
            }
        } else if kind == COUNTER_TAG@ {
            match required_content(tag) {
                Ok(text) => match id_of_text(text) {
                    Ok(id) => match parse_decimal(tag.last(), u32::MAX as nat) {
                        Ok(counter) => Ok(
                            WalletInfoView {
                                counters: self.counters.insert(id, counter as u32),
                                ..self
                            },
                        ),
                        Err(cause) => Err(Fault::ParseInt(cause)),
                    },
                    Err(fault) => Err(fault),
                },
                Err(fault) => Err(fault),
            }
        } else {
            Ok(self)
        }
    }

    pub open spec fn step() -> spec_fn(WalletInfoView, TagView) -> Result<WalletInfoView, Fault> {
        |info: WalletInfoView, tag: TagView| info.with_tag(tag)
    }

    /// Takes in what tags say, one after the other, up to the first that cannot be read.
    pub open spec fn with_tags(self, tags: Seq<TagView>) -> Result<WalletInfoView, Fault> {
        fold_tags(self, tags, WalletInfoView::step())
    }

    /// The counter of a keyset, which begins at zero.
    pub open spec fn counter(self, id: u64) -> u32 {
        if self.counters.contains_key(id) {
            self.counters[id]
        } else {
            0
        }
    }

    /// The info with a mint more.
    pub open spec fn with_mint(self, mint: Seq<char>) -> WalletInfoView {
        WalletInfoView { mints: self.mints.insert(mint), ..self }
    }

    /// The info without a mint.
    pub open spec fn without_mint(self, mint: Seq<char>) -> WalletInfoView {
        WalletInfoView { mints: self.mints.remove(mint), ..self }
    }

    /// The info with the counter of a keyset raised.
    pub open spec fn raised(self, id: u64, count: u32) -> WalletInfoView {
        WalletInfoView {
            counters: self.counters.insert(id, (self.counter(id) + count) as u32),
            ..self
        }
    }

    /// What is kept of the info when it is written: the secret key is not, and the unit only
    /// beside a balance.
    pub open spec fn kept(self) -> WalletInfoView {
        WalletInfoView {
            unit: if self.balance is Some {
                self.unit
            } else {
                None
            },
            p2pk_priv_key: None,
            ..self
        }
    }
}

/// The first tag of a name.
pub open spec fn first_of_kind(tags: Seq<TagView>, kind: Seq<char>) -> Option<TagView>
    decreases tags.len(),
{
    if tags.len() == 0 {
        None
    } else if tags[0][0] == kind {
        Some(tags[0])
    } else {
        first_of_kind(tags.drop_first(), kind)
    }
}

/// The id of the wallet that tags belong to: the value of the first `d` tag.
pub open spec fn wallet_id_of(tags: Seq<TagView>) -> Result<Seq<char>, Fault> {
    match first_of_kind(tags, ID_TAG@) {
        Some(tag) => required_content(tag),
        None => Err(Fault::TagNotFound(ID_TAG@)),
    }
}

/// The wallet info that an event with these tags and this content keeps.
pub open spec fn info_kept(
    keys: WalletKeys,
    tags: Seq<TagView>,
    payload: Seq<char>,
) -> Result<WalletInfoView, Fault> {
    match wallet_id_of(tags) {
        Ok(id) => match opened_tags(keys, payload) {
            Ok(content) => WalletInfoView::named(id).with_tags(tags + content),
            Err(fault) => Err(fault),
        },
        Err(fault) => Err(fault),
    }
}

/// The tags of a balance.
pub open spec fn balance_tags(balance: Option<Amount>, unit: Option<CurrencyUnit>) -> Seq<TagView> {
    match (balance, unit) {
        (Some(amount), Some(unit)) => seq![
            seq![BALANCE_TAG@, decimal(amount.value as nat), unit.name()],
            seq![UNIT_TAG@, unit.name()],
        ],
        (Some(amount), None) => seq![seq![BALANCE_TAG@, decimal(amount.value as nat)]],
        (None, _) => Seq::empty(),
    }
}

/// The tag of a text, where there is one.
pub open spec fn text_tags(kind: Seq<char>, text: Option<Seq<char>>) -> Seq<TagView> {
    match text {
        Some(t) => seq![seq![kind, t]],
        None => Seq::empty(),
    }
}

/// One tag of a name for each text.
pub open spec fn list_tags(kind: Seq<char>, list: Seq<Seq<char>>) -> Seq<TagView> {
    list.map_values(|t: Seq<char>| seq![kind, t])
}

/// One tag for each counter.
pub open spec fn counter_tags(order: Seq<u64>, counters: Map<u64, u32>) -> Seq<TagView> {
    order.map_values(|id: u64| seq![COUNTER_TAG@, id_text(id), decimal(counters[id] as nat)])
}

impl WalletInfo {
    /// The tags that the content of the wallet's event consists of.
    pub open spec fn content(self) -> Seq<TagView> {
        balance_tags(self.balance, self.unit) + list_tags(MINT_TAG@, self.mints.order())
            + text_tags(NAME_TAG@, optional(self.name)) + text_tags(
            DESCRIPTION_TAG@,
            optional(self.description),
        ) + list_tags(RELAY_TAG@, self.relays.order()) + counter_tags(
            self.counters.order(),
            self.counters@,
        )
    }

    /// The info of a wallet of which nothing but its id is known.
    pub fn named(id: String) -> (r: WalletInfo)
        ensures
            r@ == WalletInfoView::named(id@),
            r.content() == Seq::<TagView>::empty(),
    {
        let r = WalletInfo {
            id,
            balance: None,
            mints: KeySet::new(),
            name: None,
            unit: None,
            description: None,
            relays: KeySet::new(),
            p2pk_priv_key: None,
            counters: Table::new(),
        };
        assert(r.content() =~= Seq::empty());
        r
    }

    /// Takes in what a tag says.
    fn apply_tag(&mut self, tag: &Tag) -> (r: Result<(), Error>)
        ensures
            match r {
                Ok(_) => old(self)@.with_tag(tag@) == Ok::<WalletInfoView, Fault>(final(self)@),
                Err(e) => old(self)@.with_tag(tag@) == Err::<WalletInfoView, Fault>(e@),
            },
    {
        let kind = tag.kind();
        if same_text(kind, MINT_TAG) {
            let text = match tag.require_content() {
                Ok(text) => text,
                Err(e) => {
                    return Err(e);
                },
            };
            self.mints.insert(UncheckedUrl::from_str(text));
        } else if same_text(kind, RELAY_TAG) {
            let text = match tag.require_content() {
                Ok(text) => text,
                Err(e) => {
                    return Err(e);
                },
            };
            self.relays.insert(UncheckedUrl::from_str(text));
        } else if same_text(kind, UNIT_TAG) {
            let text = match tag.require_content() {
                Ok(text) => text,
                Err(e) => {
                    return Err(e);
                },
            };
            match CurrencyUnit::from_str(text) {
                Ok(unit) => {
                    self.unit = Some(unit);
                },
                Err(e) => {
                    return Err(e);
                },
            }
        } else if same_text(kind, NAME_TAG) {
            match tag.require_content() {
                Ok(text) => {
                    self.name = Some(text.to_owned());
                },
                Err(e) => {
                    return Err(e);
                },
            }
        } else if same_text(kind, DESCRIPTION_TAG) {
            match tag.require_content() {
                Ok(text) => {
                    self.description = Some(text.to_owned());
                },
                Err(e) => {
                    return Err(e);
                },
            }
        } else if same_text(kind, BALANCE_TAG) {
            let text = match tag.require_content() {
                Ok(text) => text,
                Err(e) => {
                    return Err(e);
                },
            };
            match parse_number(text, u64::MAX) {
                Ok(value) => {
                    self.balance = Some(Amount { value });
                },
                Err(cause) => {
                    return Err(Error::ParseInt(cause));
                },
            }
        } else if same_text(kind, PRIVKEY_TAG) {
            let text = match tag.require_content() {
                Ok(text) => text,
                Err(e) => {
                    return Err(e);
                },
            };
            match SecretKey::from_str(text) {
                Ok(key) => {
                    self.p2pk_priv_key = Some(key);
                },
                Err(e) => {
                    return Err(e);
                },
            }
        } else if same_text(kind, COUNTER_TAG) {
            let text = match tag.require_content() {
                Ok(text) => text,
                Err(e) => {
                    return Err(e);
                },
            };
            let id = match Id::from_str(text) {
                Ok(id) => id,
                Err(e) => {
                    return Err(e);
                },
            };
            match parse_number(tag.last(), u32::MAX as u64) {
                Ok(counter) => {
                    self.counters.insert(id, counter as u32);
                },
                Err(cause) => {
                    return Err(Error::ParseInt(cause));
                },
            }
        }
        Ok(())
    }

    /// Takes in what tags say, up to the first that cannot be read.
    fn apply_tags(&mut self, tags: &Vec<Tag>) -> (r: Result<(), Error>)
        ensures
            match r {
                Ok(_) => old(self)@.with_tags(tag_views(tags@)) == Ok::<WalletInfoView, Fault>(
                    final(self)@,
                ),
                Err(e) => old(self)@.with_tags(tag_views(tags@)) == Err::<WalletInfoView, Fault>(
                    e@,
                ),
            },
    {
        let ghost views = tag_views(tags@);
        let ghost before = self@;
        for i in 0..tags.len()
            invariant
                views == tag_views(tags@),
                before == old(self)@,
                before.with_tags(views.take(i as int)) == Ok::<WalletInfoView, Fault>(self@),
        {
            assert(views.take(i + 1).drop_last() =~= views.take(i as int));
            assert(views.take(i + 1).last() == tags@[i as int]@);
            match self.apply_tag(&tags[i]) {
                Ok(_) => {},
                Err(e) => {
                    proof {
                        lemma_fold_fault(before, views, WalletInfoView::step(), i + 1);
                    }
                    return Err(e);
                },
            }
        }
        assert(views.take(views.len() as int) =~= views);
        Ok(())
    }

    /// The info of the wallet of an id that the tags of an event and those of its content give.
    pub fn from_tags(id: String, tags: &Vec<Tag>, content: &Vec<Tag>) -> (r: Result<
        WalletInfo,
        Error,
    >)
        ensures
            outcome(r) == WalletInfoView::named(id@).with_tags(
                tag_views(tags@) + tag_views(content@),
            ),
    {
        let mut info = WalletInfo::named(id);
        proof {
            lemma_fold_concat(info@, tag_views(tags@), tag_views(content@), WalletInfoView::step());
        }
        match info.apply_tags(tags) {
            Ok(_) => {},
            Err(e) => {
                return Err(e);
            },
        }
        match info.apply_tags(content) {
            Ok(_) => Ok(info),
            Err(e) => Err(e),
        }
    }

    /// Reads the info of a wallet from the event that keeps it.
    pub fn from_event(event: &Event, keys: &WalletKeys) -> (r: Result<WalletInfo, Error>)
        ensures
            outcome(r) == info_kept(*keys, tag_views(event.tags@), event.content@),
    {
        let id = match find_wallet_id(&event.tags) {
            Ok(id) => id,
            Err(e) => {
                return Err(e);
            },
        };
        match open_tags(event.content.as_str(), keys) {
            Ok(content) => WalletInfo::from_tags(id, &event.tags, &content),
            Err(e) => Err(e),
        }
    }

    /// The tags that the content of the wallet's event consists of. No mint, relay or counter is
    /// among them twice.
    pub fn content_tags(&self) -> (r: Vec<Tag>)
        ensures
            tag_views(r@) == self.content(),
            self.mints.order().no_duplicates(),
            self.relays.order().no_duplicates(),
            self.counters.order().no_duplicates(),
            forall|i: int| 0 <= i < self.counters.order().len() ==> is_id(self.counters.order()[i]),
    {
        let mut content: Vec<Tag> = Vec::new();
        if let Some(balance) = &self.balance {
            let text = decimal_text(balance.value);
            if let Some(unit) = &self.unit {
                content.push(
                    Tag::with_values(BALANCE_TAG, text.as_str(), unit.to_string().as_str()),
                );
                content.push(Tag::with_value(UNIT_TAG, unit.to_string().as_str()));
            } else {
                content.push(Tag::with_value(BALANCE_TAG, text.as_str()));
            }
        }
        assert(tag_views(content@) =~= balance_tags(self.balance, self.unit));
        push_list(&mut content, MINT_TAG, &self.mints);
        push_text(&mut content, NAME_TAG, &self.name);
        push_text(&mut content, DESCRIPTION_TAG, &self.description);
        push_list(&mut content, RELAY_TAG, &self.relays);
        let ghost before = tag_views(content@);
        let ghost all = counter_tags(self.counters.order(), self.counters@);
        let count: usize = self.counters.len();
        for i in 0..count
            invariant
                count == self.counters.order().len(),
                self.mints.order().no_duplicates(),
                self.relays.order().no_duplicates(),
                self.counters.order().no_duplicates(),
                all == counter_tags(self.counters.order(), self.counters@),
                tag_views(content@) == before + all.take(i as int),
                forall|j: int| 0 <= j < i ==> is_id(self.counters.order()[j]),
        {
            let (id, counter) = self.counters.entry(i);
            let ghost earlier = tag_views(content@);
            content.push(
                Tag::with_values(
                    COUNTER_TAG,
                    id.to_string().as_str(),
                    decimal_text(*counter as u64).as_str(),
                ),
            );
            assert(tag_views(content@) =~= earlier.push(all[i as int]));
            assert(tag_views(content@) =~= before + all.take(i + 1));
        }
        assert(all.take(all.len() as int) =~= all);
        content
    }
}

/// Whether a result is what writing the info of a wallet gives: an event that keeps it and from
/// which what is kept of it can be read, or what stands in the way of encrypting it.
pub open spec fn info_written(keys: WalletKeys, info: WalletInfo, r: Result<Event, Error>) -> bool {
    match r {
        Ok(event) => {
            &&& sealing_fault(keys, tags_json(info.content())) is None
            &&& event.kind == WALLET_INFO_KIND
            &&& tag_views(event.tags@) == seq![seq![ID_TAG@, info.id@]]
            &&& opened_tags(keys, event.content@) == Ok::<Seq<TagView>, Fault>(info.content())
            &&& authored(keys, event)
            &&& info_kept(keys, tag_views(event.tags@), event.content@) == Ok::<
                WalletInfoView,
                Fault,
            >(info@.kept())
        },
        Err(e) => sealing_fault(keys, tags_json(info.content())) == Some(e@),
    }
}

impl WalletInfo {
    /// Writes the info of a wallet as the event that keeps it. Reading the event gives back what
    /// is kept of the info.
    pub fn to_event(&self, keys: &WalletKeys) -> (r: Result<Event, Error>)
        ensures
            info_written(*keys, *self, r),
    {
        let content = self.content_tags();
        let mut tags: Vec<Tag> = Vec::new();
        tags.push(Tag::with_value(ID_TAG, self.id.as_str()));
        let ghost tag: TagView = seq![ID_TAG@, self.id@];
        assert(tag_views(tags@) =~= seq![tag]);
        proof {
            lemma_tag_names();
            lemma_content_named(*self);
            law_info_round_trip(*self);
            assert(seq![tag][0] == tag);
        }
        match tags_to_json(&content) {
            Ok(text) => seal(WALLET_INFO_KIND, text.as_str(), tags, keys),
            Err(e) => Err(e),
        }
    }

    /// Adds a mint.
    pub fn add_mint(&mut self, mint_url: UncheckedUrl)
        ensures
            final(self)@ == old(self)@.with_mint(mint_url@),
            *final(self) == (WalletInfo { mints: final(self).mints, ..*old(self) }),
            final(self).mints.order() == with_last(old(self).mints.order(), mint_url@),
    {
        self.mints.insert(mint_url);
    }

    /// Takes a mint out.
    pub fn remove_mint(&mut self, mint_url: &UncheckedUrl)
        ensures
            final(self)@ == old(self)@.without_mint(mint_url@),
            *final(self) == (WalletInfo { mints: final(self).mints, ..*old(self) }),
            final(self).mints.order() == old(self).mints.order().remove_value(mint_url@),
    {
        self.mints.remove(mint_url);
    }

    /// The mints. Nothing more is known of any of them.
    pub fn get_mints<M>(&self) -> (r: Vec<(UncheckedUrl, Option<M>)>)
        ensures
            r@.map_values(|m: (UncheckedUrl, Option<M>)| m.0@) == self.mints.order(),
            forall|i: int| 0 <= i < r@.len() ==> (#[trigger] r@[i]).1 is None,
    {
        let mut mints: Vec<(UncheckedUrl, Option<M>)> = Vec::new();
        let count: usize = self.mints.len();
        let ghost urls = |m: (UncheckedUrl, Option<M>)| m.0@;
        for i in 0..count
            invariant
                count == self.mints.order().len(),
                urls == (|m: (UncheckedUrl, Option<M>)| m.0@),
                mints@.map_values(urls) == self.mints.order().take(i as int),
                forall|j: int| 0 <= j < mints@.len() ==> (#[trigger] mints@[j]).1 is None,
        {
            let ghost before = mints@.map_values(urls);
            mints.push((self.mints.get(i).clone(), None));
            assert(mints@.map_values(urls) =~= before.push(self.mints.order()[i as int]));
            assert(mints@.map_values(urls) =~= self.mints.order().take(i + 1));
        }
        assert(self.mints.order().take(count as int) =~= self.mints.order());
        mints
    }

    /// Puts one mint in the place of another.
    pub fn update_mint_url(&mut self, old_mint_url: &UncheckedUrl, new_mint_url: UncheckedUrl)
        ensures
            final(self)@ == old(self)@.without_mint(old_mint_url@).with_mint(new_mint_url@),
            *final(self) == (WalletInfo { mints: final(self).mints, ..*old(self) }),
            final(self).mints.order() == with_last(
                old(self).mints.order().remove_value(old_mint_url@),
                new_mint_url@,
            ),
    {
        self.mints.remove(old_mint_url);
        self.mints.insert(new_mint_url);
    }

    /// The counter of a keyset.
    pub fn get_keyset_counter(&self, id: &Id) -> (r: Option<u32>)
        ensures
            r == (if self@.counters.contains_key(id@) {
                Some(self@.counters[id@])
            } else {
                None
            }),
    {
        match self.counters.get(id) {
            Some(counter) => Some(*counter),
            None => None,
        }
    }

    /// Raises the counter of a keyset, which begins at zero.
    pub fn increment_keyset_counter(&mut self, keyset_id: &Id, count: u32)
        requires
            old(self)@.counter(keyset_id@) + count <= u32::MAX,
        ensures
            final(self)@ == old(self)@.raised(keyset_id@, count),
            *final(self) == (WalletInfo { counters: final(self).counters, ..*old(self) }),
            final(self).counters.order() == with_last(old(self).counters.order(), keyset_id@),
    {
        let counter: u32 = match self.get_keyset_counter(keyset_id) {
            Some(counter) => counter,
            None => 0,
        };
        self.counters.insert(*keyset_id, counter + count);
    }
}

proof fn lemma_content_named(info: WalletInfo)
    ensures
        all_named(info.content()),
{
}

proof fn lemma_with_mints(info: WalletInfoView, list: Seq<Seq<char>>)
    ensures
        info.with_tags(list_tags(MINT_TAG@, list)) == Ok::<WalletInfoView, Fault>(
            WalletInfoView { mints: info.mints.union(list.to_set()), ..info },
        ),
    decreases list.len(),
{
    if list.len() == 0 {
        assert(info.mints.union(list.to_set()) =~= info.mints);
    } else {
        let rest = list.drop_last();
        lemma_with_mints(info, rest);
        assert(list_tags(MINT_TAG@, list).drop_last() =~= list_tags(MINT_TAG@, rest));
        lemma_last_in_set(list);
        assert(info.mints.union(rest.to_set()).insert(list.last()) =~= info.mints.union(
            list.to_set(),
        ));
    }
}

proof fn lemma_with_relays(info: WalletInfoView, list: Seq<Seq<char>>)
    ensures
        info.with_tags(list_tags(RELAY_TAG@, list)) == Ok::<WalletInfoView, Fault>(
            WalletInfoView { relays: info.relays.union(list.to_set()), ..info },
        ),
    decreases list.len(),
{
    lemma_tag_names();
    if list.len() == 0 {
        assert(info.relays.union(list.to_set()) =~= info.relays);
    } else {
        let rest = list.drop_last();
        lemma_with_relays(info, rest);
        assert(list_tags(RELAY_TAG@, list).drop_last() =~= list_tags(RELAY_TAG@, rest));
        lemma_last_in_set(list);
        assert(info.relays.union(rest.to_set()).insert(list.last()) =~= info.relays.union(
            list.to_set(),
        ));
    }
}

proof fn lemma_last_in_set<A>(s: Seq<A>)
    requires
        s.len() > 0,
    ensures
        s.to_set() == s.drop_last().to_set().insert(s.last()),
{
    assert forall|a: A| s.contains(a) <==> (s.drop_last().contains(a) || a == s.last()) by {
        if s.contains(a) {
            let i = choose|i: int| 0 <= i < s.len() && s[i] == a;
            if i < s.len() - 1 {
                assert(s.drop_last()[i] == a);
            }
        }
        if s.drop_last().contains(a) {
            let i = choose|i: int| 0 <= i < s.drop_last().len() && s.drop_last()[i] == a;
            assert(s[i] == a);
        }
        assert(s[s.len() - 1] == s.last());
    }
    assert(s.to_set() =~= s.drop_last().to_set().insert(s.last()));
}

proof fn lemma_with_counters(info: WalletInfoView, order: Seq<u64>, counters: Map<u64, u32>)
    requires
        forall|i: int| 0 <= i < order.len() ==> is_id(order[i]),
        order.to_set().subset_of(counters.dom()),
    ensures
        info.with_tags(counter_tags(order, counters)) == Ok::<WalletInfoView, Fault>(
            WalletInfoView {
                counters: info.counters.union_prefer_right(counters.restrict(order.to_set())),
                ..info
            },
        ),
    decreases order.len(),
{
    if order.len() == 0 {
        assert(info.counters.union_prefer_right(counters.restrict(order.to_set()))
            =~= info.counters);
    } else {
        let rest = order.drop_last();
        let id = order.last();
        lemma_last_in_set(order);
        assert forall|k: u64| rest.to_set().contains(k) implies counters.dom().contains(k) by {
            assert(order.to_set().contains(k));
        }
        lemma_with_counters(info, rest, counters);
        let tag = counter_tags(order, counters).last();
        assert(counter_tags(order, counters).drop_last() =~= counter_tags(rest, counters));
        assert(tag == seq![COUNTER_TAG@, id_text(id), decimal(counters[id] as nat)]);
        lemma_tag_names();
        assert(is_id(order[order.len() - 1]));
        law_id_round_trip(id);
        law_decimal_round_trip(counters[id] as nat, u32::MAX as nat);
        assert(order.to_set().contains(id));
        assert(info.counters.union_prefer_right(counters.restrict(rest.to_set())).insert(
            id,
            counters[id],
        ) =~= info.counters.union_prefer_right(counters.restrict(order.to_set())));
    }
}

/// The tags that are written for a balance give it back, and the unit beside it.
proof fn lemma_with_balance(
    info: WalletInfoView,
    balance: Option<Amount>,
    unit: Option<CurrencyUnit>,
)
    ensures
        info.with_tags(balance_tags(balance, unit)) == Ok::<WalletInfoView, Fault>(
            match (balance, unit) {
                (Some(amount), Some(u)) => WalletInfoView {
                    balance: Some(amount.value),
                    unit: Some(u),
                    ..info
                },
                (Some(amount), None) => WalletInfoView { balance: Some(amount.value), ..info },
                (None, _) => info,
            },
        ),
{
    lemma_tag_names();
    if let Some(amount) = balance {
        law_decimal_round_trip(amount.value as nat, u64::MAX as nat);
        if let Some(u) = unit {
            let first: TagView = seq![BALANCE_TAG@, decimal(amount.value as nat), u.name()];
            let second: TagView = seq![UNIT_TAG@, u.name()];
            assert(balance_tags(balance, unit) =~= seq![first] + seq![second]);
            lemma_fold_concat(info, seq![first], seq![second], WalletInfoView::step());
            lemma_fold_one(info, first, WalletInfoView::step());
            u.law_name_round_trip();
            lemma_fold_one(
                WalletInfoView { balance: Some(amount.value), ..info },
                second,
                WalletInfoView::step(),
            );
        } else {
            lemma_fold_one(
                info,
                seq![BALANCE_TAG@, decimal(amount.value as nat)],
                WalletInfoView::step(),
            );
        }
    }
}

/// Reading the tags that are written for a wallet's info gives the info back, but for the secret
/// key, which is not written, and for a unit without a balance, which is not written either.
pub proof fn law_info_round_trip(info: WalletInfo)
    requires
        forall|i: int| 0 <= i < info.counters.order().len() ==> is_id(info.counters.order()[i]),
    ensures
        WalletInfoView::named(info.id@).with_tags(
            seq![seq![ID_TAG@, info.id@]] + info.content(),
        ) == Ok::<WalletInfoView, Fault>(info@.kept()),
{
    lemma_tag_names();
    let first = balance_tags(info.balance, info.unit);
    let mints = list_tags(MINT_TAG@, info.mints.order());
    let name = text_tags(NAME_TAG@, optional(info.name));
    let description = text_tags(DESCRIPTION_TAG@, optional(info.description));
    let relays = list_tags(RELAY_TAG@, info.relays.order());
    let counters = counter_tags(info.counters.order(), info.counters@);
    let id_tag: TagView = seq![ID_TAG@, info.id@];

    let i0 = WalletInfoView::named(info.id@);
    lemma_fold_one(i0, id_tag, WalletInfoView::step());
    lemma_fold_concat(i0, seq![id_tag], info.content(), WalletInfoView::step());

    let i1 = WalletInfoView { balance: info@.balance, unit: info@.kept().unit, ..i0 };
    lemma_with_balance(i0, info.balance, info.unit);
    lemma_fold_concat(i0, first, mints, WalletInfoView::step());

    let i2 = WalletInfoView { mints: info@.mints, ..i1 };
    lemma_with_mints(i1, info.mints.order());
    assert(Set::<Seq<char>>::empty().union(info.mints@) =~= info.mints@);
    lemma_fold_concat(i0, first + mints, name, WalletInfoView::step());

    let i3 = WalletInfoView { name: info@.name, ..i2 };
    if let Some(text) = info@.name {
        lemma_fold_one(i2, seq![NAME_TAG@, text], WalletInfoView::step());
    }
    lemma_fold_concat(i0, first + mints + name, description, WalletInfoView::step());

    let i4 = WalletInfoView { description: info@.description, ..i3 };
    if let Some(text) = info@.description {
        lemma_fold_one(i3, seq![DESCRIPTION_TAG@, text], WalletInfoView::step());
    }
    lemma_fold_concat(i0, first + mints + name + description, relays, WalletInfoView::step());

    let i5 = WalletInfoView { relays: info@.relays, ..i4 };
    lemma_with_relays(i4, info.relays.order());
    assert(Set::<Seq<char>>::empty().union(info.relays@) =~= info.relays@);
    lemma_fold_concat(
        i0,
        first + mints + name + description + relays,
        counters,
        WalletInfoView::step(),
    );

    lemma_table_keys(info.counters);
    lemma_with_counters(i5, info.counters.order(), info.counters@);
    assert(Map::<u64, u32>::empty().union_prefer_right(
        info.counters@.restrict(info.counters.order().to_set()),
    ) =~= info.counters@);
}

/// Writing loses nothing of what was read from a written event.
pub proof fn law_writing_again_loses_nothing(info: WalletInfoView)
    ensures
        info.kept().kept() == info.kept(),
{
}

/// Changes to the mints and to the counters are not lost when the info is written.
pub proof fn law_changes_are_kept(info: WalletInfoView, mint: Seq<char>, id: u64, count: u32)
    ensures
        info.with_mint(mint).kept() == info.kept().with_mint(mint),
        info.without_mint(mint).kept() == info.kept().without_mint(mint),
        info.raised(id, count).kept() == info.kept().raised(id, count),
{
}

/// Putting one mint in the place of another leaves the new one in and the old one out, unless they
/// are the same. All other mints stay as they were.
pub proof fn law_mint_replaced(
    info: WalletInfoView,
    old_mint: Seq<char>,
    new_mint: Seq<char>,
    other: Seq<char>,
)
    ensures
        info.without_mint(old_mint).with_mint(new_mint).mints.contains(new_mint),
        old_mint != new_mint ==> !info.without_mint(old_mint).with_mint(new_mint).mints.contains(
            old_mint,
        ),
        other != old_mint && other != new_mint ==> info.without_mint(old_mint).with_mint(
            new_mint,
        ).mints.contains(other) == info.mints.contains(other),
{
}

/// Raising a counter twice is raising it by the sum, and it leaves the counters of other keysets
/// alone.
pub proof fn law_raises_add_up(info: WalletInfoView, id: u64, first: u32, second: u32, other: u64)
    requires
        info.counter(id) + first + second <= u32::MAX,
    ensures
        info.raised(id, first).counter(id) == info.counter(id) + first,
        info.raised(id, first).raised(id, second) == info.raised(id, (first + second) as u32),
        other != id ==> info.raised(id, first).counter(other) == info.counter(other),
{
    assert(info.raised(id, first).raised(id, second).counters =~= info.raised(
        id,
        (first + second) as u32,
    ).counters);
}

/// Finds the id of the wallet that tags belong to.
pub fn find_wallet_id(tags: &Vec<Tag>) -> (r: Result<String, Error>)
    ensures
        outcome(r) == wallet_id_of(tag_views(tags@)),
{
    let ghost views = tag_views(tags@);
    assert(views.skip(0) =~= views);
    for i in 0..tags.len()
        invariant
            views == tag_views(tags@),
            first_of_kind(views, ID_TAG@) == first_of_kind(views.skip(i as int), ID_TAG@),
    {
        assert(views.skip(i as int)[0] == tags@[i as int]@);
        assert(views.skip(i as int).drop_first() =~= views.skip(i + 1));
        if same_text(tags[i].kind(), ID_TAG) {
            return match tags[i].require_content() {
                Ok(text) => Ok(text.to_owned()),
                Err(e) => Err(e),
            };
        }
    }
    Err(Error::TagNotFound(ID_TAG.to_owned()))
}

/// Adds one tag of a name for each address.
fn push_list(content: &mut Vec<Tag>, kind: &str, list: &KeySet<UncheckedUrl>)
    ensures
        tag_views(final(content)@) == tag_views(old(content)@) + list_tags(kind@, list.order()),
        list.order().no_duplicates(),
{
    let ghost before = tag_views(content@);
    let ghost all = list_tags(kind@, list.order());
    let count: usize = list.len();
    for i in 0..count
        invariant
            count == list.order().len(),
            list.order().no_duplicates(),
            all == list_tags(kind@, list.order()),
            tag_views(content@) == before + all.take(i as int),
    {
        let ghost earlier = tag_views(content@);
        content.push(Tag::with_value(kind, list.get(i).text.as_str()));
        assert(tag_views(content@) =~= earlier.push(all[i as int]));
        assert(tag_views(content@) =~= before + all.take(i + 1));
    }
    assert(all.take(all.len() as int) =~= all);
}

/// Adds the tag of a text, where there is one.
fn push_text(content: &mut Vec<Tag>, kind: &str, text: &Option<String>)
    ensures
        tag_views(final(content)@) == tag_views(old(content)@) + text_tags(kind@, optional(*text)),
{
    let ghost before = tag_views(content@);
    if let Some(t) = text {
        content.push(Tag::with_value(kind, t.as_str()));
    }
    assert(tag_views(content@) =~= before + text_tags(kind@, optional(*text)));
}

} // verus!
