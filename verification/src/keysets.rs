//! The keysets that the wallet knows of, and the mints they belong to.

use vstd::prelude::*;

use crate::collections::{with_last, KeySet, Table};
use crate::nuts::{Id, KeySetInfo, UncheckedUrl};

verus! {

/// The known keysets as contracts speak of them: the ids of each mint, in the order in which they
/// came up, and the info of each id.
#[verifier::ext_equal]
pub struct Keysets {
    pub by_mint: Map<Seq<char>, Seq<u64>>,
    pub infos: Map<u64, KeySetInfo>,
}

impl Keysets {
    pub open spec fn empty() -> Keysets {
        Keysets { by_mint: Map::empty(), infos: Map::empty() }
    }

    /// The ids of a mint, none where the mint never came up.
    pub open spec fn ids(self, mint: Seq<char>) -> Seq<u64> {
        if self.by_mint.contains_key(mint) {
            self.by_mint[mint]
        } else {
            Seq::empty()
        }
    }

    /// Takes in the info of one keyset of a mint.
    pub open spec fn plus(self, mint: Seq<char>, info: KeySetInfo) -> Keysets {
        Keysets {
            by_mint: self.by_mint.insert(mint, with_last(self.ids(mint), info.id@)),
            infos: self.infos.insert(info.id@, info),
        }
    }

    /// Takes in the infos of keysets of a mint, one after the other.
    pub open spec fn plus_all(self, mint: Seq<char>, infos: Seq<KeySetInfo>) -> Keysets
        decreases infos.len(),
    {
        if infos.len() == 0 {
            self
        } else {
            self.plus_all(mint, infos.drop_last()).plus(mint, infos.last())
        }
    }

    /// The info of every id that belongs to a mint is known, under that id, and no mint has an id
    /// twice.
    pub open spec fn wf(self) -> bool {
        &&& forall|mint: Seq<char>, i: int|
            self.by_mint.contains_key(mint) && 0 <= i < self.by_mint[mint].len()
                ==> self.infos.contains_key(#[trigger] self.by_mint[mint][i])
        &&& forall|id: u64| #[trigger] self.infos.contains_key(id) ==> self.infos[id].id@ == id
        &&& forall|mint: Seq<char>| #[trigger]
            self.by_mint.contains_key(mint) ==> self.by_mint[mint].no_duplicates()
    }
}

proof fn lemma_plus_wf(store: Keysets, mint: Seq<char>, info: KeySetInfo)
    requires
        store.wf(),
    ensures
        store.plus(mint, info).wf(),
{
    let after = store.plus(mint, info);
    assert forall|m: Seq<char>, i: int|
        after.by_mint.contains_key(m) && 0 <= i
            < after.by_mint[m].len() implies after.infos.contains_key(
        #[trigger] after.by_mint[m][i],
    ) by {
        if m != mint {
            assert(store.by_mint[m][i] == after.by_mint[m][i]);
        } else if i < store.ids(mint).len() {
            assert(store.by_mint[m][i] == after.by_mint[m][i]);
        }
    }
}

/// Whatever keysets are taken in, the info of every id that belongs to a mint is known under that
/// id, and no mint has an id twice.
pub proof fn law_keysets_stay_known(store: Keysets, mint: Seq<char>, infos: Seq<KeySetInfo>)
    requires
        store.wf(),
    ensures
        store.plus_all(mint, infos).wf(),
        Keysets::empty().wf(),
    decreases infos.len(),
{
    if infos.len() > 0 {
        law_keysets_stay_known(store, mint, infos.drop_last());
        lemma_plus_wf(store.plus_all(mint, infos.drop_last()), mint, infos.last());
    }
}

/// Taking in the keysets of a mint adds all their ids to those of the mint and takes none away.
/// The ids of other mints stay as they are. The info of an id is the last one that was taken in;
/// the infos of other ids stay as they are.
pub proof fn law_keysets_taken_in(
    store: Keysets,
    mint: Seq<char>,
    infos: Seq<KeySetInfo>,
    other: Seq<char>,
    i: int,
    id: u64,
)
    requires
        0 <= i < infos.len(),
        forall|j: int| i < j < infos.len() ==> (#[trigger] infos[j]).id@ != infos[i].id@,
    ensures
        store.ids(mint).is_prefix_of(store.plus_all(mint, infos).ids(mint)),
        store.plus_all(mint, infos).ids(mint).contains(infos[i].id@),
        store.plus_all(mint, infos).infos.contains_key(infos[i].id@),
        store.plus_all(mint, infos).infos[infos[i].id@] == infos[i],
        other != mint ==> store.plus_all(mint, infos).ids(other) == store.ids(other),
        (forall|j: int| 0 <= j < infos.len() ==> (#[trigger] infos[j]).id@ != id) ==> {
            &&& store.plus_all(mint, infos).infos.contains_key(id) == store.infos.contains_key(id)
            &&& store.plus_all(mint, infos).infos[id] == store.infos[id]
        },
    decreases infos.len(),
{
    let rest = infos.drop_last();
    let last = infos.last();
    let before = store.plus_all(mint, rest);
    let after = store.plus_all(mint, infos);
    lemma_with_last(before.ids(mint), last.id@, infos[i].id@);
    if rest.len() == 0 {
        assert(before == store);
        assert(infos[0] == last);
    } else {
        if i < rest.len() {
            assert forall|j: int| i < j < rest.len() implies (#[trigger] rest[j]).id@
                != rest[i].id@ by {
                assert(infos[j].id@ != infos[i].id@);
            }
            law_keysets_taken_in(store, mint, rest, other, i, id);
            assert(infos[infos.len() - 1].id@ != infos[i].id@);
        } else {
            assert(rest.last() == rest[rest.len() - 1]);
            law_keysets_taken_in(store, mint, rest, other, rest.len() - 1, id);
        }
        if forall|j: int| 0 <= j < infos.len() ==> (#[trigger] infos[j]).id@ != id {
            assert forall|j: int| 0 <= j < rest.len() implies (#[trigger] rest[j]).id@ != id by {
                assert(infos[j].id@ != id);
            }
            assert(infos[infos.len() - 1].id@ != id);
        }
    }
}

proof fn lemma_with_last<A>(order: Seq<A>, key: A, other: A)
    ensures
        order.is_prefix_of(with_last(order, key)),
        with_last(order, key).contains(key),
        order.contains(other) ==> with_last(order, key).contains(other),
{
    if !order.contains(key) {
        assert(order.push(key)[order.len() as int] == key);
        if order.contains(other) {
            let j = choose|j: int| 0 <= j < order.len() && order[j] == other;
            assert(order.push(key)[j] == other);
        }
    }
}

/// The keysets that the wallet knows of
#[derive(Debug)]
pub struct KeysetStore {
    by_mint: Table<UncheckedUrl, KeySet<Id>>,
    infos: Table<Id, KeySetInfo>,
}

impl View for KeysetStore {
    type V = Keysets;

    closed spec fn view(&self) -> Keysets {
        Keysets {
            by_mint: self.by_mint@.map_values(|ids: KeySet<Id>| ids.order()),
            infos: self.infos@,
        }
    }
}

impl KeysetStore {
    #[verifier::type_invariant]
    spec fn known(self) -> bool {
        self@.wf()
    }

    pub fn new() -> (r: Self)
        ensures
            r@ == Keysets::empty(),
    {
        let by_mint: Table<UncheckedUrl, KeySet<Id>> = Table::new();
        assert(by_mint@.map_values(|ids: KeySet<Id>| ids.order()) =~= Map::empty());
        KeysetStore { by_mint, infos: Table::new() }
    }

    /// Takes in the info of one keyset of a mint.
    fn add(&mut self, mint_url: &UncheckedUrl, info: KeySetInfo)
        ensures
            final(self)@ == old(self)@.plus(mint_url@, info),
    {
        proof {
            use_type_invariant(&*self);
            lemma_plus_wf(self@, mint_url@, info);
        }
        let ghost before = self@;
        let mut by_mint: Table<UncheckedUrl, KeySet<Id>> = Table::new();
        assert(by_mint@.map_values(|ids: KeySet<Id>| ids.order()) =~= Map::empty());
        std::mem::swap(&mut by_mint, &mut self.by_mint);
        let mut infos: Table<Id, KeySetInfo> = Table::new();
        std::mem::swap(&mut infos, &mut self.infos);
        match by_mint.position(mint_url) {
            Some(i) => {
                let mut ids = by_mint.replace(i, KeySet::new());
                ids.insert(info.id);
                let _ = by_mint.replace(i, ids);
            },
            None => {
                let mut ids: KeySet<Id> = KeySet::new();
                ids.insert(info.id);
                by_mint.insert(mint_url.clone(), ids);
            },
        }
        infos.insert(info.id, info);
        assert(by_mint@.map_values(|ids: KeySet<Id>| ids.order()) =~= before.plus(
            mint_url@,
            info,
        ).by_mint);
        self.infos = infos;
        self.by_mint = by_mint;
    }

    /// Takes in the infos of keysets of a mint. The info of a keyset takes the place of what was
    /// known of it before.
    pub fn add_mint_keysets(&mut self, mint_url: UncheckedUrl, keysets: Vec<KeySetInfo>)
        ensures
            final(self)@ == old(self)@.plus_all(mint_url@, keysets@),
    {
        let ghost before = self@;
        let ghost all = keysets@;
        for info in it: keysets
            invariant
                it.seq() == all,
                self@ == before.plus_all(mint_url@, all.take(it.index())),
        {
            let ghost i = it.index();
            self.add(&mint_url, info);
            assert(all.take(i + 1).drop_last() =~= all.take(i));
        }
        assert(all.take(all.len() as int) =~= all);
    }

    /// The infos of the keysets of a mint, where it has come up.
    pub fn get_mint_keysets(&self, mint_url: &UncheckedUrl) -> (r: Option<Vec<KeySetInfo>>)
        ensures
            match r {
                Some(keysets) => {
                    &&& self@.by_mint.contains_key(mint_url@)
                    &&& keysets@ == self@.by_mint[mint_url@].map_values(
                        |id: u64| self@.infos[id],
                    )
                },
                None => !self@.by_mint.contains_key(mint_url@),
            },
    {
        proof {
            use_type_invariant(self);
        }
        match self.by_mint.get(mint_url) {
            Some(ids) => {
                let mut keysets: Vec<KeySetInfo> = Vec::new();
                let ghost order = self@.by_mint[mint_url@];
                let ghost all = order.map_values(|id: u64| self@.infos[id]);
                assert(ids.order() == order);
                let count: usize = ids.len();
                for i in 0..count
                    invariant
                        count == order.len(),
                        ids.order() == order,
                        self@.wf(),
                        self@.by_mint.contains_key(mint_url@),
                        order == self@.by_mint[mint_url@],
                        all == order.map_values(|id: u64| self@.infos[id]),
                        keysets@ == all.take(i as int),
                {
                    let id = ids.get(i);
                    assert(self@.infos.contains_key(self@.by_mint[mint_url@][i as int]));
                    if let Some(info) = self.infos.get(id) {
                        keysets.push(*info);
                    }
                    assert(keysets@ =~= all.take(i + 1));
                }
                assert(all.take(all.len() as int) =~= all);
                Some(keysets)
            },
            None => None,
        }
    }

    /// The info of a keyset.
    pub fn get_keyset_by_id(&self, keyset_id: &Id) -> (r: Option<KeySetInfo>)
        ensures
            r == (if self@.infos.contains_key(keyset_id@) {
                Some(self@.infos[keyset_id@])
            } else {
                None
            }),
    {
        match self.infos.get(keyset_id) {
            Some(info) => Some(*info),
            None => None,
        }
    }
}

} // verus!
