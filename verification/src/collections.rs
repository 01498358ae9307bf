//! Small collections that keep their items in the order of insertion.

use vstd::prelude::*;

verus! {

/// A value by which an item of a collection is found again. Two values are the same key exactly
/// when their views are equal.
pub trait Key: View + Sized {
    fn same(&self, other: &Self) -> (r: bool)
        ensures
            r == (self@ == other@),
    ;

    fn copy(&self) -> (r: Self)
        ensures
            r@ == self@,
    ;
}

/// The views of a row of keys.
pub open spec fn key_views<K: Key>(s: Seq<K>) -> Seq<K::V> {
    s.map_values(|k: K| k@)
}

/// A row with a key behind it, unless the key is in it already.
pub open spec fn with_last<A>(order: Seq<A>, key: A) -> Seq<A> {
    if order.contains(key) {
        order
    } else {
        order.push(key)
    }
}

/// A set of keys that is walked in the order of insertion.
#[derive(Debug)]
pub struct KeySet<K: Key> {
    items: Vec<K>,
}

impl<K: Key> KeySet<K> {
    /// No key occurs twice.
    #[verifier::type_invariant]
    spec fn wf(self) -> bool {
        key_views(self.items@).no_duplicates()
    }

    /// The keys in the order of insertion.
    pub closed spec fn order(self) -> Seq<K::V> {
        key_views(self.items@)
    }
}

impl<K: Key> View for KeySet<K> {
    type V = Set<K::V>;

    open spec fn view(&self) -> Set<K::V> {
        self.order().to_set()
    }
}

impl<K: Key> KeySet<K> {
    pub fn new() -> (r: Self)
        ensures
            r.order() == Seq::<K::V>::empty(),
            r@ == Set::<K::V>::empty(),
    {
        let r = KeySet { items: Vec::new() };
        assert(r.order() =~= Seq::empty());
        assert(r.order().to_set() =~= Set::empty());
        r
    }

    pub fn len(&self) -> (r: usize)
        ensures
            r == self.order().len(),
            self.order().no_duplicates(),
    {
        proof {
            use_type_invariant(self);
        }
        self.items.len()
    }

    pub fn get(&self, i: usize) -> (r: &K)
        requires
            i < self.order().len(),
        ensures
            r@ == self.order()[i as int],
    {
        &self.items[i]
    }

    /// Whether a key is in the set.
    pub fn contains(&self, key: &K) -> (r: bool)
        ensures
            r == self@.contains(key@),
            r == self.order().contains(key@),
    {
        for i in 0..self.items.len()
            invariant
                forall|j: int| 0 <= j < i ==> (#[trigger] self.order()[j]) != key@,
        {
            assert(self.order()[i as int] == self.items[i as int]@);
            if self.items[i].same(key) {
                return true;
            }
        }
        false
    }

    /// Adds a key. One that is in the set already stays where it is.
    pub fn insert(&mut self, key: K)
        ensures
            final(self)@ == old(self)@.insert(key@),
            final(self).order() == with_last(old(self).order(), key@),
    {
        proof {
            use_type_invariant(&*self);
        }
        let ghost before = self.order();
        if !self.contains(&key) {
            let mut items: Vec<K> = Vec::new();
            std::mem::swap(&mut items, &mut self.items);
            items.push(key);
            assert(key_views(items@) =~= before.push(key@));
            self.items = items;
            assert(self.order().to_set() =~= before.to_set().insert(key@)) by {
                assert forall|k: K::V| before.push(key@).contains(k) <==> (before.contains(k) || k
                    == key@) by {
                    if before.contains(k) {
                        let j = choose|j: int| 0 <= j < before.len() && before[j] == k;
                        assert(before.push(key@)[j] == k);
                    }
                    assert(before.push(key@)[before.len() as int] == key@);
                }
            }
        } else {
            assert(before.to_set() =~= before.to_set().insert(key@));
        }
    }

    /// Takes a key out. The others keep their order.
    pub fn remove(&mut self, key: &K)
        ensures
            final(self)@ == old(self)@.remove(key@),
            final(self).order() == old(self).order().remove_value(key@),
    {
        proof {
            use_type_invariant(&*self);
        }
        let ghost before = self.order();
        let mut i: usize = 0;
        while i < self.items.len()
            invariant
                *self == *old(self),
                before == self.order(),
                before.len() == self.items.len(),
                before.no_duplicates(),
                i <= self.items.len(),
                forall|j: int| 0 <= j < i ==> (#[trigger] before[j]) != key@,
            decreases self.items.len() - i,
        {
            assert(before[i as int] == self.items[i as int]@);
            if self.items[i].same(key) {
                let mut items: Vec<K> = Vec::new();
                std::mem::swap(&mut items, &mut self.items);
                items.remove(i);
                assert(key_views(items@) =~= before.remove(i as int));
                self.items = items;
                proof {
                    before.index_of_first_ensures(key@);
                    assert(before.index_of_first(key@) == Some(i as int));
                    assert forall|k: K::V| before.remove(i as int).contains(k) <==> (
                    before.contains(k) && k != key@) by {
                        let after = before.remove(i as int);
                        if before.contains(k) && k != key@ {
                            let j = choose|j: int| 0 <= j < before.len() && before[j] == k;
                            if j < i {
                                assert(after[j] == k);
                            } else {
                                assert(after[j - 1] == k);
                            }
                        }
                        if after.contains(k) {
                            let j = choose|j: int| 0 <= j < after.len() && after[j] == k;
                            if j < i {
                                assert(before[j] == k);
                            } else {
                                assert(before[j + 1] == k);
                            }
                        }
                    }
                    assert(self.order().to_set() =~= before.to_set().remove(key@));
                }
                return ;
            }
            i += 1;
        }
        proof {
            assert(!before.contains(key@));
            before.index_of_first_ensures(key@);
            assert(before.to_set() =~= before.to_set().remove(key@));
        }
    }
}

impl<K: Key> Clone for KeySet<K> {
    fn clone(&self) -> (r: Self)
        ensures
            r.order() == self.order(),
            r@ == self@,
    {
        proof {
            use_type_invariant(self);
        }
        let mut items: Vec<K> = Vec::new();
        for i in 0..self.items.len()
            invariant
                key_views(items@) == self.order().take(i as int),
        {
            let ghost before = key_views(items@);
            items.push(self.items[i].copy());
            assert(key_views(items@) =~= before.push(self.order()[i as int]));
            assert(key_views(items@) =~= self.order().take(i + 1));
        }
        assert(self.order().take(self.order().len() as int) =~= self.order());
        KeySet { items }
    }
}

/// A map from keys to values that is walked in the order in which its keys were first inserted.
#[derive(Debug)]
pub struct Table<K: Key, V> {
    entries: Vec<(K, V)>,
}

/// The keys of a row of entries.
spec fn entry_keys<K: Key, V>(s: Seq<(K, V)>) -> Seq<K::V> {
    s.map_values(|e: (K, V)| e.0@)
}

/// The map that a row of entries with distinct keys stands for.
spec fn entry_map<K: Key, V>(s: Seq<(K, V)>) -> Map<K::V, V> {
    Map::new(
        |k: K::V| entry_keys(s).contains(k),
        |k: K::V| s[entry_keys(s).index_of(k)].1,
    )
}

proof fn lemma_entry<K: Key, V>(s: Seq<(K, V)>, i: int)
    requires
        entry_keys(s).no_duplicates(),
        0 <= i < s.len(),
    ensures
        entry_map(s).contains_key(s[i].0@),
        entry_map(s)[s[i].0@] == s[i].1,
{
    let keys = entry_keys(s);
    assert(keys[i] == s[i].0@);
    assert(keys.contains(s[i].0@));
    let j = keys.index_of(s[i].0@);
    assert(keys[j] == s[i].0@);
    assert(i == j);
}

impl<K: Key, V> Table<K, V> {
    /// No key occurs twice.
    #[verifier::type_invariant]
    spec fn wf(self) -> bool {
        entry_keys(self.entries@).no_duplicates()
    }

    /// The keys in the order in which they were first inserted.
    pub closed spec fn order(self) -> Seq<K::V> {
        entry_keys(self.entries@)
    }
}

impl<K: Key, V> View for Table<K, V> {
    type V = Map<K::V, V>;

    closed spec fn view(&self) -> Map<K::V, V> {
        entry_map(self.entries@)
    }
}

/// The keys of a table are those that it is walked by.
pub proof fn lemma_table_keys<K: Key, V>(table: Table<K, V>)
    ensures
        table@.dom() == table.order().to_set(),
{
    assert(table@.dom() =~= table.order().to_set());
}

impl<K: Key, V> Table<K, V> {
    pub fn new() -> (r: Self)
        ensures
            r.order() == Seq::<K::V>::empty(),
            r@ == Map::<K::V, V>::empty(),
    {
        let r = Table { entries: Vec::new() };
        assert(r.order() =~= Seq::empty());
        assert(r@ =~= Map::empty());
        r
    }

    pub fn len(&self) -> (r: usize)
        ensures
            r == self.order().len(),
            self.order().no_duplicates(),
    {
        proof {
            use_type_invariant(self);
        }
        self.entries.len()
    }

    /// The entry at a position.
    pub fn entry(&self, i: usize) -> (r: (&K, &V))
        requires
            i < self.order().len(),
        ensures
            r.0@ == self.order()[i as int],
            self@.contains_key(r.0@),
            *r.1 == self@[r.0@],
    {
        proof {
            use_type_invariant(self);
            lemma_entry(self.entries@, i as int);
        }
        (&self.entries[i].0, &self.entries[i].1)
    }

    /// The position of a key.
    pub fn position(&self, key: &K) -> (r: Option<usize>)
        ensures
            r is Some <==> self@.contains_key(key@),
            r is Some <==> self.order().contains(key@),
            r matches Some(i) ==> i < self.order().len() && self.order()[i as int] == key@,
    {
        for i in 0..self.entries.len()
            invariant
                forall|j: int| 0 <= j < i ==> (#[trigger] self.order()[j]) != key@,
        {
            assert(self.order()[i as int] == self.entries[i as int].0@);
            if self.entries[i].0.same(key) {
                return Some(i);
            }
        }
        assert(!self.order().contains(key@));
        None
    }

    /// The value of a key.
    pub fn get(&self, key: &K) -> (r: Option<&V>)
        ensures
            r is Some <==> self@.contains_key(key@),
            r matches Some(v) ==> *v == self@[key@],
    {
        match self.position(key) {
            Some(i) => Some(self.entry(i).1),
            None => None,
        }
    }

    /// Puts a value in the place of the one at a position, and gives the old one back.
    pub fn replace(&mut self, i: usize, value: V) -> (r: V)
        requires
            i < old(self).order().len(),
        ensures
            r == old(self)@[old(self).order()[i as int]],
            final(self).order() == old(self).order(),
            final(self)@ == old(self)@.insert(old(self).order()[i as int], value),
    {
        proof {
            use_type_invariant(&*self);
            lemma_entry(self.entries@, i as int);
        }
        let ghost before = self.entries@;
        let mut entries: Vec<(K, V)> = Vec::new();
        std::mem::swap(&mut entries, &mut self.entries);
        let (key, old_value) = entries.remove(i);
        entries.insert(i, (key, value));
        assert(entries@ =~= before.update(i as int, (key, value)));
        assert(entry_keys(entries@) =~= entry_keys(before));
        self.entries = entries;
        proof {
            assert(self@ =~= entry_map(before).insert(entry_keys(before)[i as int], value)) by {
                assert forall|k: K::V| #[trigger] self@.contains_key(k) implies self@[k]
                    == entry_map(before).insert(entry_keys(before)[i as int], value)[k] by {
                    let j = entry_keys(before).index_of(k);
                    lemma_entry(entries@, j);
                    lemma_entry(before, j);
                }
                assert(entry_keys(before).contains(entry_keys(before)[i as int]));
            }
        }
        old_value
    }

    /// Sets the value of a key. A new key comes last.
    pub fn insert(&mut self, key: K, value: V)
        ensures
            final(self)@ == old(self)@.insert(key@, value),
            final(self).order() == with_last(old(self).order(), key@),
    {
        proof {
            use_type_invariant(&*self);
        }
        match self.position(&key) {
            Some(i) => {
                let _ = self.replace(i, value);
            },
            None => {
                let ghost before = self.entries@;
                let mut entries: Vec<(K, V)> = Vec::new();
                std::mem::swap(&mut entries, &mut self.entries);
                entries.push((key, value));
                assert(entry_keys(entries@) =~= entry_keys(before).push(key@));
                self.entries = entries;
                proof {
                    let keys = entry_keys(before);
                    assert forall|k: K::V| keys.push(key@).contains(k) <==> (keys.contains(k) || k
                        == key@) by {
                        if keys.contains(k) {
                            let j = choose|j: int| 0 <= j < keys.len() && keys[j] == k;
                            assert(keys.push(key@)[j] == k);
                        }
                        assert(keys.push(key@)[keys.len() as int] == key@);
                    }
                    assert forall|k: K::V| #[trigger] self@.contains_key(k) implies self@[k]
                        == entry_map(before).insert(key@, value)[k] by {
                        let j = keys.push(key@).index_of(k);
                        lemma_entry(entries@, j);
                        if k != key@ {
                            lemma_entry(before, j);
                        }
                    }
                    assert(self@ =~= entry_map(before).insert(key@, value));
                }
            },
        }
    }

    /// Takes a key and its value out. The others keep their order.
    pub fn remove(&mut self, key: &K)
        ensures
            final(self)@ == old(self)@.remove(key@),
            final(self).order() == old(self).order().remove_value(key@),
    {
        proof {
            use_type_invariant(&*self);
        }
        let ghost keys = self.order();
        proof {
            keys.index_of_first_ensures(key@);
        }
        match self.position(key) {
            Some(i) => {
                let ghost before = self.entries@;
                let mut entries: Vec<(K, V)> = Vec::new();
                std::mem::swap(&mut entries, &mut self.entries);
                let _ = entries.remove(i);
                assert(entry_keys(entries@) =~= keys.remove(i as int));
                self.entries = entries;
                proof {
                    let after = keys.remove(i as int);
                    assert(keys.index_of_first(key@) == Some(i as int));
                    assert forall|k: K::V| after.contains(k) <==> (keys.contains(k) && k != key@) by {
                        if keys.contains(k) && k != key@ {
                            let j = choose|j: int| 0 <= j < keys.len() && keys[j] == k;
                            if j < i {
                                assert(after[j] == k);
                            } else {
                                assert(after[j - 1] == k);
                            }
                        }
                        if after.contains(k) {
                            let j = choose|j: int| 0 <= j < after.len() && after[j] == k;
                            if j < i {
                                assert(keys[j] == k);
                            } else {
                                assert(keys[j + 1] == k);
                            }
                        }
                    }
                    assert forall|k: K::V| #[trigger] self@.contains_key(k) implies self@[k]
                        == entry_map(before).remove(key@)[k] by {
                        let j = after.index_of(k);
                        lemma_entry(entries@, j);
                        lemma_entry(before, if j < i { j } else { j + 1 });
                    }
                    assert(self@ =~= entry_map(before).remove(key@));
                }
            },
            None => {
                assert(self@ =~= self@.remove(key@));
            },
        }
    }

    /// The entries in order.
    pub fn into_entries(self) -> (r: Vec<(K, V)>)
        ensures
            r@.len() == self.order().len(),
            self.order().no_duplicates(),
            self@.dom() == self.order().to_set(),
            forall|i: int|
                0 <= i < r@.len() ==> (#[trigger] r@[i]).0@ == self.order()[i] && r@[i].1
                    == self@[self.order()[i]],
    {
        proof {
            use_type_invariant(&self);
            assert forall|i: int| 0 <= i < self.entries@.len() implies (
            #[trigger] self.entries@[i]).0@ == self.order()[i] && self.entries@[i].1
                == self@[self.order()[i]] by {
                lemma_entry(self.entries@, i);
            }
            assert(self@.dom() =~= self.order().to_set());
        }
        self.entries
    }
}

impl<K: Key, V: Copy> Clone for Table<K, V> {
    fn clone(&self) -> (r: Self)
        ensures
            r.order() == self.order(),
            r@ == self@,
    {
        proof {
            use_type_invariant(self);
        }
        let mut entries: Vec<(K, V)> = Vec::new();
        for i in 0..self.entries.len()
            invariant
                entries@.len() == i,
                forall|j: int|
                    0 <= j < i ==> (#[trigger] entries@[j]).0@ == self.entries@[j].0@
                        && entries@[j].1 == self.entries@[j].1,
        {
            entries.push((self.entries[i].0.copy(), self.entries[i].1));
        }
        assert(entry_keys(entries@) =~= entry_keys(self.entries@));
        let r = Table { entries };
        assert(r@ =~= self@);
        r
    }
}

} // verus!
