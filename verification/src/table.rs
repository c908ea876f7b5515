//! Maps with byte strings of a fixed length as keys.
//!
//! A table remembers the order in which its keys were first inserted, and is walked in that order.

use crate::fixed_bytes::FixedBytes;
use vstd::prelude::*;

verus! {

/// Whether no key occurs twice.
pub open spec fn keys_distinct<K, V>(entries: Seq<(K, V)>) -> bool {
    forall|i: int, j: int| 0 <= i < j < entries.len() ==> (#[trigger] entries[i]).0 != (#[trigger] entries[j]).0
}

/// Whether a key occurs.
pub open spec fn has_key<K, V>(entries: Seq<(K, V)>, key: K) -> bool {
    exists|i: int| 0 <= i < entries.len() && (#[trigger] entries[i]).0 == key
}

/// The map that lists its pairs of key and value.
pub open spec fn entries_map<K, V>(entries: Seq<(K, V)>) -> Map<K, V>
    decreases entries.len(),
{
    if entries.len() == 0 {
        Map::empty()
    } else {
        entries_map(entries.drop_last()).insert(entries.last().0, entries.last().1)
    }
}

/// The pairs after a value was stored under a key: in place of the key's value where it had one,
/// behind all others where it had none.
pub open spec fn entries_put<K, V>(entries: Seq<(K, V)>, key: K, value: V) -> Seq<(K, V)> {
    if has_key(entries, key) {
        entries.map_values(
            |e: (K, V)|
                if e.0 == key {
                    (key, value)
                } else {
                    e
                },
        )
    } else {
        entries.push((key, value))
    }
}

pub proof fn lemma_entries_map<K, V>(entries: Seq<(K, V)>)
    requires
        keys_distinct(entries),
    ensures
        forall|k: K| #[trigger] entries_map(entries).contains_key(k) <==> has_key(entries, k),
        forall|i: int| 0 <= i < entries.len() ==> entries_map(entries)[(#[trigger] entries[i]).0] == entries[i].1,
    decreases entries.len(),
{
    if entries.len() > 0 {
        let rest = entries.drop_last();
        lemma_entries_map(rest);
        assert forall|k: K| #[trigger] entries_map(entries).contains_key(k) <==> has_key(entries, k) by {
            assert(entries_map(rest).contains_key(k) <==> has_key(rest, k));
            if has_key(rest, k) {
                let i = choose|i: int| 0 <= i < rest.len() && (#[trigger] rest[i]).0 == k;
                assert(entries[i].0 == k);
            }
            if has_key(entries, k) {
                let i = choose|i: int| 0 <= i < entries.len() && (#[trigger] entries[i]).0 == k;
                if i < rest.len() {
                    assert(rest[i].0 == k);
                }
            }
            if k == entries.last().0 {
                assert(entries[entries.len() - 1].0 == k);
            }
        }
        assert forall|i: int| 0 <= i < entries.len() implies entries_map(entries)[(
        #[trigger] entries[i]).0] == entries[i].1 by {
            if i < rest.len() {
                assert(rest[i] == entries[i]);
                assert(entries[i].0 != entries[entries.len() - 1].0);
            }
        }
    }
}

/// Storing a value under a key keeps the keys distinct and is an insertion into the map.
pub proof fn lemma_entries_put<K, V>(entries: Seq<(K, V)>, key: K, value: V)
    requires
        keys_distinct(entries),
    ensures
        keys_distinct(entries_put(entries, key, value)),
        entries_map(entries_put(entries, key, value)) == entries_map(entries).insert(key, value),
{
    let new = entries_put(entries, key, value);
    assert(keys_distinct(new)) by {
        assert forall|i: int, j: int| 0 <= i < j < new.len() implies (#[trigger] new[i]).0 != (
        #[trigger] new[j]).0 by {
            if j < entries.len() {
                assert(entries[i].0 != entries[j].0);
            } else {
                assert(entries[i].0 != key);
            }
        }
    }
    lemma_entries_map(entries);
    lemma_entries_map(new);
    let want = entries_map(entries).insert(key, value);
    assert forall|k: K| #[trigger] entries_map(new).contains_key(k) <==> want.contains_key(k) by {
        if has_key(new, k) {
            let i = choose|i: int| 0 <= i < new.len() && (#[trigger] new[i]).0 == k;
            if i < entries.len() {
                assert(entries[i].0 == k);
            }
        }
        if has_key(entries, k) {
            let i = choose|i: int| 0 <= i < entries.len() && (#[trigger] entries[i]).0 == k;
            assert(new[i].0 == k);
        }
        if k == key && !has_key(entries, key) {
            assert(new[entries.len() as int].0 == k);
        }
    }
    assert forall|k: K| want.contains_key(k) implies #[trigger] entries_map(new)[k] == want[k] by {
        assert(entries_map(new).contains_key(k));
        let i = choose|i: int| 0 <= i < new.len() && (#[trigger] new[i]).0 == k;
        if i < entries.len() {
            assert(entries[i].0 == k);
        }
    }
    assert(entries_map(new) =~= want);
}

/// A map from byte strings of length `N`.
pub struct Table<const N: usize, V> {
    entries: Vec<(FixedBytes<N>, V)>,
}

impl<const N: usize, V> View for Table<N, V> {
    type V = Map<FixedBytes<N>, V>;

    open spec fn view(&self) -> Map<FixedBytes<N>, V> {
        entries_map(self.entries())
    }
}

impl<const N: usize, V> Table<N, V> {
    /// The pairs of key and value, in the order in which the keys came.
    pub closed spec fn entries(&self) -> Seq<(FixedBytes<N>, V)> {
        self.entries@
    }

    #[verifier::type_invariant]
    spec fn well_formed(&self) -> bool {
        keys_distinct(self.entries@)
    }

    /// A table without keys.
    pub fn new() -> (r: Self)
        ensures
            r.entries() == Seq::<(FixedBytes<N>, V)>::empty(),
            r@ == Map::<FixedBytes<N>, V>::empty(),
    {
        Table { entries: Vec::new() }
    }

    /// The number of keys, of which no two are the same.
    pub fn len(&self) -> (r: usize)
        ensures
            r == self.entries().len(),
            keys_distinct(self.entries()),
    {
        proof {
            use_type_invariant(self);
        }
        self.entries.len()
    }

    /// The key at a place in the order of the keys.
    pub fn key_at(&self, i: usize) -> (r: FixedBytes<N>)
        requires
            i < self.entries().len(),
        ensures
            r == self.entries()[i as int].0,
            self@.contains_key(r),
            self@[r] == self.entries()[i as int].1,
    {
        proof {
            use_type_invariant(self);
            lemma_entries_map(self.entries@);
        }
        self.entries[i].0
    }

    /// The value at a place in the order of the keys.
    pub fn value_at(&self, i: usize) -> (r: &V)
        requires
            i < self.entries().len(),
        ensures
            *r == self.entries()[i as int].1,
    {
        &self.entries[i].1
    }

    fn position(&self, key: &FixedBytes<N>) -> (r: Option<usize>)
        ensures
            r matches Some(i) ==> i < self.entries@.len() && self.entries@[i as int].0 == *key,
            r is None ==> !has_key(self.entries@, *key),
    {
        let mut i: usize = 0;
        while i < self.entries.len()
            invariant
                0 <= i <= self.entries@.len(),
                forall|j: int| 0 <= j < i ==> (#[trigger] self.entries@[j]).0 != *key,
            decreases self.entries@.len() - i,
        {
            if self.entries[i].0 == *key {
                return Some(i);
            }
            i = i + 1;
        }
        None
    }

    /// Whether a key has a value.
    pub fn contains_key(&self, key: &FixedBytes<N>) -> (r: bool)
        ensures
            r == self@.contains_key(*key),
    {
        proof {
            use_type_invariant(self);
            lemma_entries_map(self.entries@);
        }
        self.position(key).is_some()
    }

    /// The value of a key.
    pub fn get(&self, key: &FixedBytes<N>) -> (r: Option<&V>)
        ensures
            r is Some <==> self@.contains_key(*key),
            r matches Some(v) ==> *v == self@[*key],
            keys_distinct(self.entries()),
    {
        proof {
            use_type_invariant(self);
            lemma_entries_map(self.entries@);
        }
        match self.position(key) {
            Some(i) => Some(&self.entries[i].1),
            None => None,
        }
    }

    /// Stores a value under a key and hands back the value that it takes the place of.
    pub fn insert(&mut self, key: FixedBytes<N>, value: V) -> (r: Option<V>)
        ensures
            final(self)@ == old(self)@.insert(key, value),
            final(self).entries() == entries_put(old(self).entries(), key, value),
            r is Some <==> old(self)@.contains_key(key),
            r matches Some(v) ==> v == old(self)@[key],
    {
        proof {
            use_type_invariant(&*self);
            lemma_entries_map(self.entries@);
            lemma_entries_put(self.entries@, key, value);
        }
        let place = self.position(&key);
        let mut entries: Vec<(FixedBytes<N>, V)> = Vec::new();
        std::mem::swap(&mut entries, &mut self.entries);
        let ghost before = entries@;
        entries.push((key, value));
        match place {
            Some(i) => {
                let previous = entries.swap_remove(i);
                assert(entries@ =~= entries_put(before, key, value)) by {
                    assert(has_key(before, key));
                    assert forall|j: int| 0 <= j < before.len() && j != i implies (#[trigger] before[j]).0 != key by {
                        assert(before[i as int].0 == key);
                    }
                }
                self.entries = entries;
                Some(previous.1)
            },
            None => {
                assert(entries@ =~= entries_put(before, key, value));
                self.entries = entries;
                None
            },
        }
    }

    /// Forgets a key and its value.
    pub fn remove(&mut self, key: &FixedBytes<N>)
        ensures
            final(self)@ == old(self)@.remove(*key),
    {
        proof {
            use_type_invariant(&*self);
            lemma_entries_map(self.entries@);
        }
        match self.position(key) {
            Some(i) => {
                let mut entries: Vec<(FixedBytes<N>, V)> = Vec::new();
                std::mem::swap(&mut entries, &mut self.entries);
                let ghost before = entries@;
                entries.remove(i);
                proof {
                    lemma_entries_remove(before, i as int);
                }
                self.entries = entries;
            },
            None => {
                assert(self@ =~= old(self)@.remove(*key));
            },
        }
    }
}

impl<const N: usize, T> Table<N, Vec<T>> {
    /// Takes out the list of a key, which is empty where the key had none, and leaves an empty one.
    pub fn take_list(&mut self, key: FixedBytes<N>) -> (r: Vec<T>)
        ensures
            final(self)@.contains_key(key),
            forall|k: FixedBytes<N>|
                k != key ==> (#[trigger] final(self)@.contains_key(k) <==> old(self)@.contains_key(k)),
            forall|k: FixedBytes<N>|
                k != key && #[trigger] old(self)@.contains_key(k) ==> final(self)@[k] == old(self)@[k],
            r@ == if old(self)@.contains_key(key) {
                old(self)@[key]@
            } else {
                Seq::empty()
            },
    {
        match self.insert(key, Vec::new()) {
            Some(list) => list,
            None => Vec::new(),
        }
    }
}

proof fn lemma_entries_remove<K, V>(entries: Seq<(K, V)>, at: int)
    requires
        keys_distinct(entries),
        0 <= at < entries.len(),
    ensures
        keys_distinct(entries.remove(at)),
        entries_map(entries.remove(at)) == entries_map(entries).remove(entries[at].0),
{
    let new = entries.remove(at);
    let key = entries[at].0;
    assert forall|i: int, j: int| 0 <= i < j < new.len() implies (#[trigger] new[i]).0 != (
    #[trigger] new[j]).0 by {
        let i0 = if i < at { i } else { i + 1 };
        let j0 = if j < at { j } else { j + 1 };
        assert(entries[i0].0 != entries[j0].0);
    }
    lemma_entries_map(entries);
    lemma_entries_map(new);
    let want = entries_map(entries).remove(key);
    assert forall|k: K| #[trigger] entries_map(new).contains_key(k) <==> want.contains_key(k) by {
        if has_key(new, k) {
            let i = choose|i: int| 0 <= i < new.len() && (#[trigger] new[i]).0 == k;
            let i0 = if i < at { i } else { i + 1 };
            assert(entries[i0].0 == k);
            assert(entries[at].0 != entries[i0].0);
        }
        if has_key(entries, k) && k != key {
            let i = choose|i: int| 0 <= i < entries.len() && (#[trigger] entries[i]).0 == k;
            let i1 = if i < at { i } else { i - 1 };
            assert(new[i1].0 == k);
        }
    }
    assert forall|k: K| want.contains_key(k) implies #[trigger] entries_map(new)[k] == want[k] by {
        assert(entries_map(new).contains_key(k));
        let i = choose|i: int| 0 <= i < new.len() && (#[trigger] new[i]).0 == k;
        let i0 = if i < at { i } else { i + 1 };
        assert(entries[i0].0 == k);
    }
    assert(entries_map(new) =~= want);
}

} // verus!
