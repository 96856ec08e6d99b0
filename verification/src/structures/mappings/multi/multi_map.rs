//! A many-to-many relation indexed in both directions.
use vstd::prelude::*;
use crate::structures::traits::key::Key;
use crate::structures::traits::map::{Mapping, MapMut, ValueIndexed, ValueIndexedMut, SharedValueMap};
use crate::structures::relation::{Relation, image, preimage, domain, range};
use crate::structures::collections::sets::unordered_set::UnorderedSet;

verus! {

broadcast use {vstd::set::group_set_axioms, vstd::set_lib::group_set_lib_default, vstd::seq_lib::group_seq_properties};

/// Keys related to any number of values, and values to any number of keys.
pub struct MultiMap<K, V> {
    relation: Relation<K, V>,
}

impl<K: Key, V: Key> View for MultiMap<K, V> {
    type V = Set<(K, V)>;

    closed spec fn view(&self) -> Set<(K, V)> {
        self.relation@
    }
}

impl<K: Key, V: Key> MultiMap<K, V> {
    /// Creates an empty map.
    pub fn new() -> (m: Self)
        ensures
            m@ == Set::<(K, V)>::empty(),
    {
        MultiMap { relation: Relation::new() }
    }

    /// Creates an empty map with room for the given numbers of keys and values.
    pub fn with_capacities(keys: usize, values: usize) -> (m: Self)
        ensures
            m@ == Set::<(K, V)>::empty(),
    {
        Self::new()
    }

    /// Reserves room for more keys; the contents are unchanged.
    pub fn reserve_keys(&mut self, additional: usize)
        ensures
            final(self)@ == old(self)@,
    {
    }

    /// Reserves room for more values; the contents are unchanged.
    pub fn reserve_values(&mut self, additional: usize)
        ensures
            final(self)@ == old(self)@,
    {
    }

    /// Releases spare room; the contents are unchanged.
    pub fn shrink_to_fit(&mut self)
        ensures
            final(self)@ == old(self)@,
    {
    }

    /// The pairs form a finite relation. Always true.
    pub fn check_invariants(&self) -> (ok: bool)
        ensures
            ok,
            self@.finite(),
    {
        self.relation.pair_count();
        true
    }

    /// Number of keys with at least one value.
    pub fn len(&self) -> (n: usize)
        ensures
            n == domain(self@).len(),
    {
        self.relation.domain().len()
    }

    /// Number of values with at least one key.
    pub fn value_count(&self) -> (n: usize)
        ensures
            n == range(self@).len(),
    {
        self.relation.range().len()
    }

    /// Number of pairs.
    pub fn pair_count(&self) -> (n: usize)
        ensures
            n == self@.len(),
            self@.finite(),
    {
        self.relation.pair_count()
    }

    /// Whether there are no pairs.
    pub fn is_empty(&self) -> (empty: bool)
        ensures
            empty == (self@ == Set::<(K, V)>::empty()),
    {
        let n = self.relation.pair_count();
        proof {
            if n == 0 {
                assert(self@ =~= Set::<(K, V)>::empty());
            }
        }
        n == 0
    }

    /// Every key with at least one value.
    pub fn keys(&self) -> (keys: Vec<K>)
        ensures
            keys@.to_set() == domain(self@),
            keys@.no_duplicates(),
    {
        self.relation.domain().iter()
    }

    /// Every value with at least one key.
    pub fn values(&self) -> (values: Vec<V>)
        ensures
            values@.to_set() == range(self@),
            values@.no_duplicates(),
    {
        self.relation.range().iter()
    }

    /// Each key with the set of its values.
    pub fn iter(&self) -> (groups: Vec<(K, UnorderedSet<V>)>)
        ensures
            groups@.len() == domain(self@).len(),
            forall|i: int| 0 <= i < groups@.len() ==> domain(self@).contains(#[trigger] groups@[i].0) && groups@[i].1@ == image(self@, groups@[i].0),
            forall|k: K| #[trigger] domain(self@).contains(k) ==> exists|i: int| 0 <= i < groups@.len() && groups@[i].0 == k,
    {
        let keys = self.keys();
        proof {
            keys@.unique_seq_to_set();
        }
        let mut groups: Vec<(K, UnorderedSet<V>)> = Vec::new();
        let mut i: usize = 0;
        while i < keys.len()
            invariant
                i <= keys@.len(),
                keys@.to_set() == domain(self@),
                groups@.len() == i,
                forall|j: int| 0 <= j < i ==> #[trigger] groups@[j].0 == keys@[j] && groups@[j].1@ == image(self@, keys@[j]),
            decreases keys@.len() - i,
        {
            let k = keys[i];
            groups.push((k, self.relation.image(&k)));
            i += 1;
        }
        proof {
            assert forall|j: int| 0 <= j < groups@.len() implies domain(self@).contains(#[trigger] groups@[j].0) && groups@[j].1@ == image(self@, groups@[j].0) by {
                assert(keys@.to_set().contains(keys@[j]));
            }
            assert forall|k: K| #[trigger] domain(self@).contains(k) implies exists|j: int| 0 <= j < groups@.len() && groups@[j].0 == k by {
                assert(keys@.to_set().contains(k));
                let j = choose|j: int| 0 <= j < keys@.len() && keys@[j] == k;
                assert(groups@[j].0 == k);
            }
        }
        groups
    }

    /// Each value with the set of its keys.
    pub fn iter_by_value(&self) -> (groups: Vec<(V, UnorderedSet<K>)>)
        ensures
            groups@.len() == range(self@).len(),
            forall|i: int| 0 <= i < groups@.len() ==> range(self@).contains(#[trigger] groups@[i].0) && groups@[i].1@ == preimage(self@, groups@[i].0),
            forall|v: V| #[trigger] range(self@).contains(v) ==> exists|i: int| 0 <= i < groups@.len() && groups@[i].0 == v,
    {
        let values = self.values();
        proof {
            values@.unique_seq_to_set();
        }
        let mut groups: Vec<(V, UnorderedSet<K>)> = Vec::new();
        let mut i: usize = 0;
        while i < values.len()
            invariant
                i <= values@.len(),
                values@.to_set() == range(self@),
                groups@.len() == i,
                forall|j: int| 0 <= j < i ==> #[trigger] groups@[j].0 == values@[j] && groups@[j].1@ == preimage(self@, values@[j]),
            decreases values@.len() - i,
        {
            let v = values[i];
            groups.push((v, self.relation.preimage(&v)));
            i += 1;
        }
        proof {
            assert forall|j: int| 0 <= j < groups@.len() implies range(self@).contains(#[trigger] groups@[j].0) && groups@[j].1@ == preimage(self@, groups@[j].0) by {
                assert(values@.to_set().contains(values@[j]));
            }
            assert forall|v: V| #[trigger] range(self@).contains(v) implies exists|j: int| 0 <= j < groups@.len() && groups@[j].0 == v by {
                assert(values@.to_set().contains(v));
                let j = choose|j: int| 0 <= j < values@.len() && values@[j] == v;
                assert(groups@[j].0 == v);
            }
        }
        groups
    }

    /// Every pair.
    pub fn pairs(&self) -> (pairs: Vec<(K, V)>)
        ensures
            pairs@.to_set() == self@,
            pairs@.no_duplicates(),
    {
        self.relation.pairs()
    }

    /// Removes every pair.
    pub fn clear(&mut self)
        ensures
            final(self)@ == Set::<(K, V)>::empty(),
    {
        self.relation.clear();
    }

    /// Whether `key` has a value.
    pub fn contains_key(&self, key: &K) -> (found: bool)
        ensures
            found == domain(self@).contains(*key),
    {
        self.relation.contains_key(key)
    }

    /// Whether `value` has a key.
    pub fn contains_value(&self, value: &V) -> (found: bool)
        ensures
            found == range(self@).contains(*value),
    {
        self.relation.contains_value(value)
    }

    /// Whether `key` is related to `value`.
    pub fn contains_pair(&self, key: &K, value: &V) -> (found: bool)
        ensures
            found == self@.contains((*key, *value)),
    {
        self.relation.contains_pair(key, value)
    }

    /// The values of `key`, or `None` when it has none.
    pub fn get(&self, key: &K) -> (values: Option<UnorderedSet<V>>)
        ensures
            match values {
                Some(s) => domain(self@).contains(*key) && s@ == image(self@, *key),
                None => !domain(self@).contains(*key),
            },
    {
        if self.relation.contains_key(key) {
            Some(self.relation.image(key))
        } else {
            None
        }
    }

    /// The keys of `value`, or `None` when it has none.
    pub fn keys_of(&self, value: &V) -> (keys: Option<UnorderedSet<K>>)
        ensures
            match keys {
                Some(s) => range(self@).contains(*value) && s@ == preimage(self@, *value),
                None => !range(self@).contains(*value),
            },
    {
        if self.relation.contains_value(value) {
            Some(self.relation.preimage(value))
        } else {
            None
        }
    }

    /// Relates `key` to `value`; returns whether the pair was new.
    pub fn insert(&mut self, key: K, value: V) -> (added: bool)
        ensures
            added == !old(self)@.contains((key, value)),
            final(self)@ == old(self)@.insert((key, value)),
    {
        self.relation.insert(key, value)
    }

    /// Relates `key` to every value of `values`.
    pub fn insert_all(&mut self, key: K, values: &Vec<V>)
        ensures
            forall|p: (K, V)| #[trigger] final(self)@.contains(p) <==> (old(self)@.contains(p) || (p.0 == key && values@.contains(p.1))),
    {
        let mut i: usize = 0;
        while i < values.len()
            invariant
                i <= values@.len(),
                forall|p: (K, V)| #[trigger] self@.contains(p) <==> (old(self)@.contains(p) || (p.0 == key && values@.subrange(0, i as int).contains(p.1))),
            decreases values@.len() - i,
        {
            let ghost before = self@;
            self.relation.insert(key, values[i]);
            proof {
                assert(values@.subrange(0, i + 1) =~= values@.subrange(0, i as int).push(values@[i as int]));
                assert forall|p: (K, V)| #[trigger] self@.contains(p) <==> (old(self)@.contains(p) || (p.0 == key && values@.subrange(0, i + 1).contains(p.1))) by {
                    assert(self@.contains(p) <==> (before.contains(p) || p == (key, values@[i as int])));
                }
            }
            i += 1;
        }
        proof {
            assert(values@.subrange(0, values@.len() as int) =~= values@);
        }
    }

    /// Removes the pair `(key, value)`; returns whether it was present.
    pub fn remove_pair(&mut self, key: &K, value: &V) -> (removed: bool)
        ensures
            removed == old(self)@.contains((*key, *value)),
            final(self)@ == old(self)@.remove((*key, *value)),
    {
        self.relation.remove_pair(key, value)
    }

    /// Removes `key` with all its pairs; returns its values.
    pub fn remove(&mut self, key: &K) -> (removed: Option<UnorderedSet<V>>)
        ensures
            final(self)@ == old(self)@.filter(|p: (K, V)| p.0 != *key),
            match removed {
                Some(s) => domain(old(self)@).contains(*key) && s@ == image(old(self)@, *key),
                None => !domain(old(self)@).contains(*key),
            },
    {
        if !self.relation.contains_key(key) {
            proof {
                assert forall|p: (K, V)| old(self)@.contains(p) implies p.0 != *key by {
                    if p.0 == *key {
                        assert(old(self)@.contains((*key, p.1)));
                    }
                }
                assert(old(self)@.filter(|p: (K, V)| p.0 != *key) =~= old(self)@);
            }
            return None;
        }
        Some(self.relation.remove_key(key))
    }

    /// Removes `value` from every key; returns the keys it had.
    pub fn remove_value(&mut self, value: &V) -> (removed: Option<UnorderedSet<K>>)
        ensures
            final(self)@ == old(self)@.filter(|p: (K, V)| p.1 != *value),
            match removed {
                Some(s) => range(old(self)@).contains(*value) && s@ == preimage(old(self)@, *value),
                None => !range(old(self)@).contains(*value),
            },
    {
        if !self.relation.contains_value(value) {
            proof {
                assert forall|p: (K, V)| old(self)@.contains(p) implies p.1 != *value by {
                    if p.1 == *value {
                        assert(old(self)@.contains((p.0, *value)));
                    }
                }
                assert(old(self)@.filter(|p: (K, V)| p.1 != *value) =~= old(self)@);
            }
            return None;
        }
        Some(self.relation.remove_value(value))
    }

    /// Keeps only the pairs `keep` accepts.
    pub fn retain<F: Fn(&K, &V) -> bool>(&mut self, keep: F)
        requires
            forall|k: &K, v: &V| #[trigger] keep.requires((k, v)),
        ensures
            final(self)@.subset_of(old(self)@),
            forall|p: (K, V)| #[trigger] final(self)@.contains(p) ==> keep.ensures((&p.0, &p.1), true),
            forall|p: (K, V)| old(self)@.contains(p) && !final(self)@.contains(p) ==> #[trigger] keep.ensures((&p.0, &p.1), false),
    {
        self.relation.retain(keep)
    }
}

impl<K: Key, V: Key> Mapping for MultiMap<K, V> {
    type Key = K;
    type Value = V;

    open spec fn pair_set(&self) -> Set<(K, V)> {
        self@
    }

    fn len(&self) -> usize {
        MultiMap::len(self)
    }

    fn pair_count(&self) -> usize {
        MultiMap::pair_count(self)
    }

    fn contains_key(&self, key: &K) -> bool {
        MultiMap::contains_key(self, key)
    }

    fn contains_pair(&self, key: &K, value: &V) -> bool {
        MultiMap::contains_pair(self, key, value)
    }

    fn keys(&self) -> Vec<K> {
        MultiMap::keys(self)
    }

    fn pairs(&self) -> Vec<(K, V)> {
        MultiMap::pairs(self)
    }
}

impl<K: Key, V: Key> MapMut for MultiMap<K, V> {
    fn insert_pair(&mut self, key: K, value: V) -> bool {
        self.insert(key, value)
    }

    fn remove_pair(&mut self, key: &K, value: &V) -> bool {
        MultiMap::remove_pair(self, key, value)
    }

    fn clear(&mut self) {
        MultiMap::clear(self)
    }
}

impl<K: Key, V: Key> ValueIndexed for MultiMap<K, V> {
    fn contains_value(&self, value: &V) -> bool {
        MultiMap::contains_value(self, value)
    }

    fn value_count(&self) -> usize {
        MultiMap::value_count(self)
    }

    fn values(&self) -> Vec<V> {
        MultiMap::values(self)
    }
}

impl<K: Key, V: Key> ValueIndexedMut for MultiMap<K, V> {
    fn remove_value(&mut self, value: &V) -> bool {
        MultiMap::remove_value(self, value).is_some()
    }
}

impl<K: Key, V: Key> SharedValueMap for MultiMap<K, V> {
    fn keys_of(&self, value: &V) -> Vec<K> {
        match MultiMap::keys_of(self, value) {
            Some(s) => s.iter(),
            None => Vec::new(),
        }
    }
}

} // verus!
