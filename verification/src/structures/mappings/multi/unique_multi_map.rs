//! A one-to-many map in which every value has exactly one owner.
use vstd::prelude::*;
use crate::structures::traits::key::Key;
use crate::structures::traits::map::{Mapping, MapMut, ValueIndexed, ValueIndexedMut, UniqueValueMap};
use crate::structures::relation::{Relation, image, preimage, domain, range, unique_values};
use crate::structures::collections::sets::unordered_set::UnorderedSet;

verus! {

broadcast use {vstd::set::group_set_axioms, vstd::set_lib::group_set_lib_default, vstd::seq_lib::group_seq_properties};

/// Keys owning any number of values; each value has at most one owner.
pub struct UniqueMultiMap<K, V> {
    relation: Relation<K, V>,
}

impl<K, V> UniqueMultiMap<K, V> {
    #[verifier::type_invariant]
    spec fn inv(self) -> bool {
        unique_values(self.relation@)
    }
}

impl<K: Key, V: Key> View for UniqueMultiMap<K, V> {
    type V = Set<(K, V)>;

    closed spec fn view(&self) -> Set<(K, V)> {
        self.relation@
    }
}

impl<K: Key, V: Key> UniqueMultiMap<K, V> {
    /// Creates an empty map.
    pub fn new() -> (m: Self)
        ensures
            m@ == Set::<(K, V)>::empty(),
    {
        UniqueMultiMap { relation: Relation::new() }
    }

    /// Creates an empty map with room for the given numbers of keys and values.
    pub fn with_capacities(keys: usize, values: usize) -> (m: Self)
        ensures
            m@ == Set::<(K, V)>::empty(),
    {
        Self::new()
    }

    /// Reserves room for more keys; the contents are unchanged.
    pub fn reserve_keys(&mut self, additional: usize)
        ensures
            final(self)@ == old(self)@,
    {
    }

    /// Reserves room for more values; the contents are unchanged.
    pub fn reserve_values(&mut self, additional: usize)
        ensures
            final(self)@ == old(self)@,
    {
    }

    /// Releases spare room; the contents are unchanged.
    pub fn shrink_to_fit(&mut self)
        ensures
            final(self)@ == old(self)@,
    {
    }

    /// Every value has one owner and the pairs are finite. Always true.
    pub fn check_invariants(&self) -> (ok: bool)
        ensures
            ok,
            self@.finite(),
            unique_values(self@),
    {
        proof {
            use_type_invariant(self);
        }
        self.relation.pair_count();
        true
    }

    /// Number of keys with at least one value.
    pub fn len(&self) -> (n: usize)
        ensures
            n == domain(self@).len(),
    {
        self.relation.domain().len()
    }

    /// Number of values with at least one key.
    pub fn value_count(&self) -> (n: usize)
        ensures
            n == range(self@).len(),
    {
        self.relation.range().len()
    }

    /// Number of pairs.
    pub fn pair_count(&self) -> (n: usize)
        ensures
            n == self@.len(),
            self@.finite(),
    {
        self.relation.pair_count()
    }

    /// Whether there are no pairs.
    pub fn is_empty(&self) -> (empty: bool)
        ensures
            empty == (self@ == Set::<(K, V)>::empty()),
    {
        let n = self.relation.pair_count();
        proof {
            if n == 0 {
                assert(self@ =~= Set::<(K, V)>::empty());
            }
        }
        n == 0
    }

    /// Every key with at least one value.
    pub fn keys(&self) -> (keys: Vec<K>)
        ensures
            keys@.to_set() == domain(self@),
            keys@.no_duplicates(),
    {
        self.relation.domain().iter()
    }

    /// Every value with at least one key.
    pub fn values(&self) -> (values: Vec<V>)
        ensures
            values@.to_set() == range(self@),
            values@.no_duplicates(),
    {
        self.relation.range().iter()
    }

    /// Each key with the set of its values.
    pub fn iter(&self) -> (groups: Vec<(K, UnorderedSet<V>)>)
        ensures
            groups@.len() == domain(self@).len(),
            forall|i: int| 0 <= i < groups@.len() ==> domain(self@).contains(#[trigger] groups@[i].0) && groups@[i].1@ == image(self@, groups@[i].0),
            forall|k: K| #[trigger] domain(self@).contains(k) ==> exists|i: int| 0 <= i < groups@.len() && groups@[i].0 == k,
    {
        let keys = self.keys();
        proof {
            keys@.unique_seq_to_set();
        }
        let mut groups: Vec<(K, UnorderedSet<V>)> = Vec::new();
        let mut i: usize = 0;
        while i < keys.len()
            invariant
                i <= keys@.len(),
                keys@.to_set() == domain(self@),
                groups@.len() == i,
                forall|j: int| 0 <= j < i ==> #[trigger] groups@[j].0 == keys@[j] && groups@[j].1@ == image(self@, keys@[j]),
            decreases keys@.len() - i,
        {
            let k = keys[i];
            groups.push((k, self.relation.image(&k)));
            i += 1;
        }
        proof {
            assert forall|j: int| 0 <= j < groups@.len() implies domain(self@).contains(#[trigger] groups@[j].0) && groups@[j].1@ == image(self@, groups@[j].0) by {
                assert(keys@.to_set().contains(keys@[j]));
            }
            assert forall|k: K| #[trigger] domain(self@).contains(k) implies exists|j: int| 0 <= j < groups@.len() && groups@[j].0 == k by {
                assert(keys@.to_set().contains(k));
                let j = choose|j: int| 0 <= j < keys@.len() && keys@[j] == k;
                assert(groups@[j].0 == k);
            }
        }
        groups
    }

    /// Each value with the set of its keys.
    pub fn iter_by_value(&self) -> (groups: Vec<(V, UnorderedSet<K>)>)
        ensures
            groups@.len() == range(self@).len(),
            forall|i: int| 0 <= i < groups@.len() ==> range(self@).contains(#[trigger] groups@[i].0) && groups@[i].1@ == preimage(self@, groups@[i].0),
            forall|v: V| #[trigger] range(self@).contains(v) ==> exists|i: int| 0 <= i < groups@.len() && groups@[i].0 == v,
    {
        let values = self.values();
        proof {
            values@.unique_seq_to_set();
        }
        let mut groups: Vec<(V, UnorderedSet<K>)> = Vec::new();
        let mut i: usize = 0;
        while i < values.len()
            invariant
                i <= values@.len(),
                values@.to_set() == range(self@),
                groups@.len() == i,
                forall|j: int| 0 <= j < i ==> #[trigger] groups@[j].0 == values@[j] && groups@[j].1@ == preimage(self@, values@[j]),
            decreases values@.len() - i,
        {
            let v = values[i];
            groups.push((v, self.relation.preimage(&v)));
            i += 1;
        }
        proof {
            assert forall|j: int| 0 <= j < groups@.len() implies range(self@).contains(#[trigger] groups@[j].0) && groups@[j].1@ == preimage(self@, groups@[j].0) by {
                assert(values@.to_set().contains(values@[j]));
            }
            assert forall|v: V| #[trigger] range(self@).contains(v) implies exists|j: int| 0 <= j < groups@.len() && groups@[j].0 == v by {
                assert(values@.to_set().contains(v));
                let j = choose|j: int| 0 <= j < values@.len() && values@[j] == v;
                assert(groups@[j].0 == v);
            }
        }
        groups
    }

    /// Every pair.
    pub fn pairs(&self) -> (pairs: Vec<(K, V)>)
        ensures
            pairs@.to_set() == self@,
            pairs@.no_duplicates(),
    {
        self.relation.pairs()
    }

    /// Removes every pair.
    pub fn clear(&mut self)
        ensures
            final(self)@ == Set::<(K, V)>::empty(),
    {
        self.relation = Relation::new();
    }

    /// Whether `key` has a value.
    pub fn contains_key(&self, key: &K) -> (found: bool)
        ensures
            found == domain(self@).contains(*key),
    {
        self.relation.contains_key(key)
    }

    /// Whether `value` has a key.
    pub fn contains_value(&self, value: &V) -> (found: bool)
        ensures
            found == range(self@).contains(*value),
    {
        self.relation.contains_value(value)
    }

    /// Whether `key` is related to `value`.
    pub fn contains_pair(&self, key: &K, value: &V) -> (found: bool)
        ensures
            found == self@.contains((*key, *value)),
    {
        self.relation.contains_pair(key, value)
    }

    /// The values of `key`, or `None` when it has none.
    pub fn get(&self, key: &K) -> (values: Option<UnorderedSet<V>>)
        ensures
            match values {
                Some(s) => domain(self@).contains(*key) && s@ == image(self@, *key),
                None => !domain(self@).contains(*key),
            },
    {
        if self.relation.contains_key(key) {
            Some(self.relation.image(key))
        } else {
            None
        }
    }

    /// Gives `value` to `key` unless `value` already has an owner; returns
    /// whether it was added.
    pub fn insert(&mut self, key: K, value: V) -> (added: bool)
        ensures
            added == !range(old(self)@).contains(value),
            final(self)@ == (if added { old(self)@.insert((key, value)) } else { old(self)@ }),
    {
        proof {
            use_type_invariant(&*self);
        }
        if self.relation.contains_value(&value) {
            return false;
        }
        let mut relation = Relation::new();
        std::mem::swap(&mut relation, &mut self.relation);
        relation.insert(key, value);
        proof {
            assert forall|a: K, b: K, v: V| #[trigger] relation@.contains((a, v)) && #[trigger] relation@.contains((b, v)) implies a == b by {
                if v != value {
                    assert(old(self)@.contains((a, v)) && old(self)@.contains((b, v)));
                } else {
                    if a != key {
                        assert(old(self)@.contains((a, v)));
                    }
                    if b != key {
                        assert(old(self)@.contains((b, v)));
                    }
                }
            }
        }
        self.relation = relation;
        true
    }

    /// The owner of `value`.
    pub fn key_of(&self, value: &V) -> (owner: Option<K>)
        ensures
            match owner {
                Some(k) => self@.contains((k, *value)),
                None => !range(self@).contains(*value),
            },
    {
        let keys = self.relation.preimage(value).iter();
        if keys.len() == 0 {
            proof {
                if range(self@).contains(*value) {
                    let k = choose|k: K| #[trigger] self@.contains((k, *value));
                    assert(preimage(self@, *value).contains(k));
                    assert(keys@.to_set().contains(k));
                }
            }
            None
        } else {
            proof {
                assert(keys@.to_set().contains(keys@[0]));
            }
            Some(keys[0])
        }
    }

    /// Gives `value` to `key`, taking it from any other owner. Returns the
    /// previous owner.
    pub fn insert_or_move(&mut self, key: K, value: V) -> (previous: Option<K>)
        ensures
            final(self)@ == old(self)@.filter(|p: (K, V)| p.1 != value).insert((key, value)),
            match previous {
                Some(k) => old(self)@.contains((k, value)),
                None => !range(old(self)@).contains(value),
            },
    {
        proof {
            use_type_invariant(&*self);
        }
        if self.relation.contains_pair(&key, &value) {
            proof {
                assert forall|p: (K, V)| #[trigger] old(self)@.contains(p) && p.1 == value implies p == (key, value) by {
                    assert(old(self)@.contains((p.0, value)));
                    assert(old(self)@.contains((key, value)));
                }
                assert(old(self)@.filter(|p: (K, V)| p.1 != value).insert((key, value)) =~= old(self)@);
            }
            return Some(key);
        }
        let previous = self.remove_value(&value);
        proof {
            assert(!range(self@).contains(value)) by {
                if range(self@).contains(value) {
                    let k = choose|k: K| #[trigger] self@.contains((k, value));
                }
            }
        }
        self.insert(key, value);
        previous
    }

    /// Gives `key` every value of `values` that has no owner yet.
    pub fn insert_all(&mut self, key: K, values: &Vec<V>)
        ensures
            old(self)@.subset_of(final(self)@),
            forall|p: (K, V)| #[trigger] final(self)@.contains(p) ==> (old(self)@.contains(p) || (p.0 == key && values@.contains(p.1))),
            forall|v: V| values@.contains(v) ==> #[trigger] range(final(self)@).contains(v),
    {
        let mut i: usize = 0;
        while i < values.len()
            invariant
                i <= values@.len(),
                old(self)@.subset_of(self@),
                forall|p: (K, V)| #[trigger] self@.contains(p) ==> (old(self)@.contains(p) || (p.0 == key && values@.subrange(0, i as int).contains(p.1))),
                forall|v: V| values@.subrange(0, i as int).contains(v) ==> #[trigger] range(self@).contains(v),
            decreases values@.len() - i,
        {
            let ghost before = self@;
            let v = values[i];
            let added = self.insert(key, v);
            proof {
                assert(values@.subrange(0, i + 1) =~= values@.subrange(0, i as int).push(v));
                if !added {
                    assert(range(self@).contains(v));
                } else {
                    assert(self@.contains((key, v)));
                }
                assert forall|w: V| values@.subrange(0, i + 1).contains(w) implies #[trigger] range(self@).contains(w) by {
                    if w != v {
                        assert(values@.subrange(0, i as int).contains(w));
                        assert(range(before).contains(w));
                        let k = choose|k: K| #[trigger] before.contains((k, w));
                        assert(self@.contains((k, w)));
                    }
                }
            }
            i += 1;
        }
        proof {
            assert(values@.subrange(0, values@.len() as int) =~= values@);
        }
    }

    /// Removes the pair `(key, value)`; returns whether it was present.
    pub fn remove_pair(&mut self, key: &K, value: &V) -> (removed: bool)
        ensures
            removed == old(self)@.contains((*key, *value)),
            final(self)@ == old(self)@.remove((*key, *value)),
    {
        proof {
            use_type_invariant(&*self);
        }
        let mut relation = Relation::new();
        std::mem::swap(&mut relation, &mut self.relation);
        let removed = relation.remove_pair(key, value);
        self.relation = relation;
        removed
    }

    /// Removes `key` with all its pairs; returns its values.
    pub fn remove(&mut self, key: &K) -> (removed: Option<UnorderedSet<V>>)
        ensures
            final(self)@ == old(self)@.filter(|p: (K, V)| p.0 != *key),
            match removed {
                Some(s) => domain(old(self)@).contains(*key) && s@ == image(old(self)@, *key),
                None => !domain(old(self)@).contains(*key),
            },
    {
        if !self.relation.contains_key(key) {
            proof {
                assert forall|p: (K, V)| old(self)@.contains(p) implies p.0 != *key by {
                    if p.0 == *key {
                        assert(old(self)@.contains((*key, p.1)));
                    }
                }
                assert(old(self)@.filter(|p: (K, V)| p.0 != *key) =~= old(self)@);
            }
            return None;
        }
        proof {
            use_type_invariant(&*self);
        }
        let mut relation = Relation::new();
        std::mem::swap(&mut relation, &mut self.relation);
        let removed = relation.remove_key(key);
        self.relation = relation;
        Some(removed)
    }

    /// Removes `value` from its owner; returns the owner.
    pub fn remove_value(&mut self, value: &V) -> (owner: Option<K>)
        ensures
            final(self)@ == old(self)@.filter(|p: (K, V)| p.1 != *value),
            match owner {
                Some(k) => old(self)@.contains((k, *value)),
                None => !range(old(self)@).contains(*value),
            },
    {
        proof {
            use_type_invariant(&*self);
        }
        let owner = self.key_of(value);
        let mut relation = Relation::new();
        std::mem::swap(&mut relation, &mut self.relation);
        relation.remove_value(value);
        self.relation = relation;
        owner
    }

    /// Keeps only the pairs `keep` accepts.
    pub fn retain<F: Fn(&K, &V) -> bool>(&mut self, keep: F)
        requires
            forall|k: &K, v: &V| #[trigger] keep.requires((k, v)),
        ensures
            final(self)@.subset_of(old(self)@),
            forall|p: (K, V)| #[trigger] final(self)@.contains(p) ==> keep.ensures((&p.0, &p.1), true),
            forall|p: (K, V)| old(self)@.contains(p) && !final(self)@.contains(p) ==> #[trigger] keep.ensures((&p.0, &p.1), false),
    {
        proof {
            use_type_invariant(&*self);
        }
        let mut relation = Relation::new();
        std::mem::swap(&mut relation, &mut self.relation);
        relation.retain(keep);
        self.relation = relation;
    }
}

impl<K: Key, V: Key> Mapping for UniqueMultiMap<K, V> {
    type Key = K;
    type Value = V;

    open spec fn pair_set(&self) -> Set<(K, V)> {
        self@
    }

    fn len(&self) -> usize {
        UniqueMultiMap::len(self)
    }

    fn pair_count(&self) -> usize {
        UniqueMultiMap::pair_count(self)
    }

    fn contains_key(&self, key: &K) -> bool {
        UniqueMultiMap::contains_key(self, key)
    }

    fn contains_pair(&self, key: &K, value: &V) -> bool {
        UniqueMultiMap::contains_pair(self, key, value)
    }

    fn keys(&self) -> Vec<K> {
        UniqueMultiMap::keys(self)
    }

    fn pairs(&self) -> Vec<(K, V)> {
        UniqueMultiMap::pairs(self)
    }
}

impl<K: Key, V: Key> MapMut for UniqueMultiMap<K, V> {
    fn insert_pair(&mut self, key: K, value: V) -> bool {
        self.insert(key, value)
    }

    fn remove_pair(&mut self, key: &K, value: &V) -> bool {
        UniqueMultiMap::remove_pair(self, key, value)
    }

    fn clear(&mut self) {
        UniqueMultiMap::clear(self)
    }
}

impl<K: Key, V: Key> ValueIndexed for UniqueMultiMap<K, V> {
    fn contains_value(&self, value: &V) -> bool {
        UniqueMultiMap::contains_value(self, value)
    }

    fn value_count(&self) -> usize {
        UniqueMultiMap::value_count(self)
    }

    fn values(&self) -> Vec<V> {
        UniqueMultiMap::values(self)
    }
}

impl<K: Key, V: Key> ValueIndexedMut for UniqueMultiMap<K, V> {
    fn remove_value(&mut self, value: &V) -> bool {
        UniqueMultiMap::remove_value(self, value).is_some()
    }
}

impl<K: Key, V: Key> UniqueValueMap for UniqueMultiMap<K, V> {
    fn key_of(&self, value: &V) -> Option<K> {
        UniqueMultiMap::key_of(self, value)
    }
}

} // verus!
