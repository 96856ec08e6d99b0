//! Traits for key -> value structures.
use vstd::prelude::*;
use super::key::Key;

verus! {

/// Read access shared by key-to-value relationship structures.
pub trait Mapping {
    /// Type used to look up mappings.
    type Key: Key;
    /// Type on the value side of each pair.
    type Value: Key;

    /// The key-value pairs held.
    spec fn pair_set(&self) -> Set<(Self::Key, Self::Value)>;

    /// Number of keys.
    fn len(&self) -> usize;

    /// Whether the map contains no keys.
    fn is_empty(&self) -> bool {
        self.len() == 0
    }

    /// Number of key-value pairs.
    fn pair_count(&self) -> (n: usize)
        ensures
            self.pair_set().finite(),
            n == self.pair_set().len(),
    ;

    /// Whether `key` has at least one mapping.
    fn contains_key(&self, key: &Self::Key) -> bool;

    /// Whether the exact `(key, value)` relationship exists.
    fn contains_pair(&self, key: &Self::Key, value: &Self::Value) -> (found: bool)
        ensures
            found == self.pair_set().contains((*key, *value)),
    ;

    /// Every key that currently has mappings.
    fn keys(&self) -> Vec<Self::Key>;

    /// Every pair, once each.
    fn pairs(&self) -> (pairs: Vec<(Self::Key, Self::Value)>)
        ensures
            pairs@.to_set() == self.pair_set(),
    ;

    /// Whether every pair here is also in `other`.
    fn is_submap(&self, other: &Self) -> (sub: bool)
        ensures
            sub == self.pair_set().subset_of(other.pair_set()),
    {
        if self.pair_count() > other.pair_count() {
            proof {
                if self.pair_set().subset_of(other.pair_set()) {
                    vstd::set_lib::lemma_len_subset(self.pair_set(), other.pair_set());
                }
            }
            return false;
        }
        let mine = self.pairs();
        let mut i: usize = 0;
        while i < mine.len()
            invariant
                i <= mine@.len(),
                mine@.to_set() == self.pair_set(),
                forall|j: int| 0 <= j < i ==> other.pair_set().contains(#[trigger] mine@[j]),
            decreases mine@.len() - i,
        {
            let (k, v) = mine[i];
            if !other.contains_pair(&k, &v) {
                proof {
                    assert(mine@.to_set().contains(mine@[i as int]));
                }
                return false;
            }
            i += 1;
        }
        proof {
            assert forall|p: (Self::Key, Self::Value)| #[trigger] self.pair_set().contains(p) implies other.pair_set().contains(p) by {
                assert(mine@.to_set().contains(p));
                let j = choose|j: int| 0 <= j < mine@.len() && mine@[j] == p;
            }
        }
        true
    }

    /// Whether every pair of `other` is also here.
    fn is_supermap(&self, other: &Self) -> bool {
        other.is_submap(self)
    }
}

/// Mutation shared by key-to-value relationship structures.
pub trait MapMut: Mapping {
    /// Makes sure the pair is present. Returns whether the map changed.
    fn insert_pair(&mut self, key: Self::Key, value: Self::Value) -> bool;

    /// Removes only the exact `(key, value)` pair; returns whether it existed.
    fn remove_pair(&mut self, key: &Self::Key, value: &Self::Value) -> bool;

    /// Removes all mappings.
    fn clear(&mut self);
}

/// Maps that index their values as well as their keys.
pub trait ValueIndexed: Mapping {
    /// Whether at least one key maps to `value`.
    fn contains_value(&self, value: &Self::Value) -> bool;

    /// Number of distinct values.
    fn value_count(&self) -> usize;

    /// Distinct values.
    fn values(&self) -> Vec<Self::Value>;
}

/// Mutation for maps that keep a reverse value index.
pub trait ValueIndexedMut: ValueIndexed + MapMut {
    /// Removes a value from every key holding it. Returns whether it was there.
    fn remove_value(&mut self, value: &Self::Value) -> bool;
}

/// Each value belongs to at most one key.
pub trait UniqueValueMap: ValueIndexed {
    /// The sole key that owns `value`.
    fn key_of(&self, value: &Self::Value) -> Option<Self::Key>;
}

/// A value can belong to many keys.
pub trait SharedValueMap: ValueIndexed {
    /// Every key mapped to `value`.
    fn keys_of(&self, value: &Self::Value) -> Vec<Self::Key>;
}

} // verus!
