//! One value per key: a thin layer over the key-value storage.
use vstd::prelude::*;
use crate::structures::traits::key::Key;
use crate::structures::traits::map::{Mapping, MapMut};
use crate::structures::entries::Entries;
use crate::structures::map_spec::{has_value, graph, lemma_graph_len, lemma_pairs_cover};

verus! {

broadcast use {vstd::set::group_set_axioms, vstd::map::group_map_axioms};

/// A map with one value per key.
pub struct SingleMap<K, V> {
    map: Entries<K, V>,
}

impl<K: Key, V: Key> View for SingleMap<K, V> {
    type V = Map<K, V>;

    closed spec fn view(&self) -> Map<K, V> {
        self.map@
    }
}

impl<K: Key, V: Key> SingleMap<K, V> {
    /// Creates an empty map.
    pub fn new() -> (m: Self)
        ensures
            m@ == Map::<K, V>::empty(),
    {
        SingleMap { map: Entries::new() }
    }

    /// Creates an empty map with room for `capacity` keys.
    pub fn with_capacity(capacity: usize) -> (m: Self)
        ensures
            m@ == Map::<K, V>::empty(),
    {
        SingleMap { map: Entries::new() }
    }

    /// Reserves room for more keys; the contents are unchanged.
    pub fn reserve(&mut self, additional: usize)
        ensures
            final(self)@ == old(self)@,
    {
    }

    /// Releases spare room; the contents are unchanged.
    pub fn shrink_to_fit(&mut self)
        ensures
            final(self)@ == old(self)@,
    {
    }

    /// Number of keys.
    pub fn len(&self) -> (n: usize)
        ensures
            n == self@.len(),
            self@.dom().finite(),
    {
        self.map.len()
    }

    /// Whether the map has no keys.
    pub fn is_empty(&self) -> (empty: bool)
        ensures
            empty == (self@.len() == 0),
    {
        self.map.len() == 0
    }

    /// Every key with its value.
    pub fn iter(&self) -> (pairs: Vec<(K, V)>)
        ensures
            pairs@.len() == self@.len(),
            forall|i: int| 0 <= i < pairs@.len() ==> self@.contains_key(#[trigger] pairs@[i].0) && self@[pairs@[i].0] == pairs@[i].1,
            forall|i: int, j: int| 0 <= i < pairs@.len() && 0 <= j < pairs@.len() && i != j ==> pairs@[i].0 != pairs@[j].0,
            self@.dom().finite(),
    {
        let pairs = self.map.pairs();
        let ghost keys = self.map.key_seq();
        proof {
            assert forall|i: int, j: int| 0 <= i < pairs@.len() && 0 <= j < pairs@.len() && i != j implies pairs@[i].0 != pairs@[j].0 by {
                assert(pairs@.map_values(|p: (K, V)| p.0)[i] == keys[i]);
                assert(pairs@.map_values(|p: (K, V)| p.0)[j] == keys[j]);
            }
        }
        pairs
    }

    /// Every key, each once.
    pub fn keys(&self) -> (keys: Vec<K>)
        ensures
            keys@.no_duplicates(),
            keys@.to_set() == self@.dom(),
            keys@.len() == self@.len(),
    {
        self.map.keys()
    }

    /// Every value, once per key holding it.
    pub fn values(&self) -> (vals: Vec<V>)
        ensures
            vals@.len() == self@.len(),
            forall|i: int| 0 <= i < vals@.len() ==> has_value(self@, #[trigger] vals@[i]),
    {
        let vals = self.map.values();
        let ghost keys = self.map.key_seq();
        proof {
            assert forall|i: int| 0 <= i < vals@.len() implies has_value(self@, #[trigger] vals@[i]) by {
                assert(keys.to_set().contains(keys[i]));
                assert(self@.contains_key(keys[i]));
            }
        }
        vals
    }

    /// Removes every key.
    pub fn clear(&mut self)
        ensures
            final(self)@ == Map::<K, V>::empty(),
    {
        self.map.clear();
    }

    /// Keeps only the pairs `keep` accepts.
    pub fn retain<F: Fn(&K, &V) -> bool>(&mut self, keep: F)
        requires
            forall|k: &K, v: &V| #[trigger] keep.requires((k, v)),
        ensures
            final(self)@.dom().subset_of(old(self)@.dom()),
            forall|k: K| #[trigger] final(self)@.contains_key(k) ==> final(self)@[k] == old(self)@[k] && keep.ensures((&k, &old(self)@[k]), true),
            forall|k: K| #[trigger] old(self)@.contains_key(k) && !final(self)@.contains_key(k) ==> keep.ensures((&k, &old(self)@[k]), false),
    {
        self.map.retain(keep)
    }

    /// Whether `key` is present.
    pub fn contains_key(&self, key: &K) -> (found: bool)
        ensures
            found == self@.contains_key(*key),
    {
        self.map.contains_key(key)
    }

    /// The value of `key`.
    pub fn get(&self, key: &K) -> (value: Option<V>)
        ensures
            value == (if self@.contains_key(*key) { Some(self@[*key]) } else { None::<V> }),
    {
        match self.map.get(key) {
            Some(v) => Some(*v),
            None => None,
        }
    }

    /// The key and value stored for `key`.
    pub fn get_key_value(&self, key: &K) -> (entry: Option<(K, V)>)
        ensures
            entry == (if self@.contains_key(*key) { Some((*key, self@[*key])) } else { None::<(K, V)> }),
    {
        match self.map.get(key) {
            Some(v) => Some((*key, *v)),
            None => None,
        }
    }

    /// Whether `key` maps to exactly `value`.
    pub fn contains_pair(&self, key: &K, value: &V) -> (found: bool)
        ensures
            found == (self@.contains_key(*key) && self@[*key] == *value),
    {
        match self.map.get(key) {
            Some(v) => v.key_eq(value),
            None => false,
        }
    }

    /// Sets `key` to `value`, returning the value it replaced.
    pub fn insert(&mut self, key: K, value: V) -> (replaced: Option<V>)
        ensures
            final(self)@ == old(self)@.insert(key, value),
            replaced == (if old(self)@.contains_key(key) { Some(old(self)@[key]) } else { None::<V> }),
    {
        self.map.insert(key, value)
    }

    /// Inserts only when `key` is absent; returns whether it was inserted.
    pub fn try_insert(&mut self, key: K, value: V) -> (inserted: bool)
        ensures
            inserted == !old(self)@.contains_key(key),
            final(self)@ == (if inserted { old(self)@.insert(key, value) } else { old(self)@ }),
    {
        if self.map.contains_key(&key) {
            false
        } else {
            self.map.insert(key, value);
            true
        }
    }

    /// Removes `key`, returning its value.
    pub fn remove(&mut self, key: &K) -> (removed: Option<V>)
        ensures
            final(self)@ == old(self)@.remove(*key),
            removed == (if old(self)@.contains_key(*key) { Some(old(self)@[*key]) } else { None::<V> }),
    {
        self.map.remove(key)
    }

    /// Removes `key`, returning it with its value.
    pub fn remove_entry(&mut self, key: &K) -> (removed: Option<(K, V)>)
        ensures
            final(self)@ == old(self)@.remove(*key),
            removed == (if old(self)@.contains_key(*key) { Some((*key, old(self)@[*key])) } else { None::<(K, V)> }),
    {
        match self.map.remove(key) {
            Some(v) => Some((*key, v)),
            None => None,
        }
    }

    /// Removes `key` only when it maps to `value`.
    pub fn remove_pair(&mut self, key: &K, value: &V) -> (removed: bool)
        ensures
            removed == (old(self)@.contains_key(*key) && old(self)@[*key] == *value),
            final(self)@ == (if removed { old(self)@.remove(*key) } else { old(self)@ }),
    {
        if self.contains_pair(key, value) {
            self.map.remove(key);
            true
        } else {
            false
        }
    }
}

impl<K: Key, V: Key> Mapping for SingleMap<K, V> {
    type Key = K;
    type Value = V;

    open spec fn pair_set(&self) -> Set<(K, V)> {
        graph(self@)
    }

    fn len(&self) -> usize {
        SingleMap::len(self)
    }

    fn pair_count(&self) -> usize {
        let n = SingleMap::len(self);
        proof {
            lemma_graph_len(self@);
        }
        n
    }

    fn contains_key(&self, key: &K) -> bool {
        SingleMap::contains_key(self, key)
    }

    fn contains_pair(&self, key: &K, value: &V) -> bool {
        SingleMap::contains_pair(self, key, value)
    }

    fn keys(&self) -> Vec<K> {
        SingleMap::keys(self)
    }

    fn pairs(&self) -> Vec<(K, V)> {
        let pairs = self.iter();
        proof {
            lemma_pairs_cover(self@, pairs@);
        }
        pairs
    }
}

impl<K: Key, V: Key> MapMut for SingleMap<K, V> {
    fn insert_pair(&mut self, key: K, value: V) -> bool {
        if self.contains_pair(&key, &value) {
            false
        } else {
            self.insert(key, value);
            true
        }
    }

    fn remove_pair(&mut self, key: &K, value: &V) -> bool {
        SingleMap::remove_pair(self, key, value)
    }

    fn clear(&mut self) {
        SingleMap::clear(self)
    }
}

} // verus!
