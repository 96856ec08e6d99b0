//! Key-value storage shared by the maps: keys without repeats, each paired
//! with one value, in insertion order.
use vstd::prelude::*;
use super::traits::key::Key;
use super::vec_ops::{position_of, copy_vec, lemma_remove_unique, lemma_push_unique, lemma_unique_len};

verus! {

broadcast use {vstd::seq_lib::group_seq_properties, vstd::set::group_set_axioms, vstd::seq_lib::seq_to_set_is_finite, vstd::map::group_map_axioms};

/// The map that parallel key and value sequences describe.
pub open spec fn entries_map<K, V>(keys: Seq<K>, vals: Seq<V>) -> Map<K, V> {
    Map::new(|k: K| keys.contains(k), |k: K| vals[keys.index_of(k)])
}

/// In a sequence without repeats, a value's index is its only position.
pub proof fn lemma_index_of_unique<K>(keys: Seq<K>, i: int)
    requires
        keys.no_duplicates(),
        0 <= i < keys.len(),
    ensures
        keys.index_of(keys[i]) == i,
{
    assert(keys.contains(keys[i]));
    let j = keys.index_of(keys[i]);
    assert(0 <= j < keys.len() && keys[j] == keys[i]);
}

/// Keys paired with values.
pub struct Entries<K, V> {
    keys: Vec<K>,
    vals: Vec<V>,
}

impl<K, V> Entries<K, V> {
    #[verifier::type_invariant]
    spec fn inv(self) -> bool {
        &&& self.keys@.no_duplicates()
        &&& self.keys@.len() == self.vals@.len()
    }
}

impl<K, V> View for Entries<K, V> {
    type V = Map<K, V>;

    closed spec fn view(&self) -> Map<K, V> {
        entries_map(self.keys@, self.vals@)
    }
}

impl<K: Key, V> Entries<K, V> {
    /// The keys in storage order.
    pub closed spec fn key_seq(&self) -> Seq<K> {
        self.keys@
    }

    /// A key is listed exactly when the map has it.
    pub proof fn lemma_key_seq_members(self)
        ensures
            forall|k: K| #[trigger] self.key_seq().contains(k) == self@.contains_key(k),
    {
        assert(self.key_seq().to_set() =~= self@.dom());
    }

    /// The keys are exactly the map's keys, each once.
    pub proof fn lemma_key_seq(self)
        requires
            self.key_seq().no_duplicates(),
        ensures
            self.key_seq().to_set() == self@.dom(),
            self@.dom().finite(),
            self@.dom().len() == self.key_seq().len(),
    {
        assert(self.key_seq().to_set() =~= self@.dom());
        lemma_unique_len(self.keys@);
    }

    fn take_parts(&mut self) -> (parts: (Vec<K>, Vec<V>))
        ensures
            parts.0@ == old(self).keys@,
            parts.1@ == old(self).vals@,
            parts.0@.no_duplicates(),
            parts.0@.len() == parts.1@.len(),
            final(self).keys@ == Seq::<K>::empty(),
            final(self).vals@ == Seq::<V>::empty(),
    {
        proof {
            use_type_invariant(&*self);
        }
        let mut e: Entries<K, V> = Entries { keys: Vec::new(), vals: Vec::new() };
        std::mem::swap(&mut e, self);
        let Entries { keys, vals } = e;
        (keys, vals)
    }

    /// Creates an empty store.
    pub fn new() -> (e: Self)
        ensures
            e@ == Map::<K, V>::empty(),
            e.key_seq() == Seq::<K>::empty(),
    {
        let e = Entries { keys: Vec::new(), vals: Vec::new() };
        proof {
            assert(e@ =~= Map::<K, V>::empty());
        }
        e
    }

    /// Number of keys.
    pub fn len(&self) -> (n: usize)
        ensures
            n == self@.len(),
            n == self.key_seq().len(),
            self@.dom().finite(),
            self.key_seq().no_duplicates(),
            self.key_seq().to_set() == self@.dom(),
    {
        proof {
            use_type_invariant(self);
            self.lemma_key_seq();
        }
        self.keys.len()
    }

    /// Position of `key` in storage order.
    fn find(&self, key: &K) -> (found: Option<usize>)
        ensures
            self.keys@.no_duplicates(),
            self.keys@.len() == self.vals@.len(),
            match found {
                Some(i) => i < self.keys@.len() && self.keys@[i as int] == *key
                    && self@.contains_key(*key) && self@[*key] == self.vals@[i as int],
                None => !self@.contains_key(*key),
            },
    {
        proof {
            use_type_invariant(self);
        }
        let found = position_of(&self.keys, key);
        proof {
            if let Some(i) = found {
                lemma_index_of_unique(self.keys@, i as int);
            }
        }
        found
    }

    /// Whether `key` is present.
    pub fn contains_key(&self, key: &K) -> (found: bool)
        ensures
            found == self@.contains_key(*key),
    {
        self.find(key).is_some()
    }

    /// The value stored for `key`.
    pub fn get(&self, key: &K) -> (value: Option<&V>)
        ensures
            match value {
                Some(v) => self@.contains_key(*key) && *v == self@[*key],
                None => !self@.contains_key(*key),
            },
    {
        match self.find(key) {
            Some(i) => Some(&self.vals[i]),
            None => None,
        }
    }

    /// The key at `index` in storage order, with its value.
    pub fn entry_at(&self, index: usize) -> (entry: (K, &V))
        requires
            index < self.key_seq().len(),
        ensures
            entry.0 == self.key_seq()[index as int],
            self@.contains_key(entry.0),
            *entry.1 == self@[entry.0],
    {
        proof {
            use_type_invariant(self);
            lemma_index_of_unique(self.keys@, index as int);
        }
        (self.keys[index], &self.vals[index])
    }

    /// Sets `key` to `value`, returning the value it replaced.
    pub fn insert(&mut self, key: K, value: V) -> (replaced: Option<V>)
        ensures
            final(self)@ == old(self)@.insert(key, value),
            match replaced {
                Some(v) => old(self)@.contains_key(key) && v == old(self)@[key],
                None => !old(self)@.contains_key(key),
            },
            old(self)@.contains_key(key) ==> final(self).key_seq() == old(self).key_seq(),
            !old(self)@.contains_key(key) ==> final(self).key_seq() == old(self).key_seq().push(key),
    {
        let found = self.find(&key);
        let (mut keys, mut vals) = self.take_parts();
        let ghost ok = keys@;
        let ghost ov = vals@;
        match found {
            Some(i) => {
                let old_value = vals.remove(i);
                vals.insert(i, value);
                proof {
                    assert(vals@ =~= ov.update(i as int, value));
                    assert forall|k: K| #[trigger] entries_map(keys@, vals@).contains_key(k) implies
                        entries_map(keys@, vals@)[k] == old(self)@.insert(key, value)[k] by {
                        let j = keys@.index_of(k);
                        assert(0 <= j < keys@.len() && keys@[j] == k);
                        lemma_index_of_unique(keys@, j);
                        if k == key {
                            lemma_index_of_unique(keys@, i as int);
                        } else {
                            assert(j != i);
                        }
                    }
                    assert(entries_map(keys@, vals@) =~= old(self)@.insert(key, value));
                }
                *self = Entries { keys, vals };
                Some(old_value)
            },
            None => {
                proof {
                    lemma_push_unique(keys@, key);
                }
                keys.push(key);
                vals.push(value);
                proof {
                    assert forall|k: K| #[trigger] entries_map(keys@, vals@).contains_key(k) implies
                        entries_map(keys@, vals@)[k] == old(self)@.insert(key, value)[k] by {
                        let j = keys@.index_of(k);
                        assert(0 <= j < keys@.len() && keys@[j] == k);
                        lemma_index_of_unique(keys@, j);
                        if k != key {
                            assert(j < ok.len());
                            lemma_index_of_unique(ok, j);
                            assert(ok.index_of(k) == j);
                        }
                    }
                    assert(entries_map(keys@, vals@) =~= old(self)@.insert(key, value));
                }
                *self = Entries { keys, vals };
                None
            },
        }
    }

    /// Removes `key`, returning its value.
    pub fn remove(&mut self, key: &K) -> (removed: Option<V>)
        ensures
            final(self)@ == old(self)@.remove(*key),
            match removed {
                Some(v) => old(self)@.contains_key(*key) && v == old(self)@[*key],
                None => !old(self)@.contains_key(*key),
            },
            final(self).key_seq() == (if old(self)@.contains_key(*key) {
                old(self).key_seq().remove(old(self).key_seq().index_of(*key))
            } else {
                old(self).key_seq()
            }),
    {
        let found = self.find(key);
        match found {
            Some(i) => {
                let (mut keys, mut vals) = self.take_parts();
                let ghost ok = keys@;
                let ghost ov = vals@;
                proof {
                    lemma_remove_unique(keys@, i as int);
                    lemma_index_of_unique(ok, i as int);
                }
                keys.remove(i);
                let v = vals.remove(i);
                proof {
                    assert forall|k: K| #[trigger] entries_map(keys@, vals@).contains_key(k) implies
                        entries_map(keys@, vals@)[k] == old(self)@.remove(*key)[k] by {
                        let j = keys@.index_of(k);
                        assert(0 <= j < keys@.len() && keys@[j] == k);
                        lemma_index_of_unique(keys@, j);
                        let oj = if j < i { j } else { j + 1 };
                        assert(ok[oj] == k);
                        lemma_index_of_unique(ok, oj);
                    }
                    assert(entries_map(keys@, vals@) =~= old(self)@.remove(*key));
                }
                *self = Entries { keys, vals };
                Some(v)
            },
            None => {
                proof {
                    assert(old(self)@.remove(*key) =~= old(self)@);
                }
                None
            },
        }
    }

    /// Removes every entry.
    pub fn clear(&mut self)
        ensures
            final(self)@ == Map::<K, V>::empty(),
            final(self).key_seq() == Seq::<K>::empty(),
    {
        *self = Entries { keys: Vec::new(), vals: Vec::new() };
        proof {
            assert(self@ =~= Map::<K, V>::empty());
        }
    }

    /// The keys in storage order.
    pub fn keys(&self) -> (keys: Vec<K>)
        ensures
            keys@ == self.key_seq(),
            keys@.no_duplicates(),
            keys@.to_set() == self@.dom(),
            keys@.len() == self@.len(),
    {
        proof {
            use_type_invariant(self);
            self.lemma_key_seq();
        }
        copy_vec(&self.keys)
    }
}

impl<K: Key, V: Copy> Entries<K, V> {
    /// Every key with its value, in storage order.
    pub fn pairs(&self) -> (pairs: Vec<(K, V)>)
        ensures
            pairs@.len() == self@.len(),
            pairs@.map_values(|p: (K, V)| p.0) == self.key_seq(),
            self.key_seq().no_duplicates(),
            self.key_seq().to_set() == self@.dom(),
            self@.dom().finite(),
            self.key_seq().len() == self@.len(),
            forall|i: int| 0 <= i < pairs@.len() ==> self@.contains_key(#[trigger] pairs@[i].0) && self@[pairs@[i].0] == pairs@[i].1,
    {
        proof {
            use_type_invariant(self);
            self.lemma_key_seq();
        }
        let mut pairs: Vec<(K, V)> = Vec::with_capacity(self.keys.len());
        let mut i: usize = 0;
        while i < self.keys.len()
            invariant
                i <= self.keys@.len(),
                self.keys@.len() == self.vals@.len(),
                self.keys@.no_duplicates(),
                pairs@.len() == i,
                pairs@.map_values(|p: (K, V)| p.0) == self.keys@.subrange(0, i as int),
                forall|j: int| 0 <= j < i ==> pairs@[j] == (self.keys@[j], self.vals@[j]),
            decreases self.keys@.len() - i,
        {
            pairs.push((self.keys[i], self.vals[i]));
            proof {
                assert(pairs@.map_values(|p: (K, V)| p.0) =~= self.keys@.subrange(0, i + 1));
            }
            i += 1;
        }
        proof {
            assert(self.keys@.subrange(0, self.keys@.len() as int) =~= self.keys@);
            assert forall|j: int| 0 <= j < pairs@.len() implies self@.contains_key(#[trigger] pairs@[j].0) && self@[pairs@[j].0] == pairs@[j].1 by {
                lemma_index_of_unique(self.keys@, j);
            }
        }
        pairs
    }

    /// The values in storage order.
    pub fn values(&self) -> (vals: Vec<V>)
        ensures
            vals@.len() == self@.len(),
            forall|i: int| 0 <= i < vals@.len() ==> vals@[i] == self@[self.key_seq()[i]],
            self.key_seq().no_duplicates(),
            self.key_seq().to_set() == self@.dom(),
            self@.dom().finite(),
            self.key_seq().len() == self@.len(),
    {
        proof {
            use_type_invariant(self);
            self.lemma_key_seq();
        }
        let vals = copy_vec(&self.vals);
        proof {
            assert forall|i: int| 0 <= i < vals@.len() implies vals@[i] == self@[self.key_seq()[i]] by {
                lemma_index_of_unique(self.keys@, i);
            }
        }
        vals
    }
}

impl<K: Key, V: Key> Entries<K, V> {
    /// The first key, in storage order, whose value is `value`.
    pub fn key_for_value(&self, value: &V) -> (found: Option<K>)
        ensures
            match found {
                Some(k) => self@.contains_key(k) && self@[k] == *value,
                None => forall|k: K| #[trigger] self@.contains_key(k) ==> self@[k] != *value,
            },
    {
        proof {
            use_type_invariant(self);
        }
        let mut i: usize = 0;
        while i < self.keys.len()
            invariant
                i <= self.keys@.len(),
                self.keys@.len() == self.vals@.len(),
                self.keys@.no_duplicates(),
                forall|j: int| 0 <= j < i ==> self.vals@[j] != *value,
            decreases self.keys@.len() - i,
        {
            if self.vals[i].key_eq(value) {
                proof {
                    lemma_index_of_unique(self.keys@, i as int);
                }
                return Some(self.keys[i]);
            }
            i += 1;
        }
        proof {
            assert forall|k: K| #[trigger] self@.contains_key(k) implies self@[k] != *value by {
                let j = self.keys@.index_of(k);
                assert(0 <= j < self.keys@.len() && self.keys@[j] == k);
            }
        }
        None
    }

    /// Whether some key has the value `value`.
    pub fn contains_value(&self, value: &V) -> (found: bool)
        ensures
            found == exists|k: K| #[trigger] self@.contains_key(k) && self@[k] == *value,
    {
        self.key_for_value(value).is_some()
    }
}

impl<K: Key, V: Copy> Entries<K, V> {
    /// Every pair, keys distinct, as a plain list.
    pub fn pairs_unique(&self) -> (pairs: Vec<(K, V)>)
        ensures
            pairs@.len() == self@.len(),
            forall|i: int| 0 <= i < pairs@.len() ==> self@.contains_key(#[trigger] pairs@[i].0) && self@[pairs@[i].0] == pairs@[i].1,
            forall|i: int, j: int| 0 <= i < pairs@.len() && 0 <= j < pairs@.len() && i != j ==> pairs@[i].0 != pairs@[j].0,
            self@.dom().finite(),
    {
        let pairs = self.pairs();
        let ghost keys = self.key_seq();
        proof {
            assert forall|i: int, j: int| 0 <= i < pairs@.len() && 0 <= j < pairs@.len() && i != j implies pairs@[i].0 != pairs@[j].0 by {
                assert(pairs@.map_values(|p: (K, V)| p.0)[i] == keys[i]);
                assert(pairs@.map_values(|p: (K, V)| p.0)[j] == keys[j]);
            }
        }
        pairs
    }

    /// Keeps only the pairs `keep` accepts.
    pub fn retain<F: Fn(&K, &V) -> bool>(&mut self, keep: F)
        requires
            forall|k: &K, v: &V| #[trigger] keep.requires((k, v)),
        ensures
            final(self)@.dom().subset_of(old(self)@.dom()),
            forall|k: K| #[trigger] final(self)@.contains_key(k) ==> final(self)@[k] == old(self)@[k] && keep.ensures((&k, &old(self)@[k]), true),
            forall|k: K| #[trigger] old(self)@.contains_key(k) && !final(self)@.contains_key(k) ==> keep.ensures((&k, &old(self)@[k]), false),
    {
        let pairs = self.pairs_unique();
        let mut kept: Entries<K, V> = Entries::new();
        let mut i: usize = 0;
        while i < pairs.len()
            invariant
                i <= pairs@.len(),
                forall|k: &K, v: &V| #[trigger] keep.requires((k, v)),
                pairs@.len() == old(self)@.len(),
                old(self)@.dom().finite(),
                forall|a: int| 0 <= a < pairs@.len() ==> old(self)@.contains_key(#[trigger] pairs@[a].0) && old(self)@[pairs@[a].0] == pairs@[a].1,
                forall|a: int, b: int| 0 <= a < pairs@.len() && 0 <= b < pairs@.len() && a != b ==> pairs@[a].0 != pairs@[b].0,
                kept@.dom().subset_of(old(self)@.dom()),
                forall|k: K| #[trigger] kept@.contains_key(k) ==> kept@[k] == old(self)@[k] && keep.ensures((&k, &old(self)@[k]), true)
                    && exists|a: int| 0 <= a < i && pairs@[a].0 == k,
                forall|a: int| 0 <= a < i && !kept@.contains_key(#[trigger] pairs@[a].0) ==> keep.ensures((&pairs@[a].0, &old(self)@[pairs@[a].0]), false),
            decreases pairs@.len() - i,
        {
            let (k, v) = pairs[i];
            let ghost before = kept@;
            if keep(&k, &v) {
                kept.insert(k, v);
            }
            proof {
                assert forall|a: int| 0 <= a < i + 1 && !kept@.contains_key(#[trigger] pairs@[a].0) implies keep.ensures((&pairs@[a].0, &old(self)@[pairs@[a].0]), false) by {
                    if a < i {
                        assert(!before.contains_key(pairs@[a].0));
                    }
                }
                assert forall|k2: K| #[trigger] kept@.contains_key(k2) implies kept@[k2] == old(self)@[k2] && keep.ensures((&k2, &old(self)@[k2]), true)
                    && exists|a: int| 0 <= a < i + 1 && pairs@[a].0 == k2 by {
                    if k2 != k {
                        assert(before.contains_key(k2));
                        let a = choose|a: int| 0 <= a < i && pairs@[a].0 == k2;
                        assert(0 <= a < i + 1 && pairs@[a].0 == k2);
                    } else {
                        assert(pairs@[i as int].0 == k2);
                    }
                }
            }
            i += 1;
        }
        proof {
            assert forall|k: K| #[trigger] old(self)@.contains_key(k) && !kept@.contains_key(k) implies keep.ensures((&k, &old(self)@[k]), false) by {
                assert(exists|a: int| 0 <= a < pairs@.len() && pairs@[a].0 == k) by {
                    lemma_pairs_cover(old(self)@, pairs@, k);
                }
                let a = choose|a: int| 0 <= a < pairs@.len() && pairs@[a].0 == k;
                assert(!kept@.contains_key(pairs@[a].0));
            }
        }
        *self = kept;
    }

}

/// A pair list that lists each key of a map once covers every key.
pub proof fn lemma_pairs_cover<K, V>(m: Map<K, V>, pairs: Seq<(K, V)>, k: K)
    requires
        m.dom().finite(),
        pairs.len() == m.len(),
        forall|a: int| 0 <= a < pairs.len() ==> m.contains_key(#[trigger] pairs[a].0),
        forall|a: int, b: int| 0 <= a < pairs.len() && 0 <= b < pairs.len() && a != b ==> pairs[a].0 != pairs[b].0,
        m.contains_key(k),
    ensures
        exists|a: int| 0 <= a < pairs.len() && pairs[a].0 == k,
{
    let ks = pairs.map_values(|p: (K, V)| p.0);
    assert forall|a: int, b: int| 0 <= a < ks.len() && 0 <= b < ks.len() && a != b implies ks[a] != ks[b] by {
    }
    ks.unique_seq_to_set();
    if !(exists|a: int| 0 <= a < pairs.len() && pairs[a].0 == k) {
        assert(ks.to_set().subset_of(m.dom().remove(k))) by {
            assert forall|x: K| ks.to_set().contains(x) implies m.dom().remove(k).contains(x) by {
                let a = choose|a: int| 0 <= a < ks.len() && ks[a] == x;
                assert(pairs[a].0 == x);
            }
        }
        vstd::set_lib::lemma_len_subset(ks.to_set(), m.dom().remove(k));
    }
}

} // verus!
