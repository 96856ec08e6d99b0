//! A finite relation: a set of distinct `(key, value)` pairs, stored as two
//! parallel vectors. The many-to-many and one-to-many maps are built on it.
use vstd::prelude::*;
use super::traits::key::Key;
use super::collections::sets::unordered_set::UnorderedSet;

verus! {

broadcast use {vstd::seq_lib::group_seq_properties, vstd::set::group_set_axioms, vstd::seq_lib::seq_to_set_is_finite, vstd::set_lib::group_set_lib_default};

/// The pairs that parallel key and value sequences hold.
pub open spec fn pairs_of<K, V>(ks: Seq<K>, vs: Seq<V>) -> Set<(K, V)> {
    Set::new(|p: (K, V)| exists|i: int| 0 <= i < ks.len() && #[trigger] ks[i] == p.0 && vs[i] == p.1)
}

/// The values related to `k`.
pub open spec fn image<K, V>(r: Set<(K, V)>, k: K) -> Set<V> {
    Set::new(|v: V| r.contains((k, v)))
}

/// The keys related to `v`.
pub open spec fn preimage<K, V>(r: Set<(K, V)>, v: V) -> Set<K> {
    Set::new(|k: K| r.contains((k, v)))
}

/// The keys that have at least one value.
pub open spec fn domain<K, V>(r: Set<(K, V)>) -> Set<K> {
    Set::new(|k: K| exists|v: V| #[trigger] r.contains((k, v)))
}

/// The values that have at least one key.
pub open spec fn range<K, V>(r: Set<(K, V)>) -> Set<V> {
    Set::new(|v: V| exists|k: K| #[trigger] r.contains((k, v)))
}

/// Every value has at most one key.
pub open spec fn unique_values<K, V>(r: Set<(K, V)>) -> bool {
    forall|a: K, b: K, v: V| #[trigger] r.contains((a, v)) && #[trigger] r.contains((b, v)) ==> a == b
}

/// The zipped pair sequence.
pub open spec fn zipped<K, V>(ks: Seq<K>, vs: Seq<V>) -> Seq<(K, V)> {
    Seq::new(ks.len(), |i: int| (ks[i], vs[i]))
}

/// A set of distinct pairs.
pub struct Relation<K, V> {
    ks: Vec<K>,
    vs: Vec<V>,
}

impl<K, V> Relation<K, V> {
    #[verifier::type_invariant]
    spec fn inv(self) -> bool {
        &&& self.ks@.len() == self.vs@.len()
        &&& zipped(self.ks@, self.vs@).no_duplicates()
    }
}

impl<K, V> View for Relation<K, V> {
    type V = Set<(K, V)>;

    closed spec fn view(&self) -> Set<(K, V)> {
        pairs_of(self.ks@, self.vs@)
    }
}

/// The pairs of a zipped sequence are the relation it describes.
proof fn lemma_zipped_set<K, V>(ks: Seq<K>, vs: Seq<V>)
    requires
        ks.len() == vs.len(),
    ensures
        zipped(ks, vs).to_set() == pairs_of(ks, vs),
{
    let z = zipped(ks, vs);
    assert forall|p: (K, V)| z.to_set().contains(p) <==> pairs_of(ks, vs).contains(p) by {
        if z.contains(p) {
            let i = choose|i: int| 0 <= i < z.len() && z[i] == p;
            assert(ks[i] == p.0 && vs[i] == p.1);
        }
        if pairs_of(ks, vs).contains(p) {
            let i = choose|i: int| 0 <= i < ks.len() && #[trigger] ks[i] == p.0 && vs[i] == p.1;
            assert(z[i] == p);
        }
    }
    assert(z.to_set() =~= pairs_of(ks, vs));
}

impl<K: Key, V: Key> Relation<K, V> {
    fn take_parts(&mut self) -> (parts: (Vec<K>, Vec<V>))
        ensures
            parts.0@ == old(self).ks@,
            parts.1@ == old(self).vs@,
            parts.0@.len() == parts.1@.len(),
            zipped(parts.0@, parts.1@).no_duplicates(),
            final(self)@ == Set::<(K, V)>::empty(),
    {
        proof {
            use_type_invariant(&*self);
        }
        let mut r: Relation<K, V> = Relation { ks: Vec::new(), vs: Vec::new() };
        std::mem::swap(&mut r, self);
        proof {
            assert(self@ =~= Set::<(K, V)>::empty());
        }
        let Relation { ks, vs } = r;
        (ks, vs)
    }

    /// The empty relation.
    pub fn new() -> (r: Self)
        ensures
            r@ == Set::<(K, V)>::empty(),
    {
        let r = Relation { ks: Vec::new(), vs: Vec::new() };
        proof {
            assert(r@ =~= Set::<(K, V)>::empty());
        }
        r
    }

    /// Removes every pair.
    pub fn clear(&mut self)
        ensures
            final(self)@ == Set::<(K, V)>::empty(),
    {
        *self = Self::new();
    }

    /// Number of pairs.
    pub fn pair_count(&self) -> (n: usize)
        ensures
            n == self@.len(),
            self@.finite(),
    {
        proof {
            use_type_invariant(self);
            lemma_zipped_set(self.ks@, self.vs@);
            zipped(self.ks@, self.vs@).unique_seq_to_set();
        }
        self.ks.len()
    }

    /// Position of the pair `(key, value)`.
    fn find_pair(&self, key: &K, value: &V) -> (found: Option<usize>)
        ensures
            match found {
                Some(i) => i < self.ks@.len() && i < self.vs@.len() && self.ks@[i as int] == *key && self.vs@[i as int] == *value,
                None => !self@.contains((*key, *value)),
            },
    {
        proof {
            use_type_invariant(self);
        }
        let mut i: usize = 0;
        while i < self.ks.len()
            invariant
                i <= self.ks@.len(),
                self.ks@.len() == self.vs@.len(),
                forall|j: int| 0 <= j < i ==> !(self.ks@[j] == *key && self.vs@[j] == *value),
            decreases self.ks@.len() - i,
        {
            if self.ks[i].key_eq(key) && self.vs[i].key_eq(value) {
                return Some(i);
            }
            i += 1;
        }
        None
    }

    /// Whether `(key, value)` is in the relation.
    pub fn contains_pair(&self, key: &K, value: &V) -> (found: bool)
        ensures
            found == self@.contains((*key, *value)),
    {
        self.find_pair(key, value).is_some()
    }

    /// Adds `(key, value)`; returns whether it was new.
    pub fn insert(&mut self, key: K, value: V) -> (added: bool)
        ensures
            added == !old(self)@.contains((key, value)),
            final(self)@ == old(self)@.insert((key, value)),
    {
        if self.contains_pair(&key, &value) {
            proof {
                assert(old(self)@.insert((key, value)) =~= old(self)@);
            }
            return false;
        }
        let (mut ks, mut vs) = self.take_parts();
        let ghost oks = ks@;
        let ghost ovs = vs@;
        ks.push(key);
        vs.push(value);
        proof {
            assert(zipped(ks@, vs@) =~= zipped(oks, ovs).push((key, value)));
            lemma_zipped_set(oks, ovs);
            vstd::seq_lib::lemma_seq_contains_after_push(zipped(oks, ovs), (key, value), (key, value));
            crate::structures::vec_ops::lemma_push_unique(zipped(oks, ovs), (key, value));
            assert forall|p: (K, V)| pairs_of(ks@, vs@).contains(p) <==> old(self)@.insert((key, value)).contains(p) by {
                if pairs_of(ks@, vs@).contains(p) {
                    let i = choose|i: int| 0 <= i < ks@.len() && #[trigger] ks@[i] == p.0 && vs@[i] == p.1;
                    if i < oks.len() {
                        assert(oks[i] == p.0 && ovs[i] == p.1);
                    }
                }
                if old(self)@.contains(p) {
                    let i = choose|i: int| 0 <= i < oks.len() && #[trigger] oks[i] == p.0 && ovs[i] == p.1;
                    assert(ks@[i] == p.0 && vs@[i] == p.1);
                }
                if p == (key, value) {
                    assert(ks@[oks.len() as int] == p.0 && vs@[oks.len() as int] == p.1);
                }
            }
            assert(pairs_of(ks@, vs@) =~= old(self)@.insert((key, value)));
        }
        *self = Relation { ks, vs };
        true
    }

    /// Removes `(key, value)`; returns whether it was present.
    pub fn remove_pair(&mut self, key: &K, value: &V) -> (removed: bool)
        ensures
            removed == old(self)@.contains((*key, *value)),
            final(self)@ == old(self)@.remove((*key, *value)),
    {
        match self.find_pair(key, value) {
            None => {
                proof {
                    assert(old(self)@.remove((*key, *value)) =~= old(self)@);
                }
                false
            },
            Some(i) => {
                let (mut ks, mut vs) = self.take_parts();
                let ghost oks = ks@;
                let ghost ovs = vs@;
                ks.remove(i);
                vs.remove(i);
                proof {
                    let z = zipped(oks, ovs);
                    assert(zipped(ks@, vs@) =~= z.remove(i as int));
                    crate::structures::vec_ops::lemma_remove_unique(z, i as int);
                    assert forall|p: (K, V)| pairs_of(ks@, vs@).contains(p) <==> old(self)@.remove((*key, *value)).contains(p) by {
                        if pairs_of(ks@, vs@).contains(p) {
                            let j = choose|j: int| 0 <= j < ks@.len() && #[trigger] ks@[j] == p.0 && vs@[j] == p.1;
                            let oj = if j < i { j } else { j + 1 };
                            assert(oks[oj] == p.0 && ovs[oj] == p.1);
                            assert(zipped(ks@, vs@)[j] == p);
                            assert(zipped(ks@, vs@).contains(p));
                            assert(z.remove(i as int).contains(p));
                            assert(p != z[i as int]);
                        }
                        if old(self)@.remove((*key, *value)).contains(p) {
                            let j = choose|j: int| 0 <= j < oks.len() && #[trigger] oks[j] == p.0 && ovs[j] == p.1;
                            assert(z[j] == p);
                            assert(z.contains(p) && p != z[i as int]);
                            assert(z.remove(i as int).contains(p));
                            let k = choose|k: int| 0 <= k < z.remove(i as int).len() && z.remove(i as int)[k] == p;
                            assert(ks@[k] == p.0 && vs@[k] == p.1);
                        }
                    }
                    assert(pairs_of(ks@, vs@) =~= old(self)@.remove((*key, *value)));
                }
                *self = Relation { ks, vs };
                true
            },
        }
    }

    /// The values related to `key`.
    pub fn image(&self, key: &K) -> (out: UnorderedSet<V>)
        ensures
            out@ == image(self@, *key),
    {
        proof {
            use_type_invariant(self);
        }
        let mut out = UnorderedSet::new();
        let mut i: usize = 0;
        while i < self.ks.len()
            invariant
                i <= self.ks@.len(),
                self.ks@.len() == self.vs@.len(),
                forall|v: V| #[trigger] out@.contains(v) <==> exists|j: int| 0 <= j < i && self.ks@[j] == *key && #[trigger] self.vs@[j] == v,
            decreases self.ks@.len() - i,
        {
            if self.ks[i].key_eq(key) {
                out.insert(self.vs[i]);
            }
            proof {
                assert forall|v: V| #[trigger] out@.contains(v) <==> exists|j: int| 0 <= j < i + 1 && self.ks@[j] == *key && #[trigger] self.vs@[j] == v by {
                    if out@.contains(v) && !(self.ks@[i as int] == *key && self.vs@[i as int] == v) {
                        let j = choose|j: int| 0 <= j < i && self.ks@[j] == *key && #[trigger] self.vs@[j] == v;
                        assert(0 <= j < i + 1);
                    }
                }
            }
            i += 1;
        }
        proof {
            assert forall|v: V| #[trigger] out@.contains(v) <==> image(self@, *key).contains(v) by {
                if out@.contains(v) {
                    let j = choose|j: int| 0 <= j < self.ks@.len() && self.ks@[j] == *key && #[trigger] self.vs@[j] == v;
                    assert(self.ks@[j] == (*key, v).0);
                }
                if image(self@, *key).contains(v) {
                    let j = choose|j: int| 0 <= j < self.ks@.len() && #[trigger] self.ks@[j] == (*key, v).0 && self.vs@[j] == (*key, v).1;
                    assert(self.vs@[j] == v);
                }
            }
            assert(out@ =~= image(self@, *key));
        }
        out
    }

    /// The keys related to `value`.
    pub fn preimage(&self, value: &V) -> (out: UnorderedSet<K>)
        ensures
            out@ == preimage(self@, *value),
    {
        proof {
            use_type_invariant(self);
        }
        let mut out = UnorderedSet::new();
        let mut i: usize = 0;
        while i < self.ks.len()
            invariant
                i <= self.ks@.len(),
                self.ks@.len() == self.vs@.len(),
                forall|k: K| #[trigger] out@.contains(k) <==> exists|j: int| 0 <= j < i && self.vs@[j] == *value && #[trigger] self.ks@[j] == k,
            decreases self.ks@.len() - i,
        {
            if self.vs[i].key_eq(value) {
                out.insert(self.ks[i]);
            }
            proof {
                assert forall|k: K| #[trigger] out@.contains(k) <==> exists|j: int| 0 <= j < i + 1 && self.vs@[j] == *value && #[trigger] self.ks@[j] == k by {
                    if out@.contains(k) && !(self.vs@[i as int] == *value && self.ks@[i as int] == k) {
                        let j = choose|j: int| 0 <= j < i && self.vs@[j] == *value && #[trigger] self.ks@[j] == k;
                        assert(0 <= j < i + 1);
                    }
                }
            }
            i += 1;
        }
        proof {
            assert forall|k: K| #[trigger] out@.contains(k) <==> preimage(self@, *value).contains(k) by {
                if out@.contains(k) {
                    let j = choose|j: int| 0 <= j < self.ks@.len() && self.vs@[j] == *value && #[trigger] self.ks@[j] == k;
                    assert(self.ks@[j] == (k, *value).0);
                }
                if preimage(self@, *value).contains(k) {
                    let j = choose|j: int| 0 <= j < self.ks@.len() && #[trigger] self.ks@[j] == (k, *value).0 && self.vs@[j] == (k, *value).1;
                    assert(self.ks@[j] == k);
                }
            }
            assert(out@ =~= preimage(self@, *value));
        }
        out
    }

    /// Every key with at least one value.
    pub fn domain(&self) -> (out: UnorderedSet<K>)
        ensures
            out@ == domain(self@),
    {
        proof {
            use_type_invariant(self);
        }
        let out = UnorderedSet::from_vec(crate::structures::vec_ops::copy_vec(&self.ks));
        proof {
            assert forall|k: K| #[trigger] out@.contains(k) <==> domain(self@).contains(k) by {
                if out@.contains(k) {
                    let j = choose|j: int| 0 <= j < self.ks@.len() && self.ks@[j] == k;
                    assert(self@.contains((k, self.vs@[j])));
                }
                if domain(self@).contains(k) {
                    let v = choose|v: V| #[trigger] self@.contains((k, v));
                    let j = choose|j: int| 0 <= j < self.ks@.len() && #[trigger] self.ks@[j] == (k, v).0 && self.vs@[j] == (k, v).1;
                    assert(self.ks@.contains(k));
                }
            }
            assert(out@ =~= domain(self@));
        }
        out
    }

    /// Every value with at least one key.
    pub fn range(&self) -> (out: UnorderedSet<V>)
        ensures
            out@ == range(self@),
    {
        proof {
            use_type_invariant(self);
        }
        let out = UnorderedSet::from_vec(crate::structures::vec_ops::copy_vec(&self.vs));
        proof {
            assert forall|v: V| #[trigger] out@.contains(v) <==> range(self@).contains(v) by {
                if out@.contains(v) {
                    let j = choose|j: int| 0 <= j < self.vs@.len() && self.vs@[j] == v;
                    assert(self@.contains((self.ks@[j], v)));
                }
                if range(self@).contains(v) {
                    let k = choose|k: K| #[trigger] self@.contains((k, v));
                    let j = choose|j: int| 0 <= j < self.ks@.len() && #[trigger] self.ks@[j] == (k, v).0 && self.vs@[j] == (k, v).1;
                    assert(self.vs@.contains(v));
                }
            }
            assert(out@ =~= range(self@));
        }
        out
    }

    /// Whether `key` has a value.
    pub fn contains_key(&self, key: &K) -> (found: bool)
        ensures
            found == domain(self@).contains(*key),
    {
        proof {
            use_type_invariant(self);
        }
        match crate::structures::vec_ops::position_of(&self.ks, key) {
            Some(j) => {
                proof {
                    assert(self@.contains((*key, self.vs@[j as int])));
                }
                true
            },
            None => {
                proof {
                    if domain(self@).contains(*key) {
                        let v = choose|v: V| #[trigger] self@.contains((*key, v));
                        let j = choose|j: int| 0 <= j < self.ks@.len() && #[trigger] self.ks@[j] == (*key, v).0 && self.vs@[j] == (*key, v).1;
                        assert(self.ks@.contains(*key));
                    }
                }
                false
            },
        }
    }

    /// Whether `value` has a key.
    pub fn contains_value(&self, value: &V) -> (found: bool)
        ensures
            found == range(self@).contains(*value),
    {
        proof {
            use_type_invariant(self);
        }
        match crate::structures::vec_ops::position_of(&self.vs, value) {
            Some(j) => {
                proof {
                    assert(self@.contains((self.ks@[j as int], *value)));
                }
                true
            },
            None => {
                proof {
                    if range(self@).contains(*value) {
                        let k = choose|k: K| #[trigger] self@.contains((k, *value));
                        let j = choose|j: int| 0 <= j < self.ks@.len() && #[trigger] self.ks@[j] == (k, *value).0 && self.vs@[j] == (k, *value).1;
                        assert(self.vs@.contains(*value));
                    }
                }
                false
            },
        }
    }

    /// Every pair.
    pub fn pairs(&self) -> (pairs: Vec<(K, V)>)
        ensures
            pairs@.to_set() == self@,
            pairs@.no_duplicates(),
            pairs@.len() == self@.len(),
    {
        proof {
            use_type_invariant(self);
            lemma_zipped_set(self.ks@, self.vs@);
            zipped(self.ks@, self.vs@).unique_seq_to_set();
        }
        let mut pairs: Vec<(K, V)> = Vec::with_capacity(self.ks.len());
        let mut i: usize = 0;
        while i < self.ks.len()
            invariant
                i <= self.ks@.len(),
                self.ks@.len() == self.vs@.len(),
                pairs@ == zipped(self.ks@, self.vs@).subrange(0, i as int),
            decreases self.ks@.len() - i,
        {
            pairs.push((self.ks[i], self.vs[i]));
            proof {
                assert(pairs@ =~= zipped(self.ks@, self.vs@).subrange(0, i + 1));
            }
            i += 1;
        }
        proof {
            assert(pairs@ =~= zipped(self.ks@, self.vs@));
        }
        pairs
    }

    /// Keeps only the pairs `keep` accepts.
    pub fn retain<F: Fn(&K, &V) -> bool>(&mut self, keep: F)
        requires
            forall|k: &K, v: &V| #[trigger] keep.requires((k, v)),
        ensures
            final(self)@.subset_of(old(self)@),
            forall|p: (K, V)| #[trigger] final(self)@.contains(p) ==> keep.ensures((&p.0, &p.1), true),
            forall|p: (K, V)| old(self)@.contains(p) && !final(self)@.contains(p) ==> #[trigger] keep.ensures((&p.0, &p.1), false),
    {
        let (ks, vs) = self.take_parts();
        let ghost old_rel = pairs_of(ks@, vs@);
        let mut out = Relation::new();
        let mut i: usize = 0;
        while i < ks.len()
            invariant
                i <= ks@.len(),
                ks@.len() == vs@.len(),
                old_rel == pairs_of(ks@, vs@),
                old_rel == old(self)@,
                forall|k: &K, v: &V| #[trigger] keep.requires((k, v)),
                out@.subset_of(old_rel),
                forall|p: (K, V)| #[trigger] out@.contains(p) ==> keep.ensures((&p.0, &p.1), true),
                forall|j: int| 0 <= j < i ==> (out@.contains((ks@[j], vs@[j])) || #[trigger] keep.ensures((&ks@[j], &vs@[j]), false)),
            decreases ks@.len() - i,
        {
            let k = ks[i];
            let v = vs[i];
            let ghost before = out@;
            proof {
                assert(old_rel.contains((k, v)));
            }
            if keep(&k, &v) {
                out.insert(k, v);
            }
            proof {
                assert forall|j: int| 0 <= j < i + 1 implies (out@.contains((ks@[j], vs@[j])) || #[trigger] keep.ensures((&ks@[j], &vs@[j]), false)) by {
                    if j < i {
                        if before.contains((ks@[j], vs@[j])) {
                            assert(out@.contains((ks@[j], vs@[j])));
                        }
                    }
                }
            }
            i += 1;
        }
        proof {
            assert forall|p: (K, V)| old(self)@.contains(p) && !out@.contains(p) implies #[trigger] keep.ensures((&p.0, &p.1), false) by {
                let j = choose|j: int| 0 <= j < ks@.len() && #[trigger] ks@[j] == p.0 && vs@[j] == p.1;
                assert(out@.contains((ks@[j], vs@[j])) || keep.ensures((&ks@[j], &vs@[j]), false));
            }
        }
        *self = out;
    }

    /// Removes every pair with `key`; returns the values it had.
    pub fn remove_key(&mut self, key: &K) -> (removed: UnorderedSet<V>)
        ensures
            removed@ == image(old(self)@, *key),
            final(self)@ == old(self)@.filter(|p: (K, V)| p.0 != *key),
    {
        let removed = self.image(key);
        let k0 = *key;
        let keep = |k: &K, v: &V| -> (b: bool)
            ensures
                b == (*k != k0),
            { !k.key_eq(&k0) };
        self.retain(keep);
        proof {
            assert forall|p: (K, V)| #[trigger] self@.contains(p) <==> old(self)@.filter(|q: (K, V)| q.0 != *key).contains(p) by {
                if self@.contains(p) {
                    assert(keep.ensures((&p.0, &p.1), true));
                }
                if old(self)@.contains(p) && p.0 != *key && !self@.contains(p) {
                    assert(keep.ensures((&p.0, &p.1), false));
                }
            }
            assert(self@ =~= old(self)@.filter(|p: (K, V)| p.0 != *key));
        }
        removed
    }

    /// Removes every pair with `value`; returns the keys it had.
    pub fn remove_value(&mut self, value: &V) -> (removed: UnorderedSet<K>)
        ensures
            removed@ == preimage(old(self)@, *value),
            final(self)@ == old(self)@.filter(|p: (K, V)| p.1 != *value),
    {
        let removed = self.preimage(value);
        let v0 = *value;
        let keep = |k: &K, v: &V| -> (b: bool)
            ensures
                b == (*v != v0),
            { !v.key_eq(&v0) };
        self.retain(keep);
        proof {
            assert forall|p: (K, V)| #[trigger] self@.contains(p) <==> old(self)@.filter(|q: (K, V)| q.1 != *value).contains(p) by {
                if self@.contains(p) {
                    assert(keep.ensures((&p.0, &p.1), true));
                }
                if old(self)@.contains(p) && p.1 != *value && !self@.contains(p) {
                    assert(keep.ensures((&p.0, &p.1), false));
                }
            }
            assert(self@ =~= old(self)@.filter(|p: (K, V)| p.1 != *value));
        }
        removed
    }
}

} // verus!
