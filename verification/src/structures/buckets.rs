//! Internals shared by the one-to-many structures: set-valued indices whose
//! empty sets are dropped, and an index of groups by size.
use vstd::prelude::*;
use super::traits::key::Key;
use super::entries::Entries;
use super::collections::sets::unordered_set::UnorderedSet;

verus! {

broadcast use {vstd::map::group_map_axioms, vstd::set::group_set_axioms};

/// The sets a bucket map holds, by key.
pub open spec fn buckets_view<K, V>(m: Map<K, UnorderedSet<V>>) -> Map<K, Set<V>> {
    Map::new(|k: K| m.contains_key(k), |k: K| m[k]@)
}

/// The set stored for `key`, or the empty set.
pub open spec fn bucket_of<K, V>(m: Map<K, Set<V>>, key: K) -> Set<V> {
    if m.contains_key(key) {
        m[key]
    } else {
        Set::empty()
    }
}

/// Adds `value` to `key`'s set, creating the set if needed. Returns whether
/// the value was new.
pub fn add_to_bucket<K: Key, V: Key>(map: &mut Entries<K, UnorderedSet<V>>, key: &K, value: V) -> (added: bool)
    ensures
        added == !bucket_of(buckets_view(old(map)@), *key).contains(value),
        buckets_view(final(map)@) == buckets_view(old(map)@).insert(*key, bucket_of(buckets_view(old(map)@), *key).insert(value)),
{
    let ghost before = buckets_view(map@);
    let mut bucket = match map.remove(key) {
        Some(b) => b,
        None => UnorderedSet::new(),
    };
    let added = bucket.insert(value);
    map.insert(*key, bucket);
    proof {
        assert(buckets_view(map@) =~= before.insert(*key, bucket_of(before, *key).insert(value)));
    }
    added
}

/// Removes `value` from `key`'s set, dropping the set once empty. Returns
/// whether the value was there.
pub fn remove_from_bucket<K: Key, V: Key>(map: &mut Entries<K, UnorderedSet<V>>, key: &K, value: &V) -> (removed: bool)
    ensures
        removed == bucket_of(buckets_view(old(map)@), *key).contains(*value),
        !removed ==> buckets_view(final(map)@) == buckets_view(old(map)@),
        removed ==> buckets_view(final(map)@) == (if bucket_of(buckets_view(old(map)@), *key).remove(*value).is_empty() {
            buckets_view(old(map)@).remove(*key)
        } else {
            buckets_view(old(map)@).insert(*key, bucket_of(buckets_view(old(map)@), *key).remove(*value))
        }),
{
    let ghost before = buckets_view(map@);
    let mut bucket = match map.remove(key) {
        Some(b) => b,
        None => return false,
    };
    let ghost old_bucket = bucket@;
    if !bucket.remove(value) {
        proof {
            assert(bucket@ =~= old_bucket);
        }
        map.insert(*key, bucket);
        proof {
            assert(buckets_view(map@) =~= before);
        }
        return false;
    }
    if !bucket.is_empty() {
        map.insert(*key, bucket);
    }
    proof {
        assert(buckets_view(map@) =~= (if bucket_of(before, *key).remove(*value).is_empty() {
            before.remove(*key)
        } else {
            before.insert(*key, bucket_of(before, *key).remove(*value))
        }));
    }
    true
}

/// Labels indexed by the size of their group, so the largest and smallest
/// groups are found without re-sorting on every change.
pub struct SizeIndex<L> {
    by_size: Entries<usize, UnorderedSet<L>>,
}

impl<L> SizeIndex<L> {
    #[verifier::type_invariant]
    spec fn inv(self) -> bool {
        &&& self.by_size@.dom().finite()
        &&& forall|s: usize| #[trigger] self.by_size@.contains_key(s) ==> self.by_size@[s]@.len() > 0 && self.by_size@[s]@.finite()
    }
}

impl<L> View for SizeIndex<L> {
    type V = Map<usize, Set<L>>;

    closed spec fn view(&self) -> Map<usize, Set<L>> {
        buckets_view(self.by_size@)
    }
}

impl<L: Key> SizeIndex<L> {
    /// An empty index.
    pub fn new() -> (index: Self)
        ensures
            index@ == Map::<usize, Set<L>>::empty(),
    {
        let index = SizeIndex { by_size: Entries::new() };
        proof {
            assert(index@ =~= Map::<usize, Set<L>>::empty());
        }
        index
    }

    /// Every recorded size has at least one label.
    pub fn check_invariants(&self) -> (ok: bool)
        ensures
            ok,
            self@.dom().finite(),
            forall|s: usize| #[trigger] self@.contains_key(s) ==> self@[s].len() > 0 && self@[s].finite(),
    {
        proof {
            use_type_invariant(self);
            assert(self@.dom() =~= self.by_size@.dom());
        }
        true
    }

    /// Forgets every label.
    pub fn clear(&mut self)
        ensures
            final(self)@ == Map::<usize, Set<L>>::empty(),
    {
        *self = SizeIndex::new();
    }

    /// Records that `label`'s group went from `old_size` to `new_size` members. A size
    /// of zero means the group does not exist.
    pub fn resize(&mut self, label: &L, old_size: usize, new_size: usize)
        ensures
            old_size == new_size ==> final(self)@ == old(self)@,
            old_size != new_size ==> {
                let removed = if old_size > 0 && bucket_of(old(self)@, old_size).contains(*label) {
                    if bucket_of(old(self)@, old_size).remove(*label).is_empty() {
                        old(self)@.remove(old_size)
                    } else {
                        old(self)@.insert(old_size, bucket_of(old(self)@, old_size).remove(*label))
                    }
                } else {
                    old(self)@
                };
                final(self)@ == (if new_size > 0 {
                    removed.insert(new_size, bucket_of(removed, new_size).insert(*label))
                } else {
                    removed
                })
            },
    {
        if old_size == new_size {
            return;
        }
        proof {
            use_type_invariant(&*self);
        }
        let mut index = SizeIndex::new();
        std::mem::swap(&mut index, self);
        let SizeIndex { mut by_size } = index;
        let ghost m0 = by_size@;
        if old_size > 0 {
            remove_from_bucket(&mut by_size, &old_size, label);
        }
        let ghost m1 = by_size@;
        if new_size > 0 {
            add_to_bucket(&mut by_size, &new_size, *label);
        }
        proof {
            let v0 = buckets_view(m0);
            let v1 = buckets_view(m1);
            let v2 = buckets_view(by_size@);
            assert forall|t: usize| #[trigger] v0.contains_key(t) implies v0[t].len() > 0 && v0[t].finite() by {
                assert(m0.contains_key(t));
            }
            assert forall|t: usize| #[trigger] v1.contains_key(t) implies v1[t].len() > 0 && v1[t].finite() by {
                if old_size > 0 && t == old_size && bucket_of(v0, old_size).contains(*label) {
                    let r = v0[t].remove(*label);
                    assert(v1[t] == r);
                    vstd::set_lib::lemma_set_empty_equivalency_len(r);
                } else {
                    assert(v1[t] == v0[t]);
                }
            }
            assert forall|t: usize| #[trigger] v2.contains_key(t) implies v2[t].len() > 0 && v2[t].finite() by {
                if new_size > 0 && t == new_size {
                    let b = bucket_of(v1, new_size);
                    assert(b.finite());
                    assert(v2[t] == b.insert(*label));
                    assert(b.insert(*label).contains(*label));
                } else {
                    assert(v2[t] == v1[t]);
                }
            }
            assert forall|t: usize| #[trigger] by_size@.contains_key(t) implies by_size@[t]@.len() > 0 && by_size@[t]@.finite() by {
                assert(v2.contains_key(t));
            }
        }
        let _ = by_size.len();
        *self = SizeIndex { by_size };
    }

    /// A label of the largest group, if any.
    pub fn largest(&self) -> (label: Option<L>)
        ensures
            label is None <==> self@.dom().is_empty(),
            label matches Some(l) ==> exists|s: usize| #[trigger] self@.contains_key(s) && self@[s].contains(l)
                && forall|t: usize| #[trigger] self@.contains_key(t) ==> t <= s,
    {
        self.extreme(true)
    }

    /// A label of the smallest group, if any.
    pub fn smallest(&self) -> (label: Option<L>)
        ensures
            label is None <==> self@.dom().is_empty(),
            label matches Some(l) ==> exists|s: usize| #[trigger] self@.contains_key(s) && self@[s].contains(l)
                && forall|t: usize| #[trigger] self@.contains_key(t) ==> s <= t,
    {
        self.extreme(false)
    }

    fn extreme(&self, largest: bool) -> (label: Option<L>)
        ensures
            label is None <==> self@.dom().is_empty(),
            label matches Some(l) ==> exists|s: usize| #[trigger] self@.contains_key(s) && self@[s].contains(l)
                && forall|t: usize| #[trigger] self@.contains_key(t) ==> (if largest { t <= s } else { s <= t }),
    {
        proof {
            use_type_invariant(self);
        }
        let sizes = self.by_size.keys();
        if sizes.len() == 0 {
            proof {
                assert(self@.dom() =~= sizes@.to_set());
            }
            return None;
        }
        let mut best: usize = sizes[0];
        let mut i: usize = 1;
        while i < sizes.len()
            invariant
                1 <= i <= sizes@.len(),
                sizes@.to_set() == self.by_size@.dom(),
                sizes@.contains(best),
                forall|j: int| 0 <= j < i ==> (if largest { sizes@[j] <= best } else { best <= sizes@[j] }),
            decreases sizes@.len() - i,
        {
            if (largest && sizes[i] > best) || (!largest && sizes[i] < best) {
                best = sizes[i];
            }
            i += 1;
        }
        proof {
            assert(sizes@.to_set().contains(best));
        }
        let bucket = self.by_size.get(&best);
        proof {
            assert(self.by_size@.contains_key(best));
        }
        match bucket {
            Some(b) => {
                let members = b.iter();
                proof {
                    assert(self.by_size@[best]@.len() > 0);
                    assert(members@.len() > 0);
                    assert(members@.to_set().contains(members@[0]));
                    assert(self@.contains_key(best) && self@[best].contains(members@[0]));
                    assert(self@.dom().contains(best));
                    assert forall|t: usize| #[trigger] self@.contains_key(t) implies (if largest { t <= best } else { best <= t }) by {
                        assert(sizes@.to_set().contains(t));
                        let j = choose|j: int| 0 <= j < sizes@.len() && sizes@[j] == t;
                    }
                }
                Some(members[0])
            },
            None => None,
        }
    }

    /// The labels whose group has `size` members.
    pub fn with_size(&self, size: usize) -> (labels: Vec<L>)
        ensures
            labels@.to_set() == bucket_of(self@, size),
            labels@.no_duplicates(),
    {
        match self.by_size.get(&size) {
            Some(b) => b.iter(),
            None => {
                let v: Vec<L> = Vec::new();
                proof {
                    assert(v@.to_set() =~= Set::<L>::empty());
                }
                v
            },
        }
    }
}

} // verus!
