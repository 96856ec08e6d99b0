//! A one-to-one map: every left value has one right value and every right
//! value one left value.
use vstd::prelude::*;
use crate::structures::traits::key::Key;
use crate::structures::traits::map::{Mapping, MapMut, ValueIndexed, ValueIndexedMut, UniqueValueMap};
use crate::structures::entries::Entries;
use crate::structures::map_spec::{injective, has_value, without_value, graph, lemma_graph_len, lemma_pairs_cover};

verus! {

broadcast use {vstd::set::group_set_axioms, vstd::map::group_map_axioms};

/// What an insertion into a `BiMap` displaced.
pub enum Overwritten<L, R> {
    /// Nothing was displaced.
    Neither,
    /// The pair that held the left value.
    Left(L, R),
    /// The pair that held the right value.
    Right(L, R),
    /// The very pair inserted was already present.
    Pair(L, R),
    /// Two pairs: the one holding the left value, then the one holding the
    /// right value.
    Both((L, R), (L, R)),
}

impl<L, R> Overwritten<L, R> {
    /// Whether anything was displaced.
    pub fn did_overwrite(&self) -> (displaced: bool)
        ensures
            displaced == !(self is Neither),
    {
        match self {
            Overwritten::Neither => false,
            _ => true,
        }
    }
}

/// A bijection between left and right values.
pub struct BiMap<L, R> {
    forward: Entries<L, R>,
}

impl<L, R> BiMap<L, R> {
    #[verifier::type_invariant]
    spec fn inv(self) -> bool {
        injective(self.forward@)
    }
}

impl<L, R> View for BiMap<L, R> {
    type V = Map<L, R>;

    closed spec fn view(&self) -> Map<L, R> {
        self.forward@
    }
}

/// The left value that `m` pairs with `r`.
pub open spec fn left_of<L, R>(m: Map<L, R>, r: R) -> L {
    choose|l: L| m.contains_key(l) && m[l] == r
}

impl<L: Key, R: Key> BiMap<L, R> {
    /// Creates an empty map.
    pub fn new() -> (m: Self)
        ensures
            m@ == Map::<L, R>::empty(),
    {
        BiMap { forward: Entries::new() }
    }

    /// Creates an empty map with room for `capacity` pairs.
    pub fn with_capacity(capacity: usize) -> (m: Self)
        ensures
            m@ == Map::<L, R>::empty(),
    {
        Self::new()
    }

    /// Reserves room; the contents are unchanged.
    pub fn reserve(&mut self, additional: usize)
        ensures
            final(self)@ == old(self)@,
    {
    }

    /// Releases spare room; the contents are unchanged.
    pub fn shrink_to_fit(&mut self)
        ensures
            final(self)@ == old(self)@,
    {
    }

    /// No two left values share a right value. Always true.
    pub fn check_invariants(&self) -> (ok: bool)
        ensures
            ok,
            injective(self@),
    {
        proof {
            use_type_invariant(self);
        }
        true
    }

    /// Number of pairs.
    pub fn len(&self) -> (n: usize)
        ensures
            n == self@.len(),
            self@.dom().finite(),
    {
        self.forward.len()
    }

    /// Whether there are no pairs.
    pub fn is_empty(&self) -> (empty: bool)
        ensures
            empty == (self@.len() == 0),
    {
        self.forward.len() == 0
    }

    /// Every pair.
    pub fn iter(&self) -> (pairs: Vec<(L, R)>)
        ensures
            pairs@.len() == self@.len(),
            forall|i: int| 0 <= i < pairs@.len() ==> self@.contains_key(#[trigger] pairs@[i].0) && self@[pairs@[i].0] == pairs@[i].1,
            forall|i: int, j: int| 0 <= i < pairs@.len() && 0 <= j < pairs@.len() && i != j ==> pairs@[i].0 != pairs@[j].0,
    {
        self.forward.pairs_unique()
    }

    /// Every left value.
    pub fn left_values(&self) -> (lefts: Vec<L>)
        ensures
            lefts@.no_duplicates(),
            lefts@.to_set() == self@.dom(),
    {
        self.forward.keys()
    }

    /// Every right value, each once.
    pub fn right_values(&self) -> (rights: Vec<R>)
        ensures
            rights@.len() == self@.len(),
            forall|i: int| 0 <= i < rights@.len() ==> has_value(self@, #[trigger] rights@[i]),
            rights@.no_duplicates(),
    {
        proof {
            use_type_invariant(self);
        }
        let rights = self.forward.values();
        let ghost keys = self.forward.key_seq();
        proof {
            assert forall|i: int| 0 <= i < rights@.len() implies has_value(self@, #[trigger] rights@[i]) by {
                assert(keys.to_set().contains(keys[i]));
            }
            assert forall|i: int, j: int| 0 <= i < rights@.len() && 0 <= j < rights@.len() && i != j implies rights@[i] != rights@[j] by {
                assert(keys.to_set().contains(keys[i]));
                assert(keys.to_set().contains(keys[j]));
            }
        }
        rights
    }

    /// Removes every pair.
    pub fn clear(&mut self)
        ensures
            final(self)@ == Map::<L, R>::empty(),
    {
        self.forward = Entries::new();
    }

    /// Whether `left` is paired.
    pub fn contains_left(&self, left: &L) -> (found: bool)
        ensures
            found == self@.contains_key(*left),
    {
        self.forward.contains_key(left)
    }

    /// Whether `right` is paired.
    pub fn contains_right(&self, right: &R) -> (found: bool)
        ensures
            found == has_value(self@, *right),
    {
        self.forward.contains_value(right)
    }

    /// Whether `left` is paired with `right`.
    pub fn contains_pair(&self, left: &L, right: &R) -> (found: bool)
        ensures
            found == (self@.contains_key(*left) && self@[*left] == *right),
    {
        match self.forward.get(left) {
            Some(r) => r.key_eq(right),
            None => false,
        }
    }

    /// The right value paired with `left`.
    pub fn get_by_left(&self, left: &L) -> (found: Option<R>)
        ensures
            found == (if self@.contains_key(*left) { Some(self@[*left]) } else { None::<R> }),
    {
        match self.forward.get(left) {
            Some(r) => Some(*r),
            None => None,
        }
    }

    /// The left value paired with `right`.
    pub fn get_by_right(&self, right: &R) -> (found: Option<L>)
        ensures
            match found {
                Some(l) => self@.contains_key(l) && self@[l] == *right,
                None => !has_value(self@, *right),
            },
    {
        self.forward.key_for_value(right)
    }

    /// Removes the pair holding `left`.
    pub fn remove_by_left(&mut self, left: &L) -> (removed: Option<(L, R)>)
        ensures
            final(self)@ == old(self)@.remove(*left),
            removed == (if old(self)@.contains_key(*left) { Some((*left, old(self)@[*left])) } else { None::<(L, R)> }),
    {
        proof {
            use_type_invariant(&*self);
        }
        let mut forward = Entries::new();
        std::mem::swap(&mut forward, &mut self.forward);
        let r = forward.remove(left);
        self.forward = forward;
        match r {
            Some(v) => Some((*left, v)),
            None => None,
        }
    }

    /// Removes the pair holding `right`.
    pub fn remove_by_right(&mut self, right: &R) -> (removed: Option<(L, R)>)
        ensures
            final(self)@ == without_value(old(self)@, *right),
            match removed {
                Some(p) => p.1 == *right && old(self)@.contains_key(p.0) && old(self)@[p.0] == *right,
                None => !has_value(old(self)@, *right),
            },
    {
        proof {
            use_type_invariant(&*self);
        }
        match self.forward.key_for_value(right) {
            Some(l) => {
                let mut forward = Entries::new();
                std::mem::swap(&mut forward, &mut self.forward);
                forward.remove(&l);
                self.forward = forward;
                proof {
                    assert(self@ =~= without_value(old(self)@, *right));
                }
                Some((l, *right))
            },
            None => {
                proof {
                    assert(without_value(old(self)@, *right) =~= old(self)@);
                }
                None
            },
        }
    }

    /// Removes `left` only when it is paired with `right`.
    pub fn remove_pair(&mut self, left: &L, right: &R) -> (removed: bool)
        ensures
            removed == (old(self)@.contains_key(*left) && old(self)@[*left] == *right),
            final(self)@ == (if removed { old(self)@.remove(*left) } else { old(self)@ }),
    {
        if self.contains_pair(left, right) {
            self.remove_by_left(left);
            true
        } else {
            false
        }
    }

    /// Pairs `left` with `right`, first removing any pair that holds either.
    /// Reports what was displaced.
    pub fn insert(&mut self, left: L, right: R) -> (displaced: Overwritten<L, R>)
        ensures
            final(self)@ == without_value(old(self)@.remove(left), right).insert(left, right),
            match displaced {
                Overwritten::Neither => !old(self)@.contains_key(left) && !has_value(old(self)@, right),
                Overwritten::Pair(l, r) => l == left && r == right && old(self)@.contains_key(left) && old(self)@[left] == right,
                Overwritten::Left(l, r) => l == left && old(self)@.contains_key(left) && r == old(self)@[left] && r != right
                    && !has_value(old(self)@.remove(left), right),
                Overwritten::Right(l, r) => r == right && !old(self)@.contains_key(left) && old(self)@.contains_key(l) && old(self)@[l] == right,
                Overwritten::Both(a, b) => a.0 == left && old(self)@.contains_key(left) && a.1 == old(self)@[left] && a.1 != right
                    && b.1 == right && b.0 != left && old(self)@.contains_key(b.0) && old(self)@[b.0] == right,
            },
    {
        proof {
            use_type_invariant(&*self);
        }
        let ghost m = old(self)@;
        let displaced = if self.contains_pair(&left, &right) {
            let pair = self.remove_by_left(&left);
            match pair {
                Some((l, r)) => Overwritten::Pair(l, r),
                None => Overwritten::Neither,
            }
        } else {
            let by_left = self.remove_by_left(&left);
            let by_right = self.remove_by_right(&right);
            proof {
                if by_left is None && has_value(m, right) {
                    let k = choose|k: L| #[trigger] m.contains_key(k) && m[k] == right;
                    assert(m.remove(left).contains_key(k));
                }
            }
            match (by_left, by_right) {
                (None, None) => Overwritten::Neither,
                (Some((l, r)), None) => Overwritten::Left(l, r),
                (None, Some((l, r))) => Overwritten::Right(l, r),
                (Some(a), Some(b)) => Overwritten::Both(a, b),
            }
        };
        proof {
            use_type_invariant(&*self);
            assert(!self@.contains_key(left));
            assert(!has_value(self@, right)) by {
                if has_value(self@, right) {
                    let k = choose|k: L| #[trigger] self@.contains_key(k) && self@[k] == right;
                    assert(m.contains_key(k) && m[k] == right);
                    if m.contains_key(left) && m[left] == right {
                        assert(k == left);
                    }
                }
            }
            if m.contains_key(left) && m[left] == right {
                assert(without_value(m.remove(left), right) =~= m.remove(left));
            } else {
                assert(without_value(m.remove(left), right) =~= self@);
            }
        }
        let ghost mid = self@;
        let mut forward = Entries::new();
        std::mem::swap(&mut forward, &mut self.forward);
        forward.insert(left, right);
        proof {
            assert forall|a: L, b: L| #[trigger] forward@.contains_key(a) && #[trigger] forward@.contains_key(b) && a != b implies forward@[a] != forward@[b] by {
                if a != left && b != left {
                    assert(mid.contains_key(a) && mid.contains_key(b));
                }
            }
        }
        self.forward = forward;
        displaced
    }

    /// Pairs `left` with `right` only when neither is paired yet.
    pub fn insert_no_overwrite(&mut self, left: L, right: R) -> (result: Result<(), (L, R)>)
        ensures
            result is Ok <==> (!old(self)@.contains_key(left) && !has_value(old(self)@, right)),
            result is Ok ==> final(self)@ == old(self)@.insert(left, right),
            result is Err ==> final(self)@ == old(self)@ && result == Err::<(), (L, R)>((left, right)),
    {
        proof {
            use_type_invariant(&*self);
        }
        if self.contains_left(&left) || self.contains_right(&right) {
            return Err((left, right));
        }
        let mut forward = Entries::new();
        std::mem::swap(&mut forward, &mut self.forward);
        forward.insert(left, right);
        proof {
            assert forall|a: L, b: L| #[trigger] forward@.contains_key(a) && #[trigger] forward@.contains_key(b) && a != b implies forward@[a] != forward@[b] by {
                if a != left && b != left {
                    assert(old(self)@.contains_key(a) && old(self)@.contains_key(b));
                }
            }
        }
        self.forward = forward;
        Ok(())
    }

    /// Keeps only the pairs `keep` accepts.
    pub fn retain<F: Fn(&L, &R) -> bool>(&mut self, keep: F)
        requires
            forall|k: &L, v: &R| #[trigger] keep.requires((k, v)),
        ensures
            final(self)@.dom().subset_of(old(self)@.dom()),
            forall|k: L| #[trigger] final(self)@.contains_key(k) ==> final(self)@[k] == old(self)@[k] && keep.ensures((&k, &old(self)@[k]), true),
            forall|k: L| #[trigger] old(self)@.contains_key(k) && !final(self)@.contains_key(k) ==> keep.ensures((&k, &old(self)@[k]), false),
    {
        proof {
            use_type_invariant(&*self);
        }
        let mut forward = Entries::new();
        std::mem::swap(&mut forward, &mut self.forward);
        forward.retain(keep);
        proof {
            assert forall|a: L, b: L| #[trigger] forward@.contains_key(a) && #[trigger] forward@.contains_key(b) && a != b implies forward@[a] != forward@[b] by {
                assert(old(self)@.contains_key(a) && old(self)@.contains_key(b));
            }
        }
        self.forward = forward;
    }
}

impl<L: Key, R: Key> Mapping for BiMap<L, R> {
    type Key = L;
    type Value = R;

    open spec fn pair_set(&self) -> Set<(L, R)> {
        graph(self@)
    }

    fn len(&self) -> usize {
        BiMap::len(self)
    }

    fn pair_count(&self) -> usize {
        let n = BiMap::len(self);
        proof {
            lemma_graph_len(self@);
        }
        n
    }

    fn contains_key(&self, left: &L) -> bool {
        self.contains_left(left)
    }

    fn contains_pair(&self, left: &L, right: &R) -> bool {
        BiMap::contains_pair(self, left, right)
    }

    fn keys(&self) -> Vec<L> {
        self.left_values()
    }

    fn pairs(&self) -> Vec<(L, R)> {
        BiMap::len(self);
        let pairs = self.iter();
        proof {
            lemma_pairs_cover(self@, pairs@);
        }
        pairs
    }
}

impl<L: Key, R: Key> MapMut for BiMap<L, R> {
    fn insert_pair(&mut self, left: L, right: R) -> bool {
        match self.insert(left, right) {
            Overwritten::Pair(_, _) => false,
            _ => true,
        }
    }

    fn remove_pair(&mut self, left: &L, right: &R) -> bool {
        BiMap::remove_pair(self, left, right)
    }

    fn clear(&mut self) {
        BiMap::clear(self)
    }
}

impl<L: Key, R: Key> ValueIndexed for BiMap<L, R> {
    fn contains_value(&self, right: &R) -> bool {
        self.contains_right(right)
    }

    fn value_count(&self) -> usize {
        BiMap::len(self)
    }

    fn values(&self) -> Vec<R> {
        self.right_values()
    }
}

impl<L: Key, R: Key> ValueIndexedMut for BiMap<L, R> {
    fn remove_value(&mut self, right: &R) -> bool {
        self.remove_by_right(right).is_some()
    }
}

impl<L: Key, R: Key> UniqueValueMap for BiMap<L, R> {
    fn key_of(&self, right: &R) -> Option<L> {
        self.get_by_right(right)
    }
}

} // verus!
