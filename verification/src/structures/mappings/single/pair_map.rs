//! Globally exclusive, unordered pairs.
//!
//! Unlike `BiMap<T, T>`, the two sides are one domain: an element can belong
//! to at most one pair regardless of which position it was inserted in.
use vstd::prelude::*;
use crate::structures::traits::key::Key;

verus! {

/// `x` is one of the two members of pair `p`.
pub open spec fn in_pair<T>(p: (T, T), x: T) -> bool {
    p.0 == x || p.1 == x
}

/// Pairs `p` and `q` have no member in common.
pub open spec fn pairs_apart<T>(p: (T, T), q: (T, T)) -> bool {
    !in_pair(q, p.0) && !in_pair(q, p.1)
}

/// Whether some stored pair holds `x`.
pub open spec fn paired<T>(s: Seq<(T, T)>, x: T) -> bool {
    exists|i: int| 0 <= i < s.len() && #[trigger] in_pair(s[i], x)
}

/// Whether `a` and `b` form a stored pair, in either order.
pub open spec fn has_pair<T>(s: Seq<(T, T)>, a: T, b: T) -> bool {
    exists|i: int| 0 <= i < s.len() && (#[trigger] s[i] == (a, b) || s[i] == (b, a))
}

/// Globally exclusive unordered pairs of values. Each value has at most one
/// partner; `(a, b)` and `(b, a)` are the same relationship, and `(a, a)`
/// is a self-pair. The view lists each relationship once.
pub struct PairMap<T> {
    pairs: Vec<(T, T)>,
}

impl<T> PairMap<T> {
    #[verifier::type_invariant]
    spec fn inv(self) -> bool {
        forall|i: int, j: int| 0 <= i < self.pairs@.len() && 0 <= j < self.pairs@.len() && i != j
            ==> pairs_apart(#[trigger] self.pairs@[i], #[trigger] self.pairs@[j])
    }
}

impl<T> View for PairMap<T> {
    type V = Seq<(T, T)>;

    closed spec fn view(&self) -> Seq<(T, T)> {
        self.pairs@
    }
}

impl<T: Key> PairMap<T> {
    /// Creates an empty pair map.
    pub fn new() -> (m: Self)
        ensures
            m@ == Seq::<(T, T)>::empty(),
    {
        PairMap { pairs: Vec::new() }
    }

    /// Creates an empty map with room for about `capacity` pairs.
    pub fn with_capacity(capacity: usize) -> (m: Self)
        ensures
            m@ == Seq::<(T, T)>::empty(),
    {
        PairMap { pairs: Vec::with_capacity(capacity) }
    }

    /// Makes room for more pairs; the contents are unchanged.
    pub fn reserve(&mut self, additional_pairs: usize)
        ensures
            final(self)@ == old(self)@,
    {
    }

    /// Releases spare room; the contents are unchanged.
    pub fn shrink_to_fit(&mut self)
        ensures
            final(self)@ == old(self)@,
    {
    }

    /// No value belongs to two pairs. Always true.
    pub fn check_invariants(&self) -> (ok: bool)
        ensures
            ok,
            forall|i: int, j: int| 0 <= i < self@.len() && 0 <= j < self@.len() && i != j
                ==> pairs_apart(#[trigger] self@[i], #[trigger] self@[j]),
    {
        proof {
            use_type_invariant(self);
        }
        true
    }

    /// Number of relationships, counting a self-pair once.
    pub fn len(&self) -> (n: usize)
        ensures
            n == self@.len(),
    {
        self.pairs.len()
    }

    /// Whether no relationships are stored.
    pub fn is_empty(&self) -> (empty: bool)
        ensures
            empty == (self@.len() == 0),
    {
        self.pairs.len() == 0
    }

    /// The position of the pair holding `value`.
    fn find(&self, value: &T) -> (found: Option<usize>)
        ensures
            match found {
                Some(i) => i < self@.len() && in_pair(self@[i as int], *value),
                None => !paired(self@, *value),
            },
    {
        let mut i: usize = 0;
        while i < self.pairs.len()
            invariant
                i <= self.pairs@.len(),
                forall|j: int| 0 <= j < i ==> !#[trigger] in_pair(self.pairs@[j], *value),
            decreases self.pairs@.len() - i,
        {
            let (a, b) = self.pairs[i];
            if a.key_eq(value) || b.key_eq(value) {
                return Some(i);
            }
            i += 1;
        }
        None
    }

    /// Whether `value` currently has a partner.
    pub fn contains(&self, value: &T) -> (found: bool)
        ensures
            found == paired(self@, *value),
    {
        self.find(value).is_some()
    }

    /// The partner of `value`; a self-pair returns `value` itself.
    pub fn partner(&self, value: &T) -> (partner: Option<T>)
        ensures
            match partner {
                Some(p) => has_pair(self@, *value, p),
                None => !paired(self@, *value),
            },
    {
        match self.find(value) {
            Some(i) => {
                let (a, b) = self.pairs[i];
                if a.key_eq(value) {
                    Some(b)
                } else {
                    Some(a)
                }
            },
            None => None,
        }
    }

    /// Whether `first` and `second` are paired, in either order.
    pub fn contains_pair(&self, first: &T, second: &T) -> (found: bool)
        ensures
            found == has_pair(self@, *first, *second),
    {
        proof {
            use_type_invariant(self);
        }
        match self.partner(first) {
            Some(p) => {
                let found = p.key_eq(second);
                proof {
                    if !found && has_pair(self@, *first, *second) {
                        let i = choose|i: int| 0 <= i < self@.len() && (#[trigger] self@[i] == (*first, *second) || self@[i] == (*second, *first));
                        let j = choose|j: int| 0 <= j < self@.len() && (#[trigger] self@[j] == (*first, p) || self@[j] == (p, *first));
                        if i != j {
                            assert(pairs_apart(self@[i], self@[j]));
                        }
                    }
                }
                found
            },
            None => {
                proof {
                    if has_pair(self@, *first, *second) {
                        let i = choose|i: int| 0 <= i < self@.len() && (#[trigger] self@[i] == (*first, *second) || self@[i] == (*second, *first));
                        assert(in_pair(self@[i], *first));
                    }
                }
                false
            },
        }
    }

    /// Every relationship once, in the order they were made.
    pub fn pairs(&self) -> (pairs: Vec<(T, T)>)
        ensures
            pairs@ == self@,
    {
        crate::structures::vec_ops::copy_vec(&self.pairs)
    }

    /// Breaks the pair containing `value`, returning its partner.
    pub fn remove(&mut self, value: &T) -> (partner: Option<T>)
        ensures
            match partner {
                Some(p) => has_pair(old(self)@, *value, p) && exists|i: int| 0 <= i < old(self)@.len()
                    && in_pair(#[trigger] old(self)@[i], *value) && final(self)@ == old(self)@.remove(i),
                None => !paired(old(self)@, *value) && final(self)@ == old(self)@,
            },
            !paired(final(self)@, *value),
    {
        proof {
            use_type_invariant(&*self);
        }
        match self.find(value) {
            Some(i) => {
                let mut pairs = Vec::new();
                std::mem::swap(&mut pairs, &mut self.pairs);
                let ghost before = pairs@;
                let (a, b) = pairs.remove(i);
                proof {
                    assert forall|x: int, y: int| 0 <= x < pairs@.len() && 0 <= y < pairs@.len() && x != y
                        implies pairs_apart(#[trigger] pairs@[x], #[trigger] pairs@[y]) by {
                        let xx = if x < i { x } else { x + 1 };
                        let yy = if y < i { y } else { y + 1 };
                        assert(pairs_apart(before[xx], before[yy]));
                    }
                    assert forall|x: int| 0 <= x < pairs@.len() implies !#[trigger] in_pair(pairs@[x], *value) by {
                        let xx = if x < i { x } else { x + 1 };
                        assert(pairs_apart(before[i as int], before[xx]));
                    }
                }
                self.pairs = pairs;
                if a.key_eq(value) {
                    Some(b)
                } else {
                    Some(a)
                }
            },
            None => None,
        }
    }

    /// Pairs two elements, first removing any pairs they belong to. Returns
    /// whether the relationship changed.
    pub fn insert(&mut self, first: T, second: T) -> (changed: bool)
        ensures
            changed == !has_pair(old(self)@, first, second),
            !changed ==> final(self)@ == old(self)@,
            changed ==> final(self)@ == without_member(without_member(old(self)@, first), second).push((first, second)),
    {
        if self.contains_pair(&first, &second) {
            return false;
        }
        self.check_invariants();
        let ghost before = self@;
        self.remove(&first);
        self.check_invariants();
        let ghost mid = self@;
        self.remove(&second);
        let ghost after = self@;
        proof {
            use_type_invariant(&*self);
            assert(!paired(after, first)) by {
                if paired(after, first) {
                    let k = choose|k: int| 0 <= k < after.len() && #[trigger] in_pair(after[k], first);
                    if after != mid {
                        let r = choose|r: int| 0 <= r < mid.len() && in_pair(#[trigger] mid[r], second) && after == mid.remove(r);
                        let kk = if k < r { k } else { k + 1 };
                        assert(in_pair(mid[kk], first));
                    } else {
                        assert(in_pair(mid[k], first));
                    }
                }
            }
        }
        let mut pairs = Vec::new();
        std::mem::swap(&mut pairs, &mut self.pairs);
        pairs.push((first, second));
        proof {
            assert forall|x: int, y: int| 0 <= x < pairs@.len() && 0 <= y < pairs@.len() && x != y
                implies pairs_apart(#[trigger] pairs@[x], #[trigger] pairs@[y]) by {
                if x == pairs@.len() - 1 {
                    assert(!in_pair(after[y], first) && !in_pair(after[y], second));
                } else if y == pairs@.len() - 1 {
                    assert(!in_pair(after[x], first) && !in_pair(after[x], second));
                } else {
                    assert(pairs_apart(after[x], after[y]));
                }
            }
            lemma_remove_is_without(before, mid, first);
            lemma_remove_is_without(mid, after, second);
        }
        self.pairs = pairs;
        true
    }

    /// Removes every relationship.
    pub fn clear(&mut self)
        ensures
            final(self)@ == Seq::<(T, T)>::empty(),
    {
        self.pairs = Vec::new();
    }
}

/// The pairs that do not hold `v`, in order.
pub open spec fn without_member<T>(s: Seq<(T, T)>, v: T) -> Seq<(T, T)> {
    s.filter(|p: (T, T)| !in_pair(p, v))
}

/// Removing the one pair that holds `v` keeps the others in order.
proof fn lemma_remove_is_without<T>(before: Seq<(T, T)>, after: Seq<(T, T)>, v: T)
    requires
        (after == before && !paired(before, v)) || exists|i: int| 0 <= i < before.len() && in_pair(#[trigger] before[i], v) && after == before.remove(i),
        forall|i: int, j: int| 0 <= i < before.len() && 0 <= j < before.len() && i != j
            ==> pairs_apart(#[trigger] before[i], #[trigger] before[j]),
    ensures
        after == without_member(before, v),
    decreases before.len(),
{
    if before.len() == 0 {
        assert(after =~= without_member(before, v));
    } else {
        let last = before.last();
        let init = before.drop_last();
        reveal(Seq::filter);
        assert(without_member(before, v) == (if !in_pair(last, v) {
            without_member(init, v).push(last)
        } else {
            without_member(init, v)
        }));
        assert forall|i: int, j: int| 0 <= i < init.len() && 0 <= j < init.len() && i != j
            implies pairs_apart(#[trigger] init[i], #[trigger] init[j]) by {
            assert(pairs_apart(before[i], before[j]));
        }
        if after == before && !paired(before, v) {
            assert(!paired(init, v)) by {
                if paired(init, v) {
                    let k = choose|k: int| 0 <= k < init.len() && #[trigger] in_pair(init[k], v);
                    assert(in_pair(before[k], v));
                }
            }
            assert(!in_pair(before[before.len() - 1], v));
            lemma_remove_is_without(init, init, v);
            assert(after =~= init.push(last));
        } else {
            let r = choose|i: int| 0 <= i < before.len() && in_pair(#[trigger] before[i], v) && after == before.remove(i);
            if r == before.len() - 1 {
                assert(!paired(init, v)) by {
                    if paired(init, v) {
                        let k = choose|k: int| 0 <= k < init.len() && #[trigger] in_pair(init[k], v);
                        assert(pairs_apart(before[k], before[r]));
                    }
                }
                lemma_remove_is_without(init, init, v);
                assert(after =~= init);
            } else {
                assert(!in_pair(last, v)) by {
                    assert(pairs_apart(before[before.len() - 1], before[r]));
                }
                let after_init = init.remove(r);
                assert(in_pair(init[r], v));
                lemma_remove_is_without(init, after_init, v);
                assert(after =~= after_init.push(last));
            }
        }
    }
}

} // verus!
