//! The storage behind `MultiSet`: a map from element to count with a
//! running total.
use vstd::prelude::*;
use crate::structures::traits::key::Key;
use crate::structures::entries::Entries;
use super::bag::{bag_of, count_in, lemma_bag_count, lemma_bag_empty, lemma_bag_insert, lemma_bag_remove, lemma_bag_le};

verus! {

broadcast use {vstd::map::group_map_axioms, vstd::set::group_set_axioms};

/// Element counts with their running sum.
pub struct Tally<T> {
    values: Entries<T, usize>,
    total: usize,
}

impl<T> Tally<T> {
    #[verifier::type_invariant]
    spec fn inv(self) -> bool {
        &&& self.values@.dom().finite()
        &&& self.total == bag_of(self.values@).len()
    }
}

impl<T> View for Tally<T> {
    type V = Map<T, usize>;

    closed spec fn view(&self) -> Map<T, usize> {
        self.values@
    }
}

impl<T: Key> Tally<T> {
    /// The counted elements in storage order: the order `keys` lists them in.
    pub closed spec fn key_order(&self) -> Seq<T> {
        self.values.key_seq()
    }

    /// An element is listed exactly when it is counted.
    pub proof fn lemma_key_order(&self)
        ensures
            forall|k: T| #[trigger] self.key_order().contains(k) == self@.contains_key(k),
    {
        self.values.lemma_key_seq_members();
    }
}

impl<T: Key> Default for Tally<T> {
    fn default() -> (t: Self)
        ensures
            t@ == Map::<T, usize>::empty(),
    {
        Tally::new()
    }
}

impl<T: Key> Tally<T> {
    /// The sum of all counts: the size of the bag the counts describe.
    pub open spec fn total_spec(&self) -> nat {
        bag_of(self@).len()
    }

    /// Creates an empty tally.
    pub fn new() -> (t: Self)
        ensures
            t@ == Map::<T, usize>::empty(),
            t.total_spec() == 0,
    {
        proof {
            lemma_bag_empty::<T>();
        }
        Tally { values: Entries::new(), total: 0 }
    }

    /// The counts are finite and their bag has the running total as size.
    pub fn check_invariants(&self) -> (ok: bool)
        ensures
            ok,
            self@.dom().finite(),
            self.total_spec() <= usize::MAX,
            forall|k: T| #[trigger] bag_of(self@).count(k) == count_in(self@, k),
    {
        proof {
            use_type_invariant(self);
            lemma_bag_count(self@);
        }
        true
    }

    /// Number of elements with a recorded count.
    pub fn len(&self) -> (n: usize)
        ensures
            n == self@.len(),
    {
        self.values.len()
    }

    /// Whether no element has a recorded count.
    pub fn is_empty(&self) -> (empty: bool)
        ensures
            empty == (self@.len() == 0),
    {
        self.values.len() == 0
    }

    /// Sum of all counts.
    pub fn total(&self) -> (total: usize)
        ensures
            total == self.total_spec(),
    {
        proof {
            use_type_invariant(self);
        }
        self.total
    }

    /// The underlying element-to-count map.
    pub fn map(&self) -> (map: &Entries<T, usize>)
        ensures
            map@ == self@,
    {
        &self.values
    }

    /// Each element with its count.
    pub fn iter(&self) -> (pairs: Vec<(T, usize)>)
        ensures
            pairs@.len() == self@.len(),
            forall|i: int| 0 <= i < pairs@.len() ==> self@.contains_key(#[trigger] pairs@[i].0) && self@[pairs@[i].0] == pairs@[i].1,
            forall|i: int, j: int| 0 <= i < pairs@.len() && 0 <= j < pairs@.len() && i != j ==> pairs@[i].0 != pairs@[j].0,
    {
        self.values.pairs_unique()
    }

    /// Each element once.
    pub fn keys(&self) -> (keys: Vec<T>)
        ensures
            keys@ == self.key_order(),
            keys@.no_duplicates(),
            keys@.to_set() == self@.dom(),
            keys@.len() == self@.len(),
    {
        self.values.keys()
    }

    /// Removes every element.
    pub fn clear(&mut self)
        ensures
            final(self)@ == Map::<T, usize>::empty(),
            final(self).total_spec() == 0,
    {
        *self = Tally::new();
    }

    /// Whether `item` has a recorded count.
    pub fn contains(&self, item: &T) -> (found: bool)
        ensures
            found == self@.contains_key(*item),
    {
        self.values.contains_key(item)
    }

    /// The count recorded for `item`.
    pub fn get(&self, item: &T) -> (count: Option<usize>)
        ensures
            count == (if self@.contains_key(*item) { Some(self@[*item]) } else { None::<usize> }),
    {
        match self.values.get(item) {
            Some(v) => Some(*v),
            None => None,
        }
    }

    fn into_parts(self) -> (parts: (Entries<T, usize>, usize))
        ensures
            parts.0@ == self@,
            parts.0@.dom().finite(),
            parts.1 == bag_of(self@).len(),
    {
        proof {
            use_type_invariant(&self);
        }
        let Tally { values, total } = self;
        (values, total)
    }

    /// Sets an element's count, returning the previous one.
    pub fn set(&mut self, item: T, value: usize) -> (previous: Option<usize>)
        requires
            old(self).total_spec() - count_in(old(self)@, item) + value <= usize::MAX,
        ensures
            final(self)@ == old(self)@.insert(item, value),
            final(self).total_spec() == old(self).total_spec() - count_in(old(self)@, item) + value,
            previous == (if old(self)@.contains_key(item) { Some(old(self)@[item]) } else { None::<usize> }),
    {
        let mut t = Tally::new();
        std::mem::swap(&mut t, self);
        let (mut values, total) = t.into_parts();
        let ghost m = values@;
        proof {
            lemma_bag_insert(m, item, value);
        }
        let previous = values.insert(item, value);
        let before = match previous {
            Some(p) => p,
            None => 0,
        };
        *self = Tally { values, total: total - before + value };
        previous
    }

    /// Changes the count of an element already present; `None` removes it.
    /// An absent element is left absent.
    pub fn update(&mut self, item: &T, value: Option<usize>) -> (previous: Option<usize>)
        requires
            value is Some ==> old(self).total_spec() - count_in(old(self)@, *item) + value.unwrap() <= usize::MAX,
        ensures
            previous == (if old(self)@.contains_key(*item) { Some(old(self)@[*item]) } else { None::<usize> }),
            final(self)@ == (match value {
                Some(v) => if old(self)@.contains_key(*item) { old(self)@.insert(*item, v) } else { old(self)@ },
                None => old(self)@.remove(*item),
            }),
            final(self).total_spec() == bag_of(final(self)@).len(),
    {
        match value {
            None => self.remove(item),
            Some(v) => {
                if self.contains(item) {
                    self.set(*item, v)
                } else {
                    None
                }
            },
        }
    }

    /// Removes an element, returning its count.
    pub fn remove(&mut self, item: &T) -> (previous: Option<usize>)
        ensures
            final(self)@ == old(self)@.remove(*item),
            final(self).total_spec() == old(self).total_spec() - count_in(old(self)@, *item),
            previous == (if old(self)@.contains_key(*item) { Some(old(self)@[*item]) } else { None::<usize> }),
    {
        let mut t = Tally::new();
        std::mem::swap(&mut t, self);
        let (mut values, total) = t.into_parts();
        let ghost m = values@;
        proof {
            lemma_bag_remove(m, *item);
        }
        let previous = values.remove(item);
        let before = match previous {
            Some(p) => p,
            None => 0,
        };
        *self = Tally { values, total: total - before };
        previous
    }

    /// Keeps the elements for which `keep(item, count)` returns `true`.
    pub fn retain<F: Fn(&T, usize) -> bool>(&mut self, keep: F)
        requires
            forall|k: &T, v: usize| #[trigger] keep.requires((k, v)),
        ensures
            final(self)@.dom().subset_of(old(self)@.dom()),
            forall|k: T| #[trigger] final(self)@.contains_key(k) ==> final(self)@[k] == old(self)@[k] && keep.ensures((&k, old(self)@[k]), true),
            forall|k: T| #[trigger] old(self)@.contains_key(k) && !final(self)@.contains_key(k) ==> keep.ensures((&k, old(self)@[k]), false),
    {
        proof {
            use_type_invariant(&*self);
        }
        let pairs = self.iter();
        let ghost orig = self@;
        let mut kept: Tally<T> = Tally::new();
        let mut i: usize = 0;
        while i < pairs.len()
            invariant
                i <= pairs@.len(),
                forall|k: &T, v: usize| #[trigger] keep.requires((k, v)),
                orig == old(self)@,
                orig.dom().finite(),
                bag_of(orig).len() <= usize::MAX,
                pairs@.len() == orig.len(),
                forall|a: int| 0 <= a < pairs@.len() ==> orig.contains_key(#[trigger] pairs@[a].0) && orig[pairs@[a].0] == pairs@[a].1,
                forall|a: int, b: int| 0 <= a < pairs@.len() && 0 <= b < pairs@.len() && a != b ==> pairs@[a].0 != pairs@[b].0,
                kept@.dom().subset_of(orig.dom()),
                forall|k: T| #[trigger] kept@.contains_key(k) ==> kept@[k] == orig[k] && keep.ensures((&k, orig[k]), true)
                    && exists|a: int| 0 <= a < i && pairs@[a].0 == k,
                forall|a: int| 0 <= a < i && !kept@.contains_key(#[trigger] pairs@[a].0) ==> keep.ensures((&pairs@[a].0, orig[pairs@[a].0]), false),
            decreases pairs@.len() - i,
        {
            let (k, v) = pairs[i];
            let ghost before = kept@;
            if keep(&k, v) {
                kept.check_invariants();
                proof {
                    assert(!before.contains_key(k)) by {
                        if before.contains_key(k) {
                            let a = choose|a: int| 0 <= a < i && pairs@[a].0 == k;
                            assert(pairs@[a].0 != pairs@[i as int].0);
                        }
                    }
                    lemma_bag_insert(before, k, v);
                    lemma_bag_le(before.insert(k, v), orig);
                }
                kept.set(k, v);
            }
            proof {
                assert forall|a: int| 0 <= a < i + 1 && !kept@.contains_key(#[trigger] pairs@[a].0) implies keep.ensures((&pairs@[a].0, orig[pairs@[a].0]), false) by {
                    if a < i {
                        assert(!before.contains_key(pairs@[a].0));
                    }
                }
                assert forall|k2: T| #[trigger] kept@.contains_key(k2) implies kept@[k2] == orig[k2] && keep.ensures((&k2, orig[k2]), true)
                    && exists|a: int| 0 <= a < i + 1 && pairs@[a].0 == k2 by {
                    if k2 != k {
                        assert(before.contains_key(k2));
                        let a = choose|a: int| 0 <= a < i && pairs@[a].0 == k2;
                        assert(0 <= a < i + 1 && pairs@[a].0 == k2);
                    } else {
                        assert(pairs@[i as int].0 == k2);
                    }
                }
            }
            i += 1;
        }
        proof {
            assert forall|k: T| #[trigger] orig.contains_key(k) && !kept@.contains_key(k) implies keep.ensures((&k, orig[k]), false) by {
                assert(exists|a: int| 0 <= a < pairs@.len() && pairs@[a].0 == k) by {
                    crate::structures::entries::lemma_pairs_cover(orig, pairs@, k);
                }
                let a = choose|a: int| 0 <= a < pairs@.len() && pairs@[a].0 == k;
                assert(!kept@.contains_key(pairs@[a].0));
            }
        }
        *self = kept;
    }

    /// Replaces every count at once when `total` is their sum, and returns
    /// whether it did; with any other total the tally is left as it was.
    pub fn replace_all(&mut self, values: Entries<T, usize>, total: usize) -> (replaced: bool)
        ensures
            replaced == (total == bag_of(values@).len()),
            replaced ==> final(self)@ == values@ && final(self).total_spec() == total,
            !replaced ==> final(self)@ == old(self)@ && final(self).total_spec() == old(self).total_spec(),
    {
        let n = values.len();
        let mut sum: u128 = 0;
        let mut i: usize = 0;
        let ghost mut seen = Map::<T, usize>::empty();
        proof {
            lemma_bag_empty::<T>();
            assert(seen =~= values@.restrict(values.key_seq().subrange(0, 0).to_set()));
        }
        while i < n
            invariant
                i <= n,
                n == values.key_seq().len(),
                values.key_seq().no_duplicates(),
                values.key_seq().to_set() == values@.dom(),
                values@.dom().finite(),
                seen.dom().finite(),
                seen == values@.restrict(values.key_seq().subrange(0, i as int).to_set()),
                sum == bag_of(seen).len(),
                sum <= i * 0xFFFF_FFFF_FFFF_FFFFint,
            decreases n - i,
        {
            let (k, v) = values.entry_at(i);
            proof {
                crate::structures::vec_ops::lemma_prefix_excludes_next(values.key_seq(), i as int);
                assert(!seen.contains_key(k));
                lemma_bag_insert(seen, k, *v);
                let ghost before = values.key_seq().subrange(0, i as int);
                assert(values.key_seq().subrange(0, i + 1).to_set() =~= before.to_set().insert(k)) by {
                    assert(values.key_seq().subrange(0, i + 1) == before.push(k));
                    before.lemma_push_to_set_commute(k);
                }
                seen = seen.insert(k, *v);
                assert(seen =~= values@.restrict(values.key_seq().subrange(0, i + 1).to_set()));
                assert(sum + *v <= (i + 1) * 0xFFFF_FFFF_FFFF_FFFFint) by (nonlinear_arith)
                    requires
                        sum <= i * 0xFFFF_FFFF_FFFF_FFFFint,
                        *v <= 0xFFFF_FFFF_FFFF_FFFFint;
                assert((i + 1) * 0xFFFF_FFFF_FFFF_FFFFint <= 0xFFFF_FFFF_FFFF_FFFFint * 0xFFFF_FFFF_FFFF_FFFFint) by (nonlinear_arith)
                    requires
                        i + 1 <= 0xFFFF_FFFF_FFFF_FFFFint;
            }
            sum = sum + *v as u128;
            i += 1;
        }
        proof {
            assert(values.key_seq().subrange(0, n as int) =~= values.key_seq());
            assert(seen =~= values@);
        }
        if sum == total as u128 {
            *self = Tally { values, total };
            true
        } else {
            false
        }
    }
}

} // verus!
