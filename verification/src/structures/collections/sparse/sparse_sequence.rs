//! A sequence with gaps: values live at integer indices that need not be
//! contiguous, and equal values may sit at several indices.
//!
//! Index-based methods follow `BTreeMap`; reordering moves values between
//! the occupied indices without changing which indices are occupied.
use vstd::prelude::*;
use crate::random::Random;
use crate::structures::comparing::{sort_vec_by, sorted_by_compare};
use core::cmp::Ordering;
use crate::structures::sampling;
use crate::structures::sampling::fisher_yates;
use crate::structures::traits::key::Key;
use crate::structures::traits::collection::{Choose, Collection, CollectionInsert, CollectionRemove};
use crate::structures::traits::sequence::{Reorder, SparseIndexed};
use crate::structures::vec_ops::{is_window, window_in};
use crate::structures::range_end::{RangeEnd, within, is_within};
use super::sparse_core::{
    SparseCore, ascending, occupies, slot_of, shifted, lemma_slot_at, lemma_remove_at,
    lemma_free_exists,
};

verus! {

/// Whether some entry of the listing holds `item`.
pub open spec fn holds<T>(s: Seq<(i64, T)>, item: T) -> bool {
    exists|i: int| 0 <= i < s.len() && (#[trigger] s[i]).1 == item
}

/// The entries whose index lies between the two ends, in order.
pub open spec fn entries_within<T>(s: Seq<(i64, T)>, low: RangeEnd, high: RangeEnd) -> Seq<(i64, T)> {
    s.filter(|p: (i64, T)| within(p.0, low, high))
}

/// The entries holding `item`, in order.
pub open spec fn entries_holding<T>(s: Seq<(i64, T)>, item: T) -> Seq<(i64, T)> {
    s.filter(|p: (i64, T)| p.1 == item)
}

/// The indices holding `item`, ascending.
pub open spec fn indices_holding<T>(s: Seq<(i64, T)>, item: T) -> Seq<i64> {
    entries_holding(s, item).map_values(|p: (i64, T)| p.0)
}

/// What a run of `insert_at` calls leaves at index `k`: the last value
/// given for it.
pub open spec fn assigned<T>(pairs: Seq<(i64, T)>, k: i64) -> Option<T>
    decreases pairs.len(),
{
    if pairs.len() == 0 {
        None
    } else if pairs.last().0 == k {
        Some(pairs.last().1)
    } else {
        assigned(pairs.drop_last(), k)
    }
}

/// Values of type `T` stored at arbitrary `i64` indices, in index order.
pub struct SparseSequence<T> {
    core: SparseCore<T>,
}

impl<T> View for SparseSequence<T> {
    type V = Seq<(i64, T)>;

    /// The `(index, value)` entries in ascending index order.
    closed spec fn view(&self) -> Seq<(i64, T)> {
        self.core@
    }
}

impl<T: Key> SparseSequence<T> {
    /// Creates an empty sparse sequence.
    pub fn new() -> (sequence: Self)
        ensures
            sequence@ == Seq::<(i64, T)>::empty(),
    {
        SparseSequence { core: SparseCore::new() }
    }

    /// The entries are always in ascending index order.
    pub fn check_invariants(&self)
        ensures
            ascending(self@),
    {
        self.core.check_invariants();
    }

    /// Number of occupied indices.
    pub fn len(&self) -> (n: usize)
        ensures
            n == self@.len(),
    {
        self.core.len()
    }

    /// Whether no index is occupied.
    pub fn is_empty(&self) -> (empty: bool)
        ensures
            empty == (self@.len() == 0),
    {
        self.core.len() == 0
    }

    /// The value stored at `index`.
    pub fn get(&self, index: i64) -> (value: Option<&T>)
        ensures
            match value {
                Some(v) => slot_of(self@, index) == Some(*v),
                None => slot_of(self@, index) is None,
            },
    {
        self.core.get(index)
    }

    /// The value at the lowest index.
    pub fn first(&self) -> (value: Option<&T>)
        ensures
            match value {
                Some(v) => self@.len() > 0 && *v == self@[0].1,
                None => self@.len() == 0,
            },
    {
        self.core.first()
    }

    /// The value at the highest index.
    pub fn last(&self) -> (value: Option<&T>)
        ensures
            match value {
                Some(v) => self@.len() > 0 && *v == self@.last().1,
                None => self@.len() == 0,
            },
    {
        self.core.last()
    }

    /// `(index, value)` pairs in index order.
    pub fn iter(&self) -> (pairs: Vec<(i64, T)>)
        ensures
            pairs@ == self@,
    {
        self.core.pairs()
    }

    /// Values in index order.
    pub fn values(&self) -> (values: Vec<T>)
        ensures
            values@ == self@.map_values(|p: (i64, T)| p.1),
    {
        self.core.values()
    }

    /// `(index, value)` pairs whose index lies between `low` and `high`.
    pub fn range(&self, low: RangeEnd, high: RangeEnd) -> (pairs: Vec<(i64, T)>)
        ensures
            pairs@ == entries_within(self@, low, high),
    {
        let all = self.core.pairs();
        let mut out: Vec<(i64, T)> = Vec::new();
        let mut i: usize = 0;
        while i < all.len()
            invariant
                i <= all@.len(),
                out@ == entries_within(all@.subrange(0, i as int), low, high),
            decreases all@.len() - i,
        {
            let (k, v) = all[i];
            if is_within(k, low, high) {
                out.push((k, v));
            }
            proof {
                let s = all@.subrange(0, i + 1);
                assert(s.drop_last() =~= all@.subrange(0, i as int));
                reveal(Seq::filter);
            }
            i += 1;
        }
        proof {
            assert(all@.subrange(0, all@.len() as int) =~= all@);
        }
        out
    }

    /// Among the values in index order, how many leading ones `is_below`
    /// accepts.
    pub fn partition_point<F: Fn(&T) -> bool>(&self, is_below: F) -> (count: usize)
        requires
            forall|x: &T| #[trigger] is_below.requires((x,)),
        ensures
            count <= self@.len(),
            forall|i: int| 0 <= i < count ==> is_below.ensures((&(#[trigger] self@[i]).1,), true),
            count < self@.len() ==> is_below.ensures((&self@[count as int].1,), false),
    {
        let values = self.core.values();
        let mut count: usize = 0;
        while count < values.len()
            invariant
                count <= values@.len(),
                values@ == self@.map_values(|p: (i64, T)| p.1),
                forall|x: &T| #[trigger] is_below.requires((x,)),
                forall|i: int| 0 <= i < count ==> is_below.ensures((&(#[trigger] self@[i]).1,), true),
            decreases values@.len() - count,
        {
            let v = values[count];
            if !is_below(&v) {
                return count;
            }
            count += 1;
        }
        count
    }

    /// Whether `item` occurs at any index.
    pub fn contains(&self, item: &T) -> (found: bool)
        ensures
            found == holds(self@, *item),
    {
        let values = self.core.values();
        let mut i: usize = 0;
        while i < values.len()
            invariant
                i <= values@.len(),
                values@ == self@.map_values(|p: (i64, T)| p.1),
                forall|j: int| 0 <= j < i ==> (#[trigger] self@[j]).1 != *item,
            decreases values@.len() - i,
        {
            if values[i].key_eq(item) {
                return true;
            }
            i += 1;
        }
        false
    }

    /// Stores `item` at the first free index from zero, and returns it.
    pub fn push(&mut self, item: T) -> (index: i64)
        requires
            exists|j: i64| j >= 0 && !occupies(old(self)@, j),
        ensures
            index >= 0,
            !occupies(old(self)@, index),
            forall|j: i64| 0 <= j < index ==> occupies(old(self)@, j),
            ascending(final(self)@),
            forall|k: i64| #[trigger] slot_of(final(self)@, k) == (if k == index { Some(item) } else { slot_of(old(self)@, k) }),
            final(self)@.len() == old(self)@.len() + 1,
    {
        let index = self.core.first_free();
        self.core.put(index, item);
        index
    }

    /// Stores `item` at `index`, returning whatever was there.
    pub fn insert_at(&mut self, index: i64, item: T) -> (previous: Option<T>)
        ensures
            previous == slot_of(old(self)@, index),
            ascending(final(self)@),
            forall|k: i64| #[trigger] slot_of(final(self)@, k) == (if k == index { Some(item) } else { slot_of(old(self)@, k) }),
    {
        self.core.put(index, item)
    }

    /// Replaces the value at an occupied `index`, returning the old one;
    /// a free `index` stays free.
    pub fn replace(&mut self, index: i64, item: T) -> (previous: Option<T>)
        ensures
            previous == slot_of(old(self)@, index),
            previous is None ==> final(self)@ == old(self)@,
            previous is Some ==> forall|k: i64| #[trigger] slot_of(final(self)@, k) == (if k == index { Some(item) } else { slot_of(old(self)@, k) }),
            ascending(final(self)@),
    {
        self.core.check_invariants();
        if !self.core.contains_index(index) {
            return None;
        }
        self.core.put(index, item)
    }

    /// Stores `item` at `index`, first moving every value at or after
    /// `index` one index up.
    pub fn insert_shifting(&mut self, index: i64, item: T)
        requires
            old(self)@.len() == 0 || old(self)@.last().0 < i64::MAX,
        ensures
            ascending(final(self)@),
            forall|k: i64| #[trigger] slot_of(final(self)@, k) == (if k == index { Some(item) } else {
                slot_of(old(self)@.map_values(|p: (i64, T)| shifted(p, index)), k)
            }),
    {
        self.core.shift_from(index);
        self.core.put(index, item);
    }

    /// Removes and returns the value stored at `index`.
    pub fn remove_at(&mut self, index: i64) -> (removed: Option<T>)
        ensures
            removed == slot_of(old(self)@, index),
            ascending(final(self)@),
            forall|k: i64| #[trigger] slot_of(final(self)@, k) == (if k == index { None } else { slot_of(old(self)@, k) }),
    {
        self.core.take(index)
    }

    /// Removes the value at the lowest index.
    pub fn pop_first(&mut self) -> (popped: Option<(i64, T)>)
        ensures
            popped == (if old(self)@.len() == 0 { None } else { Some(old(self)@[0]) }),
            final(self)@ == (if old(self)@.len() == 0 { old(self)@ } else { old(self)@.drop_first() }),
    {
        self.core.check_invariants();
        match self.core.min_index() {
            None => None,
            Some(index) => {
                let ghost s = self@;
                let value = self.core.take(index);
                proof {
                    let p = choose|p: int| 0 <= p < s.len() && s[p] == (index, value->0) && self@ == s.remove(p);
                    if p > 0 {
                        assert(s[0].0 < s[p].0);
                    }
                    assert(s.remove(0) =~= s.drop_first());
                }
                Some((index, value.unwrap()))
            },
        }
    }

    /// Removes the value at the highest index.
    pub fn pop_last(&mut self) -> (popped: Option<(i64, T)>)
        ensures
            popped == (if old(self)@.len() == 0 { None } else { Some(old(self)@.last()) }),
            final(self)@ == (if old(self)@.len() == 0 { old(self)@ } else { old(self)@.drop_last() }),
    {
        self.core.check_invariants();
        match self.core.max_index() {
            None => None,
            Some(index) => {
                let ghost s = self@;
                let value = self.core.take(index);
                proof {
                    let p = choose|p: int| 0 <= p < s.len() && s[p] == (index, value->0) && self@ == s.remove(p);
                    if p < s.len() - 1 {
                        assert(s[p].0 < s[s.len() - 1].0);
                    }
                    assert(s.remove(s.len() - 1) =~= s.drop_last());
                }
                Some((index, value.unwrap()))
            },
        }
    }

    /// Removes the first occurrence of `item`, returning where it was.
    pub fn remove_first_of(&mut self, item: &T) -> (index: Option<i64>)
        ensures
            match index {
                Some(k) => exists|p: int| 0 <= p < old(self)@.len() && old(self)@[p] == (k, *item)
                    && (forall|j: int| 0 <= j < p ==> (#[trigger] old(self)@[j]).1 != *item)
                    && final(self)@ == old(self)@.remove(p),
                None => !holds(old(self)@, *item) && final(self)@ == old(self)@,
            },
            ascending(final(self)@),
    {
        self.core.check_invariants();
        let pairs = self.core.pairs();
        let mut i: usize = 0;
        while i < pairs.len()
            invariant
                i <= pairs@.len(),
                pairs@ == self@,
                self@ == old(self)@,
                ascending(self@),
                forall|j: int| 0 <= j < i ==> (#[trigger] pairs@[j]).1 != *item,
            decreases pairs@.len() - i,
        {
            if pairs[i].1.key_eq(item) {
                let ghost s = self@;
                let k = pairs[i].0;
                let value = self.core.take(k);
                proof {
                    lemma_slot_at(s, i as int);
                    let p = choose|p: int| 0 <= p < s.len() && s[p] == (k, value->0) && self@ == s.remove(p);
                    if p < i {
                        assert(s[p].0 < s[i as int].0);
                    } else if p > i {
                        assert(s[i as int].0 < s[p].0);
                    }
                }
                return Some(k);
            }
            i += 1;
        }
        None
    }

    /// Removes the last occurrence of `item`, returning where it was.
    pub fn remove_last_of(&mut self, item: &T) -> (index: Option<i64>)
        ensures
            match index {
                Some(k) => exists|p: int| 0 <= p < old(self)@.len() && old(self)@[p] == (k, *item)
                    && (forall|j: int| p < j < old(self)@.len() ==> (#[trigger] old(self)@[j]).1 != *item)
                    && final(self)@ == old(self)@.remove(p),
                None => !holds(old(self)@, *item) && final(self)@ == old(self)@,
            },
            ascending(final(self)@),
    {
        self.core.check_invariants();
        let pairs = self.core.pairs();
        let mut i: usize = pairs.len();
        while i > 0
            invariant
                i <= pairs@.len(),
                pairs@ == self@,
                self@ == old(self)@,
                ascending(self@),
                forall|j: int| i <= j < pairs@.len() ==> (#[trigger] pairs@[j]).1 != *item,
            decreases i,
        {
            if pairs[i - 1].1.key_eq(item) {
                let ghost s = self@;
                let ghost at = i - 1;
                let k = pairs[i - 1].0;
                let value = self.core.take(k);
                proof {
                    lemma_slot_at(s, at as int);
                    let p = choose|p: int| 0 <= p < s.len() && s[p] == (k, value->0) && self@ == s.remove(p);
                    if p < at {
                        assert(s[p].0 < s[at as int].0);
                    } else if p > at {
                        assert(s[at as int].0 < s[p].0);
                    }
                }
                return Some(k);
            }
            i -= 1;
        }
        None
    }

    /// Removes every occurrence of `item`, returning how many there were.
    pub fn remove_all_of(&mut self, item: &T) -> (count: usize)
        ensures
            ascending(final(self)@),
            forall|k: i64| #[trigger] slot_of(final(self)@, k) == (if slot_of(old(self)@, k) == Some(*item) { None } else { slot_of(old(self)@, k) }),
            count == old(self)@.len() - final(self)@.len(),
    {
        self.core.check_invariants();
        let ghost s = self@;
        let n = self.core.len();
        let mut count: usize = 0;
        loop
            invariant
                n == s.len(),
                ascending(s),
                ascending(self@),
                count == s.len() - self@.len(),
                forall|k: i64| #[trigger] slot_of(self@, k) is Some ==> slot_of(self@, k) == slot_of(s, k),
                forall|k: i64| #[trigger] slot_of(s, k) is Some && slot_of(s, k) != Some(*item) ==> slot_of(self@, k) == slot_of(s, k),
            ensures
                !holds(self@, *item),
                n == s.len(),
                ascending(self@),
                count == s.len() - self@.len(),
                forall|k: i64| #[trigger] slot_of(self@, k) is Some ==> slot_of(self@, k) == slot_of(s, k),
                forall|k: i64| #[trigger] slot_of(s, k) is Some && slot_of(s, k) != Some(*item) ==> slot_of(self@, k) == slot_of(s, k),
            decreases self@.len(),
        {
            let ghost before = self@;
            match self.remove_first_of(item) {
                None => break,
                Some(k) => {
                    proof {
                        let p = choose|p: int| 0 <= p < before.len() && before[p] == (k, *item) && (forall|j: int| 0 <= j < p ==> (#[trigger] before[j]).1 != *item) && self@ == before.remove(p);
                        lemma_remove_at(before, p);
                        lemma_slot_at(before, p);
                        assert forall|k2: i64| #[trigger] slot_of(self@, k2) is Some implies slot_of(self@, k2) == slot_of(s, k2) by {
                            assert(slot_of(self@, k2) == (if k2 == k { None } else { slot_of(before, k2) }));
                        }
                        assert forall|k2: i64| #[trigger] slot_of(s, k2) is Some && slot_of(s, k2) != Some(*item) implies slot_of(self@, k2) == slot_of(s, k2) by {
                            assert(slot_of(self@, k2) == (if k2 == k { None } else { slot_of(before, k2) }));
                        }
                    }
                    count += 1;
                },
            }
        }
        proof {
            assert forall|k: i64| #[trigger] slot_of(self@, k) == (if slot_of(s, k) == Some(*item) { None } else { slot_of(s, k) }) by {
                if slot_of(self@, k) is Some {
                    let i = choose|i: int| 0 <= i < self@.len() && (#[trigger] self@[i]).0 == k;
                    lemma_slot_at(self@, i);
                }
            }
        }
        count
    }

    /// Removes every entry.
    pub fn clear(&mut self)
        ensures
            final(self)@ == Seq::<(i64, T)>::empty(),
    {
        self.core.clear();
    }

    /// Keeps only the entries `keep` accepts, at their indices.
    pub fn retain<F: Fn(i64, &T) -> bool>(&mut self, keep: F)
        requires
            forall|k: i64, x: &T| #[trigger] keep.requires((k, x)),
        ensures
            ascending(final(self)@),
            forall|k: i64| #[trigger] slot_of(final(self)@, k) is Some ==> slot_of(final(self)@, k) == slot_of(old(self)@, k)
                && keep.ensures((k, &slot_of(old(self)@, k)->0), true),
            forall|k: i64| #[trigger] slot_of(old(self)@, k) is Some && slot_of(final(self)@, k) is None
                ==> keep.ensures((k, &slot_of(old(self)@, k)->0), false),
    {
        self.core.check_invariants();
        let ghost s = self@;
        let pairs = self.core.pairs();
        let mut i: usize = 0;
        while i < pairs.len()
            invariant
                i <= pairs@.len(),
                pairs@ == s,
                ascending(s),
                ascending(self@),
                forall|k: i64, x: &T| #[trigger] keep.requires((k, x)),
                forall|k: i64| #[trigger] slot_of(self@, k) is Some ==> slot_of(self@, k) == slot_of(s, k),
                forall|j: int| i <= j < s.len() ==> slot_of(self@, (#[trigger] s[j]).0) == Some(s[j].1),
                forall|j: int| 0 <= j < i ==> (slot_of(self@, (#[trigger] s[j]).0) is Some ==> keep.ensures((s[j].0, &s[j].1), true))
                    && (slot_of(self@, s[j].0) is None ==> keep.ensures((s[j].0, &s[j].1), false)),
            decreases pairs@.len() - i,
        {
            let (k, v) = pairs[i];
            let kept = keep(k, &v);
            if !kept {
                let ghost before = self@;
                self.core.take(k);
                proof {
                    assert forall|j: int| i < j < s.len() implies slot_of(self@, (#[trigger] s[j]).0) == Some(s[j].1) by {
                        assert(s[i as int].0 < s[j].0);
                        assert(slot_of(before, s[j].0) == Some(s[j].1));
                    }
                    assert forall|j: int| 0 <= j < i implies (slot_of(self@, (#[trigger] s[j]).0) is Some ==> keep.ensures((s[j].0, &s[j].1), true))
                        && (slot_of(self@, s[j].0) is None ==> keep.ensures((s[j].0, &s[j].1), false)) by {
                        assert(s[j].0 < s[i as int].0);
                        assert(slot_of(self@, s[j].0) == slot_of(before, s[j].0));
                    }
                }
            }
            i += 1;
        }
        proof {
            assert forall|k: i64| #[trigger] slot_of(self@, k) is Some implies slot_of(self@, k) == slot_of(s, k)
                && keep.ensures((k, &slot_of(s, k)->0), true) by {
                let j = choose|j: int| 0 <= j < self@.len() && (#[trigger] self@[j]).0 == k;
                lemma_slot_at(self@, j);
                let p = choose|p: int| 0 <= p < s.len() && (#[trigger] s[p]).0 == k;
                lemma_slot_at(s, p);
            }
            assert forall|k: i64| #[trigger] slot_of(s, k) is Some && slot_of(self@, k) is None
                implies keep.ensures((k, &slot_of(s, k)->0), false) by {
                let p = choose|p: int| 0 <= p < s.len() && (#[trigger] s[p]).0 == k;
                lemma_slot_at(s, p);
            }
        }
    }

    /// Renumbers the values to indices `0..len`, keeping their order.
    pub fn compact(&mut self)
        requires
            old(self)@.len() <= i64::MAX,
        ensures
            final(self)@ == old(self)@.map(|i: int, p: (i64, T)| (i as i64, p.1)),
    {
        self.core.compact();
    }

    /// Whether this sequence's values appear consecutively, in order, among
    /// the values of `other`, whatever their indices.
    pub fn is_window_of(&self, other: &Self) -> (window: bool)
        ensures
            window == window_in(self@.map_values(|p: (i64, T)| p.1), other@.map_values(|p: (i64, T)| p.1)),
    {
        let mine = self.core.values();
        let theirs = other.core.values();
        is_window(&mine, &theirs)
    }

    /// Whether both hold the same values at the same indices.
    pub fn same_entries(&self, other: &Self) -> (same: bool)
        ensures
            same == (self@ == other@),
    {
        let mine = self.core.pairs();
        let theirs = other.core.pairs();
        if mine.len() != theirs.len() {
            return false;
        }
        let mut i: usize = 0;
        while i < mine.len()
            invariant
                i <= mine@.len(),
                mine@.len() == theirs@.len(),
                mine@ == self@,
                theirs@ == other@,
                forall|j: int| 0 <= j < i ==> mine@[j] == theirs@[j],
            decreases mine@.len() - i,
        {
            let (a, x) = mine[i];
            let (b, y) = theirs[i];
            if a != b || !x.key_eq(&y) {
                return false;
            }
            i += 1;
        }
        proof {
            assert(self@ =~= other@);
        }
        true
    }

    /// A sequence holding `values` at indices `0..len`.
    pub fn from_values(values: Vec<T>) -> (sequence: Self)
        requires
            values@.len() <= i64::MAX,
        ensures
            sequence@ == values@.map(|i: int, v: T| (i as i64, v)),
    {
        let mut slots: Vec<(i64, T)> = Vec::new();
        let mut i: usize = 0;
        while i < values.len()
            invariant
                i <= values@.len(),
                values@.len() <= i64::MAX,
                slots@ == values@.take(i as int).map(|i: int, v: T| (i as i64, v)),
            decreases values@.len() - i,
        {
            slots.push((i as i64, values[i]));
            i += 1;
            proof {
                assert(slots@ =~= values@.take(i as int).map(|i: int, v: T| (i as i64, v)));
            }
        }
        proof {
            assert(values@.take(i as int) =~= values@);
        }
        SparseSequence { core: SparseCore::from_listing(slots) }
    }

    /// A sequence holding each value at its index; a later pair for the
    /// same index replaces an earlier one.
    pub fn from_pairs(pairs: Vec<(i64, T)>) -> (sequence: Self)
        ensures
            ascending(sequence@),
            forall|k: i64| #[trigger] slot_of(sequence@, k) == assigned(pairs@, k),
    {
        let mut sequence = SparseSequence::new();
        sequence.extend_pairs(pairs);
        sequence
    }

    /// Stores each value at its index, replacing what was there.
    pub fn extend_pairs(&mut self, pairs: Vec<(i64, T)>)
        ensures
            ascending(final(self)@),
            forall|k: i64| #[trigger] slot_of(final(self)@, k) == (match assigned(pairs@, k) {
                Some(v) => Some(v),
                None => slot_of(old(self)@, k),
            }),
    {
        let mut i: usize = 0;
        while i < pairs.len()
            invariant
                i <= pairs@.len(),
                forall|k: i64| #[trigger] slot_of(self@, k) == (match assigned(pairs@.take(i as int), k) {
                    Some(v) => Some(v),
                    None => slot_of(old(self)@, k),
                }),
            decreases pairs@.len() - i,
        {
            let (k, v) = pairs[i];
            let ghost before = self@;
            self.core.put(k, v);
            proof {
                let t = pairs@.take(i + 1);
                assert(t.drop_last() =~= pairs@.take(i as int));
                assert(t.last() == (k, v));
                assert forall|k2: i64| #[trigger] slot_of(self@, k2) == (match assigned(t, k2) {
                    Some(v) => Some(v),
                    None => slot_of(old(self)@, k2),
                }) by {
                    assert(t.len() > 0);
                    assert(assigned(t, k2) == (if t.last().0 == k2 { Some(t.last().1) } else { assigned(t.drop_last(), k2) }));
                    assert(assigned(t, k2) == (if k2 == k { Some(v) } else { assigned(pairs@.take(i as int), k2) }));
                    assert(slot_of(before, k2) == (match assigned(pairs@.take(i as int), k2) {
                        Some(v) => Some(v),
                        None => slot_of(old(self)@, k2),
                    }));
                }
            }
            i += 1;
        }
        proof {
            assert(pairs@.take(i as int) =~= pairs@);
        }
        self.core.check_invariants();
    }

    /// Pushes each value at the first free index in turn.
    pub fn extend_values(&mut self, values: Vec<T>)
        requires
            old(self)@.len() + values@.len() <= i64::MAX,
        ensures
            ascending(final(self)@),
            final(self)@.len() == old(self)@.len() + values@.len(),
            forall|k: i64| #[trigger] slot_of(old(self)@, k) is Some ==> slot_of(final(self)@, k) == slot_of(old(self)@, k),
    {
        self.core.check_invariants();
        let mut i: usize = 0;
        while i < values.len()
            invariant
                i <= values@.len(),
                old(self)@.len() + values@.len() <= i64::MAX,
                self@.len() == old(self)@.len() + i,
                ascending(self@),
                forall|k: i64| #[trigger] slot_of(old(self)@, k) is Some ==> slot_of(self@, k) == slot_of(old(self)@, k),
            decreases values@.len() - i,
        {
            proof {
                lemma_free_exists(self@);
            }
            let ghost before = self@;
            let index = self.push(values[i]);
            proof {
                assert forall|k: i64| #[trigger] slot_of(old(self)@, k) is Some implies slot_of(self@, k) == slot_of(old(self)@, k) by {
                    if k == index {
                        assert(slot_of(before, k) is None);
                    }
                }
            }
            i += 1;
        }
    }
}

impl<T: Key> SparseSequence<T> {
    /// Sorts the values by `compare` across the occupied indices.
    pub fn sort_by<F: Fn(&T, &T) -> Ordering>(&mut self, compare: F)
        requires
            forall|a: &T, b: &T| #[trigger] compare.requires((a, b)),
        ensures
            sorted_by_compare(compare, final(self)@.map_values(|p: (i64, T)| p.1)),
            final(self)@.map_values(|p: (i64, T)| p.0) == old(self)@.map_values(|p: (i64, T)| p.0),
            final(self)@.map_values(|p: (i64, T)| p.1).to_multiset() == old(self)@.map_values(|p: (i64, T)| p.1).to_multiset(),
    {
        let mut values = self.core.values();
        sort_vec_by(&mut values, &compare);
        let ghost s = self@;
        self.core.set_values(values);
        proof {
            assert(self@.map_values(|p: (i64, T)| p.0) =~= s.map_values(|p: (i64, T)| p.0));
            assert(self@.map_values(|p: (i64, T)| p.1) =~= values@);
        }
    }
}

impl<T: Key> Default for SparseSequence<T> {
    fn default() -> (sequence: Self)
        ensures
            sequence@ == Seq::<(i64, T)>::empty(),
    {
        SparseSequence::new()
    }
}

impl<T: Key> Collection for SparseSequence<T> {
    type Item = T;

    /// The values in index order.
    open spec fn listed(&self) -> Seq<T> {
        self@.map_values(|p: (i64, T)| p.1)
    }

    fn len(&self) -> usize {
        self.core.len()
    }

    fn contains(&self, item: &T) -> bool {
        let found = SparseSequence::contains(self, item);
        proof {
            let s = self@.map_values(|p: (i64, T)| p.1);
            if found {
                let i = choose|i: int| 0 <= i < self@.len() && (#[trigger] self@[i]).1 == *item;
                assert(s[i] == *item);
            }
            if s.contains(*item) {
                let i = choose|i: int| 0 <= i < s.len() && s[i] == *item;
                assert(self@[i].1 == *item);
            }
        }
        found
    }

    fn elements(&self) -> Vec<T> {
        self.core.values()
    }
}

/// `insert` pushes at the first free index, and reports `false` only when
/// no index at or above zero is free.
impl<T: Key> CollectionInsert for SparseSequence<T> {
    fn insert(&mut self, item: T) -> (added: bool)
        ensures
            added == exists|j: i64| j >= 0 && !occupies(old(self)@, j),
            !added ==> final(self)@ == old(self)@,
            added ==> final(self)@.len() == old(self)@.len() + 1,
    {
        if self.core.has_free() {
            proof {
                assert(self@ == self.core@);
            }
            self.push(item);
            true
        } else {
            false
        }
    }
}

/// `remove` takes the first occurrence.
impl<T: Key> CollectionRemove for SparseSequence<T> {
    fn remove(&mut self, item: &T) -> (removed: bool)
        ensures
            removed == holds(old(self)@, *item),
    {
        self.remove_first_of(item).is_some()
    }

    fn clear(&mut self) {
        SparseSequence::clear(self)
    }
}

impl<T: Key> Choose for SparseSequence<T> {

}

impl<T: Key> SparseIndexed for SparseSequence<T> {
    open spec fn has_free_index(&self) -> bool {
        exists|j: i64| j >= 0 && !occupies(self@, j)
    }

    fn slot_count(&self) -> (n: usize)
        ensures
            n == self@.len(),
    {
        self.core.len()
    }

    fn has_index(&self, index: i64) -> (found: bool)
        ensures
            found == occupies(self@, index),
    {
        self.core.contains_index(index)
    }

    fn first_index(&self) -> (index: Option<i64>)
        ensures
            index == (if self@.len() == 0 { None } else { Some(self@[0].0) }),
    {
        self.core.min_index()
    }

    fn last_index(&self) -> (index: Option<i64>)
        ensures
            index == (if self@.len() == 0 { None } else { Some(self@.last().0) }),
    {
        self.core.max_index()
    }

    fn indices(&self) -> (indices: Vec<i64>)
        ensures
            indices@ == self@.map_values(|p: (i64, T)| p.0),
    {
        self.core.indices()
    }

    fn indices_of(&self, item: &T) -> (indices: Vec<i64>)
        ensures
            indices@ == indices_holding(self@, *item),
    {
        let all = self.core.pairs();
        let mut out: Vec<i64> = Vec::new();
        let mut i: usize = 0;
        while i < all.len()
            invariant
                i <= all@.len(),
                out@ == indices_holding(all@.subrange(0, i as int), *item),
            decreases all@.len() - i,
        {
            let (k, v) = all[i];
            if v.key_eq(item) {
                out.push(k);
            }
            proof {
                let s = all@.subrange(0, i + 1);
                assert(s.drop_last() =~= all@.subrange(0, i as int));
                reveal(Seq::filter);
                assert(s.last() == (k, v));
                assert(entries_holding(s, *item) == (if v == *item {
                    entries_holding(s.drop_last(), *item).push((k, v))
                } else {
                    entries_holding(s.drop_last(), *item)
                }));
                assert(out@ =~= indices_holding(s, *item));
            }
            i += 1;
        }
        proof {
            assert(all@.subrange(0, all@.len() as int) =~= all@);
        }
        out
    }

    fn next_free_index(&self) -> (index: i64)
        ensures
            index >= 0,
            !occupies(self@, index),
            forall|j: i64| 0 <= j < index ==> occupies(self@, j),
    {
        self.core.first_free()
    }
}

/// Moves values between the occupied indices.
impl<T: Key> Reorder for SparseSequence<T> {
    fn reverse(&mut self)
        ensures
            final(self)@.len() == old(self)@.len(),
            forall|i: int| 0 <= i < old(self)@.len() ==> #[trigger] final(self)@[i] == (old(self)@[i].0, old(self)@[old(self)@.len() - 1 - i].1),
    {
        self.core.reverse_slots();
    }

    fn shuffle(&mut self, random: &mut Random)
        ensures
            (final(self)@.map_values(|p: (i64, T)| p.1), final(random).state())
                == fisher_yates(old(self)@.map_values(|p: (i64, T)| p.1), old(random).state(), old(self)@.len()),
            final(random).seed_spec() == old(random).seed_spec(),
            final(self)@.map_values(|p: (i64, T)| p.0) == old(self)@.map_values(|p: (i64, T)| p.0),
            final(self)@.map_values(|p: (i64, T)| p.1).to_multiset() == old(self)@.map_values(|p: (i64, T)| p.1).to_multiset(),
    {
        let mut values = self.core.values();
        sampling::shuffle(&mut values, random);
        let ghost s = self@;
        self.core.set_values(values);
        proof {
            assert(self@.map_values(|p: (i64, T)| p.0) =~= s.map_values(|p: (i64, T)| p.0));
            assert(self@.map_values(|p: (i64, T)| p.1) =~= values@);
        }
    }
}

} // verus!
