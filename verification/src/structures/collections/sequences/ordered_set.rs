//! A unique collection with an explicit order: set-like uniqueness with
//! vector-like positions.
use vstd::prelude::*;
use crate::structures::traits::key::Key;
use crate::structures::traits::collection::{Collection, CollectionInsert, CollectionRemove, UniqueCollection, Choose, SetAlgebra};
use crate::structures::traits::sequence::{Sequence, SequenceMut, InsertAt, Reorder};
use crate::structures::sampling::{self, fisher_yates};
use crate::random::Random;
use crate::structures::comparing::{sort_vec_by, sorted_by_compare};
use core::cmp::Ordering;
use crate::structures::vec_ops::{position_of, vec_contains, copy_vec, lemma_remove_unique, lemma_push_unique, lemma_insert_unique, lemma_update_unique, lemma_swap_unique, lemma_prefix_excludes_next, lemma_subrange_unique, lemma_permutation_unique};

verus! {

/// The entries of `s` that do not occur earlier in `s`, in order: the first
/// occurrence of each value.
pub open spec fn first_occurrences<T>(s: Seq<T>) -> Seq<T>
    decreases s.len(),
{
    if s.len() == 0 {
        Seq::empty()
    } else {
        let init = first_occurrences(s.drop_last());
        if init.contains(s.last()) {
            init
        } else {
            init.push(s.last())
        }
    }
}

broadcast use {vstd::seq_lib::group_seq_properties, vstd::set::group_set_axioms, vstd::seq_lib::seq_to_set_is_finite, Seq::lemma_push_to_set_commute};

/// Unique sequence of elements.
pub struct OrderedSet<T> {
    items: Vec<T>,
}

impl<T> View for OrderedSet<T> {
    type V = Seq<T>;

    closed spec fn view(&self) -> Seq<T> {
        self.items@
    }
}

impl<T> OrderedSet<T> {
    #[verifier::type_invariant]
    spec fn inv(self) -> bool {
        self.items@.no_duplicates()
    }
}

/// The sequence with the element at `from` moved to position `to`.
pub open spec fn moved<T>(s: Seq<T>, from: int, to: int) -> Seq<T> {
    s.remove(from).insert(to, s[from])
}

impl<T: Key> OrderedSet<T> {
    fn take_items(&mut self) -> (items: Vec<T>)
        ensures
            items@ == old(self)@,
            items@.no_duplicates(),
            final(self)@ == Seq::<T>::empty(),
    {
        proof {
            use_type_invariant(&*self);
        }
        let mut items: Vec<T> = Vec::new();
        std::mem::swap(&mut items, &mut self.items);
        items
    }

    /// Creates an empty ordered set.
    pub fn new() -> (s: Self)
        ensures
            s@ == Seq::<T>::empty(),
    {
        OrderedSet { items: Vec::new() }
    }

    /// Creates an empty ordered set with room for `capacity` elements.
    pub fn with_capacity(capacity: usize) -> (s: Self)
        ensures
            s@ == Seq::<T>::empty(),
    {
        OrderedSet { items: Vec::with_capacity(capacity) }
    }

    /// Builds a set from `items`, keeping the first occurrence of each value.
    pub fn from_vec(items: &Vec<T>) -> (s: Self)
        ensures
            s@ == first_occurrences(items@),
            s@.to_set() == items@.to_set(),
            s@.len() <= items@.len(),
    {
        let mut s = Self::new();
        let mut i: usize = 0;
        while i < items.len()
            invariant
                i <= items@.len(),
                s@ == first_occurrences(items@.subrange(0, i as int)),
                s@.to_set() == items@.subrange(0, i as int).to_set(),
                s@.len() <= i,
            decreases items@.len() - i,
        {
            s.push(items[i]);
            proof {
                assert(items@.subrange(0, i + 1) =~= items@.subrange(0, i as int).push(items@[i as int]));
                assert(items@.subrange(0, i + 1).drop_last() =~= items@.subrange(0, i as int));
            }
            i += 1;
        }
        proof {
            assert(items@.subrange(0, items@.len() as int) =~= items@);
        }
        s
    }

    /// Number of elements.
    pub fn len(&self) -> (n: usize)
        ensures
            n == self@.len(),
    {
        self.items.len()
    }

    /// Whether no elements are stored.
    pub fn is_empty(&self) -> (empty: bool)
        ensures
            empty == (self@.len() == 0),
    {
        self.items.len() == 0
    }

    /// The element at `index`.
    pub fn get(&self, index: usize) -> (found: Option<T>)
        ensures
            found == (if index < self@.len() { Some(self@[index as int]) } else { None::<T> }),
    {
        if index < self.items.len() {
            Some(self.items[index])
        } else {
            None
        }
    }

    /// The first element.
    pub fn first(&self) -> (found: Option<T>)
        ensures
            found == (if self@.len() > 0 { Some(self@[0]) } else { None::<T> }),
    {
        self.get(0)
    }

    /// The last element.
    pub fn last(&self) -> (found: Option<T>)
        ensures
            found == (if self@.len() > 0 { Some(self@.last()) } else { None::<T> }),
    {
        if self.items.len() == 0 {
            None
        } else {
            self.get(self.items.len() - 1)
        }
    }

    /// The elements as an ordered slice.
    pub fn as_slice(&self) -> (items: &[T])
        ensures
            items@ == self@,
    {
        self.items.as_slice()
    }

    /// The elements in order, consuming the set.
    pub fn into_vec(self) -> (items: Vec<T>)
        ensures
            items@ == self@,
    {
        self.items
    }

    /// A copy of the elements from first to last.
    pub fn iter(&self) -> (items: Vec<T>)
        ensures
            items@ == self@,
    {
        copy_vec(&self.items)
    }

    /// Removes every element.
    pub fn clear(&mut self)
        ensures
            final(self)@ == Seq::<T>::empty(),
    {
        self.items = Vec::new();
    }

    /// Reserves room for more elements; the contents are unchanged.
    pub fn reserve(&mut self, additional: usize)
        ensures
            final(self)@ == old(self)@,
    {
        let mut items = self.take_items();
        items.reserve(additional);
        self.items = items;
    }

    /// Releases spare room; the contents are unchanged.
    pub fn shrink_to_fit(&mut self)
        ensures
            final(self)@ == old(self)@,
    {
    }

    /// Whether the order and the uniqueness of the elements agree. Always
    /// true for a set built by these methods.
    pub fn check_invariants(&self) -> (ok: bool)
        ensures
            ok,
            self@.no_duplicates(),
    {
        proof {
            use_type_invariant(self);
        }
        true
    }

    /// The first index whose element is not `is_below`. For a set whose
    /// `is_below` elements all come first, this is where they end.
    pub fn partition_point<F: Fn(&T) -> bool>(&self, is_below: F) -> (point: usize)
        requires
            forall|x: &T| #[trigger] is_below.requires((x,)),
        ensures
            point <= self@.len(),
            forall|j: int| 0 <= j < point ==> is_below.ensures((&self@[j],), true),
            point < self@.len() ==> is_below.ensures((&self@[point as int],), false),
    {
        let mut i: usize = 0;
        while i < self.items.len()
            invariant
                i <= self.items@.len(),
                forall|x: &T| #[trigger] is_below.requires((x,)),
                forall|j: int| 0 <= j < i ==> is_below.ensures((&self.items@[j],), true),
            decreases self.items@.len() - i,
        {
            if !is_below(&self.items[i]) {
                return i;
            }
            i += 1;
        }
        i
    }

    /// Whether `item` is present.
    pub fn contains(&self, item: &T) -> (found: bool)
        ensures
            found == self@.contains(*item),
    {
        vec_contains(&self.items, item)
    }

    /// The position of `item`.
    pub fn index_of(&self, item: &T) -> (found: Option<usize>)
        ensures
            match found {
                Some(i) => i < self@.len() && self@[i as int] == *item,
                None => !self@.contains(*item),
            },
    {
        position_of(&self.items, item)
    }

    /// Appends `item` unless it is already present; returns whether it was
    /// added.
    pub fn push(&mut self, item: T) -> (added: bool)
        ensures
            added == !old(self)@.contains(item),
            final(self)@ == (if added { old(self)@.push(item) } else { old(self)@ }),
    {
        if self.contains(&item) {
            return false;
        }
        let mut items = self.take_items();
        proof {
            lemma_push_unique(items@, item);
        }
        items.push(item);
        self.items = items;
        true
    }

    /// Inserts `item` at `index` (clamped to the end), shifting later
    /// elements back. Does nothing if `item` is already present.
    pub fn insert_at(&mut self, index: usize, item: T) -> (added: bool)
        ensures
            added == !old(self)@.contains(item),
            final(self)@ == (if added {
                old(self)@.insert(if index <= old(self)@.len() { index as int } else { old(self)@.len() as int }, item)
            } else {
                old(self)@
            }),
    {
        if self.contains(&item) {
            return false;
        }
        let mut items = self.take_items();
        let at: usize = if index <= items.len() { index } else { items.len() };
        proof {
            lemma_insert_unique(items@, at as int, item);
        }
        items.insert(at, item);
        self.items = items;
        true
    }

    /// Replaces the element at `index`, returning the old one. Fails when
    /// `index` is out of range or `item` sits at another position.
    pub fn replace_at(&mut self, index: usize, item: T) -> (old_item: Option<T>)
        ensures
            match old_item {
                Some(x) => index < old(self)@.len() && x == old(self)@[index as int]
                    && final(self)@ == old(self)@.update(index as int, item),
                None => final(self)@ == old(self)@ && (index >= old(self)@.len()
                    || (old(self)@.contains(item) && old(self)@[index as int] != item)),
            },
    {
        if index >= self.items.len() {
            return None;
        }
        match self.index_of(&item) {
            Some(existing) => {
                if existing != index {
                    proof {
                        use_type_invariant(&*self);
                    }
                    return None;
                }
            },
            None => {},
        }
        let mut items = self.take_items();
        let old_item = items[index];
        proof {
            assert forall|j: int| 0 <= j < items@.len() && j != index implies items@[j] != item by {
                if items@[j] == item {
                    assert(items@[index as int] == item || old(self)@.contains(item));
                }
            }
            lemma_update_unique(items@, index as int, item);
        }
        items.set(index, item);
        self.items = items;
        Some(old_item)
    }

    /// Removes `item`, keeping the order of the rest.
    pub fn remove(&mut self, item: &T) -> (removed: bool)
        ensures
            removed == old(self)@.contains(*item),
            final(self)@ == old(self)@.remove_value(*item),
            final(self)@.to_set() == old(self)@.to_set().remove(*item),
    {
        proof {
            use_type_invariant(&*self);
        }
        match position_of(&self.items, item) {
            Some(i) => {
                proof {
                    old(self)@.index_of_first_ensures(*item);
                    lemma_remove_unique(old(self)@, i as int);
                    assert(old(self)@.index_of_first(*item) == Some(i as int));
                }
                self.remove_at(i);
                true
            },
            None => {
                proof {
                    old(self)@.index_of_first_ensures(*item);
                    assert(old(self)@.to_set().remove(*item) =~= old(self)@.to_set());
                }
                false
            },
        }
    }

    /// Removes the element at `index`, keeping the order of the rest.
    pub fn remove_at(&mut self, index: usize) -> (removed: Option<T>)
        ensures
            match removed {
                Some(x) => index < old(self)@.len() && x == old(self)@[index as int]
                    && final(self)@ == old(self)@.remove(index as int),
                None => index >= old(self)@.len() && final(self)@ == old(self)@,
            },
    {
        if index >= self.items.len() {
            return None;
        }
        let mut items = self.take_items();
        proof {
            lemma_remove_unique(items@, index as int);
        }
        let x = items.remove(index);
        self.items = items;
        Some(x)
    }

    /// Removes the element at `index` by moving the last element into its
    /// place.
    pub fn swap_remove_at(&mut self, index: usize) -> (removed: Option<T>)
        ensures
            match removed {
                Some(x) => index < old(self)@.len() && x == old(self)@[index as int]
                    && final(self)@ == old(self)@.update(index as int, old(self)@.last()).drop_last(),
                None => index >= old(self)@.len() && final(self)@ == old(self)@,
            },
    {
        if index >= self.items.len() {
            return None;
        }
        let mut items = self.take_items();
        let ghost s = items@;
        proof {
            let r = s.update(index as int, s.last()).drop_last();
            assert forall|p: int, q: int| 0 <= p < r.len() && 0 <= q < r.len() && p != q implies r[p] != r[q] by {
                let sp = if p == index { s.len() - 1 } else { p };
                let sq = if q == index { s.len() - 1 } else { q };
                assert(r[p] == s[sp]);
                assert(r[q] == s[sq]);
            }
        }
        let x = items.swap_remove(index);
        self.items = items;
        Some(x)
    }

    /// Removes and returns the first element.
    pub fn pop_first(&mut self) -> (removed: Option<T>)
        ensures
            match removed {
                Some(x) => old(self)@.len() > 0 && x == old(self)@[0] && final(self)@ == old(self)@.remove(0),
                None => old(self)@.len() == 0 && final(self)@ == old(self)@,
            },
    {
        self.remove_at(0)
    }

    /// Removes and returns the last element.
    pub fn pop_last(&mut self) -> (removed: Option<T>)
        ensures
            match removed {
                Some(x) => old(self)@.len() > 0 && x == old(self)@.last() && final(self)@ == old(self)@.drop_last(),
                None => old(self)@.len() == 0 && final(self)@ == old(self)@,
            },
    {
        if self.items.len() == 0 {
            return None;
        }
        let r = self.remove_at(self.items.len() - 1);
        proof {
            assert(old(self)@.remove(old(self)@.len() - 1) =~= old(self)@.drop_last());
        }
        r
    }

    /// Keeps only the elements `keep` accepts, preserving their order.
    pub fn retain<F: Fn(&T) -> bool>(&mut self, keep: F)
        requires
            forall|x: &T| #[trigger] keep.requires((x,)),
        ensures
            forall|x: T| #[trigger] final(self)@.contains(x) ==> old(self)@.contains(x) && keep.ensures((&x,), true),
            forall|x: T| old(self)@.contains(x) && !final(self)@.contains(x) ==> keep.ensures((&x,), false),
            final(self)@.len() <= old(self)@.len(),
    {
        let items = self.take_items();
        let mut kept: Vec<T> = Vec::new();
        let mut i: usize = 0;
        while i < items.len()
            invariant
                items@ == old(self)@,
                items@.no_duplicates(),
                i <= items@.len(),
                forall|x: &T| #[trigger] keep.requires((x,)),
                kept@.no_duplicates(),
                kept@.len() <= i,
                forall|x: T| #[trigger] kept@.contains(x) ==> items@.subrange(0, i as int).contains(x) && keep.ensures((&x,), true),
                forall|x: T| items@.subrange(0, i as int).contains(x) && !kept@.contains(x) ==> keep.ensures((&x,), false),
            decreases items@.len() - i,
        {
            let item = items[i];
            let b = keep(&item);
            proof {
                lemma_prefix_excludes_next(items@, i as int);
            }
            if b {
                proof {
                    lemma_push_unique(kept@, item);
                }
                kept.push(item);
            }
            i += 1;
        }
        proof {
            assert(items@.subrange(0, items@.len() as int) =~= items@);
        }
        self.items = kept;
    }

    /// Moves the element at `from` to `to`, shifting the elements between.
    /// Returns false, changing nothing, when either index is out of range or
    /// they are equal.
    pub fn move_index(&mut self, from: usize, to: usize) -> (moved_ok: bool)
        ensures
            moved_ok == (from < old(self)@.len() && to < old(self)@.len() && from != to),
            final(self)@ == (if moved_ok { moved(old(self)@, from as int, to as int) } else { old(self)@ }),
    {
        let len = self.items.len();
        if from >= len || to >= len || from == to {
            return false;
        }
        let mut items = self.take_items();
        proof {
            lemma_remove_unique(items@, from as int);
        }
        let x = items.remove(from);
        proof {
            lemma_insert_unique(old(self)@.remove(from as int), to as int, x);
        }
        items.insert(to, x);
        self.items = items;
        true
    }

    /// Moves `item` to `index` (clamped to the last position).
    pub fn move_to(&mut self, item: &T, index: usize) -> (moved_ok: bool)
        ensures
            !old(self)@.contains(*item) ==> !moved_ok && final(self)@ == old(self)@,
            old(self)@.contains(*item) ==> {
                let from = old(self)@.index_of(*item);
                let to = if index < old(self)@.len() { index as int } else { old(self)@.len() - 1 };
                &&& moved_ok == (from != to)
                &&& final(self)@ == (if moved_ok { moved(old(self)@, from, to) } else { old(self)@ })
            },
    {
        proof {
            use_type_invariant(&*self);
        }
        match self.index_of(item) {
            Some(from) => {
                proof {
                    old(self)@.index_of_first_ensures(*item);
                    assert(old(self)@.index_of(*item) == from) by {
                        let f = old(self)@.index_of_first(*item).unwrap();
                        assert(old(self)@[f] == old(self)@[from as int]);
                    }
                }
                let last = self.items.len() - 1;
                let to = if index < last { index } else { last };
                self.move_index(from, to)
            },
            None => false,
        }
    }

    /// Moves `item` by `offset` places, stopping at either end.
    pub fn move_by(&mut self, item: &T, offset: isize) -> (moved_ok: bool)
        ensures
            !old(self)@.contains(*item) ==> !moved_ok && final(self)@ == old(self)@,
            old(self)@.contains(*item) ==> {
                let from = old(self)@.index_of(*item);
                let target = from + offset;
                let to = if target < 0 { 0 } else if target < old(self)@.len() { target } else { old(self)@.len() - 1 };
                &&& moved_ok == (from != to)
                &&& final(self)@ == (if moved_ok { moved(old(self)@, from, to) } else { old(self)@ })
            },
    {
        proof {
            use_type_invariant(&*self);
        }
        match self.index_of(item) {
            Some(from) => {
                proof {
                    old(self)@.index_of_first_ensures(*item);
                    assert(old(self)@.index_of(*item) == from) by {
                        let f = old(self)@.index_of_first(*item).unwrap();
                        assert(old(self)@[f] == old(self)@[from as int]);
                    }
                }
                let last = self.items.len() - 1;
                let target: i128 = from as i128 + offset as i128;
                let to: usize = if target < 0 {
                    0
                } else if target < self.items.len() as i128 {
                    target as usize
                } else {
                    last
                };
                self.move_index(from, to)
            },
            None => false,
        }
    }

    /// Swaps the elements at `a` and `b`.
    pub fn swap_indices(&mut self, a: usize, b: usize)
        requires
            a < old(self)@.len(),
            b < old(self)@.len(),
        ensures
            final(self)@ == old(self)@.update(a as int, old(self)@[b as int]).update(b as int, old(self)@[a as int]),
    {
        let mut items = self.take_items();
        let xa = items[a];
        let xb = items[b];
        proof {
            lemma_swap_unique(items@, a as int, b as int);
        }
        items.set(a, xb);
        items.set(b, xa);
        self.items = items;
    }

    /// Swaps the positions of two elements; false when either is absent.
    pub fn swap(&mut self, first: &T, second: &T) -> (swapped: bool)
        ensures
            swapped == (old(self)@.contains(*first) && old(self)@.contains(*second)),
            swapped ==> final(self)@.to_set() == old(self)@.to_set() && final(self)@.len() == old(self)@.len()
                && final(self)@[old(self)@.index_of(*first)] == *second
                && final(self)@[old(self)@.index_of(*second)] == *first,
            !swapped ==> final(self)@ == old(self)@,
    {
        proof {
            use_type_invariant(&*self);
        }
        match (self.index_of(first), self.index_of(second)) {
            (Some(a), Some(b)) => {
                proof {
                    old(self)@.index_of_first_ensures(*first);
                    old(self)@.index_of_first_ensures(*second);
                    assert(old(self)@.index_of(*first) == a) by {
                        let f = old(self)@.index_of_first(*first).unwrap();
                        assert(old(self)@[f] == old(self)@[a as int]);
                    }
                    assert(old(self)@.index_of(*second) == b) by {
                        let f = old(self)@.index_of_first(*second).unwrap();
                        assert(old(self)@[f] == old(self)@[b as int]);
                    }
                    lemma_swap_unique(old(self)@, a as int, b as int);
                }
                self.swap_indices(a, b);
                proof {
                    assert(final(self)@.to_set() =~= old(self)@.to_set());
                }
                true
            },
            _ => false,
        }
    }

    /// The elements in positions `start..end` as a new set.
    pub fn slice(&self, start: usize, end: usize) -> (out: Self)
        requires
            start <= end <= self@.len(),
        ensures
            out@ == self@.subrange(start as int, end as int),
    {
        proof {
            use_type_invariant(self);
            lemma_subrange_unique(self.items@, start as int, end as int);
        }
        let mut out: Vec<T> = Vec::with_capacity(end - start);
        let mut i: usize = start;
        while i < end
            invariant
                start <= i <= end <= self.items@.len(),
                out@ == self.items@.subrange(start as int, i as int),
            decreases end - i,
        {
            out.push(self.items[i]);
            proof {
                assert(self.items@.subrange(start as int, i + 1) =~= self.items@.subrange(start as int, i as int).push(self.items@[i as int]));
            }
            i += 1;
        }
        OrderedSet { items: out }
    }

    /// Reverses the order of the elements.
    pub fn reverse(&mut self)
        ensures
            final(self)@ == old(self)@.reverse(),
    {
        let items = self.take_items();
        let mut out: Vec<T> = Vec::with_capacity(items.len());
        let mut i: usize = items.len();
        while i > 0
            invariant
                i <= items@.len(),
                out@ == items@.subrange(i as int, items@.len() as int).reverse(),
            decreases i,
        {
            out.push(items[i - 1]);
            proof {
                assert(items@.subrange(i - 1, items@.len() as int).reverse() =~= items@.subrange(i as int, items@.len() as int).reverse().push(items@[i - 1]));
            }
            i -= 1;
        }
        proof {
            assert(items@.subrange(0, items@.len() as int) =~= items@);
            let r = items@.reverse();
            assert forall|p: int, q: int| 0 <= p < r.len() && 0 <= q < r.len() && p != q implies r[p] != r[q] by {
                assert(r[p] == items@[items@.len() - 1 - p]);
                assert(r[q] == items@[items@.len() - 1 - q]);
            }
        }
        self.items = out;
    }

    /// Whether both sets hold the same elements in the same order.
    pub fn equals(&self, other: &Self) -> (same: bool)
        ensures
            same == (self@ == other@),
    {
        if self.items.len() != other.items.len() {
            return false;
        }
        let mut i: usize = 0;
        while i < self.items.len()
            invariant
                i <= self.items@.len(),
                self.items@.len() == other.items@.len(),
                forall|j: int| 0 <= j < i ==> self.items@[j] == other.items@[j],
            decreases self.items@.len() - i,
        {
            if !self.items[i].key_eq(&other.items[i]) {
                return false;
            }
            i += 1;
        }
        proof {
            assert(self@ =~= other@);
        }
        true
    }

    /// The elements of `self` with the new elements of `other` appended in
    /// their order.
    pub fn union(&self, other: &Self) -> (out: Self)
        ensures
            out@ == self@ + other@.filter(|x: T| !self@.contains(x)),
            out@.to_set() == self@.to_set().union(other@.to_set()),
            out@.subrange(0, self@.len() as int) == self@,
    {
        proof {
            use_type_invariant(self);
            use_type_invariant(other);
        }
        let ghost fresh = |x: T| !self@.contains(x);
        let mut out = OrderedSet { items: copy_vec(&self.items) };
        let mut i: usize = 0;
        proof {
            assert(other.items@.subrange(0, 0).filter(fresh) =~= Seq::<T>::empty()) by {
                reveal(Seq::filter);
            }
            assert(out@ =~= self@ + other.items@.subrange(0, 0).filter(fresh));
        }
        while i < other.items.len()
            invariant
                i <= other.items@.len(),
                other.items@.no_duplicates(),
                fresh == (|x: T| !self@.contains(x)),
                out@ == self@ + other.items@.subrange(0, i as int).filter(fresh),
                out@.to_set() == self@.to_set().union(other.items@.subrange(0, i as int).to_set()),
                out@.len() >= self@.len(),
                out@.subrange(0, self@.len() as int) == self@,
            decreases other.items@.len() - i,
        {
            let ghost before = out@;
            let ghost x = other.items@[i as int];
            proof {
                let prefix = other.items@.subrange(0, i as int);
                lemma_prefix_excludes_next(other.items@, i as int);
                if prefix.filter(fresh).contains(x) {
                    prefix.lemma_filter_contains_rev(fresh, x);
                }
                prefix.lemma_filter_push(x, fresh);
            }
            out.push(other.items[i]);
            proof {
                assert(out@ =~= self@ + other.items@.subrange(0, i + 1).filter(fresh));
                assert(other.items@.subrange(0, i + 1) =~= other.items@.subrange(0, i as int).push(other.items@[i as int]));
                assert(out@.to_set() =~= self@.to_set().union(other.items@.subrange(0, i + 1).to_set()));
                assert(out@.subrange(0, self@.len() as int) =~= before.subrange(0, self@.len() as int));
            }
            i += 1;
        }
        proof {
            assert(other.items@.subrange(0, other.items@.len() as int) =~= other.items@);
        }
        out
    }

    fn filter_by(&self, other: &Self, want_present: bool) -> (out: Self)
        ensures
            out@ == self@.filter(|x: T| other@.contains(x) == want_present),
            forall|x: T| #[trigger] out@.contains(x) <==> (self@.contains(x) && (other@.contains(x) == want_present)),
            out@.len() <= self@.len(),
    {
        proof {
            use_type_invariant(self);
        }
        let ghost keep = |x: T| other@.contains(x) == want_present;
        let mut kept: Vec<T> = Vec::new();
        let mut i: usize = 0;
        proof {
            assert(self.items@.subrange(0, 0).filter(keep) =~= Seq::<T>::empty()) by {
                reveal(Seq::filter);
            }
        }
        while i < self.items.len()
            invariant
                i <= self.items@.len(),
                self.items@.no_duplicates(),
                keep == (|x: T| other@.contains(x) == want_present),
                kept@ == self.items@.subrange(0, i as int).filter(keep),
                kept@.no_duplicates(),
                kept@.len() <= i,
                forall|x: T| #[trigger] kept@.contains(x) <==> (self.items@.subrange(0, i as int).contains(x) && (other@.contains(x) == want_present)),
            decreases self.items@.len() - i,
        {
            let item = self.items[i];
            proof {
                lemma_prefix_excludes_next(self.items@, i as int);
                self.items@.subrange(0, i as int).lemma_filter_push(item, keep);
            }
            if other.contains(&item) == want_present {
                proof {
                    lemma_push_unique(kept@, item);
                }
                kept.push(item);
            }
            i += 1;
        }
        proof {
            assert(self.items@.subrange(0, self.items@.len() as int) =~= self.items@);
        }
        OrderedSet { items: kept }
    }

    /// The elements of `self` also in `other`, in `self`'s order.
    pub fn intersection(&self, other: &Self) -> (out: Self)
        ensures
            out@ == self@.filter(|x: T| other@.contains(x)),
            out@.to_set() == self@.to_set().intersect(other@.to_set()),
    {
        let out = self.filter_by(other, true);
        proof {
            assert((|x: T| other@.contains(x) == true) =~= (|x: T| other@.contains(x)));
            assert(out@.to_set() =~= self@.to_set().intersect(other@.to_set()));
        }
        out
    }

    /// The elements of `self` not in `other`, in `self`'s order.
    pub fn difference(&self, other: &Self) -> (out: Self)
        ensures
            out@ == self@.filter(|x: T| !other@.contains(x)),
            out@.to_set() == self@.to_set().difference(other@.to_set()),
    {
        let out = self.filter_by(other, false);
        proof {
            assert((|x: T| other@.contains(x) == false) =~= (|x: T| !other@.contains(x)));
            assert(out@.to_set() =~= self@.to_set().difference(other@.to_set()));
        }
        out
    }

    /// Whether every element of `self` is in `other`.
    pub fn is_subset(&self, other: &Self) -> (sub: bool)
        ensures
            sub == self@.to_set().subset_of(other@.to_set()),
    {
        let d = self.filter_by(other, false);
        let empty = d.is_empty();
        proof {
            if !empty {
                assert(d@.contains(d@[0]));
                assert(self@.to_set().contains(d@[0]));
                assert(!other@.to_set().contains(d@[0]));
            } else {
                assert forall|x: T| self@.to_set().contains(x) implies other@.to_set().contains(x) by {
                    if !other@.contains(x) {
                        assert(d@.contains(x));
                    }
                }
            }
        }
        empty
    }

    /// Whether no element of `self` is in `other`.
    pub fn is_disjoint(&self, other: &Self) -> (disjoint: bool)
        ensures
            disjoint == self@.to_set().disjoint(other@.to_set()),
    {
        let d = self.filter_by(other, true);
        let empty = d.is_empty();
        proof {
            if !empty {
                assert(d@.contains(d@[0]));
                assert(self@.to_set().contains(d@[0]));
                assert(other@.to_set().contains(d@[0]));
            } else {
                assert forall|x: T| self@.to_set().contains(x) implies !other@.to_set().contains(x) by {
                    if other@.contains(x) {
                        assert(d@.contains(x));
                    }
                }
            }
        }
        empty
    }
}

impl<T: Key> OrderedSet<T> {
    /// Randomly reorders the elements.
    pub fn shuffle(&mut self, random: &mut Random)
        ensures
            (final(self)@, final(random).state()) == fisher_yates(old(self)@, old(random).state(), old(self)@.len()),
            final(random).seed_spec() == old(random).seed_spec(),
            final(self)@.to_multiset() == old(self)@.to_multiset(),
            final(self)@.len() == old(self)@.len(),
    {
        let mut items = self.take_items();
        sampling::shuffle(&mut items, random);
        proof {
            lemma_permutation_unique(old(self)@, items@);
        }
        self.items = items;
    }

    /// Puts the elements in the order of `items`, which holds the same
    /// elements.
    pub fn reorder_to(&mut self, items: Vec<T>)
        requires
            items@.to_multiset() == old(self)@.to_multiset(),
        ensures
            final(self)@ == items@,
    {
        let old_items = self.take_items();
        proof {
            lemma_permutation_unique(old_items@, items@);
        }
        self.items = items;
    }

    /// Sorts the elements by `compare`.
    pub fn sort_by<F: Fn(&T, &T) -> Ordering>(&mut self, compare: F)
        requires
            forall|a: &T, b: &T| #[trigger] compare.requires((a, b)),
        ensures
            sorted_by_compare(compare, final(self)@),
            final(self)@.to_multiset() == old(self)@.to_multiset(),
            final(self)@.len() == old(self)@.len(),
    {
        let mut items = self.take_items();
        sort_vec_by(&mut items, &compare);
        proof {
            lemma_permutation_unique(old(self)@, items@);
        }
        self.items = items;
    }
}

impl<T: Key> Collection for OrderedSet<T> {
    type Item = T;

    open spec fn listed(&self) -> Seq<T> {
        self@
    }

    fn len(&self) -> usize {
        OrderedSet::len(self)
    }

    fn contains(&self, item: &T) -> bool {
        OrderedSet::contains(self, item)
    }

    fn elements(&self) -> Vec<T> {
        self.iter()
    }
}

impl<T: Key> CollectionInsert for OrderedSet<T> {
    fn insert(&mut self, item: T) -> bool {
        self.push(item)
    }
}

impl<T: Key> CollectionRemove for OrderedSet<T> {
    fn remove(&mut self, item: &T) -> bool {
        OrderedSet::remove(self, item)
    }

    fn clear(&mut self) {
        OrderedSet::clear(self)
    }
}

impl<T: Key> UniqueCollection for OrderedSet<T> {

}

impl<T: Key> Choose for OrderedSet<T> {

}

impl<T: Key> Sequence for OrderedSet<T> {
    fn get(&self, index: usize) -> Option<T> {
        OrderedSet::get(self, index)
    }

    fn index_of(&self, item: &T) -> Option<usize> {
        OrderedSet::index_of(self, item)
    }
}

impl<T: Key> SequenceMut for OrderedSet<T> {
    fn remove_at(&mut self, index: usize) -> Option<T> {
        OrderedSet::remove_at(self, index)
    }
}

impl<T: Key> InsertAt for OrderedSet<T> {
    fn insert_at(&mut self, index: usize, item: T) -> bool {
        OrderedSet::insert_at(self, index, item)
    }
}

impl<T: Key> Reorder for OrderedSet<T> {
    fn reverse(&mut self) {
        OrderedSet::reverse(self)
    }

    fn shuffle(&mut self, random: &mut Random) {
        OrderedSet::shuffle(self, random)
    }
}

impl<T: Key> SetAlgebra for OrderedSet<T> {
    fn union(&self, other: &Self) -> Self {
        OrderedSet::union(self, other)
    }

    fn intersection(&self, other: &Self) -> Self {
        OrderedSet::intersection(self, other)
    }

    fn difference(&self, other: &Self) -> Self {
        OrderedSet::difference(self, other)
    }

    fn is_subset(&self, other: &Self) -> bool {
        OrderedSet::is_subset(self, other)
    }
}

} // verus!
