//! A bounded double-ended queue that drops from the far end when full.
use vstd::prelude::*;
use std::collections::VecDeque;
use crate::structures::traits::key::Key;
use crate::structures::traits::collection::{Collection, CollectionRemove, Choose};
use crate::structures::traits::sequence::{Sequence, SequenceMut, Reorder, FixedCapacity};
use crate::structures::sampling;
use crate::structures::sampling::fisher_yates;
use crate::random::Random;
use crate::structures::comparing::{sort_vec_by, sorted_by_compare};
use core::cmp::Ordering;

verus! {

broadcast use {vstd::seq_lib::group_seq_properties, vstd::seq_lib::group_to_multiset_ensures};

/// A double-ended queue holding at most `capacity` values.
pub struct RingBuffer<T> {
    values: VecDeque<T>,
    capacity: usize,
}

impl<T> RingBuffer<T> {
    #[verifier::type_invariant]
    spec fn inv(self) -> bool {
        &&& self.capacity > 0
        &&& self.values@.len() <= self.capacity
    }
}

impl<T> View for RingBuffer<T> {
    type V = Seq<T>;

    closed spec fn view(&self) -> Seq<T> {
        self.values@
    }
}

impl<T: Key> RingBuffer<T> {
    /// The fixed capacity.
    pub closed spec fn capacity_spec(&self) -> nat {
        self.capacity as nat
    }

    fn take_values(&mut self) -> (values: VecDeque<T>)
        ensures
            values@ == old(self)@,
            final(self)@ == Seq::<T>::empty(),
            final(self).capacity_spec() == old(self).capacity_spec(),
            old(self).capacity_spec() > 0,
            values@.len() <= old(self).capacity_spec(),
    {
        proof {
            use_type_invariant(&*self);
        }
        let mut values: VecDeque<T> = VecDeque::new();
        std::mem::swap(&mut values, &mut self.values);
        values
    }

    /// Creates an empty buffer holding at most `capacity` values.
    pub fn new(capacity: usize) -> (b: Self)
        requires
            capacity > 0,
        ensures
            b@ == Seq::<T>::empty(),
            b.capacity_spec() == capacity,
    {
        RingBuffer { values: VecDeque::new(), capacity }
    }

    /// Number of values.
    pub fn len(&self) -> (n: usize)
        ensures
            n == self@.len(),
            self@.len() <= self.capacity_spec(),
    {
        proof {
            use_type_invariant(self);
        }
        self.values.len()
    }

    /// Whether the buffer is empty.
    pub fn is_empty(&self) -> (empty: bool)
        ensures
            empty == (self@.len() == 0),
    {
        self.values.len() == 0
    }

    /// Whether the buffer holds `capacity` values.
    pub fn is_full(&self) -> (full: bool)
        ensures
            full == (self@.len() == self.capacity_spec()),
    {
        self.values.len() == self.capacity
    }

    /// The most values the buffer holds.
    pub fn capacity(&self) -> (c: usize)
        ensures
            c == self.capacity_spec(),
            c > 0,
    {
        proof {
            use_type_invariant(self);
        }
        self.capacity
    }

    /// Appends at the back, dropping the front value when full. Returns the
    /// dropped value.
    pub fn push_back(&mut self, value: T) -> (dropped: Option<T>)
        ensures
            final(self).capacity_spec() == old(self).capacity_spec(),
            old(self)@.len() == old(self).capacity_spec() ==> dropped == Some(old(self)@[0])
                && final(self)@ == old(self)@.subrange(1, old(self)@.len() as int).push(value),
            old(self)@.len() < old(self).capacity_spec() ==> dropped is None && final(self)@ == old(self)@.push(value),
    {
        let full = self.is_full();
        let mut values = self.take_values();
        let dropped = if full { values.pop_front() } else { None };
        values.push_back(value);
        self.values = values;
        dropped
    }

    /// Prepends at the front, dropping the back value when full. Returns the
    /// dropped value.
    pub fn push_front(&mut self, value: T) -> (dropped: Option<T>)
        ensures
            final(self).capacity_spec() == old(self).capacity_spec(),
            old(self)@.len() == old(self).capacity_spec() ==> dropped == Some(old(self)@.last())
                && final(self)@ == seq![value] + old(self)@.drop_last(),
            old(self)@.len() < old(self).capacity_spec() ==> dropped is None && final(self)@ == seq![value] + old(self)@,
    {
        let full = self.is_full();
        let mut values = self.take_values();
        let dropped = if full { values.pop_back() } else { None };
        values.push_front(value);
        proof {
            if full {
                assert(old(self)@.subrange(0, old(self)@.len() - 1) =~= old(self)@.drop_last());
            }
        }
        self.values = values;
        dropped
    }

    /// Inserts at `index` (clamped to the end). When full, the front value is
    /// dropped first and the index moves one place forward.
    pub fn insert_at(&mut self, index: usize, value: T) -> (dropped: Option<T>)
        ensures
            final(self).capacity_spec() == old(self).capacity_spec(),
            ({
                let at = if index < old(self)@.len() { index as int } else { old(self)@.len() as int };
                if old(self)@.len() == old(self).capacity_spec() {
                    dropped == Some(old(self)@[0]) && final(self)@ == old(self)@.subrange(1, old(self)@.len() as int).insert(
                        if at > 0 { at - 1 } else { 0 }, value)
                } else {
                    dropped is None && final(self)@ == old(self)@.insert(at, value)
                }
            }),
    {
        let full = self.is_full();
        let mut values = self.take_values();
        let mut at: usize = if index < values.len() { index } else { values.len() };
        let dropped = if full {
            if at > 0 {
                at = at - 1;
            }
            values.pop_front()
        } else {
            None
        };
        values.insert(at, value);
        self.values = values;
        dropped
    }

    /// The front value.
    pub fn front(&self) -> (found: Option<T>)
        ensures
            found == (if self@.len() > 0 { Some(self@[0]) } else { None::<T> }),
    {
        self.get(0)
    }

    /// The back value.
    pub fn back(&self) -> (found: Option<T>)
        ensures
            found == (if self@.len() > 0 { Some(self@.last()) } else { None::<T> }),
    {
        if self.values.len() == 0 {
            None
        } else {
            self.get(self.values.len() - 1)
        }
    }

    /// The value at `index` from the front.
    pub fn get(&self, index: usize) -> (found: Option<T>)
        ensures
            found == (if index < self@.len() { Some(self@[index as int]) } else { None::<T> }),
    {
        if index < self.values.len() {
            Some(self.values[index])
        } else {
            None
        }
    }

    /// The value `steps` places from the back.
    pub fn get_from_back(&self, steps: usize) -> (found: Option<T>)
        ensures
            found == (if steps < self@.len() { Some(self@[self@.len() - 1 - steps]) } else { None::<T> }),
    {
        let n = self.values.len();
        if steps < n {
            self.get(n - 1 - steps)
        } else {
            None
        }
    }

    /// The value `offset` places from the back, wrapping around in either
    /// direction: offset 0 is the back, 1 is the front.
    pub fn get_wrapping(&self, offset: isize) -> (found: Option<T>)
        ensures
            found == (if self@.len() > 0 {
                Some(self@[(self@.len() - 1 + offset) % (self@.len() as int)])
            } else {
                None::<T>
            }),
    {
        proof {
            use_type_invariant(self);
        }
        let n = self.values.len();
        if n == 0 {
            return None;
        }
        let l: i128 = n as i128;
        let r: i128 = l - 1 + offset as i128;
        let idx: i128 = if r >= 0 {
            r % l
        } else {
            let m: i128 = (-r) % l;
            if m == 0 { 0 } else { l - m }
        };
        proof {
            let ri = r as int;
            let li = l as int;
            if ri < 0 {
                let m = (-ri) % li;
                let q = (-ri) / li;
                vstd::arithmetic::div_mod::lemma_fundamental_div_mod(-ri, li);
                assert(0 <= m < li);
                if m == 0 {
                    assert(ri == (-q) * li + 0) by (nonlinear_arith)
                        requires
                            -ri == li * q + m,
                            m == 0;
                    vstd::arithmetic::div_mod::lemma_fundamental_div_mod_converse(ri, li, -q, 0);
                } else {
                    assert(ri == (-q - 1) * li + (li - m)) by (nonlinear_arith)
                        requires
                            -ri == li * q + m;
                    vstd::arithmetic::div_mod::lemma_fundamental_div_mod_converse(ri, li, -q - 1, li - m);
                }
            }
        }
        Some(self.values[idx as usize])
    }

    /// The values from front to back.
    pub fn iter(&self) -> (values: Vec<T>)
        ensures
            values@ == self@,
    {
        let mut out: Vec<T> = Vec::with_capacity(self.values.len());
        let mut i: usize = 0;
        while i < self.values.len()
            invariant
                i <= self.values@.len(),
                out@ == self.values@.subrange(0, i as int),
            decreases self.values@.len() - i,
        {
            out.push(self.values[i]);
            proof {
                assert(out@ =~= self.values@.subrange(0, i + 1));
            }
            i += 1;
        }
        proof {
            assert(out@ =~= self.values@);
        }
        out
    }

    /// Removes and returns the front value.
    pub fn pop_front(&mut self) -> (value: Option<T>)
        ensures
            final(self).capacity_spec() == old(self).capacity_spec(),
            match value {
                Some(x) => old(self)@.len() > 0 && x == old(self)@[0] && final(self)@ == old(self)@.subrange(1, old(self)@.len() as int),
                None => old(self)@.len() == 0 && final(self)@ == old(self)@,
            },
    {
        let mut values = self.take_values();
        let v = values.pop_front();
        self.values = values;
        v
    }

    /// Removes and returns the back value.
    pub fn pop_back(&mut self) -> (value: Option<T>)
        ensures
            final(self).capacity_spec() == old(self).capacity_spec(),
            match value {
                Some(x) => old(self)@.len() > 0 && x == old(self)@.last() && final(self)@ == old(self)@.drop_last(),
                None => old(self)@.len() == 0 && final(self)@ == old(self)@,
            },
    {
        let mut values = self.take_values();
        let v = values.pop_back();
        proof {
            if v is Some {
                assert(old(self)@.subrange(0, old(self)@.len() - 1) =~= old(self)@.drop_last());
            }
        }
        self.values = values;
        v
    }

    /// Removes and returns the value at `index`.
    pub fn remove_at(&mut self, index: usize) -> (value: Option<T>)
        ensures
            final(self).capacity_spec() == old(self).capacity_spec(),
            match value {
                Some(x) => index < old(self)@.len() && x == old(self)@[index as int] && final(self)@ == old(self)@.remove(index as int),
                None => index >= old(self)@.len() && final(self)@ == old(self)@,
            },
    {
        let mut values = self.take_values();
        let v = values.remove(index);
        self.values = values;
        v
    }

    /// Removes every value; the capacity stays.
    pub fn clear(&mut self)
        ensures
            final(self)@ == Seq::<T>::empty(),
            final(self).capacity_spec() == old(self).capacity_spec(),
    {
        let mut values = self.take_values();
        values.clear();
        self.values = values;
    }

    /// Keeps only the values `keep` accepts, in order.
    pub fn retain<F: Fn(&T) -> bool>(&mut self, keep: F)
        requires
            forall|x: &T| #[trigger] keep.requires((x,)),
        ensures
            final(self).capacity_spec() == old(self).capacity_spec(),
            final(self)@.len() <= old(self)@.len(),
            forall|x: T| #[trigger] final(self)@.contains(x) ==> old(self)@.contains(x) && keep.ensures((&x,), true),
            forall|i: int| 0 <= i < old(self)@.len() && !final(self)@.contains(old(self)@[i]) ==> #[trigger] keep.ensures((&old(self)@[i],), false),
    {
        let values = self.take_values();
        let mut kept: VecDeque<T> = VecDeque::new();
        let mut i: usize = 0;
        while i < values.len()
            invariant
                i <= values@.len(),
                values@ == old(self)@,
                forall|x: &T| #[trigger] keep.requires((x,)),
                kept@.len() <= i,
                forall|x: T| #[trigger] kept@.contains(x) ==> old(self)@.contains(x) && keep.ensures((&x,), true),
                forall|j: int| 0 <= j < i && !kept@.contains(old(self)@[j]) ==> #[trigger] keep.ensures((&old(self)@[j],), false),
            decreases values@.len() - i,
        {
            let x = values[i];
            if keep(&x) {
                kept.push_back(x);
            }
            proof {
                assert(old(self)@[i as int] == x);
            }
            i += 1;
        }
        self.values = kept;
    }

    /// The underlying deque.
    pub fn as_deque(&self) -> (values: &VecDeque<T>)
        ensures
            values@ == self@,
    {
        &self.values
    }

    /// Whether `value` is stored.
    pub fn contains(&self, value: &T) -> (found: bool)
        ensures
            found == self@.contains(*value),
    {
        self.index_of(value).is_some()
    }

    /// Position of the first occurrence of `value`.
    pub fn index_of(&self, value: &T) -> (found: Option<usize>)
        ensures
            match found {
                Some(i) => i < self@.len() && self@[i as int] == *value && forall|j: int| 0 <= j < i ==> self@[j] != *value,
                None => !self@.contains(*value),
            },
    {
        let mut i: usize = 0;
        while i < self.values.len()
            invariant
                i <= self.values@.len(),
                forall|j: int| 0 <= j < i ==> self.values@[j] != *value,
            decreases self.values@.len() - i,
        {
            if self.values[i].key_eq(value) {
                return Some(i);
            }
            i += 1;
        }
        None
    }

    /// Removes the last occurrence of `value` and returns it.
    pub fn remove(&mut self, value: &T) -> (removed: Option<T>)
        ensures
            final(self).capacity_spec() == old(self).capacity_spec(),
            match removed {
                Some(x) => x == *value && exists|i: int| 0 <= i < old(self)@.len() && old(self)@[i] == *value
                    && (forall|j: int| i < j < old(self)@.len() ==> old(self)@[j] != *value)
                    && final(self)@ == old(self)@.remove(i),
                None => !old(self)@.contains(*value) && final(self)@ == old(self)@,
            },
    {
        let mut i: usize = self.values.len();
        while i > 0
            invariant
                i <= self.values@.len(),
                self@ == old(self)@,
                self.capacity_spec() == old(self).capacity_spec(),
                forall|j: int| i <= j < self.values@.len() ==> self.values@[j] != *value,
            decreases i,
        {
            if self.values[i - 1].key_eq(value) {
                let r = self.remove_at(i - 1);
                return r;
            }
            i -= 1;
        }
        None
    }

    /// Reverses the order of the values.
    pub fn reverse(&mut self)
        ensures
            final(self)@ == old(self)@.reverse(),
            final(self).capacity_spec() == old(self).capacity_spec(),
    {
        let values = self.take_values();
        let mut out: VecDeque<T> = VecDeque::new();
        let mut i: usize = 0;
        while i < values.len()
            invariant
                i <= values@.len(),
                out@ == values@.subrange(0, i as int).reverse(),
            decreases values@.len() - i,
        {
            out.push_front(values[i]);
            proof {
                assert(out@ =~= values@.subrange(0, i + 1).reverse());
            }
            i += 1;
        }
        proof {
            assert(values@.subrange(0, values@.len() as int) =~= values@);
        }
        self.values = out;
    }

    /// Randomly reorders the values.
    pub fn shuffle(&mut self, random: &mut Random)
        ensures
            (final(self)@, final(random).state()) == fisher_yates(old(self)@, old(random).state(), old(self)@.len()),
            final(random).seed_spec() == old(random).seed_spec(),
            final(self)@.to_multiset() == old(self)@.to_multiset(),
            final(self)@.len() == old(self)@.len(),
            final(self).capacity_spec() == old(self).capacity_spec(),
    {
        let mut items = self.iter();
        sampling::shuffle(&mut items, random);
        self.refill(&items);
    }

    /// Sorts the values by `compare`.
    pub fn sort_by<F: Fn(&T, &T) -> Ordering>(&mut self, compare: F)
        requires
            forall|a: &T, b: &T| #[trigger] compare.requires((a, b)),
        ensures
            sorted_by_compare(compare, final(self)@),
            final(self)@.to_multiset() == old(self)@.to_multiset(),
            final(self)@.len() == old(self)@.len(),
            final(self).capacity_spec() == old(self).capacity_spec(),
    {
        let mut items = self.iter();
        sort_vec_by(&mut items, &compare);
        self.refill(&items);
    }

    /// Replaces the values by `items`, as many as there were.
    fn refill(&mut self, items: &Vec<T>)
        requires
            items@.len() == old(self)@.len(),
        ensures
            final(self)@ == items@,
            final(self).capacity_spec() == old(self).capacity_spec(),
    {
        let mut values = self.take_values();
        values.clear();
        let mut i: usize = 0;
        while i < items.len()
            invariant
                i <= items@.len(),
                values@ == items@.subrange(0, i as int),
            decreases items@.len() - i,
        {
            values.push_back(items[i]);
            proof {
                assert(values@ =~= items@.subrange(0, i + 1));
            }
            i += 1;
        }
        proof {
            assert(values@ =~= items@);
        }
        self.values = values;
    }
}

impl<T: Key> Collection for RingBuffer<T> {
    type Item = T;

    open spec fn listed(&self) -> Seq<T> {
        self@
    }

    fn len(&self) -> usize {
        RingBuffer::len(self)
    }

    fn contains(&self, value: &T) -> bool {
        RingBuffer::contains(self, value)
    }

    fn elements(&self) -> Vec<T> {
        self.iter()
    }
}

impl<T: Key> CollectionRemove for RingBuffer<T> {
    fn remove(&mut self, value: &T) -> bool {
        RingBuffer::remove(self, value).is_some()
    }

    fn clear(&mut self) {
        RingBuffer::clear(self)
    }
}

impl<T: Key> Choose for RingBuffer<T> {

}

impl<T: Key> FixedCapacity for RingBuffer<T> {
    fn capacity(&self) -> usize {
        RingBuffer::capacity(self)
    }
}

impl<T: Key> Sequence for RingBuffer<T> {
    fn get(&self, index: usize) -> Option<T> {
        RingBuffer::get(self, index)
    }

    fn index_of(&self, value: &T) -> Option<usize> {
        RingBuffer::index_of(self, value)
    }
}

impl<T: Key> SequenceMut for RingBuffer<T> {
    fn remove_at(&mut self, index: usize) -> Option<T> {
        RingBuffer::remove_at(self, index)
    }
}

impl<T: Key> Reorder for RingBuffer<T> {
    fn reverse(&mut self) {
        RingBuffer::reverse(self)
    }

    fn shuffle(&mut self, random: &mut Random) {
        RingBuffer::shuffle(self, random)
    }
}

} // verus!
