//! A unique collection kept in priority order, lowest priority first.
//! Elements with equal priority keep their insertion order.
//!
//! Method names follow the usual priority-queue and ordered-map
//! vocabulary. It is also a map from element to priority.
use vstd::prelude::*;
use crate::structures::traits::key::Key;
use crate::structures::traits::collection::{Choose, Collection, CollectionRemove, UniqueCollection};
use crate::structures::traits::sequence::{Sequence, SequenceMut};
use crate::structures::traits::map::Mapping;
use crate::structures::vec_ops::{copy_vec, lemma_unique_len};
use crate::structures::range_end::{RangeEnd, within};

verus! {

broadcast use vstd::seq_lib::group_seq_properties;

/// Priorities never decrease along the sequence.
pub open spec fn priority_sorted<T>(s: Seq<(T, i64)>) -> bool {
    forall|i: int, j: int| 0 <= i <= j < s.len() ==> s[i].1 <= s[j].1
}

/// No element occurs twice.
pub open spec fn distinct_items<T>(s: Seq<(T, i64)>) -> bool {
    forall|i: int, j: int| 0 <= i < s.len() && 0 <= j < s.len() && i != j ==> s[i].0 != s[j].0
}

/// Whether `item` is queued.
pub open spec fn queued<T>(s: Seq<(T, i64)>, item: T) -> bool {
    exists|i: int| 0 <= i < s.len() && s[i].0 == item
}

/// `pos` is where an entry of priority `p` goes: behind every entry of
/// priority at most `p`, before every higher one.
pub open spec fn slot_for<T>(s: Seq<(T, i64)>, p: i64, pos: int) -> bool {
    &&& 0 <= pos <= s.len()
    &&& forall|i: int| 0 <= i < pos ==> s[i].1 <= p
    &&& forall|i: int| pos <= i < s.len() ==> s[i].1 > p
}

/// The entries whose priority lies between the bounds, in order.
pub open spec fn in_range<T>(s: Seq<(T, i64)>, low: RangeEnd, high: RangeEnd) -> Seq<(T, i64)> {
    s.filter(|e: (T, i64)| within(e.1, low, high))
}

/// The entries of every element but `item`, in order.
pub open spec fn without_item<T>(s: Seq<(T, i64)>, item: T) -> Seq<(T, i64)> {
    s.filter(|e: (T, i64)| e.0 != item)
}

/// Stable min-priority queue of unique elements ordered by `i64`
/// priorities. Lower values come first; equal priorities retain insertion
/// order.
pub struct PriorityQueue<T> {
    entries: Vec<(T, i64)>,
}

impl<T> PriorityQueue<T> {
    #[verifier::type_invariant]
    spec fn inv(self) -> bool {
        &&& priority_sorted(self.entries@)
        &&& distinct_items(self.entries@)
    }
}

impl<T> View for PriorityQueue<T> {
    type V = Seq<(T, i64)>;

    closed spec fn view(&self) -> Seq<(T, i64)> {
        self.entries@
    }
}

impl<T: Key> PriorityQueue<T> {
    /// Creates an empty queue.
    pub fn new() -> (q: Self)
        ensures
            q@ == Seq::<(T, i64)>::empty(),
    {
        PriorityQueue { entries: Vec::new() }
    }

    /// The order and uniqueness the queue keeps.
    pub fn check_invariants(&self) -> (ok: bool)
        ensures
            ok,
            priority_sorted(self@),
            distinct_items(self@),
    {
        proof {
            use_type_invariant(self);
        }
        true
    }

    /// Number of queued elements.
    pub fn len(&self) -> (n: usize)
        ensures
            n == self@.len(),
    {
        self.entries.len()
    }

    /// Whether no elements are queued.
    pub fn is_empty(&self) -> (empty: bool)
        ensures
            empty == (self@.len() == 0),
    {
        self.entries.len() == 0
    }

    /// Every entry, lowest priority first.
    pub fn iter(&self) -> (entries: Vec<(T, i64)>)
        ensures
            entries@ == self@,
            priority_sorted(entries@),
            distinct_items(entries@),
    {
        proof {
            use_type_invariant(self);
        }
        copy_vec(&self.entries)
    }

    /// The entry at position `index` in priority order.
    pub fn get(&self, index: usize) -> (entry: Option<(T, i64)>)
        ensures
            entry == (if index < self@.len() { Some(self@[index as int]) } else { None::<(T, i64)> }),
    {
        if index < self.entries.len() {
            Some(self.entries[index])
        } else {
            None
        }
    }

    /// Removes every entry.
    pub fn clear(&mut self)
        ensures
            final(self)@ == Seq::<(T, i64)>::empty(),
    {
        *self = PriorityQueue::new();
    }

    /// Every entry, lowest priority first.
    pub fn into_sorted_vec(self) -> (entries: Vec<(T, i64)>)
        ensures
            entries@ == self@,
            priority_sorted(entries@),
    {
        proof {
            use_type_invariant(&self);
        }
        let PriorityQueue { entries } = self;
        entries
    }

    /// The entry with the lowest priority (the earliest among equals).
    pub fn first(&self) -> (entry: Option<(T, i64)>)
        ensures
            entry == (if self@.len() > 0 { Some(self@[0]) } else { None::<(T, i64)> }),
            entry matches Some(e) ==> forall|i: int| 0 <= i < self@.len() ==> e.1 <= #[trigger] self@[i].1,
    {
        proof {
            use_type_invariant(self);
        }
        self.get(0)
    }

    /// The entry with the highest priority (the latest among equals).
    pub fn last(&self) -> (entry: Option<(T, i64)>)
        ensures
            entry == (if self@.len() > 0 { Some(self@[self@.len() - 1]) } else { None::<(T, i64)> }),
            entry matches Some(e) ==> forall|i: int| 0 <= i < self@.len() ==> #[trigger] self@[i].1 <= e.1,
    {
        proof {
            use_type_invariant(self);
        }
        let n = self.entries.len();
        if n == 0 {
            None
        } else {
            Some(self.entries[n - 1])
        }
    }

    /// The position of `item` in priority order.
    pub fn index_of(&self, item: &T) -> (index: Option<usize>)
        ensures
            match index {
                Some(i) => i < self@.len() && self@[i as int].0 == *item,
                None => !queued(self@, *item),
            },
    {
        let mut i: usize = 0;
        while i < self.entries.len()
            invariant
                i <= self.entries@.len(),
                forall|j: int| 0 <= j < i ==> self.entries@[j].0 != *item,
            decreases self.entries@.len() - i,
        {
            if self.entries[i].0.key_eq(item) {
                return Some(i);
            }
            i += 1;
        }
        None
    }

    /// Whether `item` is queued.
    pub fn contains(&self, item: &T) -> (found: bool)
        ensures
            found == queued(self@, *item),
    {
        self.index_of(item).is_some()
    }

    /// The priority of `item`.
    pub fn get_priority(&self, item: &T) -> (priority: Option<i64>)
        ensures
            match priority {
                Some(p) => exists|i: int| 0 <= i < self@.len() && self@[i] == (*item, p),
                None => !queued(self@, *item),
            },
    {
        match self.index_of(item) {
            Some(i) => Some(self.entries[i].1),
            None => None,
        }
    }

    /// The position where an entry of priority `p` goes.
    fn slot(&self, p: i64) -> (pos: usize)
        ensures
            slot_for(self@, p, pos as int),
    {
        proof {
            use_type_invariant(self);
        }
        let mut pos = self.entries.len();
        while pos > 0 && self.entries[pos - 1].1 > p
            invariant
                pos <= self.entries@.len(),
                priority_sorted(self.entries@),
                forall|i: int| pos <= i < self.entries@.len() ==> self.entries@[i].1 > p,
            decreases pos,
        {
            pos -= 1;
        }
        pos
    }

    /// Queues `item` behind any elements of equal priority. Returns false if
    /// it is already queued; use `change_priority` to move it.
    pub fn push(&mut self, item: T, priority: i64) -> (pushed: bool)
        ensures
            pushed == !queued(old(self)@, item),
            pushed ==> exists|pos: int| #[trigger] slot_for(old(self)@, priority, pos) && final(self)@ == old(self)@.insert(pos, (item, priority)),
            !pushed ==> final(self)@ == old(self)@,
    {
        proof {
            use_type_invariant(&*self);
        }
        if self.contains(&item) {
            return false;
        }
        let pos = self.slot(priority);
        let mut entries = Vec::new();
        std::mem::swap(&mut entries, &mut self.entries);
        let ghost before = entries@;
        entries.insert(pos, (item, priority));
        proof {
            assert forall|i: int, j: int| 0 <= i <= j < entries@.len() implies entries@[i].1 <= entries@[j].1 by {
                if i < pos && j > pos {
                    assert(before[i].1 <= priority);
                }
            }
            assert forall|i: int, j: int| 0 <= i < entries@.len() && 0 <= j < entries@.len() && i != j implies entries@[i].0 != entries@[j].0 by {
                if i == pos as int {
                    let jj = if j < pos { j } else { j - 1 };
                    assert(before[jj].0 == entries@[j].0);
                } else if j == pos as int {
                    let ii = if i < pos { i } else { i - 1 };
                    assert(before[ii].0 == entries@[i].0);
                }
            }
        }
        self.entries = entries;
        true
    }

    /// Removes an element, returning it with its priority.
    pub fn remove(&mut self, item: &T) -> (removed: Option<(T, i64)>)
        ensures
            match removed {
                Some(e) => exists|i: int| 0 <= i < old(self)@.len() && old(self)@[i] == e && e.0 == *item
                    && final(self)@ == old(self)@.remove(i),
                None => !queued(old(self)@, *item) && final(self)@ == old(self)@,
            },
    {
        match self.index_of(item) {
            Some(i) => self.remove_at(i),
            None => None,
        }
    }

    /// Removes the entry at position `index` in priority order.
    pub fn remove_at(&mut self, index: usize) -> (removed: Option<(T, i64)>)
        ensures
            match removed {
                Some(e) => index < old(self)@.len() && e == old(self)@[index as int]
                    && final(self)@ == old(self)@.remove(index as int),
                None => index >= old(self)@.len() && final(self)@ == old(self)@,
            },
    {
        proof {
            use_type_invariant(&*self);
        }
        if index >= self.entries.len() {
            return None;
        }
        let mut entries = Vec::new();
        std::mem::swap(&mut entries, &mut self.entries);
        let ghost before = entries@;
        let e = entries.remove(index);
        proof {
            assert forall|i: int, j: int| 0 <= i <= j < entries@.len() implies entries@[i].1 <= entries@[j].1 by {
                let ii = if i < index { i } else { i + 1 };
                let jj = if j < index { j } else { j + 1 };
                assert(before[ii].1 <= before[jj].1);
            }
            assert forall|i: int, j: int| 0 <= i < entries@.len() && 0 <= j < entries@.len() && i != j implies entries@[i].0 != entries@[j].0 by {
                let ii = if i < index { i } else { i + 1 };
                let jj = if j < index { j } else { j + 1 };
                assert(before[ii].0 != before[jj].0);
            }
        }
        self.entries = entries;
        Some(e)
    }

    /// Removes the entry with the lowest priority.
    pub fn pop_first(&mut self) -> (removed: Option<(T, i64)>)
        ensures
            match removed {
                Some(e) => old(self)@.len() > 0 && e == old(self)@[0] && final(self)@ == old(self)@.remove(0),
                None => old(self)@.len() == 0 && final(self)@ == old(self)@,
            },
    {
        self.remove_at(0)
    }

    /// Removes the entry with the highest priority.
    pub fn pop_last(&mut self) -> (removed: Option<(T, i64)>)
        ensures
            match removed {
                Some(e) => old(self)@.len() > 0 && e == old(self)@.last() && final(self)@ == old(self)@.drop_last(),
                None => old(self)@.len() == 0 && final(self)@ == old(self)@,
            },
    {
        let n = self.entries.len();
        if n == 0 {
            return None;
        }
        let e = self.remove_at(n - 1);
        proof {
            assert(old(self)@.remove(n - 1) =~= old(self)@.drop_last());
        }
        e
    }

    /// Queues `item`, or moves it if already queued. Returns the old priority.
    pub fn push_or_change(&mut self, item: T, priority: i64) -> (old_priority: Option<i64>)
        ensures
            match old_priority {
                Some(p) => exists|i: int| 0 <= i < old(self)@.len() && old(self)@[i] == (item, p),
                None => !queued(old(self)@, item),
            },
            exists|pos: int| #[trigger] slot_for(without_item(old(self)@, item), priority, pos)
                && final(self)@ == without_item(old(self)@, item).insert(pos, (item, priority)),
    {
        proof {
            use_type_invariant(&*self);
        }
        let ghost start = self@;
        let old_priority = match self.remove(&item) {
            Some((_, p)) => Some(p),
            None => None,
        };
        proof {
            lemma_remove_is_filter(start, self@, item);
        }
        self.push(item, priority);
        old_priority
    }

    /// Moves a queued element behind others of the new priority. Returns the
    /// old priority, or `None` (changing nothing) when it is not queued.
    pub fn change_priority(&mut self, item: &T, priority: i64) -> (old_priority: Option<i64>)
        ensures
            match old_priority {
                Some(p) => (exists|i: int| 0 <= i < old(self)@.len() && old(self)@[i] == (*item, p))
                    && exists|pos: int| #[trigger] slot_for(without_item(old(self)@, *item), priority, pos)
                        && final(self)@ == without_item(old(self)@, *item).insert(pos, (*item, priority)),
                None => !queued(old(self)@, *item) && final(self)@ == old(self)@,
            },
    {
        if !self.contains(item) {
            return None;
        }
        Some(self.push_or_change(*item, priority).unwrap())
    }

    /// Keeps the entries for which `keep(item, priority)` returns `true`,
    /// in their order.
    pub fn retain<F: Fn(&T, i64) -> bool>(&mut self, keep: F)
        requires
            forall|t: &T, p: i64| #[trigger] keep.requires((t, p)),
        ensures
            forall|i: int| 0 <= i < final(self)@.len() ==> exists|j: int| 0 <= j < old(self)@.len() && #[trigger] final(self)@[i] == old(self)@[j]
                && keep.ensures((&old(self)@[j].0, old(self)@[j].1), true),
            forall|j: int| 0 <= j < old(self)@.len() && !keep.ensures((&old(self)@[j].0, old(self)@[j].1), false)
                ==> #[trigger] queued(final(self)@, old(self)@[j].0),
    {
        proof {
            use_type_invariant(&*self);
        }
        let ghost before = self@;
        let mut kept: Vec<(T, i64)> = Vec::new();
        let mut i: usize = 0;
        while i < self.entries.len()
            invariant
                i <= self.entries@.len(),
                before == self.entries@,
                forall|t: &T, p: i64| #[trigger] keep.requires((t, p)),
                priority_sorted(before),
                distinct_items(before),
                priority_sorted(kept@),
                distinct_items(kept@),
                kept@.len() > 0 ==> exists|j: int| 0 <= j < i && kept@.last() == before[j],
                forall|a: int| 0 <= a < kept@.len() ==> exists|j: int| 0 <= j < i && #[trigger] kept@[a] == before[j]
                    && keep.ensures((&before[j].0, before[j].1), true),
                forall|j: int| 0 <= j < i && !keep.ensures((&before[j].0, before[j].1), false) ==> #[trigger] queued(kept@, before[j].0),
            decreases self.entries@.len() - i,
        {
            let (t, p) = self.entries[i];
            let ghost prev = kept@;
            if keep(&t, p) {
                kept.push((t, p));
                proof {
                    assert forall|a: int, b: int| 0 <= a <= b < kept@.len() implies kept@[a].1 <= kept@[b].1 by {
                        if b == kept@.len() - 1 && a < b {
                            let ja = choose|j: int| 0 <= j < i && #[trigger] prev[a] == before[j]
                                && keep.ensures((&before[j].0, before[j].1), true);
                            assert(prev[a] == before[ja]);
                        }
                    }
                    assert forall|a: int, b: int| 0 <= a < kept@.len() && 0 <= b < kept@.len() && a != b implies kept@[a].0 != kept@[b].0 by {
                        if b == kept@.len() - 1 {
                            let ja = choose|j: int| 0 <= j < i && #[trigger] prev[a] == before[j]
                                && keep.ensures((&before[j].0, before[j].1), true);
                            assert(ja != i);
                        } else if a == kept@.len() - 1 {
                            let jb = choose|j: int| 0 <= j < i && #[trigger] prev[b] == before[j]
                                && keep.ensures((&before[j].0, before[j].1), true);
                            assert(jb != i);
                        }
                    }
                    assert forall|a: int| 0 <= a < kept@.len() implies exists|j: int| 0 <= j < i + 1 && #[trigger] kept@[a] == before[j]
                        && keep.ensures((&before[j].0, before[j].1), true) by {
                        if a < kept@.len() - 1 {
                            assert(kept@[a] == prev[a]);
                        } else {
                            assert(kept@[a] == before[i as int]);
                        }
                    }
                    assert forall|j: int| 0 <= j < i + 1 && !keep.ensures((&before[j].0, before[j].1), false) implies #[trigger] queued(kept@, before[j].0) by {
                        if j < i {
                            assert(queued(prev, before[j].0));
                            let a = choose|a: int| 0 <= a < prev.len() && prev[a].0 == before[j].0;
                            assert(kept@[a] == prev[a]);
                        } else {
                            assert(kept@[kept@.len() - 1].0 == before[j].0);
                        }
                    }
                }
            }
            i += 1;
        }
        self.entries = kept;
    }

    /// Entries whose priority lies between the bounds, lowest first.
    pub fn range(&self, low: RangeEnd, high: RangeEnd) -> (entries: Vec<(T, i64)>)
        ensures
            entries@ == in_range(self@, low, high),
    {
        let mut out: Vec<(T, i64)> = Vec::new();
        let mut i: usize = 0;
        while i < self.entries.len()
            invariant
                i <= self.entries@.len(),
                out@ == in_range(self.entries@.subrange(0, i as int), low, high),
            decreases self.entries@.len() - i,
        {
            let (t, p) = self.entries[i];
            let inside = match low {
                RangeEnd::Included(b) => b <= p,
                RangeEnd::Excluded(b) => b < p,
                RangeEnd::Unbounded => true,
            } && match high {
                RangeEnd::Included(b) => p <= b,
                RangeEnd::Excluded(b) => p < b,
                RangeEnd::Unbounded => true,
            };
            let ghost prev = out@;
            if inside {
                out.push((t, p));
            }
            proof {
                let s = self.entries@.subrange(0, i + 1);
                assert(s.drop_last() =~= self.entries@.subrange(0, i as int));
                assert(s.last() == (t, p));
                reveal(Seq::filter);
                assert(in_range(s, low, high) == (if within(p, low, high) {
                    in_range(s.drop_last(), low, high).push(s.last())
                } else {
                    in_range(s.drop_last(), low, high)
                }));
            }
            i += 1;
        }
        proof {
            assert(self.entries@.subrange(0, self.entries@.len() as int) =~= self.entries@);
        }
        out
    }
}

/// Removing the one entry of `item` from a list where items are distinct
/// leaves the other entries in order.
proof fn lemma_remove_is_filter<T>(before: Seq<(T, i64)>, after: Seq<(T, i64)>, item: T)
    requires
        distinct_items(before),
        !queued(before, item) ==> after == before,
        queued(before, item) ==> exists|i: int| 0 <= i < before.len() && before[i].0 == item && after == before.remove(i),
    ensures
        after == without_item(before, item),
    decreases before.len(),
{
    if before.len() == 0 {
        assert(after =~= without_item(before, item));
    } else {
        let last = before.last();
        let init = before.drop_last();
        reveal(Seq::filter);
        assert(without_item(before, item) == (if last.0 != item {
            without_item(init, item).push(last)
        } else {
            without_item(init, item)
        }));
        assert(distinct_items(init));
        if !queued(before, item) {
            assert(!queued(init, item)) by {
                if queued(init, item) {
                    let i = choose|i: int| 0 <= i < init.len() && init[i].0 == item;
                    assert(before[i].0 == item);
                }
            }
            assert(last.0 != item) by {
                assert(before[before.len() - 1].0 == last.0);
            }
            lemma_remove_is_filter(init, init, item);
            assert(after =~= init.push(last));
        } else if last.0 == item {
            let i = choose|i: int| 0 <= i < before.len() && before[i].0 == item && after == before.remove(i);
            assert(i == before.len() - 1) by {
                if i != before.len() - 1 {
                    assert(before[i].0 == before[before.len() - 1].0);
                }
            }
            assert(!queued(init, item)) by {
                if queued(init, item) {
                    let k = choose|k: int| 0 <= k < init.len() && init[k].0 == item;
                    assert(before[k].0 == before[before.len() - 1].0);
                }
            }
            lemma_remove_is_filter(init, init, item);
            assert(after =~= init);
        } else {
            let i = choose|i: int| 0 <= i < before.len() && before[i].0 == item && after == before.remove(i);
            assert(i < before.len() - 1);
            let after_init = init.remove(i);
            assert(init[i].0 == item);
            lemma_remove_is_filter(init, after_init, item);
            assert(after =~= after_init.push(last));
        }
    }
}

impl<T: Key> Collection for PriorityQueue<T> {
    type Item = T;

    /// The elements in queue order.
    open spec fn listed(&self) -> Seq<T> {
        self@.map_values(|e: (T, i64)| e.0)
    }

    fn len(&self) -> usize {
        PriorityQueue::len(self)
    }

    fn contains(&self, item: &T) -> bool {
        let found = PriorityQueue::contains(self, item);
        proof {
            let s = self@.map_values(|e: (T, i64)| e.0);
            if found {
                let i = choose|i: int| 0 <= i < self@.len() && self@[i].0 == *item;
                assert(s[i] == *item);
            }
            if s.contains(*item) {
                let i = choose|i: int| 0 <= i < s.len() && s[i] == *item;
                assert(self@[i].0 == *item);
            }
        }
        found
    }

    fn elements(&self) -> Vec<T> {
        let mut items: Vec<T> = Vec::new();
        let mut i: usize = 0;
        while i < self.entries.len()
            invariant
                i <= self.entries@.len(),
                items@ == self.entries@.take(i as int).map_values(|e: (T, i64)| e.0),
            decreases self.entries@.len() - i,
        {
            items.push(self.entries[i].0);
            proof {
                assert(self.entries@.take(i + 1).map_values(|e: (T, i64)| e.0)
                    =~= self.entries@.take(i as int).map_values(|e: (T, i64)| e.0).push(self.entries@[i as int].0));
            }
            i += 1;
        }
        proof {
            assert(self.entries@.take(i as int) =~= self.entries@);
        }
        items
    }
}

impl<T: Key> CollectionRemove for PriorityQueue<T> {
    fn remove(&mut self, item: &T) -> bool {
        PriorityQueue::remove(self, item).is_some()
    }

    fn clear(&mut self) {
        PriorityQueue::clear(self)
    }
}

impl<T: Key> UniqueCollection for PriorityQueue<T> {

}

impl<T: Key> Choose for PriorityQueue<T> {

}

impl<T: Key> Sequence for PriorityQueue<T> {
    fn get(&self, index: usize) -> Option<T> {
        match PriorityQueue::get(self, index) {
            Some((t, _)) => Some(t),
            None => None,
        }
    }

    fn index_of(&self, item: &T) -> Option<usize> {
        PriorityQueue::index_of(self, item)
    }
}

impl<T: Key> SequenceMut for PriorityQueue<T> {
    fn remove_at(&mut self, index: usize) -> Option<T> {
        match PriorityQueue::remove_at(self, index) {
            Some((t, _)) => Some(t),
            None => None,
        }
    }
}

/// A map from element to priority.
impl<T: Key> Mapping for PriorityQueue<T> {
    type Key = T;
    type Value = i64;

    open spec fn pair_set(&self) -> Set<(T, i64)> {
        self@.to_set()
    }

    fn len(&self) -> usize {
        PriorityQueue::len(self)
    }

    fn pair_count(&self) -> usize {
        proof {
            use_type_invariant(self);
            assert(self@.no_duplicates()) by {
                assert forall|i: int, j: int| 0 <= i < self@.len() && 0 <= j < self@.len() && i != j implies self@[i] != self@[j] by {
                    assert(self@[i].0 != self@[j].0);
                }
            }
            lemma_unique_len(self@);
        }
        PriorityQueue::len(self)
    }

    fn contains_key(&self, item: &T) -> bool {
        PriorityQueue::contains(self, item)
    }

    fn contains_pair(&self, item: &T, priority: &i64) -> bool {
        proof {
            use_type_invariant(self);
        }
        match self.get_priority(item) {
            Some(p) => {
                proof {
                    let i = choose|i: int| 0 <= i < self@.len() && self@[i] == (*item, p);
                    assert(self@.to_set().contains(self@[i]));
                    if self@.to_set().contains((*item, *priority)) {
                        let j = choose|j: int| 0 <= j < self@.len() && self@[j] == (*item, *priority);
                        assert(i == j);
                    }
                }
                p == *priority
            },
            None => {
                proof {
                    if self@.to_set().contains((*item, *priority)) {
                        let j = choose|j: int| 0 <= j < self@.len() && self@[j] == (*item, *priority);
                        assert(self@[j].0 == *item);
                    }
                }
                false
            },
        }
    }

    fn keys(&self) -> Vec<T> {
        self.elements()
    }

    fn pairs(&self) -> Vec<(T, i64)> {
        self.iter()
    }
}

} // verus!
