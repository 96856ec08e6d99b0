//! An `OrderedSet` where every element also carries a unique label, with
//! lookups in both directions. It is a sequence of elements and, at the
//! same time, a one-to-one map from element to label.
use vstd::prelude::*;
use crate::structures::traits::key::Key;
use crate::structures::traits::collection::{Choose, Collection, CollectionRemove, UniqueCollection};
use crate::structures::traits::sequence::{Sequence, SequenceMut};
use crate::structures::traits::map::{Mapping, MapMut, UniqueValueMap, ValueIndexed};
use crate::structures::map_spec::{has_value, injective, without_value, graph, lemma_graph_len, lemma_pairs_cover};
use crate::structures::vec_ops::lemma_unique_len;
use crate::structures::mappings::single::bi_map::BiMap;
use super::ordered_set::{OrderedSet, moved};
use crate::structures::traits::sequence::Reorder;
use crate::structures::sampling::{self, fisher_yates};
use crate::structures::comparing::{sort_vec_by, sorted_by_compare, compared_in_order};
use crate::random::Random;
use core::cmp::Ordering;

verus! {

broadcast use {vstd::seq_lib::group_seq_properties, vstd::map::group_map_axioms, vstd::set::group_set_axioms};

/// Unique ordered elements, each paired one-to-one with a label. The view
/// is the element order together with the element-to-label map.
pub struct LabeledOrderedSet<T, L> {
    order: OrderedSet<T>,
    labels: BiMap<T, L>,
}

impl<T, L> LabeledOrderedSet<T, L> {
    #[verifier::type_invariant]
    spec fn inv(self) -> bool {
        forall|t: T| #[trigger] self.order@.contains(t) <==> self.labels@.contains_key(t)
    }
}

impl<T, L> View for LabeledOrderedSet<T, L> {
    type V = (Seq<T>, Map<T, L>);

    closed spec fn view(&self) -> (Seq<T>, Map<T, L>) {
        (self.order@, self.labels@)
    }
}

/// Taking a key out of a map that never mapped to `v` leaves no key for it.
proof fn lemma_no_value_unchanged<K, V>(m: Map<K, V>, v: V)
    requires
        !has_value(m, v),
    ensures
        without_value(m, v) == m,
{
    assert(without_value(m, v) =~= m);
}

/// Two keys of a one-to-one map with the same value are the same key.
proof fn lemma_injective_owner<K, V>(m: Map<K, V>, a: K, b: K)
    requires
        injective(m),
        m.contains_key(a),
        m.contains_key(b),
        m[a] == m[b],
    ensures
        a == b,
{
}

/// Moving an element keeps the same members.
proof fn lemma_moved_members<T>(s: Seq<T>, from: int, to: int)
    requires
        0 <= from < s.len(),
        0 <= to < s.len(),
    ensures
        forall|t: T| #[trigger] moved(s, from, to).contains(t) <==> s.contains(t),
{
    let r = s.remove(from);
    let m = moved(s, from, to);
    assert forall|t: T| #[trigger] m.contains(t) <==> s.contains(t) by {
        if m.contains(t) {
            let k = choose|k: int| 0 <= k < m.len() && m[k] == t;
            if k == to {
                assert(s[from] == t);
            } else {
                let kr = if k < to { k } else { k - 1 };
                assert(r[kr] == t);
                let ks = if kr < from { kr } else { kr + 1 };
                assert(s[ks] == t);
            }
        }
        if s.contains(t) {
            let k = choose|k: int| 0 <= k < s.len() && s[k] == t;
            if k == from {
                assert(m[to] == t);
            } else {
                let kr = if k < from { k } else { k - 1 };
                assert(r[kr] == t);
                let km = if kr < to { kr } else { kr + 1 };
                assert(m[km] == t);
            }
        }
    }
}

impl<T: Key, L: Key> LabeledOrderedSet<T, L> {
    /// Creates an empty labeled ordered set.
    pub fn new() -> (s: Self)
        ensures
            s@.0 == Seq::<T>::empty(),
            s@.1 == Map::<T, L>::empty(),
    {
        LabeledOrderedSet { order: OrderedSet::new(), labels: BiMap::new() }
    }

    /// Elements are distinct, each has exactly one label, and no label is
    /// shared.
    pub fn check_invariants(&self) -> (ok: bool)
        ensures
            ok,
            self@.0.no_duplicates(),
            injective(self@.1),
            forall|t: T| #[trigger] self@.0.contains(t) <==> self@.1.contains_key(t),
    {
        proof {
            use_type_invariant(self);
        }
        self.order.check_invariants();
        self.labels.check_invariants();
        true
    }

    fn into_parts(self) -> (parts: (OrderedSet<T>, BiMap<T, L>))
        ensures
            parts.0@ == self@.0,
            parts.1@ == self@.1,
            forall|t: T| #[trigger] parts.0@.contains(t) <==> parts.1@.contains_key(t),
    {
        proof {
            use_type_invariant(&self);
        }
        let LabeledOrderedSet { order, labels } = self;
        (order, labels)
    }

    fn take(&mut self) -> (parts: (OrderedSet<T>, BiMap<T, L>))
        ensures
            parts.0@ == old(self)@.0,
            parts.1@ == old(self)@.1,
            forall|t: T| #[trigger] parts.0@.contains(t) <==> parts.1@.contains_key(t),
    {
        let mut s = LabeledOrderedSet::new();
        std::mem::swap(&mut s, self);
        s.into_parts()
    }

    /// Number of element-label pairs.
    pub fn len(&self) -> (n: usize)
        ensures
            n == self@.0.len(),
    {
        self.order.len()
    }

    /// Whether no pairs are stored.
    pub fn is_empty(&self) -> (empty: bool)
        ensures
            empty == (self@.0.len() == 0),
    {
        self.order.is_empty()
    }

    /// Whether `item` is stored.
    pub fn contains(&self, item: &T) -> (found: bool)
        ensures
            found == self@.0.contains(*item),
    {
        self.order.contains(item)
    }

    /// Whether `label` is assigned.
    pub fn contains_label(&self, label: &L) -> (found: bool)
        ensures
            found == has_value(self@.1, *label),
    {
        self.labels.contains_right(label)
    }

    /// The label assigned to `item`.
    pub fn label_of(&self, item: &T) -> (label: Option<L>)
        ensures
            label == (if self@.1.contains_key(*item) { Some(self@.1[*item]) } else { None::<L> }),
    {
        self.labels.get_by_left(item)
    }

    /// The element assigned to `label`.
    pub fn get_by_label(&self, label: &L) -> (item: Option<T>)
        ensures
            match item {
                Some(t) => self@.1.contains_key(t) && self@.1[t] == *label,
                None => !has_value(self@.1, *label),
            },
    {
        self.labels.get_by_right(label)
    }

    /// Zero-based position of `item`.
    pub fn index_of(&self, item: &T) -> (index: Option<usize>)
        ensures
            match index {
                Some(i) => i < self@.0.len() && self@.0[i as int] == *item,
                None => !self@.0.contains(*item),
            },
    {
        self.order.index_of(item)
    }

    /// The element-label pair at zero-based `index`.
    pub fn get(&self, index: usize) -> (pair: Option<(T, L)>)
        ensures
            pair == (if index < self@.0.len() {
                Some((self@.0[index as int], self@.1[self@.0[index as int]]))
            } else {
                None::<(T, L)>
            }),
    {
        proof {
            use_type_invariant(self);
        }
        match self.order.get(index) {
            Some(item) => {
                proof {
                    assert(self.order@.contains(item));
                }
                match self.labels.get_by_left(&item) {
                    Some(label) => Some((item, label)),
                    None => None,
                }
            },
            None => None,
        }
    }

    /// The first element-label pair.
    pub fn first(&self) -> (pair: Option<(T, L)>)
        ensures
            pair == (if self@.0.len() > 0 { Some((self@.0[0], self@.1[self@.0[0]])) } else { None::<(T, L)> }),
    {
        self.get(0)
    }

    /// The last element-label pair.
    pub fn last(&self) -> (pair: Option<(T, L)>)
        ensures
            pair == (if self@.0.len() > 0 {
                Some((self@.0.last(), self@.1[self@.0.last()]))
            } else {
                None::<(T, L)>
            }),
    {
        let n = self.len();
        if n == 0 {
            None
        } else {
            self.get(n - 1)
        }
    }

    /// Elements with their labels, in order.
    pub fn iter(&self) -> (pairs: Vec<(T, L)>)
        ensures
            pairs@.len() == self@.0.len(),
            forall|i: int| 0 <= i < pairs@.len() ==> #[trigger] pairs@[i] == (self@.0[i], self@.1[self@.0[i]]),
    {
        let n = self.len();
        let mut pairs: Vec<(T, L)> = Vec::new();
        let mut i: usize = 0;
        while i < n
            invariant
                i <= n,
                n == self@.0.len(),
                pairs@.len() == i,
                forall|j: int| 0 <= j < i ==> #[trigger] pairs@[j] == (self@.0[j], self@.1[self@.0[j]]),
            decreases n - i,
        {
            match self.get(i) {
                Some(p) => pairs.push(p),
                None => {},
            }
            i += 1;
        }
        pairs
    }

    /// The elements alone, as an ordered set.
    pub fn as_ordered_set(&self) -> (items: OrderedSet<T>)
        ensures
            items@ == self@.0,
    {
        let items = self.order.slice(0, self.order.len());
        proof {
            assert(self@.0.subrange(0, self@.0.len() as int) =~= self@.0);
        }
        items
    }

    /// Inserts at `index` (clamped to the end). Fails if the element or the
    /// label is taken.
    pub fn insert_at(&mut self, index: usize, item: T, label: L) -> (added: bool)
        ensures
            added == (!old(self)@.0.contains(item) && !has_value(old(self)@.1, label)),
            added ==> final(self)@.0 == old(self)@.0.insert(
                if index <= old(self)@.0.len() { index as int } else { old(self)@.0.len() as int },
                item,
            ),
            added ==> final(self)@.1 == old(self)@.1.insert(item, label),
            !added ==> final(self)@ == old(self)@,
    {
        if self.contains(&item) || self.contains_label(&label) {
            return false;
        }
        let (mut order, mut labels) = self.take();
        let ghost m = labels@;
        order.insert_at(index, item);
        labels.insert(item, label);
        proof {
            lemma_no_value_unchanged(m, label);
            assert(m.remove(item) =~= m);
            assert forall|t: T| #[trigger] order@.contains(t) <==> labels@.contains_key(t) by {
                if t != item {
                    if order@.contains(t) {
                        let k = choose|k: int| 0 <= k < order@.len() && order@[k] == t;
                        let pos = if index <= old(self)@.0.len() { index as int } else { old(self)@.0.len() as int };
                        let kk = if k < pos { k } else { k - 1 };
                        assert(old(self)@.0[kk] == t);
                    }
                    if old(self)@.0.contains(t) {
                        let k = choose|k: int| 0 <= k < old(self)@.0.len() && old(self)@.0[k] == t;
                        let pos = if index <= old(self)@.0.len() { index as int } else { old(self)@.0.len() as int };
                        let kk = if k < pos { k } else { k + 1 };
                        assert(order@[kk] == t);
                    }
                } else {
                    let pos = if index <= old(self)@.0.len() { index as int } else { old(self)@.0.len() as int };
                    assert(order@[pos] == item);
                }
            }
        }
        *self = LabeledOrderedSet { order, labels };
        true
    }

    /// Appends an element. Fails if the element or the label is taken.
    pub fn push(&mut self, item: T, label: L) -> (added: bool)
        ensures
            added == (!old(self)@.0.contains(item) && !has_value(old(self)@.1, label)),
            added ==> final(self)@.0 == old(self)@.0.push(item),
            added ==> final(self)@.1 == old(self)@.1.insert(item, label),
            !added ==> final(self)@ == old(self)@,
    {
        let n = self.len();
        let added = self.insert_at(usize::MAX, item, label);
        proof {
            if added {
                assert(old(self)@.0.insert(old(self)@.0.len() as int, item) =~= old(self)@.0.push(item));
            }
        }
        added
    }

    /// Removes an element, returning its label.
    pub fn remove(&mut self, item: &T) -> (label: Option<L>)
        ensures
            label == (if old(self)@.1.contains_key(*item) { Some(old(self)@.1[*item]) } else { None::<L> }),
            final(self)@.0 == old(self)@.0.remove_value(*item),
            final(self)@.1 == old(self)@.1.remove(*item),
    {
        proof {
            use_type_invariant(&*self);
        }
        let (mut order, mut labels) = self.take();
        let ghost before = order@;
        order.remove(item);
        let removed = labels.remove_by_left(item);
        proof {
            assert forall|t: T| #[trigger] order@.contains(t) <==> labels@.contains_key(t) by {
                assert(order@.to_set().contains(t) == before.to_set().remove(*item).contains(t));
            }
        }
        *self = LabeledOrderedSet { order, labels };
        match removed {
            Some((_, l)) => Some(l),
            None => None,
        }
    }


    /// Removes the element with `label`, returning it.
    pub fn remove_by_label(&mut self, label: &L) -> (item: Option<T>)
        ensures
            match item {
                Some(t) => old(self)@.1.contains_key(t) && old(self)@.1[t] == *label
                    && final(self)@.0 == old(self)@.0.remove_value(t)
                    && final(self)@.1 == old(self)@.1.remove(t),
                None => !has_value(old(self)@.1, *label) && final(self)@ == old(self)@,
            },
    {
        match self.get_by_label(label) {
            Some(t) => {
                self.remove(&t);
                Some(t)
            },
            None => None,
        }
    }

    /// Removes and returns the pair at `index`, preserving remaining order.
    pub fn remove_at(&mut self, index: usize) -> (pair: Option<(T, L)>)
        ensures
            match pair {
                Some(p) => index < old(self)@.0.len() && p.0 == old(self)@.0[index as int]
                    && p.1 == old(self)@.1[p.0]
                    && final(self)@.0 == old(self)@.0.remove(index as int)
                    && final(self)@.1 == old(self)@.1.remove(p.0),
                None => index >= old(self)@.0.len() && final(self)@ == old(self)@,
            },
    {
        self.check_invariants();
        let item = match self.order.get(index) {
            Some(t) => t,
            None => return None,
        };
        let ghost before = self@.0;
        proof {
            assert(before.contains(item));
            before.index_of_first_ensures(item);
            assert(before.index_of_first(item) == Some(index as int)) by {
                let k = before.index_of_first(item).unwrap();
                assert(before[k] == item);
            }
        }
        match self.remove(&item) {
            Some(label) => {
                proof {
                    assert(before.remove_value(item) == before.remove(index as int));
                }
                Some((item, label))
            },
            None => None,
        }
    }

    /// Removes and returns the first pair.
    pub fn pop_first(&mut self) -> (pair: Option<(T, L)>)
        ensures
            match pair {
                Some(p) => old(self)@.0.len() > 0 && p.0 == old(self)@.0[0] && p.1 == old(self)@.1[p.0]
                    && final(self)@.0 == old(self)@.0.remove(0)
                    && final(self)@.1 == old(self)@.1.remove(p.0),
                None => old(self)@.0.len() == 0 && final(self)@ == old(self)@,
            },
    {
        self.remove_at(0)
    }

    /// Removes and returns the last pair.
    pub fn pop_last(&mut self) -> (pair: Option<(T, L)>)
        ensures
            match pair {
                Some(p) => old(self)@.0.len() > 0 && p.0 == old(self)@.0.last() && p.1 == old(self)@.1[p.0]
                    && final(self)@.0 == old(self)@.0.drop_last()
                    && final(self)@.1 == old(self)@.1.remove(p.0),
                None => old(self)@.0.len() == 0 && final(self)@ == old(self)@,
            },
    {
        let n = self.len();
        if n == 0 {
            return None;
        }
        let p = self.remove_at(n - 1);
        proof {
            assert(old(self)@.0.remove(n - 1) =~= old(self)@.0.drop_last());
        }
        p
    }

    /// Removes all pairs.
    pub fn clear(&mut self)
        ensures
            final(self)@.0 == Seq::<T>::empty(),
            final(self)@.1 == Map::<T, L>::empty(),
    {
        *self = LabeledOrderedSet::new();
    }

    /// Moves the pair at `from` to `to`, shifting intervening pairs.
    pub fn move_index(&mut self, from: usize, to: usize) -> (moved_ok: bool)
        ensures
            moved_ok == (from < old(self)@.0.len() && to < old(self)@.0.len() && from != to),
            final(self)@.0 == (if moved_ok { moved(old(self)@.0, from as int, to as int) } else { old(self)@.0 }),
            final(self)@.1 == old(self)@.1,
    {
        let (mut order, labels) = self.take();
        let ghost before = order@;
        let moved_ok = order.move_index(from, to);
        proof {
            if moved_ok {
                lemma_moved_members(before, from as int, to as int);
            }
        }
        *self = LabeledOrderedSet { order, labels };
        moved_ok
    }

    /// Swaps the pairs at indices `a` and `b`.
    pub fn swap_indices(&mut self, a: usize, b: usize)
        requires
            a < old(self)@.0.len(),
            b < old(self)@.0.len(),
        ensures
            final(self)@.0 == old(self)@.0.update(a as int, old(self)@.0[b as int]).update(b as int, old(self)@.0[a as int]),
            final(self)@.1 == old(self)@.1,
    {
        let (mut order, labels) = self.take();
        let ghost before = order@;
        order.swap_indices(a, b);
        proof {
            assert forall|t: T| #[trigger] order@.contains(t) <==> before.contains(t) by {
                if order@.contains(t) {
                    let k = choose|k: int| 0 <= k < order@.len() && order@[k] == t;
                    if k == b as int {
                        assert(before[a as int] == t);
                    } else if k == a as int {
                        assert(before[b as int] == t);
                    } else {
                        assert(before[k] == t);
                    }
                }
                if before.contains(t) {
                    let k = choose|k: int| 0 <= k < before.len() && before[k] == t;
                    if k == a as int {
                        assert(order@[b as int] == t);
                    } else if k == b as int {
                        assert(order@[a as int] == t);
                    } else {
                        assert(order@[k] == t);
                    }
                }
            }
        }
        *self = LabeledOrderedSet { order, labels };
    }

    /// The first position whose element `is_below` rejects, for elements
    /// ordered so that accepted ones come first.
    pub fn partition_point<F: Fn(&T) -> bool>(&self, is_below: F) -> (point: usize)
        requires
            forall|x: &T| #[trigger] is_below.requires((x,)),
        ensures
            point <= self@.0.len(),
            forall|j: int| 0 <= j < point ==> is_below.ensures((&self@.0[j],), true),
            point < self@.0.len() ==> is_below.ensures((&self@.0[point as int],), false),
    {
        self.order.partition_point(is_below)
    }

    /// Keeps the pairs for which `keep(item, label)` returns `true`.
    pub fn retain<F: Fn(&T, &L) -> bool>(&mut self, keep: F)
        requires
            forall|t: &T, l: &L| #[trigger] keep.requires((t, l)),
        ensures
            forall|t: T| #[trigger] final(self)@.1.contains_key(t) ==> old(self)@.1.contains_key(t)
                && final(self)@.1[t] == old(self)@.1[t] && keep.ensures((&t, &old(self)@.1[t]), true),
            forall|t: T| #[trigger] old(self)@.1.contains_key(t) && !final(self)@.1.contains_key(t)
                ==> keep.ensures((&t, &old(self)@.1[t]), false),
    {
        let pairs = self.iter();
        self.check_invariants();
        let ghost orig = self@;
        proof {
            assert forall|j: int| 0 <= j < pairs@.len() implies #[trigger] self@.1.contains_key(orig.0[j]) by {
                assert(orig.0.contains(orig.0[j]));
            }
        }
        let mut i: usize = 0;
        while i < pairs.len()
            invariant
                i <= pairs@.len(),
                forall|t: &T, l: &L| #[trigger] keep.requires((t, l)),
                pairs@.len() == orig.0.len(),
                orig.0.no_duplicates(),
                forall|j: int| 0 <= j < pairs@.len() ==> #[trigger] pairs@[j] == (orig.0[j], orig.1[orig.0[j]]),
                forall|t: T| #[trigger] orig.0.contains(t) <==> orig.1.contains_key(t),
                forall|t: T| #[trigger] self@.1.contains_key(t) ==> orig.1.contains_key(t) && self@.1[t] == orig.1[t],
                forall|j: int| 0 <= j < i && #[trigger] self@.1.contains_key(orig.0[j]) ==> keep.ensures((&orig.0[j], &orig.1[orig.0[j]]), true),
                forall|j: int| 0 <= j < i && !#[trigger] self@.1.contains_key(orig.0[j]) ==> keep.ensures((&orig.0[j], &orig.1[orig.0[j]]), false),
                forall|j: int| i <= j < pairs@.len() ==> #[trigger] self@.1.contains_key(orig.0[j]),
            decreases pairs@.len() - i,
        {
            let (t, l) = pairs[i];
            let ghost before = self@.1;
            let kept = keep(&t, &l);
            if !kept {
                self.remove(&t);
            }
            proof {
                assert(pairs@[i as int] == (orig.0[i as int], orig.1[orig.0[i as int]]));
                assert forall|j: int| i + 1 <= j < pairs@.len() implies #[trigger] self@.1.contains_key(orig.0[j]) by {
                    assert(orig.0[j] != orig.0[i as int]);
                    assert(before.contains_key(orig.0[j]));
                }
                assert forall|j: int| 0 <= j < i + 1 && #[trigger] self@.1.contains_key(orig.0[j]) implies keep.ensures((&orig.0[j], &orig.1[orig.0[j]]), true) by {
                    if j < i {
                        assert(before.contains_key(orig.0[j]));
                    }
                }
                assert forall|j: int| 0 <= j < i + 1 && !#[trigger] self@.1.contains_key(orig.0[j]) implies keep.ensures((&orig.0[j], &orig.1[orig.0[j]]), false) by {
                    if j < i {
                        if before.contains_key(orig.0[j]) {
                            assert(orig.0[j] != orig.0[i as int]);
                        }
                    }
                }
            }
            i += 1;
        }
        proof {
            assert forall|t: T| #[trigger] self@.1.contains_key(t) implies keep.ensures((&t, &orig.1[t]), true) by {
                assert(orig.0.contains(t));
                let j = choose|j: int| 0 <= j < orig.0.len() && orig.0[j] == t;
                assert(self@.1.contains_key(orig.0[j]));
            }
            assert forall|t: T| #[trigger] orig.1.contains_key(t) && !self@.1.contains_key(t) implies keep.ensures((&t, &orig.1[t]), false) by {
                assert(orig.0.contains(t));
                let j = choose|j: int| 0 <= j < orig.0.len() && orig.0[j] == t;
                assert(!self@.1.contains_key(orig.0[j]));
            }
        }
    }

    /// Replaces the entry at `index`, returning the old one. Fails if the
    /// new element or label belongs to a different entry.
    pub fn replace_at(&mut self, index: usize, item: T, label: L) -> (old_pair: Option<(T, L)>)
        ensures
            match old_pair {
                Some(p) => index < old(self)@.0.len() && p.0 == old(self)@.0[index as int]
                    && p.1 == old(self)@.1[p.0]
                    && final(self)@.0 == old(self)@.0.update(index as int, item)
                    && final(self)@.1 == old(self)@.1.remove(p.0).insert(item, label),
                None => final(self)@ == old(self)@,
            },
            old_pair is None <==> (index >= old(self)@.0.len()
                || (item != old(self)@.0[index as int] && old(self)@.0.contains(item))
                || (has_value(old(self)@.1, label) && !(old(self)@.1[old(self)@.0[index as int]] == label))),
    {
        self.check_invariants();
        let old_item = match self.order.get(index) {
            Some(t) => t,
            None => return None,
        };
        proof {
            assert(self@.0.contains(old_item));
        }
        if !item.key_eq(&old_item) && self.contains(&item) {
            return None;
        }
        match self.get_by_label(&label) {
            Some(owner) => {
                if !owner.key_eq(&old_item) {
                    proof {
                        if self@.1[old_item] == label {
                            lemma_injective_owner(self@.1, owner, old_item);
                        }
                    }
                    return None;
                }
            },
            None => {},
        }
        let ghost m = self@.1;
        let ghost before = self@.0;
        proof {
            assert(before.contains(old_item));
            assert(item != old_item ==> !before.contains(item));
            assert(injective(m));
            assert(before.no_duplicates());
        }
        let (mut order, mut labels) = self.take();
        let removed = labels.remove_by_left(&old_item);
        let old_label = match removed {
            Some((_, l)) => l,
            None => return None,
        };
        if !item.key_eq(&old_item) {
            order.replace_at(index, item);
            proof {
                assert(order@ == before.update(index as int, item));
            }
        }
        labels.insert(item, label);
        proof {
            assert(!has_value(m.remove(old_item), label)) by {
                if has_value(m.remove(old_item), label) {
                    let k = choose|k: T| m.remove(old_item).contains_key(k) && m.remove(old_item)[k] == label;
                    lemma_injective_owner(m, k, old_item);
                }
            }
            lemma_no_value_unchanged(m.remove(old_item), label);
            assert(m.remove(old_item).remove(item) =~= m.remove(old_item));
            if item == old_item {
                assert(before.update(index as int, item) =~= before);
            }
            assert forall|t: T| #[trigger] order@.contains(t) <==> labels@.contains_key(t) by {
                assert(order@ == before.update(index as int, item));
                if order@.contains(t) {
                    let k = choose|k: int| 0 <= k < order@.len() && order@[k] == t;
                    if k != index as int {
                        assert(before[k] == t);
                        assert(t != old_item);
                        assert(before.contains(t));
                        assert(m.contains_key(t));
                    }
                }
                if labels@.contains_key(t) && t != item {
                    assert(m.contains_key(t) && t != old_item);
                    assert(before.contains(t));
                    let k = choose|k: int| 0 <= k < before.len() && before[k] == t;
                    assert(order@[k] == t);
                }
                if t == item {
                    assert(order@[index as int] == item);
                }
            }
        }
        *self = LabeledOrderedSet { order, labels };
        Some((old_item, old_label))
    }
}

impl<T: Key> LabeledOrderedSet<T, T> {
    /// Appends an element that is its own label.
    pub fn push_self_labeled(&mut self, item: T) -> (added: bool)
        ensures
            added == (!old(self)@.0.contains(item) && !has_value(old(self)@.1, item)),
            added ==> final(self)@.0 == old(self)@.0.push(item),
            added ==> final(self)@.1 == old(self)@.1.insert(item, item),
            !added ==> final(self)@ == old(self)@,
    {
        self.push(item, item)
    }
}

impl<T: Key, L: Key> Collection for LabeledOrderedSet<T, L> {
    type Item = T;

    open spec fn listed(&self) -> Seq<T> {
        self@.0
    }

    fn len(&self) -> usize {
        LabeledOrderedSet::len(self)
    }

    fn contains(&self, item: &T) -> bool {
        LabeledOrderedSet::contains(self, item)
    }

    fn elements(&self) -> Vec<T> {
        self.order.iter()
    }
}

impl<T: Key, L: Key> CollectionRemove for LabeledOrderedSet<T, L> {
    fn remove(&mut self, item: &T) -> bool {
        LabeledOrderedSet::remove(self, item).is_some()
    }

    fn clear(&mut self) {
        LabeledOrderedSet::clear(self)
    }
}

impl<T: Key, L: Key> UniqueCollection for LabeledOrderedSet<T, L> {

}

impl<T: Key, L: Key> Choose for LabeledOrderedSet<T, L> {

}

impl<T: Key, L: Key> Sequence for LabeledOrderedSet<T, L> {
    fn get(&self, index: usize) -> Option<T> {
        self.order.get(index)
    }

    fn index_of(&self, item: &T) -> Option<usize> {
        LabeledOrderedSet::index_of(self, item)
    }
}

impl<T: Key, L: Key> SequenceMut for LabeledOrderedSet<T, L> {
    fn remove_at(&mut self, index: usize) -> Option<T> {
        match LabeledOrderedSet::remove_at(self, index) {
            Some((t, _)) => Some(t),
            None => None,
        }
    }
}

/// A one-to-one map from element to label.
impl<T: Key, L: Key> Mapping for LabeledOrderedSet<T, L> {
    type Key = T;
    type Value = L;

    open spec fn pair_set(&self) -> Set<(T, L)> {
        graph(self@.1)
    }

    fn len(&self) -> usize {
        LabeledOrderedSet::len(self)
    }

    fn pair_count(&self) -> usize {
        self.check_invariants();
        let n = LabeledOrderedSet::len(self);
        proof {
            lemma_unique_len(self@.0);
            assert(self@.0.to_set() =~= self@.1.dom());
            lemma_graph_len(self@.1);
        }
        n
    }

    fn contains_key(&self, item: &T) -> bool {
        LabeledOrderedSet::contains(self, item)
    }

    fn contains_pair(&self, item: &T, label: &L) -> bool {
        self.labels.contains_pair(item, label)
    }

    fn keys(&self) -> Vec<T> {
        self.order.iter()
    }

    fn pairs(&self) -> Vec<(T, L)> {
        self.check_invariants();
        let pairs = self.iter();
        proof {
            lemma_unique_len(self@.0);
            assert(self@.0.to_set() =~= self@.1.dom());
            assert forall|i: int| 0 <= i < pairs@.len() implies self@.1.contains_key(#[trigger] pairs@[i].0) by {
                assert(self@.0.contains(self@.0[i]));
            }
            lemma_pairs_cover(self@.1, pairs@);
        }
        pairs
    }
}

/// `insert_pair` appends, first removing the entries that clash with the
/// pair.
impl<T: Key, L: Key> MapMut for LabeledOrderedSet<T, L> {
    fn insert_pair(&mut self, item: T, label: L) -> (changed: bool)
        ensures
            changed == !(old(self)@.1.contains_key(item) && old(self)@.1[item] == label),
            !changed ==> final(self)@ == old(self)@,
            changed && !has_value(old(self)@.1, label) ==> final(self)@.0 == old(self)@.0.remove_value(item).push(item)
                && final(self)@.1 == old(self)@.1.remove(item).insert(item, label),
            forall|o: T| changed && #[trigger] old(self)@.1.contains_key(o) && old(self)@.1[o] == label ==>
                final(self)@.0 == old(self)@.0.remove_value(item).remove_value(o).push(item)
                && final(self)@.1 == old(self)@.1.remove(item).remove(o).insert(item, label),
    {
        if self.labels.contains_pair(&item, &label) {
            return false;
        }
        LabeledOrderedSet::remove(self, &item);
        let ghost mid = self@;
        self.check_invariants();
        let owner = self.remove_by_label(&label);
        self.check_invariants();
        proof {
            assert(!self@.1.contains_key(item));
            assert(!self@.0.contains(item));
            assert(!has_value(self@.1, label)) by {
                if has_value(self@.1, label) {
                    let k = choose|k: T| #[trigger] self@.1.contains_key(k) && self@.1[k] == label;
                    match owner {
                        Some(t) => {
                            assert(mid.1.contains_key(k) && mid.1[k] == label && k != t);
                        },
                        None => {
                            assert(mid.1.contains_key(k));
                        },
                    }
                }
            }
            assert forall|o: T| #[trigger] old(self)@.1.contains_key(o) && old(self)@.1[o] == label implies owner == Some(o) by {
                assert(o != item);
                assert(mid.1.contains_key(o) && mid.1[o] == label);
            }
            if !has_value(old(self)@.1, label) {
                assert(owner is None) by {
                    if let Some(t) = owner {
                        assert(old(self)@.1.contains_key(t) && old(self)@.1[t] == label);
                    }
                }
                assert(old(self)@.1.remove(item).insert(item, label) =~= old(self)@.1.insert(item, label));
            }
        }
        let added = self.push(item, label);
        proof {
            if !has_value(old(self)@.1, label) {
                assert(old(self)@.1.remove(item).insert(item, label) =~= old(self)@.1.insert(item, label));
            }
        }
        added
    }

    fn remove_pair(&mut self, item: &T, label: &L) -> bool {
        self.labels.contains_pair(item, label) && LabeledOrderedSet::remove(self, item).is_some()
    }

    fn clear(&mut self) {
        LabeledOrderedSet::clear(self)
    }
}

impl<T: Key, L: Key> ValueIndexed for LabeledOrderedSet<T, L> {
    fn contains_value(&self, label: &L) -> bool {
        self.contains_label(label)
    }

    fn value_count(&self) -> usize {
        LabeledOrderedSet::len(self)
    }

    /// The labels, in element order.
    fn values(&self) -> (labels: Vec<L>)
        ensures
            labels@ == self@.0.map_values(|t: T| self@.1[t]),
    {
        let pairs = self.iter();
        let mut labels: Vec<L> = Vec::new();
        let mut i: usize = 0;
        while i < pairs.len()
            invariant
                i <= pairs@.len(),
                labels@.len() == i,
                forall|j: int| 0 <= j < i ==> #[trigger] labels@[j] == pairs@[j].1,
            decreases pairs@.len() - i,
        {
            labels.push(pairs[i].1);
            i += 1;
        }
        proof {
            assert(labels@ =~= self@.0.map_values(|t: T| self@.1[t]));
        }
        labels
    }
}

impl<T: Key, L: Key> UniqueValueMap for LabeledOrderedSet<T, L> {
    fn key_of(&self, label: &L) -> Option<T> {
        self.get_by_label(label)
    }
}


impl<T: Key, L: Key> LabeledOrderedSet<T, L> {
    /// Puts the elements in the order of `items`, which holds the same
    /// elements; the labels stay.
    fn reorder_to(&mut self, items: Vec<T>)
        requires
            items@.to_multiset() == old(self)@.0.to_multiset(),
        ensures
            final(self)@.0 == items@,
            final(self)@.1 == old(self)@.1,
    {
        proof {
            assert forall|t: T| #[trigger] items@.contains(t) <==> old(self)@.0.contains(t) by {
                if items@.contains(t) {
                    assert(items@.to_multiset().count(t) > 0);
                }
                if old(self)@.0.contains(t) {
                    assert(old(self)@.0.to_multiset().count(t) > 0);
                }
            }
        }
        let (mut order, labels) = self.take();
        order.reorder_to(items);
        *self = LabeledOrderedSet { order, labels };
    }

    /// Reverses the element order; the labels stay.
    pub fn reverse(&mut self)
        ensures
            final(self)@.0 == old(self)@.0.reverse(),
            final(self)@.1 == old(self)@.1,
    {
        let items = self.order.iter();
        let mut out: Vec<T> = Vec::with_capacity(items.len());
        let mut i: usize = items.len();
        while i > 0
            invariant
                i <= items@.len(),
                out@ == items@.subrange(i as int, items@.len() as int).reverse(),
            decreases i,
        {
            i -= 1;
            out.push(items[i]);
            proof {
                assert(out@ =~= items@.subrange(i as int, items@.len() as int).reverse());
            }
        }
        proof {
            assert(items@.subrange(0, items@.len() as int) =~= items@);
            items@.lemma_reverse_to_multiset();
        }
        self.reorder_to(out);
    }

    /// Randomly reorders the elements; the labels stay.
    pub fn shuffle(&mut self, random: &mut Random)
        ensures
            (final(self)@.0, final(random).state()) == fisher_yates(old(self)@.0, old(random).state(), old(self)@.0.len()),
            final(random).seed_spec() == old(random).seed_spec(),
            final(self)@.1 == old(self)@.1,
    {
        let mut items = self.order.iter();
        sampling::shuffle(&mut items, random);
        self.reorder_to(items);
    }

    /// Sorts the elements by `compare`; the labels stay.
    pub fn sort_by<F: Fn(&T, &T) -> Ordering>(&mut self, compare: F)
        requires
            forall|a: &T, b: &T| #[trigger] compare.requires((a, b)),
        ensures
            sorted_by_compare(compare, final(self)@.0),
            final(self)@.0.to_multiset() == old(self)@.0.to_multiset(),
            final(self)@.1 == old(self)@.1,
    {
        let mut items = self.order.iter();
        sort_vec_by(&mut items, &compare);
        self.reorder_to(items);
    }

    /// Sorts the elements by comparing their labels with `compare`; the
    /// labels stay.
    pub fn sort_by_label<F: Fn(&L, &L) -> Ordering>(&mut self, compare: F)
        requires
            forall|a: &L, b: &L| #[trigger] compare.requires((a, b)),
        ensures
            forall|i: int| 0 <= i < final(self)@.0.len() - 1
                ==> #[trigger] compared_in_order(compare, final(self)@.1[final(self)@.0[i]], final(self)@.1[final(self)@.0[i + 1]]),
            final(self)@.0.to_multiset() == old(self)@.0.to_multiset(),
            final(self)@.1 == old(self)@.1,
    {
        proof {
            use_type_invariant(&*self);
        }
        let mut items = self.order.iter();
        let ghost labels = self@.1;
        let table = &self.labels;
        let by = &compare;
        let by_label = |a: &T, b: &T| -> (o: Ordering)
            ensures
                table@.contains_key(*a) && table@.contains_key(*b) ==> by.ensures((&table@[*a], &table@[*b]), o),
            {
                match (table.get_by_left(a), table.get_by_left(b)) {
                    (Some(la), Some(lb)) => by(&la, &lb),
                    _ => Ordering::Equal,
                }
            };
        sort_vec_by(&mut items, &by_label);
        proof {
            assert(table@ == labels);
            let s = items@;
            assert forall|i: int| 0 <= i < s.len() - 1
                implies #[trigger] compared_in_order(compare, labels[s[i]], labels[s[i + 1]]) by {
                assert(compared_in_order(by_label, s[i], s[i + 1]));
                assert(s.to_multiset().count(s[i]) > 0);
                assert(s.to_multiset().count(s[i + 1]) > 0);
                assert(self@.0.to_multiset().count(s[i]) > 0);
                assert(self@.0.to_multiset().count(s[i + 1]) > 0);
                assert(self@.0.contains(s[i]) && self@.0.contains(s[i + 1]));
                assert(labels.contains_key(s[i]) && labels.contains_key(s[i + 1]));
                if exists|r: Ordering| #[trigger] by_label.ensures((&s[i], &s[i + 1]), r) && r != Ordering::Greater {
                    let r = choose|r: Ordering| #[trigger] by_label.ensures((&s[i], &s[i + 1]), r) && r != Ordering::Greater;
                    assert(compare.ensures((&labels[s[i]], &labels[s[i + 1]]), r));
                } else {
                    assert(by_label.ensures((&s[i + 1], &s[i]), Ordering::Greater));
                    assert(compare.ensures((&labels[s[i + 1]], &labels[s[i]]), Ordering::Greater));
                }
            }
        }
        self.reorder_to(items);
    }
}

impl<T: Key, L: Key> Reorder for LabeledOrderedSet<T, L> {
    fn reverse(&mut self) {
        LabeledOrderedSet::reverse(self)
    }

    fn shuffle(&mut self, random: &mut Random) {
        LabeledOrderedSet::shuffle(self, random)
    }
}

} // verus!
