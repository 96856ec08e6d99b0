//! A sparse sequence whose slots hold sets: several distinct values can
//! share an index, and the same value may sit at several indices. Empty
//! slots are removed automatically.
use vstd::prelude::*;
use crate::structures::collections::sets::unordered_set::UnorderedSet;
use crate::structures::traits::key::Key;
use crate::structures::traits::collection::{Choose, Collection, CollectionInsert, CollectionRemove};
use crate::structures::traits::sequence::SparseIndexed;
use crate::structures::vec_ops::window_in;
use crate::structures::range_end::{RangeEnd, within, is_within};
use super::sparse_core::{
    SparseCore, ascending, occupies, slot_of, shifted, lemma_slot_at, lemma_remove_at,
};

verus! {

broadcast use {vstd::seq_lib::group_seq_properties, vstd::set::group_set_axioms, vstd::seq_lib::seq_to_set_is_finite};

/// The listing with each slot taken by its members.
pub open spec fn slot_views<T>(s: Seq<(i64, UnorderedSet<T>)>) -> Seq<(i64, Set<T>)> {
    s.map_values(|p: (i64, UnorderedSet<T>)| (p.0, p.1@))
}

/// The values of the slots, slot by slot, each slot in its own listing
/// order.
pub open spec fn flat_listing<T>(s: Seq<(i64, UnorderedSet<T>)>) -> Seq<T>
    decreases s.len(),
{
    if s.len() == 0 {
        Seq::empty()
    } else {
        flat_listing(s.drop_last()) + s.last().1.listing()
    }
}

/// A value is in the flat listing exactly when some slot holds it.
proof fn lemma_flat_listing<T>(s: Seq<(i64, UnorderedSet<T>)>, x: T)
    ensures
        flat_listing(s).contains(x) == exists|i: int| 0 <= i < s.len() && (#[trigger] s[i]).1@.contains(x),
    decreases s.len(),
{
    if s.len() > 0 {
        let init = s.drop_last();
        lemma_flat_listing(init, x);
        s.last().1.lemma_listing();
        let a = flat_listing(init);
        let b = s.last().1.listing();
        let last = s.len() - 1;
        assert(s[last] == s.last());
        if (a + b).contains(x) {
            let k = choose|k: int| 0 <= k < (a + b).len() && (a + b)[k] == x;
            if k < a.len() {
                assert(a[k] == x);
                assert(a.contains(x));
                let i = choose|i: int| 0 <= i < init.len() && (#[trigger] init[i]).1@.contains(x);
                assert(s[i] == init[i]);
            } else {
                assert(b[k - a.len()] == x);
                assert(b.contains(x));
                assert(s[last].1@.contains(x));
            }
        }
        if exists|i: int| 0 <= i < s.len() && (#[trigger] s[i]).1@.contains(x) {
            let i = choose|i: int| 0 <= i < s.len() && (#[trigger] s[i]).1@.contains(x);
            if i < last {
                assert(init[i] == s[i]);
                assert(init[i].1@.contains(x));
                assert(a.contains(x));
                let k = choose|k: int| 0 <= k < a.len() && a[k] == x;
                assert((a + b)[k] == x);
            } else {
                assert(b.contains(x));
                let k = choose|k: int| 0 <= k < b.len() && b[k] == x;
                assert((a + b)[a.len() + k] == x);
            }
        }
    }
}

/// Number of values across all slots.
pub open spec fn total_size<T>(s: Seq<(i64, Set<T>)>) -> nat
    decreases s.len(),
{
    if s.len() == 0 {
        0
    } else {
        total_size(s.drop_last()) + s.last().1.len()
    }
}

/// No slot is empty.
pub open spec fn nonempty_slots<T>(s: Seq<(i64, Set<T>)>) -> bool {
    forall|i: int| 0 <= i < s.len() ==> (#[trigger] s[i]).1.len() > 0
}

/// Whether some slot holds `item`.
pub open spec fn held<T>(s: Seq<(i64, Set<T>)>, item: T) -> bool {
    exists|i: int| 0 <= i < s.len() && (#[trigger] s[i]).1.contains(item)
}

/// The slots whose index lies between the two ends, in order.
pub open spec fn slots_within<T>(s: Seq<(i64, Set<T>)>, low: RangeEnd, high: RangeEnd) -> Seq<(i64, Set<T>)> {
    s.filter(|p: (i64, Set<T>)| within(p.0, low, high))
}

/// The slots holding `item`, in order.
pub open spec fn slots_holding<T>(s: Seq<(i64, Set<T>)>, item: T) -> Seq<(i64, Set<T>)> {
    s.filter(|p: (i64, Set<T>)| p.1.contains(item))
}

/// Whether the slot at index `k` holds `x`.
pub open spec fn slot_has<T>(s: Seq<(i64, Set<T>)>, k: i64, x: T) -> bool {
    slot_of(s, k) matches Some(members) && members.contains(x)
}

/// A slot after `item` is added to it.
pub open spec fn with_member<T>(slot: Option<Set<T>>, item: T) -> Option<Set<T>> {
    match slot {
        Some(x) => Some(x.insert(item)),
        None => Some(Set::empty().insert(item)),
    }
}

/// A slot after `item` is taken out of it; a slot left empty disappears.
pub open spec fn without_member<T>(slot: Option<Set<T>>, item: T) -> Option<Set<T>> {
    match slot {
        Some(x) => if x.remove(item).len() == 0 { None } else { Some(x.remove(item)) },
        None => None,
    }
}

proof fn lemma_total_update<T>(s: Seq<(i64, Set<T>)>, p: int, x: (i64, Set<T>))
    requires
        0 <= p < s.len(),
    ensures
        total_size(s.update(p, x)) == total_size(s) - s[p].1.len() + x.1.len(),
    decreases s.len(),
{
    let t = s.update(p, x);
    if p < s.len() - 1 {
        assert(t.drop_last() =~= s.drop_last().update(p, x));
        lemma_total_update(s.drop_last(), p, x);
    } else {
        assert(t.drop_last() =~= s.drop_last());
    }
}

proof fn lemma_total_insert<T>(s: Seq<(i64, Set<T>)>, p: int, x: (i64, Set<T>))
    requires
        0 <= p <= s.len(),
    ensures
        total_size(s.insert(p, x)) == total_size(s) + x.1.len(),
    decreases s.len(),
{
    let t = s.insert(p, x);
    if p < s.len() {
        assert(t.drop_last() =~= s.drop_last().insert(p, x));
        lemma_total_insert(s.drop_last(), p, x);
    } else {
        assert(t.drop_last() =~= s);
    }
}

proof fn lemma_total_remove<T>(s: Seq<(i64, Set<T>)>, p: int)
    requires
        0 <= p < s.len(),
    ensures
        total_size(s.remove(p)) == total_size(s) - s[p].1.len(),
    decreases s.len(),
{
    let t = s.remove(p);
    if p < s.len() - 1 {
        assert(t.drop_last() =~= s.drop_last().remove(p));
        lemma_total_remove(s.drop_last(), p);
    } else {
        assert(t =~= s.drop_last());
    }
}

/// Only the members count towards the total, not where they sit.
proof fn lemma_total_values<T>(s: Seq<(i64, Set<T>)>, u: Seq<(i64, Set<T>)>)
    requires
        s.len() == u.len(),
        forall|i: int| 0 <= i < s.len() ==> (#[trigger] s[i]).1 == u[i].1,
    ensures
        total_size(s) == total_size(u),
    decreases s.len(),
{
    if s.len() > 0 {
        lemma_total_values(s.drop_last(), u.drop_last());
    }
}

proof fn lemma_total_first<T>(s: Seq<(i64, Set<T>)>)
    requires
        s.len() > 0,
    ensures
        total_size(s) == s[0].1.len() + total_size(s.drop_first()),
    decreases s.len(),
{
    if s.len() > 1 {
        lemma_total_first(s.drop_last());
        assert(s.drop_last().drop_first() =~= s.drop_first().drop_last());
        assert(s.drop_first().last() == s.last());
        assert(total_size(s.drop_first()) == total_size(s.drop_first().drop_last()) + s.drop_first().last().1.len());
    } else {
        assert(s.drop_first().len() == 0);
        assert(s.drop_last().len() == 0);
        assert(total_size(s) == total_size(s.drop_last()) + s.last().1.len());
    }
}

proof fn lemma_total_reversed<T>(s: Seq<(i64, Set<T>)>, t: Seq<(i64, Set<T>)>)
    requires
        t.len() == s.len(),
        forall|i: int| 0 <= i < s.len() ==> (#[trigger] t[i]).1 == s[s.len() - 1 - i].1,
    ensures
        total_size(t) == total_size(s),
    decreases s.len(),
{
    if s.len() > 0 {
        let s1 = s.drop_first();
        let t1 = t.drop_last();
        assert forall|i: int| 0 <= i < s1.len() implies (#[trigger] t1[i]).1 == s1[s1.len() - 1 - i].1 by {
            assert(t1[i] == t[i]);
        }
        lemma_total_reversed(s1, t1);
        lemma_total_first(s);
        assert(t[t.len() - 1].1 == s[0].1);
        assert(total_size(t) == total_size(t1) + t[t.len() - 1].1.len());
    }
}

/// After shifting from `place`, nothing sits at `place`.
proof fn lemma_shift_frees<S>(s: Seq<(i64, S)>, place: i64)
    requires
        s.len() == 0 || s.last().0 < i64::MAX,
        ascending(s),
    ensures
        !occupies(s.map_values(|p: (i64, S)| shifted(p, place)), place),
{
    let t = s.map_values(|p: (i64, S)| shifted(p, place));
    if occupies(t, place) {
        let i = choose|i: int| 0 <= i < t.len() && (#[trigger] t[i]).0 == place;
        assert(t[i] == shifted(s[i], place));
    }
}

/// Taking each slot by its members keeps the indices and what sits at them.
proof fn lemma_views<T>(s: Seq<(i64, UnorderedSet<T>)>)
    requires
        ascending(s),
    ensures
        ascending(slot_views(s)),
        forall|k: i64| #[trigger] slot_of(slot_views(s), k) == (match slot_of(s, k) {
            Some(u) => Some(u@),
            None => None,
        }),
        forall|k: i64| #[trigger] occupies(slot_views(s), k) == occupies(s, k),
{
    let v = slot_views(s);
    assert forall|i: int, j: int| 0 <= i < j < v.len() implies (#[trigger] v[i]).0 < (#[trigger] v[j]).0 by {
        assert(s[i].0 < s[j].0);
    }
    assert forall|k: i64| #[trigger] occupies(v, k) == occupies(s, k) by {
        if occupies(s, k) {
            let i = choose|i: int| 0 <= i < s.len() && (#[trigger] s[i]).0 == k;
            assert(v[i].0 == k);
        }
        if occupies(v, k) {
            let i = choose|i: int| 0 <= i < v.len() && (#[trigger] v[i]).0 == k;
            assert(s[i].0 == k);
        }
    }
    assert forall|k: i64| #[trigger] slot_of(v, k) == (match slot_of(s, k) {
        Some(u) => Some(u@),
        None => None,
    }) by {
        assert(occupies(v, k) == occupies(s, k));
        if occupies(s, k) {
            let i = choose|i: int| 0 <= i < s.len() && (#[trigger] s[i]).0 == k;
            lemma_slot_at(s, i);
            lemma_slot_at(v, i);
        }
    }
}

/// Takes the slot at `index` out of `core`.
fn detach<T: Key>(core: &mut SparseCore<UnorderedSet<T>>, index: i64) -> (slot: Option<UnorderedSet<T>>)
    requires
        nonempty_slots(slot_views(old(core)@)),
    ensures
        ascending(final(core)@),
        nonempty_slots(slot_views(final(core)@)),
        !occupies(final(core)@, index),
        forall|k: i64| #[trigger] slot_of(slot_views(final(core)@), k) == (if k == index { None } else { slot_of(slot_views(old(core)@), k) }),
        match slot {
            Some(u) => slot_of(slot_views(old(core)@), index) == Some(u@)
                && total_size(slot_views(final(core)@)) == total_size(slot_views(old(core)@)) - u@.len()
                && u@.len() > 0,
            None => slot_of(slot_views(old(core)@), index) is None && final(core)@ == old(core)@,
        },
{
    core.check_invariants();
    let ghost s = core@;
    let slot = core.take(index);
    proof {
        lemma_views(s);
        lemma_views(core@);
        let t = core@;
        if slot is Some {
            let p = choose|p: int| 0 <= p < s.len() && s[p] == (index, slot->0) && t == s.remove(p);
            assert(slot_views(t) =~= slot_views(s).remove(p));
            lemma_total_remove(slot_views(s), p);
            assert(slot_views(s)[p].1.len() > 0);
            assert forall|i: int| 0 <= i < slot_views(t).len() implies (#[trigger] slot_views(t)[i]).1.len() > 0 by {
                let j = if i < p { i } else { i + 1 };
                assert(slot_views(t)[i] == slot_views(s)[j]);
            }
        }
        assert(slot_of(t, index) is None);
    }
    slot
}

/// Stores a non-empty `slot` at the free `index` of `core`.
fn attach<T: Key>(core: &mut SparseCore<UnorderedSet<T>>, index: i64, slot: UnorderedSet<T>)
    requires
        nonempty_slots(slot_views(old(core)@)),
        !occupies(old(core)@, index),
        slot@.len() > 0,
    ensures
        ascending(final(core)@),
        nonempty_slots(slot_views(final(core)@)),
        forall|k: i64| #[trigger] slot_of(slot_views(final(core)@), k) == (if k == index { Some(slot@) } else { slot_of(slot_views(old(core)@), k) }),
        total_size(slot_views(final(core)@)) == total_size(slot_views(old(core)@)) + slot@.len(),
{
    core.check_invariants();
    let ghost s = core@;
    let ghost members = slot@;
    core.put(index, slot);
    core.check_invariants();
    proof {
        let t = core@;
        lemma_views(s);
        lemma_views(t);
        let p = choose|p: int| 0 <= p <= s.len() && t == s.insert(p, (index, slot));
        assert(slot_views(t) =~= slot_views(s).insert(p, (index, members)));
        lemma_total_insert(slot_views(s), p, (index, members));
        assert forall|i: int| 0 <= i < slot_views(t).len() implies (#[trigger] slot_views(t)[i]).1.len() > 0 by {
            if i != p {
                let j = if i < p { i } else { i - 1 };
                assert(slot_views(t)[i] == slot_views(s)[j]);
            }
        }
    }
}

/// Sets of values stored at arbitrary `i64` indices, in index order. No
/// slot is ever empty.
pub struct SparseSetSequence<T> {
    core: SparseCore<UnorderedSet<T>>,
    element_count: usize,
}

impl<T> SparseSetSequence<T> {
    #[verifier::type_invariant]
    spec fn inv(self) -> bool {
        &&& nonempty_slots(slot_views(self.core@))
        &&& self.element_count == total_size(slot_views(self.core@))
    }
}

impl<T> View for SparseSetSequence<T> {
    type V = Seq<(i64, Set<T>)>;

    /// The `(index, members)` slots in ascending index order.
    closed spec fn view(&self) -> Seq<(i64, Set<T>)> {
        slot_views(self.core@)
    }
}

impl<T: Key> SparseSetSequence<T> {
    /// Creates an empty sparse set sequence.
    pub fn new() -> (sequence: Self)
        ensures
            sequence@ == Seq::<(i64, Set<T>)>::empty(),
    {
        let core = SparseCore::new();
        proof {
            assert(slot_views(core@) =~= Seq::<(i64, Set<T>)>::empty());
        }
        SparseSetSequence { core, element_count: 0 }
    }

    /// The order, emptiness and count the sequence keeps.
    pub fn check_invariants(&self)
        ensures
            ascending(self@),
            nonempty_slots(self@),
            self.len_spec() == total_size(self@),
    {
        proof {
            use_type_invariant(self);
        }
        self.core.check_invariants();
        proof {
            lemma_views(self.core@);
        }
    }

    /// Number of values across all slots, as a spec.
    pub closed spec fn len_spec(&self) -> int {
        self.element_count as int
    }

    /// Takes the parts out, leaving an empty sequence behind.
    fn unpack(&mut self) -> (parts: (SparseCore<UnorderedSet<T>>, usize))
        ensures
            slot_views(parts.0@) == old(self)@,
            parts.1 == total_size(old(self)@),
            nonempty_slots(old(self)@),
            ascending(parts.0@),
            ascending(old(self)@),
    {
        let mut this = SparseSetSequence::new();
        std::mem::swap(&mut this, self);
        proof {
            use_type_invariant(&this);
        }
        let SparseSetSequence { core, element_count } = this;
        core.check_invariants();
        proof {
            lemma_views(core@);
        }
        (core, element_count)
    }

    /// Number of values across all slots.
    pub fn len(&self) -> (n: usize)
        ensures
            n == total_size(self@),
    {
        proof {
            use_type_invariant(self);
        }
        self.element_count
    }

    /// Number of occupied indices.
    pub fn slot_count(&self) -> (n: usize)
        ensures
            n == self@.len(),
    {
        self.core.len()
    }

    /// Whether no slot is occupied.
    pub fn is_empty(&self) -> (empty: bool)
        ensures
            empty == (self@.len() == 0),
    {
        self.core.len() == 0
    }

    /// The set stored at `index`.
    pub fn get(&self, index: i64) -> (slot: Option<&UnorderedSet<T>>)
        ensures
            match slot {
                Some(s) => slot_of(self@, index) == Some(s@),
                None => slot_of(self@, index) is None,
            },
    {
        self.core.check_invariants();
        proof {
            lemma_views(self.core@);
        }
        self.core.get(index)
    }

    /// The slot at the lowest index.
    pub fn first(&self) -> (slot: Option<&UnorderedSet<T>>)
        ensures
            match slot {
                Some(s) => self@.len() > 0 && s@ == self@[0].1,
                None => self@.len() == 0,
            },
    {
        self.core.first()
    }

    /// The slot at the highest index.
    pub fn last(&self) -> (slot: Option<&UnorderedSet<T>>)
        ensures
            match slot {
                Some(s) => self@.len() > 0 && s@ == self@.last().1,
                None => self@.len() == 0,
            },
    {
        self.core.last()
    }

    /// `(index, members)` pairs in index order.
    pub fn iter(&self) -> (slots: Vec<(i64, UnorderedSet<T>)>)
        ensures
            slot_views(slots@) == self@,
    {
        let n = self.core.len();
        let mut out: Vec<(i64, UnorderedSet<T>)> = Vec::new();
        let mut i: usize = 0;
        while i < n
            invariant
                i <= n,
                n == self.core@.len(),
                slot_views(out@) == self@.take(i as int),
            decreases n - i,
        {
            let entry = self.core.entry(i);
            let members = entry.1.duplicate();
            let ghost prev = out@;
            out.push((entry.0, members));
            proof {
                assert(slot_views(out@) =~= slot_views(prev).push((entry.0, members@)));
                assert(self@.take(i + 1) =~= self@.take(i as int).push(self@[i as int]));
            }
            i += 1;
        }
        proof {
            assert(self@.take(i as int) =~= self@);
        }
        out
    }

    /// Whether `item` occurs in any slot.
    pub fn contains(&self, item: &T) -> (found: bool)
        ensures
            found == held(self@, *item),
    {
        let n = self.core.len();
        let mut i: usize = 0;
        while i < n
            invariant
                i <= n,
                n == self@.len(),
                forall|j: int| 0 <= j < i ==> !(#[trigger] self@[j]).1.contains(*item),
            decreases n - i,
        {
            let found = self.core.entry(i).1.contains(item);
            proof {
                assert(self@[i as int].1 == self.core@[i as int].1@);
            }
            if found {
                return true;
            }
            i += 1;
        }
        false
    }

    /// Adds `item` to the slot at `index`, creating the slot if needed.
    /// Returns whether it was new there.
    pub fn insert_at(&mut self, index: i64, item: T) -> (added: bool)
        requires
            total_size(old(self)@) < usize::MAX,
        ensures
            added == !(slot_of(old(self)@, index) matches Some(x) && x.contains(item)),
            ascending(final(self)@),
            forall|k: i64| #[trigger] slot_of(final(self)@, k) == (if k == index {
                with_member(slot_of(old(self)@, index), item)
            } else {
                slot_of(old(self)@, k)
            }),
            total_size(final(self)@) == total_size(old(self)@) + (if added { 1int } else { 0int }),
    {
        let (mut core, mut count) = self.unpack();
        let ghost s = slot_views(core@);
        let mut slot = match detach(&mut core, index) {
            Some(existing) => existing,
            None => UnorderedSet::new(),
        };
        let ghost before = slot@;
        proof {
            UnorderedSet::lemma_view_finite(&slot);
        }
        let added = slot.insert(item);
        proof {
            if slot_of(s, index) is None {
                assert(before =~= Set::<T>::empty());
            }
            if added {
                assert(slot@.len() == before.len() + 1);
            } else {
                assert(slot@ =~= before);
            }
            assert(slot@.contains(item));
        }
        attach(&mut core, index, slot);
        if added {
            count = count + 1;
        }
        *self = SparseSetSequence { core, element_count: count };
        added
    }

    /// Removes `item` from the slot at `index`; a slot left empty is
    /// removed. Returns whether `item` was there.
    pub fn remove_at(&mut self, index: i64, item: &T) -> (removed: bool)
        ensures
            removed == (slot_of(old(self)@, index) matches Some(x) && x.contains(*item)),
            ascending(final(self)@),
            forall|k: i64| #[trigger] slot_of(final(self)@, k) == (if k == index {
                without_member(slot_of(old(self)@, index), *item)
            } else {
                slot_of(old(self)@, k)
            }),
            total_size(final(self)@) == total_size(old(self)@) - (if removed { 1int } else { 0int }),
    {
        let (mut core, mut count) = self.unpack();
        let ghost s = slot_views(core@);
        match detach(&mut core, index) {
            None => {
                *self = SparseSetSequence { core, element_count: count };
                false
            },
            Some(mut slot) => {
                let ghost before = slot@;
                proof {
                    UnorderedSet::lemma_view_finite(&slot);
                }
                let removed = slot.remove(item);
                proof {
                    if removed {
                        assert(slot@.len() == before.len() - 1);
                    } else {
                        assert(slot@ =~= before);
                    }
                }
                if slot.is_empty() {
                    proof {
                        assert(before.remove(*item).len() == 0);
                    }
                } else {
                    attach(&mut core, index, slot);
                }
                if removed {
                    count = count - 1;
                }
                *self = SparseSetSequence { core, element_count: count };
                removed
            },
        }
    }

    /// Removes the whole slot at `index`.
    pub fn remove_slot(&mut self, index: i64) -> (slot: Option<UnorderedSet<T>>)
        ensures
            match slot {
                Some(u) => slot_of(old(self)@, index) == Some(u@),
                None => slot_of(old(self)@, index) is None,
            },
            ascending(final(self)@),
            forall|k: i64| #[trigger] slot_of(final(self)@, k) == (if k == index { None } else { slot_of(old(self)@, k) }),
            total_size(final(self)@) == total_size(old(self)@) - (match slot { Some(u) => u@.len() as int, None => 0int }),
    {
        let (mut core, count) = self.unpack();
        let slot = detach(&mut core, index);
        match slot {
            None => {
                *self = SparseSetSequence { core, element_count: count };
                None
            },
            Some(u) => {
                let size = u.len();
                *self = SparseSetSequence { core, element_count: count - size };
                Some(u)
            },
        }
    }

    /// Adds `item` in a new slot at the first free index from zero.
    pub fn push(&mut self, item: T) -> (index: i64)
        requires
            exists|j: i64| j >= 0 && !occupies(old(self)@, j),
            total_size(old(self)@) < usize::MAX,
        ensures
            index >= 0,
            !occupies(old(self)@, index),
            forall|j: i64| 0 <= j < index ==> occupies(old(self)@, j),
            ascending(final(self)@),
            forall|k: i64| #[trigger] slot_of(final(self)@, k) == (if k == index {
                Some(Set::empty().insert(item))
            } else {
                slot_of(old(self)@, k)
            }),
            total_size(final(self)@) == total_size(old(self)@) + 1,
    {
        self.core.check_invariants();
        proof {
            lemma_views(self.core@);
            let j = choose|j: i64| j >= 0 && !occupies(self@, j);
            assert(!occupies(self.core@, j));
        }
        let index = self.core.first_free();
        proof {
            assert forall|j: i64| 0 <= j < index implies occupies(old(self)@, j) by {
                assert(occupies(self.core@, j));
            }
            assert(slot_of(self@, index) is None);
        }
        self.insert_at(index, item);
        index
    }

    /// Adds every value of `items` to the slot at `index`.
    pub fn extend_at(&mut self, index: i64, items: Vec<T>)
        requires
            total_size(old(self)@) + items@.len() < usize::MAX,
        ensures
            ascending(final(self)@),
            forall|k: i64| k != index ==> #[trigger] slot_of(final(self)@, k) == slot_of(old(self)@, k),
            items@.len() == 0 ==> final(self)@ == old(self)@,
            items@.len() > 0 ==> slot_of(final(self)@, index) == Some(match slot_of(old(self)@, index) {
                Some(x) => x.union(items@.to_set()),
                None => items@.to_set(),
            }),
            total_size(final(self)@) <= total_size(old(self)@) + items@.len(),
    {
        self.check_invariants();
        let ghost start = match slot_of(self@, index) {
            Some(x) => x,
            None => Set::<T>::empty(),
        };
        let mut i: usize = 0;
        while i < items.len()
            invariant
                i <= items@.len(),
                ascending(self@),
                total_size(self@) <= total_size(old(self)@) + i,
                total_size(old(self)@) + items@.len() < usize::MAX,
                forall|k: i64| k != index ==> #[trigger] slot_of(self@, k) == slot_of(old(self)@, k),
                i == 0 ==> self@ == old(self)@,
                i > 0 ==> slot_of(self@, index) == Some(start.union(items@.take(i as int).to_set())),
                start == (match slot_of(old(self)@, index) {
                    Some(x) => x,
                    None => Set::<T>::empty(),
                }),
            decreases items@.len() - i,
        {
            let ghost before = self@;
            self.insert_at(index, items[i]);
            proof {
                let now = items@.take(i + 1).to_set();
                assert(items@.take(i + 1) =~= items@.take(i as int).push(items@[i as int]));
                assert forall|x: T| now.contains(x) == items@.take(i as int).to_set().insert(items@[i as int]).contains(x) by {
                    if items@.take(i as int).contains(x) {
                        let j = choose|j: int| 0 <= j < i && #[trigger] items@.take(i as int)[j] == x;
                        assert(items@.take(i + 1)[j] == x);
                    }
                    if items@.take(i + 1).contains(x) {
                        let j = choose|j: int| 0 <= j < i + 1 && #[trigger] items@.take(i + 1)[j] == x;
                        if j < i {
                            assert(items@.take(i as int)[j] == x);
                        }
                    }
                }
                assert(now =~= items@.take(i as int).to_set().insert(items@[i as int]));
                if i == 0 {
                    assert(items@.take(0).to_set() =~= Set::<T>::empty());
                }
                assert(slot_of(self@, index) == Some(start.union(now))) by {
                    if i == 0 {
                        assert(start.union(now) =~= with_member(slot_of(old(self)@, index), items@[0])->0);
                    } else {
                        assert(start.union(now) =~= start.union(items@.take(i as int).to_set()).insert(items@[i as int]));
                    }
                }
            }
            i += 1;
        }
        proof {
            assert(items@.take(i as int) =~= items@);
            if i > 0 {
                if slot_of(old(self)@, index) is None {
                    assert(start.union(items@.to_set()) =~= items@.to_set());
                }
            }
        }
    }

    /// Moves every slot at or after `index` one index up, then adds `item`
    /// at `index`.
    pub fn insert_shifting(&mut self, index: i64, item: T)
        requires
            old(self)@.len() == 0 || old(self)@.last().0 < i64::MAX,
            total_size(old(self)@) < usize::MAX,
        ensures
            ascending(final(self)@),
            forall|k: i64| #[trigger] slot_of(final(self)@, k) == (if k == index {
                Some(Set::empty().insert(item))
            } else {
                slot_of(old(self)@.map_values(|p: (i64, Set<T>)| shifted(p, index)), k)
            }),
            total_size(final(self)@) == total_size(old(self)@) + 1,
    {
        self.check_invariants();
        proof {
            lemma_shift_frees(self@, index);
        }
        self.shift_from(index);
        proof {
            assert(slot_of(self@, index) is None);
        }
        self.insert_at(index, item);
    }

    /// Moves every slot at or after `index` one index up, then stores
    /// `items` as the slot at `index` unless it is empty.
    pub fn insert_slot_shifting(&mut self, index: i64, items: UnorderedSet<T>)
        requires
            old(self)@.len() == 0 || old(self)@.last().0 < i64::MAX,
            total_size(old(self)@) + items@.len() <= usize::MAX,
        ensures
            ascending(final(self)@),
            forall|k: i64| #[trigger] slot_of(final(self)@, k) == (if k == index && items@.len() > 0 {
                Some(items@)
            } else {
                slot_of(old(self)@.map_values(|p: (i64, Set<T>)| shifted(p, index)), k)
            }),
            total_size(final(self)@) == total_size(old(self)@) + items@.len(),
    {
        self.check_invariants();
        proof {
            lemma_shift_frees(self@, index);
        }
        self.shift_from(index);
        if !items.is_empty() {
            let size = items.len();
            let (mut core, count) = self.unpack();
            proof {
                lemma_views(core@);
                assert(!occupies(core@, index));
            }
            attach(&mut core, index, items);
            *self = SparseSetSequence { core, element_count: count + size };
        }
    }

    /// Moves every slot at or after `place` one index up.
    fn shift_from(&mut self, place: i64)
        requires
            old(self)@.len() == 0 || old(self)@.last().0 < i64::MAX,
        ensures
            final(self)@ == old(self)@.map_values(|p: (i64, Set<T>)| shifted(p, place)),
            ascending(final(self)@),
            total_size(final(self)@) == total_size(old(self)@),
    {
        let (mut core, count) = self.unpack();
        let ghost s = core@;
        core.shift_from(place);
        proof {
            let t = core@;
            assert(slot_views(t) =~= slot_views(s).map_values(|p: (i64, Set<T>)| shifted(p, place)));
            lemma_total_values(slot_views(t), slot_views(s));
            lemma_views(t);
        }
        *self = SparseSetSequence { core, element_count: count };
    }

    /// Removes and returns the lowest-indexed slot.
    pub fn pop_first(&mut self) -> (popped: Option<(i64, UnorderedSet<T>)>)
        ensures
            match popped {
                Some((k, u)) => old(self)@.len() > 0 && (k, u@) == old(self)@[0] && final(self)@ == old(self)@.drop_first(),
                None => old(self)@.len() == 0 && final(self)@ == old(self)@,
            },
    {
        self.check_invariants();
        match self.core.min_index() {
            None => None,
            Some(index) => {
                let ghost s = self@;
                let slot = self.remove_slot(index);
                proof {
                    lemma_slot_at(s, 0);
                    lemma_remove_at(s, 0);
                    super::sparse_core::lemma_listing_unique(self@, s.remove(0));
                    assert(s.remove(0) =~= s.drop_first());
                }
                Some((index, slot.unwrap()))
            },
        }
    }

    /// Removes and returns the highest-indexed slot.
    pub fn pop_last(&mut self) -> (popped: Option<(i64, UnorderedSet<T>)>)
        ensures
            match popped {
                Some((k, u)) => old(self)@.len() > 0 && (k, u@) == old(self)@.last() && final(self)@ == old(self)@.drop_last(),
                None => old(self)@.len() == 0 && final(self)@ == old(self)@,
            },
    {
        self.check_invariants();
        match self.core.max_index() {
            None => None,
            Some(index) => {
                let ghost s = self@;
                let ghost n = s.len() - 1;
                let slot = self.remove_slot(index);
                proof {
                    lemma_slot_at(s, n);
                    lemma_remove_at(s, n);
                    super::sparse_core::lemma_listing_unique(self@, s.remove(n));
                    assert(s.remove(n) =~= s.drop_last());
                }
                Some((index, slot.unwrap()))
            },
        }
    }

    /// Removes every slot.
    pub fn clear(&mut self)
        ensures
            final(self)@ == Seq::<(i64, Set<T>)>::empty(),
    {
        *self = SparseSetSequence::new();
    }

    /// Renumbers the slots to indices `0..slot_count`, keeping their order.
    pub fn compact(&mut self)
        requires
            old(self)@.len() <= i64::MAX,
        ensures
            final(self)@ == old(self)@.map(|i: int, p: (i64, Set<T>)| (i as i64, p.1)),
    {
        let (mut core, count) = self.unpack();
        let ghost s = core@;
        core.compact();
        proof {
            let t = core@;
            assert(slot_views(t) =~= slot_views(s).map(|i: int, p: (i64, Set<T>)| (i as i64, p.1)));
            lemma_total_values(slot_views(t), slot_views(s));
        }
        *self = SparseSetSequence { core, element_count: count };
    }

    /// Reverses which slot sits at which index; the occupied indices stay.
    pub fn reverse_slots(&mut self)
        ensures
            final(self)@.len() == old(self)@.len(),
            forall|i: int| 0 <= i < old(self)@.len() ==> #[trigger] final(self)@[i] == (old(self)@[i].0, old(self)@[old(self)@.len() - 1 - i].1),
    {
        let (mut core, count) = self.unpack();
        let ghost s = core@;
        core.reverse_slots();
        proof {
            let t = slot_views(core@);
            let v = slot_views(s);
            assert forall|i: int| 0 <= i < v.len() implies (#[trigger] t[i]).1 == v[v.len() - 1 - i].1 by {}
            lemma_total_reversed(v, t);
            assert forall|i: int| 0 <= i < t.len() implies (#[trigger] t[i]).1.len() > 0 by {
                assert(t[i].1 == v[v.len() - 1 - i].1);
            }
        }
        *self = SparseSetSequence { core, element_count: count };
    }

    /// Removes the first occurrence of `item` and returns its index.
    pub fn remove_first_of(&mut self, item: &T) -> (index: Option<i64>)
        ensures
            match index {
                Some(k) => exists|p: int| 0 <= p < old(self)@.len() && old(self)@[p].0 == k
                    && old(self)@[p].1.contains(*item)
                    && forall|j: int| 0 <= j < p ==> !(#[trigger] old(self)@[j]).1.contains(*item),
                None => !held(old(self)@, *item) && final(self)@ == old(self)@,
            },
            ascending(final(self)@),
            forall|k: i64| #[trigger] slot_of(final(self)@, k) == (if index == Some(k) {
                without_member(slot_of(old(self)@, k), *item)
            } else {
                slot_of(old(self)@, k)
            }),
            total_size(final(self)@) == total_size(old(self)@) - (if index is Some { 1int } else { 0int }),
    {
        self.check_invariants();
        let n = self.core.len();
        let mut i: usize = 0;
        while i < n
            invariant
                i <= n,
                n == self@.len(),
                self@ == old(self)@,
                ascending(self@),
                forall|j: int| 0 <= j < i ==> !(#[trigger] self@[j]).1.contains(*item),
            decreases n - i,
        {
            let entry = self.core.entry(i);
            let found = entry.1.contains(item);
            let k = entry.0;
            proof {
                assert(self@[i as int] == (self.core@[i as int].0, self.core@[i as int].1@));
            }
            if found {
                proof {
                    lemma_slot_at(self@, i as int);
                }
                self.remove_at(k, item);
                return Some(k);
            }
            i += 1;
        }
        None
    }

    /// Removes the last occurrence of `item` and returns its index.
    pub fn remove_last_of(&mut self, item: &T) -> (index: Option<i64>)
        ensures
            match index {
                Some(k) => exists|p: int| 0 <= p < old(self)@.len() && old(self)@[p].0 == k
                    && old(self)@[p].1.contains(*item)
                    && forall|j: int| p < j < old(self)@.len() ==> !(#[trigger] old(self)@[j]).1.contains(*item),
                None => !held(old(self)@, *item) && final(self)@ == old(self)@,
            },
            ascending(final(self)@),
            forall|k: i64| #[trigger] slot_of(final(self)@, k) == (if index == Some(k) {
                without_member(slot_of(old(self)@, k), *item)
            } else {
                slot_of(old(self)@, k)
            }),
            total_size(final(self)@) == total_size(old(self)@) - (if index is Some { 1int } else { 0int }),
    {
        self.check_invariants();
        let n = self.core.len();
        let mut i: usize = n;
        while i > 0
            invariant
                i <= n,
                n == self@.len(),
                self@ == old(self)@,
                ascending(self@),
                forall|j: int| i <= j < n ==> !(#[trigger] self@[j]).1.contains(*item),
            decreases i,
        {
            let entry = self.core.entry(i - 1);
            let found = entry.1.contains(item);
            let k = entry.0;
            proof {
                assert(self@[i - 1] == (self.core@[i - 1].0, self.core@[i - 1].1@));
            }
            if found {
                proof {
                    lemma_slot_at(self@, i - 1);
                }
                self.remove_at(k, item);
                return Some(k);
            }
            i -= 1;
        }
        None
    }

    /// Removes `item` from every slot and returns how many slots held it.
    pub fn remove_all_of(&mut self, item: &T) -> (count: usize)
        ensures
            ascending(final(self)@),
            forall|k: i64| #[trigger] slot_of(final(self)@, k) == without_member(slot_of(old(self)@, k), *item),
            count == total_size(old(self)@) - total_size(final(self)@),
    {
        self.check_invariants();
        let n = self.len();
        let ghost s = self@;
        let mut count: usize = 0;
        loop
            invariant
                n == total_size(s),
                ascending(s),
                ascending(self@),
                count == total_size(s) - total_size(self@),
                forall|k: i64| #[trigger] slot_of(self@, k) == slot_of(s, k)
                    || slot_of(self@, k) == without_member(slot_of(s, k), *item),
            ensures
                !held(self@, *item),
                ascending(self@),
                count == total_size(s) - total_size(self@),
                forall|k: i64| #[trigger] slot_of(self@, k) == slot_of(s, k)
                    || slot_of(self@, k) == without_member(slot_of(s, k), *item),
            decreases total_size(self@),
        {
            let ghost before = self@;
            match self.remove_first_of(item) {
                None => break,
                Some(k) => {
                    proof {
                        assert forall|k2: i64| #[trigger] slot_of(self@, k2) == slot_of(s, k2)
                            || slot_of(self@, k2) == without_member(slot_of(s, k2), *item) by {
                            if k2 == k {
                                assert(slot_of(before, k2) == slot_of(s, k2) || slot_of(before, k2) == without_member(slot_of(s, k2), *item));
                                if slot_of(before, k2) != slot_of(s, k2) {
                                    if let Some(y) = without_member(slot_of(s, k2), *item) {
                                        assert(y.remove(*item) =~= y);
                                    }
                                }
                            } else {
                                assert(slot_of(before, k2) == slot_of(s, k2) || slot_of(before, k2) == without_member(slot_of(s, k2), *item));
                            }
                        }
                    }
                    count = count + 1;
                },
            }
        }
        proof {
            assert forall|k: i64| #[trigger] slot_of(self@, k) == without_member(slot_of(s, k), *item) by {
                if slot_of(self@, k) == slot_of(s, k) {
                    if let Some(x) = slot_of(s, k) {
                        let i = choose|i: int| 0 <= i < self@.len() && (#[trigger] self@[i]).0 == k;
                        lemma_slot_at(self@, i);
                        assert(!x.contains(*item));
                        assert(x.remove(*item) =~= x);
                        let p = choose|p: int| 0 <= p < s.len() && (#[trigger] s[p]).0 == k;
                        lemma_slot_at(s, p);
                    }
                }
            }
        }
        count
    }

    /// Keeps only the values `keep` accepts, in every slot; slots left
    /// empty are removed.
    pub fn retain<F: Fn(i64, &T) -> bool>(&mut self, keep: F)
        requires
            forall|k: i64, x: &T| #[trigger] keep.requires((k, x)),
        ensures
            ascending(final(self)@),
            forall|k: i64, x: T| #[trigger] slot_has(final(self)@, k, x)
                ==> slot_has(old(self)@, k, x) && keep.ensures((k, &x), true),
            forall|k: i64, x: T| #[trigger] slot_has(old(self)@, k, x)
                && !slot_has(final(self)@, k, x) ==> keep.ensures((k, &x), false),
    {
        let (mut core, mut count) = self.unpack();
        let ghost s = slot_views(core@);
        let indices = core.indices();
        proof {
            lemma_views(core@);
        }
        let mut i: usize = 0;
        while i < indices.len()
            invariant
                i <= indices@.len(),
                indices@.len() == s.len(),
                forall|j: int| 0 <= j < s.len() ==> #[trigger] indices@[j] == s[j].0,
                ascending(s),
                ascending(core@),
                nonempty_slots(slot_views(core@)),
                count == total_size(slot_views(core@)),
                forall|k: i64, x: &T| #[trigger] keep.requires((k, x)),
                forall|j: int| i <= j < s.len() ==> slot_of(slot_views(core@), (#[trigger] s[j]).0) == Some(s[j].1),
                forall|k: i64| #[trigger] slot_of(slot_views(core@), k) is Some ==> slot_of(s, k) is Some,
                forall|k: i64, x: T| #[trigger] slot_has(slot_views(core@), k, x)
                    ==> slot_has(s, k, x)
                        && (forall|j: int| 0 <= j < i && s[j].0 == k ==> keep.ensures((k, &x), true)),
                forall|j: int, x: T| 0 <= j < i && #[trigger] s[j].1.contains(x)
                    && !slot_has(slot_views(core@), s[j].0, x)
                    ==> keep.ensures((s[j].0, &x), false),
            decreases indices@.len() - i,
        {
            let k = indices[i];
            let ghost before = slot_views(core@);
            proof {
                lemma_slot_at(s, i as int);
            }
            let mut slot = detach(&mut core, k).unwrap();
            let ghost members = slot@;
            let before_size = slot.len();
            let keep_ref = &keep;
            let filter = move |x: &T| -> (b: bool)
                requires
                    keep_ref.requires((k, x)),
                ensures
                    keep_ref.ensures((k, x), b),
            {
                keep_ref(k, x)
            };
            proof {
                UnorderedSet::lemma_view_finite(&slot);
            }
            slot.retain(filter);
            proof {
                UnorderedSet::lemma_view_finite(&slot);
                assert(slot@.subset_of(members));
                vstd::set_lib::lemma_len_subset(slot@, members);
            }
            let size = slot.len();
            let ghost detached = slot_views(core@);
            if size > 0 {
                attach(&mut core, k, slot);
            }
            count = count - before_size + size;
            proof {
                let now = slot_views(core@);
                assert forall|j: int| i < j < s.len() implies slot_of(now, (#[trigger] s[j]).0) == Some(s[j].1) by {
                    assert(s[i as int].0 < s[j].0);
                    assert(slot_of(before, s[j].0) == Some(s[j].1));
                }
                assert forall|k2: i64| #[trigger] slot_of(now, k2) is Some implies slot_of(s, k2) is Some by {
                    if k2 != k {
                        assert(slot_of(before, k2) is Some);
                    }
                }
                assert forall|k2: i64, x: T| #[trigger] slot_has(now, k2, x)
                    implies slot_has(s, k2, x)
                        && (forall|j: int| 0 <= j < i + 1 && s[j].0 == k2 ==> keep.ensures((k2, &x), true)) by {
                    if k2 == k {
                        assert(slot_of(now, k2) == Some(slot@));
                        assert forall|j: int| 0 <= j < i + 1 && s[j].0 == k2 implies keep.ensures((k2, &x), true) by {
                            if j < i {
                                assert(s[j].0 < s[i as int].0);
                            }
                        }
                    } else {
                        assert(slot_of(now, k2) == slot_of(before, k2));
                        assert(slot_has(before, k2, x));
                        assert(k == s[i as int].0);
                        assert forall|j: int| 0 <= j < i + 1 && s[j].0 == k2 implies keep.ensures((k2, &x), true) by {
                            assert(j != i);
                        }
                    }
                }
                assert forall|j: int, x: T| 0 <= j < i + 1 && #[trigger] s[j].1.contains(x)
                    && !slot_has(now, s[j].0, x)
                    implies keep.ensures((s[j].0, &x), false) by {
                    if j == i {
                        assert(members.contains(x));
                        assert(!slot@.contains(x));
                    } else {
                        assert(s[j].0 < s[i as int].0);
                        assert(slot_of(now, s[j].0) == slot_of(before, s[j].0));
                    }
                }
            }
            i += 1;
        }
        proof {
            let now = slot_views(core@);
            assert forall|k: i64, x: T| #[trigger] slot_has(now, k, x)
                implies keep.ensures((k, &x), true) by {
                let p = choose|p: int| 0 <= p < s.len() && (#[trigger] s[p]).0 == k;
            }
            assert forall|k: i64, x: T| #[trigger] slot_has(s, k, x)
                && !slot_has(now, k, x) implies keep.ensures((k, &x), false) by {
                let p = choose|p: int| 0 <= p < s.len() && (#[trigger] s[p]).0 == k;
                lemma_slot_at(s, p);
            }
        }
        *self = SparseSetSequence { core, element_count: count };
    }

    /// Keeps only the slots `keep` accepts.
    pub fn retain_slots<F: Fn(i64, &UnorderedSet<T>) -> bool>(&mut self, keep: F)
        requires
            forall|k: i64, u: &UnorderedSet<T>| #[trigger] keep.requires((k, u)),
        ensures
            ascending(final(self)@),
            forall|k: i64| #[trigger] slot_of(final(self)@, k) is Some ==> slot_of(final(self)@, k) == slot_of(old(self)@, k)
                && exists|u: UnorderedSet<T>| u@ == slot_of(old(self)@, k)->0 && keep.ensures((k, &u), true),
            forall|k: i64| #[trigger] slot_of(old(self)@, k) is Some && slot_of(final(self)@, k) is None
                ==> exists|u: UnorderedSet<T>| u@ == slot_of(old(self)@, k)->0 && keep.ensures((k, &u), false),
    {
        self.check_invariants();
        let ghost s = self@;
        let indices = self.core.indices();
        self.core.check_invariants();
        proof {
            lemma_views(self.core@);
        }
        let mut i: usize = 0;
        while i < indices.len()
            invariant
                i <= indices@.len(),
                indices@.len() == s.len(),
                forall|j: int| 0 <= j < s.len() ==> #[trigger] indices@[j] == s[j].0,
                ascending(s),
                ascending(self@),
                forall|k: i64, u: &UnorderedSet<T>| #[trigger] keep.requires((k, u)),
                forall|j: int| i <= j < s.len() ==> slot_of(self@, (#[trigger] s[j]).0) == Some(s[j].1),
                forall|k: i64| #[trigger] slot_of(self@, k) is Some ==> slot_of(self@, k) == slot_of(s, k),
                forall|j: int| 0 <= j < i ==> (slot_of(self@, (#[trigger] s[j]).0) is Some ==>
                    exists|u: UnorderedSet<T>| u@ == s[j].1 && keep.ensures((s[j].0, &u), true))
                    && (slot_of(self@, s[j].0) is None ==>
                    exists|u: UnorderedSet<T>| u@ == s[j].1 && keep.ensures((s[j].0, &u), false)),
            decreases indices@.len() - i,
        {
            let k = indices[i];
            self.core.check_invariants();
            proof {
                lemma_views(self.core@);
                assert(slot_of(self@, k) == Some(s[i as int].1));
            }
            let ghost core_before = self.core@;
            let kept = match self.core.get(k) {
                Some(u) => keep(k, u),
                None => true,
            };
            let ghost before = self@;
            let ghost witness = slot_of(core_before, k)->0;
            proof {
                assert(witness@ == s[i as int].1);
                assert(keep.ensures((k, &witness), kept));
            }
            if !kept {
                self.remove_slot(k);
            }
            proof {
                assert forall|j: int| i < j < s.len() implies slot_of(self@, (#[trigger] s[j]).0) == Some(s[j].1) by {
                    assert(s[i as int].0 < s[j].0);
                    assert(slot_of(before, s[j].0) == Some(s[j].1));
                }
                assert forall|j: int| 0 <= j < i + 1 implies (slot_of(self@, (#[trigger] s[j]).0) is Some ==>
                    exists|u: UnorderedSet<T>| u@ == s[j].1 && keep.ensures((s[j].0, &u), true))
                    && (slot_of(self@, s[j].0) is None ==>
                    exists|u: UnorderedSet<T>| u@ == s[j].1 && keep.ensures((s[j].0, &u), false)) by {
                    if j < i {
                        assert(s[j].0 < s[i as int].0);
                        assert(slot_of(self@, s[j].0) == slot_of(before, s[j].0));
                    } else {
                        assert(witness@ == s[j].1);
                    }
                }
            }
            i += 1;
        }
        proof {
            assert forall|k: i64| #[trigger] slot_of(self@, k) is Some implies slot_of(self@, k) == slot_of(s, k)
                && exists|u: UnorderedSet<T>| u@ == slot_of(s, k)->0 && keep.ensures((k, &u), true) by {
                let p = choose|p: int| 0 <= p < s.len() && (#[trigger] s[p]).0 == k;
                lemma_slot_at(s, p);
            }
            assert forall|k: i64| #[trigger] slot_of(s, k) is Some && slot_of(self@, k) is None
                implies exists|u: UnorderedSet<T>| u@ == slot_of(s, k)->0 && keep.ensures((k, &u), false) by {
                let p = choose|p: int| 0 <= p < s.len() && (#[trigger] s[p]).0 == k;
                lemma_slot_at(s, p);
            }
        }
    }

    /// `(index, members)` pairs whose index lies between `low` and `high`.
    pub fn range(&self, low: RangeEnd, high: RangeEnd) -> (slots: Vec<(i64, UnorderedSet<T>)>)
        ensures
            slot_views(slots@) == slots_within(self@, low, high),
    {
        let n = self.core.len();
        let mut out: Vec<(i64, UnorderedSet<T>)> = Vec::new();
        let mut i: usize = 0;
        while i < n
            invariant
                i <= n,
                n == self@.len(),
                slot_views(out@) == slots_within(self@.subrange(0, i as int), low, high),
            decreases n - i,
        {
            let entry = self.core.entry(i);
            let k = entry.0;
            let ghost prev = out@;
            if is_within(k, low, high) {
                let members = entry.1.duplicate();
                out.push((k, members));
                proof {
                    assert(slot_views(out@) =~= slot_views(prev).push((k, members@)));
                }
            }
            proof {
                let t = self@.subrange(0, i + 1);
                assert(t.drop_last() =~= self@.subrange(0, i as int));
                assert(t.last() == (k, self.core@[i as int].1@));
                reveal(Seq::filter);
                assert(slots_within(t, low, high) == (if within(k, low, high) {
                    slots_within(t.drop_last(), low, high).push(t.last())
                } else {
                    slots_within(t.drop_last(), low, high)
                }));
            }
            i += 1;
        }
        proof {
            assert(self@.subrange(0, n as int) =~= self@);
        }
        out
    }

    /// Whether this sequence's slots appear consecutively, in order, among
    /// the slots of `other`, whatever their indices.
    pub fn is_window_of(&self, other: &Self) -> (window: bool)
        ensures
            window == window_in(self@.map_values(|p: (i64, Set<T>)| p.1), other@.map_values(|p: (i64, Set<T>)| p.1)),
    {
        let ghost needle = self@.map_values(|p: (i64, Set<T>)| p.1);
        let ghost haystack = other@.map_values(|p: (i64, Set<T>)| p.1);
        let n = self.core.len();
        let m = other.core.len();
        if n == 0 {
            return true;
        }
        if n > m {
            proof {
                assert forall|start: int| 0 <= start && start + n <= haystack.len() implies
                    #[trigger] haystack.subrange(start, start + n) != needle by {}
            }
            return false;
        }
        let last = m - n;
        let mut start: usize = 0;
        while start <= last
            invariant
                n == needle.len(),
                m == haystack.len(),
                0 < n <= m,
                last == m - n,
                start <= last + 1,
                needle == self@.map_values(|p: (i64, Set<T>)| p.1),
                haystack == other@.map_values(|p: (i64, Set<T>)| p.1),
                forall|q: int| 0 <= q < start ==> #[trigger] haystack.subrange(q, q + n) != needle,
            decreases last + 1 - start,
        {
            let mut j: usize = 0;
            let mut same = true;
            while j < n && same
                invariant
                    n == needle.len(),
                    m == haystack.len(),
                    start + n <= m,
                    j <= n,
                    needle == self@.map_values(|p: (i64, Set<T>)| p.1),
                    haystack == other@.map_values(|p: (i64, Set<T>)| p.1),
                    same == forall|q: int| 0 <= q < j ==> haystack[start + q] == needle[q],
                decreases n - j,
            {
                let a = other.core.entry(start + j);
                let b = self.core.entry(j);
                let equal = a.1.same_members(&b.1);
                proof {
                    assert(haystack[start + j] == other.core@[start + j].1@);
                    assert(needle[j as int] == self.core@[j as int].1@);
                }
                if !equal {
                    same = false;
                }
                j += 1;
            }
            proof {
                let w = haystack.subrange(start as int, start + n);
                if same {
                    assert forall|q: int| 0 <= q < n implies #[trigger] w[q] == needle[q] by {
                        assert(haystack[start + q] == needle[q]);
                    }
                    assert(w =~= needle);
                } else {
                    let q = choose|q: int| 0 <= q < j && haystack[start + q] != needle[q];
                    assert(w[q] == haystack[start + q]);
                }
            }
            if same {
                return true;
            }
            start += 1;
        }
        proof {
            assert forall|q: int| 0 <= q && q + n <= haystack.len() implies
                #[trigger] haystack.subrange(q, q + n) != needle by {}
        }
        false
    }

    /// Adds each value to the slot at its index.
    pub fn extend_pairs(&mut self, pairs: Vec<(i64, T)>)
        requires
            total_size(old(self)@) + pairs@.len() < usize::MAX,
        ensures
            ascending(final(self)@),
            forall|k: i64, x: T| #[trigger] slot_has(final(self)@, k, x) == (slot_has(old(self)@, k, x) || pairs@.contains((k, x))),
            forall|k: i64| #[trigger] slot_of(final(self)@, k) is Some == (slot_of(old(self)@, k) is Some || exists|x: T| pairs@.contains((k, x))),
    {
        self.check_invariants();
        let mut i: usize = 0;
        while i < pairs.len()
            invariant
                i <= pairs@.len(),
                ascending(self@),
                total_size(self@) <= total_size(old(self)@) + i,
                total_size(old(self)@) + pairs@.len() < usize::MAX,
                forall|k: i64, x: T| #[trigger] slot_has(self@, k, x) == (slot_has(old(self)@, k, x) || pairs@.take(i as int).contains((k, x))),
                forall|k: i64| #[trigger] slot_of(self@, k) is Some == (slot_of(old(self)@, k) is Some || exists|x: T| pairs@.take(i as int).contains((k, x))),
            decreases pairs@.len() - i,
        {
            let (k, v) = pairs[i];
            let ghost before = self@;
            self.insert_at(k, v);
            proof {
                let t = pairs@.take(i + 1);
                assert(t =~= pairs@.take(i as int).push((k, v)));
                assert forall|k2: i64, x: T| #[trigger] slot_has(self@, k2, x) == (slot_has(old(self)@, k2, x) || t.contains((k2, x))) by {
                    assert(t.contains((k2, x)) == (pairs@.take(i as int).contains((k2, x)) || (k2, x) == (k, v)));
                    assert(slot_has(before, k2, x) == (slot_has(old(self)@, k2, x) || pairs@.take(i as int).contains((k2, x))));
                }
                assert forall|k2: i64| #[trigger] slot_of(self@, k2) is Some == (slot_of(old(self)@, k2) is Some || exists|x: T| t.contains((k2, x))) by {
                    assert(slot_of(before, k2) is Some == (slot_of(old(self)@, k2) is Some || exists|x: T| pairs@.take(i as int).contains((k2, x))));
                    if k2 == k {
                        assert(t.contains((k, v)));
                    } else {
                        assert(slot_of(self@, k2) == slot_of(before, k2));
                        if exists|x: T| t.contains((k2, x)) {
                            let x = choose|x: T| t.contains((k2, x));
                            assert(pairs@.take(i as int).contains((k2, x)));
                        }
                        if exists|x: T| pairs@.take(i as int).contains((k2, x)) {
                            let x = choose|x: T| pairs@.take(i as int).contains((k2, x));
                            assert(t.contains((k2, x)));
                        }
                    }
                }
            }
            i += 1;
        }
        proof {
            assert(pairs@.take(i as int) =~= pairs@);
        }
    }

    /// A sequence holding each value in the slot at its index.
    pub fn from_pairs(pairs: Vec<(i64, T)>) -> (sequence: Self)
        requires
            pairs@.len() < usize::MAX,
        ensures
            ascending(sequence@),
            forall|k: i64, x: T| #[trigger] slot_has(sequence@, k, x) == pairs@.contains((k, x)),
            forall|k: i64| #[trigger] slot_of(sequence@, k) is Some == exists|x: T| pairs@.contains((k, x)),
    {
        let mut sequence = SparseSetSequence::new();
        proof {
            assert(total_size(sequence@) == 0);
        }
        sequence.extend_pairs(pairs);
        sequence
    }
}

impl<T: Key> Default for SparseSetSequence<T> {
    fn default() -> (sequence: Self)
        ensures
            sequence@ == Seq::<(i64, Set<T>)>::empty(),
    {
        SparseSetSequence::new()
    }
}

impl<T: Key> Collection for SparseSetSequence<T> {
    type Item = T;

    /// The values slot by slot.
    closed spec fn listed(&self) -> Seq<T> {
        flat_listing(self.core@)
    }

    /// Number of values across all slots.
    fn len(&self) -> (n: usize)
        ensures
            n == total_size(self@),
    {
        SparseSetSequence::len(self)
    }

    fn contains(&self, item: &T) -> (found: bool)
        ensures
            found == held(self@, *item),
    {
        let found = SparseSetSequence::contains(self, item);
        proof {
            lemma_flat_listing(self.core@, *item);
            if found {
                let i = choose|i: int| 0 <= i < self@.len() && (#[trigger] self@[i]).1.contains(*item);
                assert(self.core@[i].1@.contains(*item));
            }
            if flat_listing(self.core@).contains(*item) {
                let i = choose|i: int| 0 <= i < self.core@.len() && (#[trigger] self.core@[i]).1@.contains(*item);
                assert(self@[i].1.contains(*item));
            }
        }
        found
    }

    /// Every value, slot by slot.
    fn elements(&self) -> (items: Vec<T>)
        ensures
            forall|x: T| #[trigger] items@.contains(x) == held(self@, x),
    {
        let n = self.core.len();
        let mut out: Vec<T> = Vec::new();
        let mut i: usize = 0;
        while i < n
            invariant
                i <= n,
                n == self@.len(),
                n == self.core@.len(),
                out@ == flat_listing(self.core@.take(i as int)),
                forall|x: T| #[trigger] out@.contains(x) == exists|j: int| 0 <= j < i && (#[trigger] self@[j]).1.contains(x),
            decreases n - i,
        {
            let members = self.core.entry(i).1.iter();
            proof {
                assert(self@[i as int].1 == self.core@[i as int].1@);
            }
            let ghost prev = out@;
            let mut j: usize = 0;
            while j < members.len()
                invariant
                    j <= members@.len(),
                    out@ == prev + members@.take(j as int),
                    forall|x: T| #[trigger] out@.contains(x) == (prev.contains(x) || members@.take(j as int).contains(x)),
                decreases members@.len() - j,
            {
                let ghost mid = out@;
                out.push(members[j]);
                proof {
                    assert(members@.take(j + 1) =~= members@.take(j as int).push(members@[j as int]));
                    assert(out@ =~= mid.push(members@[j as int]));
                    assert(out@ =~= prev + members@.take(j + 1));
                    assert forall|x: T| #[trigger] out@.contains(x) == (prev.contains(x) || members@.take(j + 1).contains(x)) by {
                        assert(mid.contains(x) == (prev.contains(x) || members@.take(j as int).contains(x)));
                    }
                }
                j += 1;
            }
            proof {
                assert(members@.take(j as int) =~= members@);
                assert(self.core@.take(i + 1).drop_last() =~= self.core@.take(i as int));
                assert(out@ == flat_listing(self.core@.take(i + 1)));
                assert forall|x: T| #[trigger] out@.contains(x) == exists|q: int| 0 <= q < i + 1 && (#[trigger] self@[q]).1.contains(x) by {
                    if members@.contains(x) {
                        assert(self@[i as int].1.contains(x));
                    }
                    if exists|q: int| 0 <= q < i + 1 && (#[trigger] self@[q]).1.contains(x) {
                        let q = choose|q: int| 0 <= q < i + 1 && (#[trigger] self@[q]).1.contains(x);
                        if q == i {
                            assert(members@.to_set().contains(x));
                        }
                    }
                }
            }
            i += 1;
        }
        proof {
            assert(self.core@.take(n as int) =~= self.core@);
        }
        out
    }
}

/// `insert` pushes into a new slot, and reports `false` only when no index
/// at or above zero is free or the count would overflow.
impl<T: Key> CollectionInsert for SparseSetSequence<T> {
    fn insert(&mut self, item: T) -> (added: bool)
        ensures
            added ==> total_size(final(self)@) == total_size(old(self)@) + 1,
            !added ==> final(self)@ == old(self)@,
    {
        let count = self.len();
        if count < usize::MAX && self.core.has_free() {
            self.core.check_invariants();
            proof {
                lemma_views(self.core@);
                let j = choose|j: i64| j >= 0 && !occupies(self.core@, j);
                assert(!occupies(self@, j));
            }
            self.push(item);
            true
        } else {
            false
        }
    }
}

/// `remove` takes the first occurrence.
impl<T: Key> CollectionRemove for SparseSetSequence<T> {
    fn remove(&mut self, item: &T) -> (removed: bool)
        ensures
            removed == held(old(self)@, *item),
    {
        self.remove_first_of(item).is_some()
    }

    fn clear(&mut self) {
        SparseSetSequence::clear(self)
    }
}

impl<T: Key> Choose for SparseSetSequence<T> {

}

impl<T: Key> SparseIndexed for SparseSetSequence<T> {
    open spec fn has_free_index(&self) -> bool {
        exists|j: i64| j >= 0 && !occupies(self@, j)
    }

    fn slot_count(&self) -> (n: usize)
        ensures
            n == self@.len(),
    {
        self.core.len()
    }

    fn has_index(&self, index: i64) -> (found: bool)
        ensures
            found == occupies(self@, index),
    {
        self.core.check_invariants();
        proof {
            lemma_views(self.core@);
        }
        self.core.contains_index(index)
    }

    fn first_index(&self) -> (index: Option<i64>)
        ensures
            index == (if self@.len() == 0 { None } else { Some(self@[0].0) }),
    {
        self.core.min_index()
    }

    fn last_index(&self) -> (index: Option<i64>)
        ensures
            index == (if self@.len() == 0 { None } else { Some(self@.last().0) }),
    {
        self.core.max_index()
    }

    fn indices(&self) -> (indices: Vec<i64>)
        ensures
            indices@ == self@.map_values(|p: (i64, Set<T>)| p.0),
    {
        let indices = self.core.indices();
        proof {
            assert(indices@ =~= self@.map_values(|p: (i64, Set<T>)| p.0));
        }
        indices
    }

    fn indices_of(&self, item: &T) -> (indices: Vec<i64>)
        ensures
            indices@ == slots_holding(self@, *item).map_values(|p: (i64, Set<T>)| p.0),
    {
        let n = self.core.len();
        let mut out: Vec<i64> = Vec::new();
        let mut i: usize = 0;
        while i < n
            invariant
                i <= n,
                n == self@.len(),
                out@ == slots_holding(self@.subrange(0, i as int), *item).map_values(|p: (i64, Set<T>)| p.0),
            decreases n - i,
        {
            let entry = self.core.entry(i);
            let k = entry.0;
            let found = entry.1.contains(item);
            if found {
                out.push(k);
            }
            proof {
                let t = self@.subrange(0, i + 1);
                assert(t.drop_last() =~= self@.subrange(0, i as int));
                assert(t.last() == (k, self.core@[i as int].1@));
                reveal(Seq::filter);
                assert(slots_holding(t, *item) == (if t.last().1.contains(*item) {
                    slots_holding(t.drop_last(), *item).push(t.last())
                } else {
                    slots_holding(t.drop_last(), *item)
                }));
                assert(out@ =~= slots_holding(t, *item).map_values(|p: (i64, Set<T>)| p.0));
            }
            i += 1;
        }
        proof {
            assert(self@.subrange(0, n as int) =~= self@);
        }
        out
    }

    fn next_free_index(&self) -> (index: i64)
        ensures
            index >= 0,
            !occupies(self@, index),
            forall|j: i64| 0 <= j < index ==> occupies(self@, j),
    {
        self.core.check_invariants();
        proof {
            lemma_views(self.core@);
            let j = choose|j: i64| j >= 0 && !occupies(self@, j);
            assert(!occupies(self.core@, j));
        }
        let index = self.core.first_free();
        proof {
            assert forall|j: i64| 0 <= j < index implies occupies(self@, j) by {
                assert(occupies(self.core@, j));
            }
        }
        index
    }
}

} // verus!
