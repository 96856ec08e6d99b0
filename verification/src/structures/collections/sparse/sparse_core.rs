//! Storage shared by the sparse sequences: slots at arbitrary integer
//! indices, kept in ascending index order, with a run-length record of the
//! occupied indices so the first free index is found quickly.
use vstd::prelude::*;
use super::index_runs::IndexRuns;

verus! {

/// Indices strictly increase along the listing.
pub open spec fn ascending<S>(s: Seq<(i64, S)>) -> bool {
    forall|i: int, j: int| 0 <= i < j < s.len() ==> (#[trigger] s[i]).0 < (#[trigger] s[j]).0
}

/// Whether some entry of the listing sits at index `k`.
pub open spec fn occupies<S>(s: Seq<(i64, S)>, k: i64) -> bool {
    exists|i: int| 0 <= i < s.len() && (#[trigger] s[i]).0 == k
}

/// The occupied indices of a listing.
pub open spec fn index_set<S>(s: Seq<(i64, S)>) -> Set<i64> {
    Set::new(|k: i64| occupies(s, k))
}

/// What the listing holds at index `k`.
pub open spec fn slot_of<S>(s: Seq<(i64, S)>, k: i64) -> Option<S> {
    if occupies(s, k) {
        Some(s[choose|i: int| 0 <= i < s.len() && (#[trigger] s[i]).0 == k].1)
    } else {
        None
    }
}

/// An entry moved one index up when it sits at or after `place`.
pub open spec fn shifted<S>(p: (i64, S), place: i64) -> (i64, S) {
    if p.0 >= place {
        ((p.0 + 1) as i64, p.1)
    } else {
        p
    }
}

/// The entry at position `i` is what the listing holds at its index.
pub proof fn lemma_slot_at<S>(s: Seq<(i64, S)>, i: int)
    requires
        ascending(s),
        0 <= i < s.len(),
    ensures
        occupies(s, s[i].0),
        slot_of(s, s[i].0) == Some(s[i].1),
{
    assert(occupies(s, s[i].0));
    let j = choose|j: int| 0 <= j < s.len() && (#[trigger] s[j]).0 == s[i].0;
    if j < i {
        assert(s[j].0 < s[i].0);
    } else if j > i {
        assert(s[i].0 < s[j].0);
    }
}

proof fn lemma_prefix_equal<S>(a: Seq<(i64, S)>, b: Seq<(i64, S)>, n: int)
    requires
        ascending(a),
        ascending(b),
        forall|k: i64| slot_of(a, k) == slot_of(b, k),
        0 <= n <= a.len(),
        n <= b.len(),
    ensures
        forall|i: int| 0 <= i < n ==> a[i] == b[i],
    decreases n,
{
    if n > 0 {
        lemma_prefix_equal(a, b, n - 1);
        let i = n - 1;
        lemma_slot_at(a, i);
        lemma_slot_at(b, i);
        assert(occupies(b, a[i].0));
        let j = choose|j: int| 0 <= j < b.len() && (#[trigger] b[j]).0 == a[i].0;
        if j < i {
            assert(a[j] == b[j]);
            assert(a[j].0 < a[i].0);
        }
        if j > i {
            assert(b[i].0 < b[j].0);
        }
        assert(occupies(a, b[i].0));
        let l = choose|l: int| 0 <= l < a.len() && (#[trigger] a[l]).0 == b[i].0;
        if l < i {
            assert(a[l] == b[l]);
            assert(b[l].0 < b[i].0);
        }
        if l > i {
            assert(a[i].0 < a[l].0);
        }
        assert(a[i].0 == b[i].0);
    }
}

/// An ascending listing is determined by what it holds at each index.
pub proof fn lemma_listing_unique<S>(a: Seq<(i64, S)>, b: Seq<(i64, S)>)
    requires
        ascending(a),
        ascending(b),
        forall|k: i64| slot_of(a, k) == slot_of(b, k),
    ensures
        a == b,
{
    if a.len() <= b.len() {
        lemma_prefix_equal(a, b, a.len() as int);
        if a.len() < b.len() {
            let i = a.len() as int;
            lemma_slot_at(b, i);
            let j = choose|j: int| 0 <= j < a.len() && (#[trigger] a[j]).0 == b[i].0;
            assert(a[j] == b[j]);
            assert(b[j].0 < b[i].0);
        }
    } else {
        lemma_prefix_equal(a, b, b.len() as int);
        let i = b.len() as int;
        lemma_slot_at(a, i);
        let j = choose|j: int| 0 <= j < b.len() && (#[trigger] b[j]).0 == a[i].0;
        assert(a[j] == b[j]);
        assert(a[j].0 < a[i].0);
    }
    assert(a =~= b);
}

/// Removing the entry at position `p` frees its index and keeps the rest.
pub proof fn lemma_remove_at<S>(s: Seq<(i64, S)>, p: int)
    requires
        ascending(s),
        0 <= p < s.len(),
    ensures
        ascending(s.remove(p)),
        forall|k: i64| #[trigger] slot_of(s.remove(p), k) == (if k == s[p].0 { None } else { slot_of(s, k) }),
{
    let t = s.remove(p);
    assert forall|i: int| 0 <= i < t.len() implies #[trigger] t[i] == (if i < p { s[i] } else { s[i + 1] }) by {}
    assert forall|i: int, j: int| 0 <= i < j < t.len() implies (#[trigger] t[i]).0 < (#[trigger] t[j]).0 by {
        let si = if i < p { i } else { i + 1 };
        let sj = if j < p { j } else { j + 1 };
        assert(t[i] == s[si]);
        assert(t[j] == s[sj]);
    }
    assert forall|k: i64| #[trigger] slot_of(t, k) == (if k == s[p].0 { None } else { slot_of(s, k) }) by {
        if occupies(t, k) {
            let i = choose|i: int| 0 <= i < t.len() && (#[trigger] t[i]).0 == k;
            let si = if i < p { i } else { i + 1 };
            assert(t[i] == s[si]);
            lemma_slot_at(t, i);
            lemma_slot_at(s, si);
            if si < p {
                assert(s[si].0 < s[p].0);
            } else {
                assert(s[p].0 < s[si].0);
            }
        } else if occupies(s, k) && k != s[p].0 {
            let i = choose|i: int| 0 <= i < s.len() && (#[trigger] s[i]).0 == k;
            let ti = if i < p { i } else { i - 1 };
            assert(t[ti] == s[i]);
        }
    }
}

proof fn lemma_free_after<S>(s: Seq<(i64, S)>, p: int, j: int)
    requires
        ascending(s),
        s.len() <= i64::MAX,
        0 <= p <= j < s.len(),
        s[j].0 == j - p,
        forall|i: int| 0 <= i < p ==> (#[trigger] s[i]).0 < 0,
    ensures
        exists|f: i64| f >= 0 && !occupies(s, f),
    decreases s.len() - j,
{
    let f = (j - p + 1) as i64;
    if j + 1 < s.len() && s[j + 1].0 == f {
        lemma_free_after(s, p, j + 1);
    } else {
        assert(!occupies(s, f)) by {
            if occupies(s, f) {
                let i = choose|i: int| 0 <= i < s.len() && (#[trigger] s[i]).0 == f;
                if i < p {
                } else if i <= j {
                    if i < j {
                        assert(s[i].0 < s[j].0);
                    }
                } else {
                    if i > j + 1 {
                        assert(s[j + 1].0 < s[i].0);
                    }
                    assert(s[j].0 < s[j + 1].0);
                }
            }
        }
    }
}

/// A listing shorter than `i64::MAX` leaves some index at or above zero free.
pub proof fn lemma_free_exists<S>(s: Seq<(i64, S)>)
    requires
        ascending(s),
        s.len() <= i64::MAX,
    ensures
        exists|f: i64| f >= 0 && !occupies(s, f),
{
    if occupies(s, 0i64) {
        let p = choose|p: int| 0 <= p < s.len() && (#[trigger] s[p]).0 == 0i64;
        assert forall|i: int| 0 <= i < p implies (#[trigger] s[i]).0 < 0 by {
            assert(s[i].0 < s[p].0);
        }
        lemma_free_after(s, p, p);
    }
}

/// Slots at ascending integer indices, with the occupied indices also kept
/// as runs.
pub struct SparseCore<S> {
    slots: Vec<(i64, S)>,
    runs: IndexRuns,
}

impl<S> SparseCore<S> {
    #[verifier::type_invariant]
    spec fn inv(self) -> bool {
        &&& ascending(self.slots@)
        &&& self.runs@ == index_set(self.slots@)
    }
}

impl<S> View for SparseCore<S> {
    type V = Seq<(i64, S)>;

    /// The entries in ascending index order.
    closed spec fn view(&self) -> Seq<(i64, S)> {
        self.slots@
    }
}

/// The run record of a listing, built one index at a time.
fn runs_of<S>(slots: &Vec<(i64, S)>) -> (runs: IndexRuns)
    ensures
        runs@ == index_set(slots@),
{
    let mut runs = IndexRuns::new();
    let mut i: usize = 0;
    while i < slots.len()
        invariant
            i <= slots@.len(),
            runs@ == Set::new(|k: i64| exists|j: int| 0 <= j < i && (#[trigger] slots@[j]).0 == k),
        decreases slots@.len() - i,
    {
        let ghost before = runs@;
        runs.insert(slots[i].0);
        proof {
            assert(runs@ =~= Set::new(|k: i64| exists|j: int| 0 <= j < i + 1 && (#[trigger] slots@[j]).0 == k)) by {
                assert forall|k: i64| #[trigger] runs@.contains(k) implies exists|j: int| 0 <= j < i + 1 && (#[trigger] slots@[j]).0 == k by {
                    if k == slots@[i as int].0 {
                        assert(slots@[i as int].0 == k);
                    } else {
                        assert(before.contains(k));
                    }
                }
                assert forall|k: i64| (exists|j: int| 0 <= j < i + 1 && (#[trigger] slots@[j]).0 == k) implies #[trigger] runs@.contains(k) by {
                    let j = choose|j: int| 0 <= j < i + 1 && (#[trigger] slots@[j]).0 == k;
                    if j < i {
                        assert(before.contains(k));
                    }
                }
            }
        }
        i += 1;
    }
    proof {
        assert(runs@ =~= index_set(slots@));
    }
    runs
}

impl<S> SparseCore<S> {
    /// No slots.
    pub fn new() -> (core: Self)
        ensures
            core@ == Seq::<(i64, S)>::empty(),
    {
        let slots: Vec<(i64, S)> = Vec::new();
        proof {
            assert(index_set(slots@) =~= Set::<i64>::empty());
        }
        SparseCore { slots, runs: IndexRuns::new() }
    }

    /// The listing is always in ascending index order.
    pub fn check_invariants(&self)
        ensures
            ascending(self@),
    {
        proof {
            use_type_invariant(self);
        }
    }

    /// Number of occupied indices.
    pub fn len(&self) -> (n: usize)
        ensures
            n == self@.len(),
    {
        self.slots.len()
    }

    /// The first position whose index is not below `index`, and whether it
    /// holds `index` itself.
    fn find(&self, index: i64) -> (found: (usize, bool))
        ensures
            found.0 <= self@.len(),
            forall|i: int| 0 <= i < found.0 ==> (#[trigger] self@[i]).0 < index,
            found.0 < self@.len() ==> self@[found.0 as int].0 >= index,
            found.1 == (found.0 < self@.len() && self@[found.0 as int].0 == index),
            found.1 == occupies(self@, index),
    {
        proof {
            use_type_invariant(self);
        }
        let mut pos: usize = 0;
        while pos < self.slots.len() && self.slots[pos].0 < index
            invariant
                pos <= self.slots@.len(),
                forall|i: int| 0 <= i < pos ==> (#[trigger] self.slots@[i]).0 < index,
            decreases self.slots@.len() - pos,
        {
            pos += 1;
        }
        let found = pos < self.slots.len() && self.slots[pos].0 == index;
        proof {
            if occupies(self.slots@, index) {
                let k = choose|k: int| 0 <= k < self.slots@.len() && (#[trigger] self.slots@[k]).0 == index;
                if k > pos {
                    assert(self.slots@[pos as int].0 < self.slots@[k].0);
                }
            }
        }
        (pos, found)
    }

    /// The entry at position `i` in index order.
    pub fn entry(&self, i: usize) -> (entry: &(i64, S))
        requires
            i < self@.len(),
        ensures
            *entry == self@[i as int],
    {
        &self.slots[i]
    }

    /// Whether `index` is occupied.
    pub fn contains_index(&self, index: i64) -> (found: bool)
        ensures
            found == occupies(self@, index),
    {
        self.find(index).1
    }

    /// The slot at `index`.
    pub fn get(&self, index: i64) -> (slot: Option<&S>)
        ensures
            match slot {
                Some(s) => slot_of(self@, index) == Some(*s),
                None => slot_of(self@, index) is None,
            },
    {
        proof {
            use_type_invariant(self);
        }
        let (pos, found) = self.find(index);
        if found {
            proof {
                lemma_slot_at(self@, pos as int);
            }
            Some(&self.slots[pos].1)
        } else {
            None
        }
    }

    /// The slot at the lowest index.
    pub fn first(&self) -> (slot: Option<&S>)
        ensures
            match slot {
                Some(s) => self@.len() > 0 && *s == self@[0].1,
                None => self@.len() == 0,
            },
    {
        if self.slots.len() == 0 {
            None
        } else {
            Some(&self.slots[0].1)
        }
    }

    /// The slot at the highest index.
    pub fn last(&self) -> (slot: Option<&S>)
        ensures
            match slot {
                Some(s) => self@.len() > 0 && *s == self@.last().1,
                None => self@.len() == 0,
            },
    {
        let n = self.slots.len();
        if n == 0 {
            None
        } else {
            Some(&self.slots[n - 1].1)
        }
    }

    /// The lowest occupied index.
    pub fn min_index(&self) -> (index: Option<i64>)
        ensures
            index == (if self@.len() == 0 { None } else { Some(self@[0].0) }),
    {
        if self.slots.len() == 0 {
            None
        } else {
            Some(self.slots[0].0)
        }
    }

    /// The highest occupied index.
    pub fn max_index(&self) -> (index: Option<i64>)
        ensures
            index == (if self@.len() == 0 { None } else { Some(self@.last().0) }),
    {
        let n = self.slots.len();
        if n == 0 {
            None
        } else {
            Some(self.slots[n - 1].0)
        }
    }

    /// The occupied indices, ascending.
    pub fn indices(&self) -> (indices: Vec<i64>)
        ensures
            indices@ == self@.map_values(|p: (i64, S)| p.0),
    {
        let mut indices: Vec<i64> = Vec::new();
        let mut i: usize = 0;
        while i < self.slots.len()
            invariant
                i <= self.slots@.len(),
                indices@ == self.slots@.take(i as int).map_values(|p: (i64, S)| p.0),
            decreases self.slots@.len() - i,
        {
            indices.push(self.slots[i].0);
            i += 1;
            proof {
                assert(indices@ =~= self.slots@.take(i as int).map_values(|p: (i64, S)| p.0));
            }
        }
        proof {
            assert(self.slots@.take(i as int) =~= self.slots@);
        }
        indices
    }

    /// Whether some index that is zero or above is unoccupied.
    pub fn has_free(&self) -> (free: bool)
        ensures
            free == exists|j: i64| j >= 0 && !occupies(self@, j),
    {
        proof {
            use_type_invariant(self);
        }
        let free = self.runs.has_free();
        proof {
            if free {
                let j = choose|j: i64| j >= 0 && !self.runs@.contains(j);
                assert(!occupies(self@, j));
            } else {
                assert forall|j: i64| j >= 0 implies occupies(self@, j) by {
                    assert(self.runs@.contains(j));
                }
            }
        }
        free
    }

    /// A core holding exactly `slots`.
    pub fn from_listing(slots: Vec<(i64, S)>) -> (core: Self)
        requires
            ascending(slots@),
        ensures
            core@ == slots@,
    {
        let runs = runs_of(&slots);
        SparseCore { slots, runs }
    }

    /// The smallest unoccupied index that is zero or above.
    pub fn first_free(&self) -> (free: i64)
        requires
            exists|j: i64| j >= 0 && !occupies(self@, j),
        ensures
            free >= 0,
            !occupies(self@, free),
            forall|j: i64| 0 <= j < free ==> occupies(self@, j),
    {
        proof {
            use_type_invariant(self);
            let j = choose|j: i64| j >= 0 && !occupies(self@, j);
            assert(!self.runs@.contains(j));
        }
        let free = self.runs.first_free();
        proof {
            assert forall|j: i64| 0 <= j < free implies occupies(self@, j) by {
                assert(self.runs@.contains(j));
            }
        }
        free
    }

    /// Stores `slot` at `index`, returning the slot it replaced.
    pub fn put(&mut self, index: i64, slot: S) -> (previous: Option<S>)
        ensures
            previous == slot_of(old(self)@, index),
            ascending(final(self)@),
            forall|k: i64| #[trigger] slot_of(final(self)@, k) == (if k == index { Some(slot) } else { slot_of(old(self)@, k) }),
            occupies(old(self)@, index) ==> exists|p: int| 0 <= p < old(self)@.len() && old(self)@[p].0 == index
                && final(self)@ == old(self)@.update(p, (index, slot)),
            !occupies(old(self)@, index) ==> exists|p: int| 0 <= p <= old(self)@.len()
                && final(self)@ == old(self)@.insert(p, (index, slot)),
            final(self)@.len() == old(self)@.len() + (if occupies(old(self)@, index) { 0int } else { 1int }),
    {
        proof {
            use_type_invariant(&*self);
        }
        let (pos, found) = self.find(index);
        let ghost s = self@;
        let mut core = SparseCore::new();
        std::mem::swap(&mut core, self);
        proof {
            use_type_invariant(&core);
        }
        let SparseCore { mut slots, mut runs } = core;
        let previous = if found {
            let (_, p) = slots.remove(pos);
            proof {
                lemma_slot_at(s, pos as int);
            }
            Some(p)
        } else {
            None
        };
        slots.insert(pos, (index, slot));
        runs.insert(index);
        proof {
            let t = slots@;
            if found {
                assert(t =~= s.update(pos as int, (index, slot)));
            } else {
                assert(t =~= s.insert(pos as int, (index, slot)));
            }
            let d: int = if found { 0 } else { 1 };
            assert forall|i: int| 0 <= i < t.len() implies #[trigger] t[i] == (
                if i < pos { s[i] } else if i == pos { (index, slot) } else { s[i - d] }
            ) by {}
            assert(ascending(t)) by {
                assert forall|i: int, j: int| 0 <= i < j < t.len() implies (#[trigger] t[i]).0 < (#[trigger] t[j]).0 by {
                    assert(t[i] == (if i < pos { s[i] } else if i == pos { (index, slot) } else { s[i - d] }));
                    assert(t[j] == (if j < pos { s[j] } else if j == pos { (index, slot) } else { s[j - d] }));
                    if j > pos && i != pos {
                        let ii = if i < pos { i } else { i - d };
                        assert(s[ii].0 < s[j - d].0);
                    }
                    if j > pos && i == pos && !found {
                        assert(s[pos as int].0 <= s[j - 1].0);
                    }
                }
            }
            assert forall|k: i64| #[trigger] slot_of(t, k) == (if k == index { Some(slot) } else { slot_of(s, k) }) by {
                if k == index {
                    lemma_slot_at(t, pos as int);
                } else if occupies(s, k) {
                    let i = choose|i: int| 0 <= i < s.len() && (#[trigger] s[i]).0 == k;
                    lemma_slot_at(s, i);
                    let ti = if i < pos { i } else { i + d };
                    assert(t[ti] == s[i]);
                    lemma_slot_at(t, ti);
                } else {
                    if occupies(t, k) {
                        let i = choose|i: int| 0 <= i < t.len() && (#[trigger] t[i]).0 == k;
                        let si = if i < pos { i } else { i - d };
                        assert(s[si].0 == k);
                    }
                }
            }
            assert(runs@ =~= index_set(t)) by {
                assert forall|k: i64| runs@.contains(k) == occupies(t, k) by {
                    if k == index {
                        assert(t[pos as int].0 == k);
                    } else if occupies(s, k) {
                        let i = choose|i: int| 0 <= i < s.len() && (#[trigger] s[i]).0 == k;
                        let ti = if i < pos { i } else { i + d };
                        assert(t[ti] == s[i]);
                    } else if occupies(t, k) {
                        let i = choose|i: int| 0 <= i < t.len() && (#[trigger] t[i]).0 == k;
                        let si = if i < pos { i } else { i - d };
                        assert(s[si].0 == k);
                    }
                }
            }
        }
        *self = SparseCore { slots, runs };
        previous
    }

    /// Removes and returns the slot at `index`.
    pub fn take(&mut self, index: i64) -> (taken: Option<S>)
        ensures
            taken == slot_of(old(self)@, index),
            ascending(final(self)@),
            forall|k: i64| #[trigger] slot_of(final(self)@, k) == (if k == index { None } else { slot_of(old(self)@, k) }),
            match taken {
                Some(v) => exists|p: int| 0 <= p < old(self)@.len() && old(self)@[p] == (index, v)
                    && final(self)@ == old(self)@.remove(p),
                None => final(self)@ == old(self)@,
            },
    {
        proof {
            use_type_invariant(&*self);
        }
        let (pos, found) = self.find(index);
        let ghost s = self@;
        if !found {
            proof {
                assert forall|k: i64| #[trigger] slot_of(s, k) == (if k == index { None } else { slot_of(s, k) }) by {}
            }
            return None;
        }
        let mut core = SparseCore::new();
        std::mem::swap(&mut core, self);
        proof {
            use_type_invariant(&core);
            lemma_slot_at(s, pos as int);
            lemma_remove_at(s, pos as int);
        }
        let SparseCore { mut slots, mut runs } = core;
        let (_, taken) = slots.remove(pos);
        runs.remove(index);
        proof {
            let t = slots@;
            assert(t =~= s.remove(pos as int));
            assert(runs@ =~= index_set(t)) by {
                assert forall|k: i64| runs@.contains(k) == occupies(t, k) by {
                    assert(slot_of(t, k) == (if k == index { None } else { slot_of(s, k) }));
                }
            }
        }
        *self = SparseCore { slots, runs };
        Some(taken)
    }

    /// Moves every slot at or after `place` one index up.
    pub fn shift_from(&mut self, place: i64)
        requires
            old(self)@.len() == 0 || old(self)@.last().0 < i64::MAX,
        ensures
            final(self)@ == old(self)@.map_values(|p: (i64, S)| shifted(p, place)),
            ascending(final(self)@),
    {
        proof {
            use_type_invariant(&*self);
        }
        let ghost s = self@;
        let mut core = SparseCore::new();
        std::mem::swap(&mut core, self);
        let SparseCore { mut slots, runs: _ } = core;
        let n = slots.len();
        let mut out: Vec<(i64, S)> = Vec::new();
        while slots.len() > 0
            invariant
                slots@.len() + out@.len() == n,
                n == s.len(),
                ascending(s),
                s.len() == 0 || s.last().0 < i64::MAX,
                slots@ == s.skip(out@.len() as int),
                out@ == s.take(out@.len() as int).map_values(|p: (i64, S)| shifted(p, place)),
            decreases slots@.len(),
        {
            let ghost i = out@.len() as int;
            let (k, v) = slots.remove(0);
            proof {
                assert(s[i] == (k, v));
                if i < n - 1 {
                    assert(s[i].0 < s[n - 1].0);
                }
            }
            if k >= place {
                out.push((k + 1, v));
            } else {
                out.push((k, v));
            }
            proof {
                assert(slots@ =~= s.skip(i + 1));
                assert(out@ =~= s.take(i + 1).map_values(|p: (i64, S)| shifted(p, place)));
            }
        }
        proof {
            assert(s.take(n as int) =~= s);
            let t = out@;
            assert forall|i: int, j: int| 0 <= i < j < t.len() implies (#[trigger] t[i]).0 < (#[trigger] t[j]).0 by {
                assert(s[i].0 < s[j].0);
            }
        }
        let runs = runs_of(&out);
        *self = SparseCore { slots: out, runs };
    }

    /// Renumbers the slots to `0..len`, keeping their order.
    pub fn compact(&mut self)
        requires
            old(self)@.len() <= i64::MAX,
        ensures
            final(self)@ == old(self)@.map(|i: int, p: (i64, S)| (i as i64, p.1)),
            ascending(final(self)@),
    {
        let ghost s = self@;
        let mut core = SparseCore::new();
        std::mem::swap(&mut core, self);
        let SparseCore { mut slots, runs: _ } = core;
        let n = slots.len();
        let mut out: Vec<(i64, S)> = Vec::new();
        let mut next: i64 = 0;
        while slots.len() > 0
            invariant
                slots@.len() + out@.len() == n,
                n == s.len(),
                n <= i64::MAX,
                next == out@.len(),
                slots@ == s.skip(out@.len() as int),
                out@ == s.take(out@.len() as int).map(|i: int, p: (i64, S)| (i as i64, p.1)),
            decreases slots@.len(),
        {
            let ghost i = out@.len() as int;
            let (_, v) = slots.remove(0);
            out.push((next, v));
            next = next + 1;
            proof {
                assert(slots@ =~= s.skip(i + 1));
                assert(out@ =~= s.take(i + 1).map(|i: int, p: (i64, S)| (i as i64, p.1)));
            }
        }
        proof {
            assert(s.take(n as int) =~= s);
        }
        let runs = runs_of(&out);
        *self = SparseCore { slots: out, runs };
    }

    /// Reverses which slot sits at which index; the occupied indices stay.
    pub fn reverse_slots(&mut self)
        ensures
            final(self)@.len() == old(self)@.len(),
            forall|i: int| 0 <= i < old(self)@.len() ==> #[trigger] final(self)@[i] == (old(self)@[i].0, old(self)@[old(self)@.len() - 1 - i].1),
            ascending(final(self)@),
    {
        proof {
            use_type_invariant(&*self);
        }
        let ghost s = self@;
        let mut core = SparseCore::new();
        std::mem::swap(&mut core, self);
        let SparseCore { mut slots, runs } = core;
        let indices = {
            let mut indices: Vec<i64> = Vec::new();
            let mut i: usize = 0;
            while i < slots.len()
                invariant
                    i <= slots@.len(),
                    slots@ == s,
                    indices@.len() == i,
                    forall|j: int| 0 <= j < i ==> #[trigger] indices@[j] == s[j].0,
                decreases slots@.len() - i,
            {
                indices.push(slots[i].0);
                i += 1;
            }
            indices
        };
        let n = slots.len();
        let mut out: Vec<(i64, S)> = Vec::new();
        while slots.len() > 0
            invariant
                slots@.len() + out@.len() == n,
                n == s.len(),
                indices@.len() == n,
                forall|j: int| 0 <= j < n ==> #[trigger] indices@[j] == s[j].0,
                slots@ == s.take(n - out@.len()),
                forall|j: int| 0 <= j < out@.len() ==> #[trigger] out@[j] == (s[j].0, s[n - 1 - j].1),
            decreases slots@.len(),
        {
            let ghost j = out@.len() as int;
            let (_, v) = slots.pop().unwrap();
            out.push((indices[out.len()], v));
            proof {
                assert(slots@ =~= s.take(n - (j + 1)));
            }
        }
        proof {
            assert(out@.map_values(|p: (i64, S)| p.0) =~= s.map_values(|p: (i64, S)| p.0));
            assert(index_set(out@) =~= index_set(s)) by {
                assert forall|k: i64| occupies(out@, k) == occupies(s, k) by {
                    if occupies(s, k) {
                        let i = choose|i: int| 0 <= i < s.len() && (#[trigger] s[i]).0 == k;
                        assert(out@[i].0 == k);
                    }
                    if occupies(out@, k) {
                        let i = choose|i: int| 0 <= i < out@.len() && (#[trigger] out@[i]).0 == k;
                        assert(s[i].0 == k);
                    }
                }
            }
            assert forall|i: int, j: int| 0 <= i < j < out@.len() implies (#[trigger] out@[i]).0 < (#[trigger] out@[j]).0 by {
                assert(s[i].0 < s[j].0);
            }
        }
        *self = SparseCore { slots: out, runs };
    }

    /// Removes every slot.
    pub fn clear(&mut self)
        ensures
            final(self)@ == Seq::<(i64, S)>::empty(),
    {
        *self = SparseCore::new();
    }
}

impl<S: Copy> SparseCore<S> {
    /// The entries in ascending index order.
    pub fn pairs(&self) -> (pairs: Vec<(i64, S)>)
        ensures
            pairs@ == self@,
    {
        let mut pairs: Vec<(i64, S)> = Vec::new();
        let mut i: usize = 0;
        while i < self.slots.len()
            invariant
                i <= self.slots@.len(),
                pairs@ == self.slots@.take(i as int),
            decreases self.slots@.len() - i,
        {
            pairs.push(self.slots[i]);
            i += 1;
            proof {
                assert(pairs@ =~= self.slots@.take(i as int));
            }
        }
        proof {
            assert(self.slots@.take(i as int) =~= self.slots@);
        }
        pairs
    }

    /// The slots in ascending index order.
    pub fn values(&self) -> (values: Vec<S>)
        ensures
            values@ == self@.map_values(|p: (i64, S)| p.1),
    {
        let mut values: Vec<S> = Vec::new();
        let mut i: usize = 0;
        while i < self.slots.len()
            invariant
                i <= self.slots@.len(),
                values@ == self.slots@.take(i as int).map_values(|p: (i64, S)| p.1),
            decreases self.slots@.len() - i,
        {
            values.push(self.slots[i].1);
            i += 1;
            proof {
                assert(values@ =~= self.slots@.take(i as int).map_values(|p: (i64, S)| p.1));
            }
        }
        proof {
            assert(self.slots@.take(i as int) =~= self.slots@);
        }
        values
    }

    /// Puts `values` into the occupied indices, in order.
    pub fn set_values(&mut self, values: Vec<S>)
        requires
            values@.len() == old(self)@.len(),
        ensures
            final(self)@.len() == old(self)@.len(),
            forall|i: int| 0 <= i < old(self)@.len() ==> #[trigger] final(self)@[i] == (old(self)@[i].0, values@[i]),
            ascending(final(self)@),
    {
        proof {
            use_type_invariant(&*self);
        }
        let ghost s = self@;
        let mut core = SparseCore::new();
        std::mem::swap(&mut core, self);
        let SparseCore { slots, runs } = core;
        let mut out: Vec<(i64, S)> = Vec::new();
        let mut i: usize = 0;
        while i < slots.len()
            invariant
                i <= slots@.len(),
                slots@ == s,
                values@.len() == s.len(),
                out@.len() == i,
                forall|j: int| 0 <= j < i ==> #[trigger] out@[j] == (s[j].0, values@[j]),
            decreases slots@.len() - i,
        {
            out.push((slots[i].0, values[i]));
            i += 1;
        }
        proof {
            let t = out@;
            assert forall|i: int, j: int| 0 <= i < j < t.len() implies (#[trigger] t[i]).0 < (#[trigger] t[j]).0 by {
                assert(s[i].0 < s[j].0);
            }
            assert(index_set(t) =~= index_set(s)) by {
                assert forall|k: i64| occupies(t, k) == occupies(s, k) by {
                    if occupies(s, k) {
                        let i = choose|i: int| 0 <= i < s.len() && (#[trigger] s[i]).0 == k;
                        assert(t[i].0 == k);
                    }
                    if occupies(t, k) {
                        let i = choose|i: int| 0 <= i < t.len() && (#[trigger] t[i]).0 == k;
                        assert(s[i].0 == k);
                    }
                }
            }
        }
        *self = SparseCore { slots: out, runs };
    }
}

} // verus!
