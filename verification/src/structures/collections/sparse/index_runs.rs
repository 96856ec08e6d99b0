//! Occupied indices recorded as maximal runs, so the first free index is
//! found without walking every occupied one.
use vstd::prelude::*;

verus! {

/// Runs are non-empty, in order, and separated by at least one free index.
pub open spec fn runs_wf(r: Seq<(i64, i64)>) -> bool {
    &&& forall|i: int| 0 <= i < r.len() ==> (#[trigger] r[i]).0 <= r[i].1
    &&& forall|i: int, j: int| 0 <= i < j < r.len() ==> (#[trigger] r[i]).1 + 1 < (#[trigger] r[j]).0
}

/// Whether some run covers `x`.
pub open spec fn in_runs(r: Seq<(i64, i64)>, x: i64) -> bool {
    exists|i: int| 0 <= i < r.len() && (#[trigger] r[i]).0 <= x <= r[i].1
}

/// Occupied indices as maximal runs `start..=end`.
pub struct IndexRuns {
    runs: Vec<(i64, i64)>,
}

impl IndexRuns {
    #[verifier::type_invariant]
    spec fn inv(self) -> bool {
        runs_wf(self.runs@)
    }
}

impl View for IndexRuns {
    type V = Set<i64>;

    closed spec fn view(&self) -> Set<i64> {
        Set::new(|x: i64| in_runs(self.runs@, x))
    }
}

impl IndexRuns {
    /// No index occupied.
    pub fn new() -> (runs: Self)
        ensures
            runs@ == Set::<i64>::empty(),
    {
        let runs = IndexRuns { runs: Vec::new() };
        proof {
            assert(runs@ =~= Set::<i64>::empty());
        }
        runs
    }

    /// Where `index` falls: the first run that does not end before it, and
    /// whether that run covers it.
    fn find(&self, index: i64) -> (found: (usize, bool))
        ensures
            found.0 <= self.runs@.len(),
            forall|i: int| 0 <= i < found.0 ==> (#[trigger] self.runs@[i]).1 < index,
            found.0 < self.runs@.len() ==> self.runs@[found.0 as int].1 >= index,
            found.1 == (found.0 < self.runs@.len() && self.runs@[found.0 as int].0 <= index),
            found.1 == self@.contains(index),
    {
        proof {
            use_type_invariant(self);
        }
        let mut pos: usize = 0;
        while pos < self.runs.len() && self.runs[pos].1 < index
            invariant
                pos <= self.runs@.len(),
                forall|i: int| 0 <= i < pos ==> (#[trigger] self.runs@[i]).1 < index,
            decreases self.runs@.len() - pos,
        {
            pos += 1;
        }
        let found = pos < self.runs.len() && self.runs[pos].0 <= index;
        proof {
            if in_runs(self.runs@, index) {
                let k = choose|k: int| 0 <= k < self.runs@.len() && (#[trigger] self.runs@[k]).0 <= index <= self.runs@[k].1;
                if k > pos {
                    assert(self.runs@[pos as int].1 + 1 < self.runs@[k].0);
                }
            }
        }
        (pos, found)
    }

    /// Marks `index` occupied.
    pub fn insert(&mut self, index: i64)
        ensures
            final(self)@ == old(self)@.insert(index),
    {
        proof {
            use_type_invariant(&*self);
        }
        let (pos, found) = self.find(index);
        if found {
            proof {
                assert(self@.insert(index) =~= self@);
            }
            return;
        }
        let ghost r = self.runs@;
        let ghost before = self@;
        let n = self.runs.len();
        // Every run from `pos` on starts after `index`.
        proof {
            assert forall|i: int| pos <= i < n implies (#[trigger] r[i]).0 > index by {
                if i > pos {
                    assert(r[pos as int].1 + 1 < r[i].0);
                }
            }
        }
        let merge_prev = pos > 0 && self.runs[pos - 1].1 + 1 == index;
        let merge_next = pos < n && self.runs[pos].0 - 1 == index;
        let mut runs = Vec::new();
        std::mem::swap(&mut runs, &mut self.runs);
        if merge_prev && merge_next {
            let start = runs[pos - 1].0;
            let end = runs[pos].1;
            runs.remove(pos);
            runs.set(pos - 1, (start, end));
            proof {
                lemma_insert_joining(r, runs@, pos as int, index);
            }
        } else if merge_prev {
            let start = runs[pos - 1].0;
            runs.set(pos - 1, (start, index));
            proof {
                lemma_insert_extending_left(r, runs@, pos as int, index);
            }
        } else if merge_next {
            let end = runs[pos].1;
            runs.set(pos, (index, end));
            proof {
                lemma_insert_extending_right(r, runs@, pos as int, index);
            }
        } else {
            runs.insert(pos, (index, index));
            proof {
                lemma_insert_alone(r, runs@, pos as int, index);
            }
        }
        self.runs = runs;
        proof {
            assert(self@ =~= before.insert(index));
        }
    }

    /// Marks `index` free.
    pub fn remove(&mut self, index: i64)
        ensures
            final(self)@ == old(self)@.remove(index),
    {
        proof {
            use_type_invariant(&*self);
        }
        let (pos, found) = self.find(index);
        if !found {
            proof {
                assert(self@.remove(index) =~= self@);
            }
            return;
        }
        let ghost r = self.runs@;
        let ghost before = self@;
        let mut runs = Vec::new();
        std::mem::swap(&mut runs, &mut self.runs);
        let (start, end) = runs.remove(pos);
        if index < end {
            runs.insert(pos, (index + 1, end));
        }
        if start < index {
            runs.insert(pos, (start, index - 1));
        }
        proof {
            // The runs now read: r[..pos], the left part, the right part, r[pos+1..].
            let left: int = if start < index { 1 } else { 0 };
            let right: int = if index < end { 1 } else { 0 };
            let shift = left + right - 1;
            assert(runs@.len() == r.len() + shift);
            assert forall|i: int| 0 <= i < runs@.len() implies #[trigger] runs@[i] == (
                if i < pos { r[i] }
                else if i < pos + left { (start, (index - 1) as i64) }
                else if i < pos + left + right { ((index + 1) as i64, end) }
                else { r[i - shift] }
            ) by {
            }
            assert forall|i: int| 0 <= i < runs@.len() implies (#[trigger] runs@[i]).0 <= runs@[i].1 by {
                if i >= pos + left + right {
                    assert(runs@[i] == r[i - shift]);
                }
            }
            assert forall|i: int, j: int| 0 <= i < j < runs@.len() implies (#[trigger] runs@[i]).1 + 1 < (#[trigger] runs@[j]).0 by {
                let ii = if i < pos { i } else if i < pos + left + right { pos as int } else { i - shift };
                let jj = if j < pos { j } else if j < pos + left + right { pos as int } else { j - shift };
                assert(runs@[i] == (if i < pos { r[i] } else if i < pos + left { (start, (index - 1) as i64) } else if i < pos + left + right { ((index + 1) as i64, end) } else { r[i - shift] }));
                assert(runs@[j] == (if j < pos { r[j] } else if j < pos + left { (start, (index - 1) as i64) } else if j < pos + left + right { ((index + 1) as i64, end) } else { r[j - shift] }));
                if ii != jj {
                    assert(r[ii].1 + 1 < r[jj].0);
                }
            }
            assert forall|x: i64| in_runs(runs@, x) == (in_runs(r, x) && x != index) by {
                if in_runs(runs@, x) {
                    let k = choose|k: int| 0 <= k < runs@.len() && (#[trigger] runs@[k]).0 <= x <= runs@[k].1;
                    assert(runs@[k] == (if k < pos { r[k] } else if k < pos + left { (start, (index - 1) as i64) } else if k < pos + left + right { ((index + 1) as i64, end) } else { r[k - shift] }));
                    if k < pos {
                        assert(r[k].0 <= x <= r[k].1);
                        assert(r[k].1 < index);
                    } else if k < pos + left + right {
                        assert(r[pos as int].0 <= x <= r[pos as int].1);
                    } else {
                        assert(r[k - shift].0 <= x <= r[k - shift].1);
                        assert(r[pos as int].1 + 1 < r[k - shift].0);
                    }
                }
                if in_runs(r, x) && x != index {
                    let k = choose|k: int| 0 <= k < r.len() && (#[trigger] r[k]).0 <= x <= r[k].1;
                    if k < pos {
                        assert(runs@[k] == r[k]);
                    } else if k == pos {
                        if x < index {
                            assert(runs@[pos as int] == (start, (index - 1) as i64));
                        } else {
                            assert(runs@[pos + left] == ((index + 1) as i64, end));
                        }
                    } else {
                        assert(runs@[k + shift] == r[k]);
                    }
                }
            }
        }
        self.runs = runs;
        proof {
            assert(self@ =~= before.remove(index));
        }
    }

    /// The smallest unoccupied index that is zero or above.
    pub fn first_free(&self) -> (free: i64)
        requires
            exists|j: i64| j >= 0 && !self@.contains(j),
        ensures
            free >= 0,
            !self@.contains(free),
            forall|j: i64| 0 <= j < free ==> self@.contains(j),
    {
        proof {
            use_type_invariant(self);
        }
        let (pos, found) = self.find(0);
        if !found {
            return 0;
        }
        let end = self.runs[pos].1;
        proof {
            let r = self.runs@;
            assert forall|j: i64| 0 <= j <= end implies self@.contains(j) by {
                assert(r[pos as int].0 <= j <= r[pos as int].1);
            }
            if end == i64::MAX {
                let j = choose|j: i64| j >= 0 && !self@.contains(j);
                assert(self@.contains(j));
            }
        }
        let free = end + 1;
        proof {
            let r = self.runs@;
            if in_runs(r, free) {
                let k = choose|k: int| 0 <= k < r.len() && (#[trigger] r[k]).0 <= free <= r[k].1;
                if k > pos {
                    assert(r[pos as int].1 + 1 < r[k].0);
                } else if k < pos {
                    assert(r[k].1 < 0);
                }
            }
        }
        free
    }

    /// Whether some index that is zero or above is unoccupied.
    pub fn has_free(&self) -> (free: bool)
        ensures
            free == exists|j: i64| j >= 0 && !self@.contains(j),
    {
        proof {
            use_type_invariant(self);
        }
        let (pos, found) = self.find(0);
        if !found {
            proof {
                assert(!self@.contains(0i64));
            }
            return true;
        }
        let end = self.runs[pos].1;
        proof {
            let r = self.runs@;
            assert forall|j: i64| 0 <= j <= end implies self@.contains(j) by {
                assert(r[pos as int].0 <= j <= r[pos as int].1);
            }
            if end < i64::MAX {
                let free = (end + 1) as i64;
                if in_runs(r, free) {
                    let k = choose|k: int| 0 <= k < r.len() && (#[trigger] r[k]).0 <= free <= r[k].1;
                    if k > pos {
                        assert(r[pos as int].1 + 1 < r[k].0);
                    } else if k < pos {
                        assert(r[k].1 < 0);
                    }
                }
                assert(!self@.contains(free));
            }
        }
        end < i64::MAX
    }

    /// Frees every index.
    pub fn clear(&mut self)
        ensures
            final(self)@ == Set::<i64>::empty(),
    {
        *self = IndexRuns::new();
    }
}

/// Inserting the one free index between two runs joins them.
proof fn lemma_insert_joining(r: Seq<(i64, i64)>, runs: Seq<(i64, i64)>, pos: int, index: i64)
    requires
        runs_wf(r),
        0 <= pos <= r.len(),
        forall|i: int| 0 <= i < pos ==> (#[trigger] r[i]).1 < index,
        forall|i: int| pos <= i < r.len() ==> (#[trigger] r[i]).0 > index,
        pos > 0 && r[pos - 1].1 + 1 == index,
        pos < r.len() && r[pos].0 - 1 == index,
        runs == r.remove(pos).update(pos - 1, (r[pos - 1].0, r[pos].1)),
    ensures
        runs_wf(runs),
        forall|x: i64| in_runs(runs, x) == (in_runs(r, x) || x == index),
{
        assert forall|i: int| 0 <= i < runs.len() implies (#[trigger] runs[i]).0 <= runs[i].1 by {
            if i >= pos {
                assert(runs[i] == r[i + 1]);
            }
        }
        assert forall|i: int, j: int| 0 <= i < j < runs.len() implies (#[trigger] runs[i]).1 + 1 < (#[trigger] runs[j]).0 by {
            let ii = if i >= pos { i + 1 } else { i };
            let jj = if j >= pos { j + 1 } else { j };
            if i == pos - 1 {
                assert(r[pos].1 + 1 < r[jj].0);
            } else if j == pos - 1 {
                assert(r[ii].1 + 1 < r[pos - 1].0);
            } else {
                assert(r[ii].1 + 1 < r[jj].0);
            }
        }
        assert forall|x: i64| in_runs(runs, x) == (in_runs(r, x) || x == index) by {
            if in_runs(runs, x) {
                let k = choose|k: int| 0 <= k < runs.len() && (#[trigger] runs[k]).0 <= x <= runs[k].1;
                if k == pos - 1 {
                    if x < index {
                        assert(r[pos - 1].0 <= x <= r[pos - 1].1);
                    } else if x > index {
                        assert(r[pos].0 <= x <= r[pos].1);
                    }
                } else {
                    let kk = if k >= pos { k + 1 } else { k };
                    assert(r[kk].0 <= x <= r[kk].1);
                }
            }
            if in_runs(r, x) {
                let k = choose|k: int| 0 <= k < r.len() && (#[trigger] r[k]).0 <= x <= r[k].1;
                if k == pos || k == pos - 1 {
                    assert(runs[pos - 1].0 <= x <= runs[pos - 1].1);
                } else {
                    let kk = if k > pos { k - 1 } else { k };
                    assert(runs[kk].0 <= x <= runs[kk].1);
                }
            }
            if x == index {
                assert(runs[pos - 1].0 <= x <= runs[pos - 1].1);
            }
        }
}

/// Inserting the index just after a run extends it.
proof fn lemma_insert_extending_left(r: Seq<(i64, i64)>, runs: Seq<(i64, i64)>, pos: int, index: i64)
    requires
        runs_wf(r),
        0 <= pos <= r.len(),
        forall|i: int| 0 <= i < pos ==> (#[trigger] r[i]).1 < index,
        forall|i: int| pos <= i < r.len() ==> (#[trigger] r[i]).0 > index,
        pos > 0 && r[pos - 1].1 + 1 == index,
        !(pos < r.len() && r[pos].0 - 1 == index),
        runs == r.update(pos - 1, (r[pos - 1].0, index)),
    ensures
        runs_wf(runs),
        forall|x: i64| in_runs(runs, x) == (in_runs(r, x) || x == index),
{
        assert forall|i: int, j: int| 0 <= i < j < runs.len() implies (#[trigger] runs[i]).1 + 1 < (#[trigger] runs[j]).0 by {
            if i == pos - 1 {
                assert(r[j].0 > index + 1);
            } else if j == pos - 1 {
                assert(r[i].1 + 1 < r[pos - 1].0);
            } else {
                assert(r[i].1 + 1 < r[j].0);
            }
        }
        assert forall|x: i64| in_runs(runs, x) == (in_runs(r, x) || x == index) by {
            if in_runs(runs, x) {
                let k = choose|k: int| 0 <= k < runs.len() && (#[trigger] runs[k]).0 <= x <= runs[k].1;
                if k == pos - 1 && x < index {
                    assert(r[k].0 <= x <= r[k].1);
                } else if k != pos - 1 {
                    assert(r[k].0 <= x <= r[k].1);
                }
            }
            if in_runs(r, x) {
                let k = choose|k: int| 0 <= k < r.len() && (#[trigger] r[k]).0 <= x <= r[k].1;
                assert(runs[k].0 <= x <= runs[k].1);
            }
            if x == index {
                assert(runs[pos - 1].0 <= x <= runs[pos - 1].1);
            }
        }
}

/// Inserting the index just before a run extends it.
proof fn lemma_insert_extending_right(r: Seq<(i64, i64)>, runs: Seq<(i64, i64)>, pos: int, index: i64)
    requires
        runs_wf(r),
        0 <= pos <= r.len(),
        forall|i: int| 0 <= i < pos ==> (#[trigger] r[i]).1 < index,
        forall|i: int| pos <= i < r.len() ==> (#[trigger] r[i]).0 > index,
        !(pos > 0 && r[pos - 1].1 + 1 == index),
        pos < r.len() && r[pos].0 - 1 == index,
        runs == r.update(pos, (index, r[pos].1)),
    ensures
        runs_wf(runs),
        forall|x: i64| in_runs(runs, x) == (in_runs(r, x) || x == index),
{
        assert forall|i: int, j: int| 0 <= i < j < runs.len() implies (#[trigger] runs[i]).1 + 1 < (#[trigger] runs[j]).0 by {
            if j == pos {
                assert(r[i].1 < index);
                if i == pos - 1 {
                    assert(r[i].1 + 1 != index);
                }
            } else if i == pos {
                assert(r[pos].1 + 1 < r[j].0);
            } else {
                assert(r[i].1 + 1 < r[j].0);
            }
        }
        assert forall|x: i64| in_runs(runs, x) == (in_runs(r, x) || x == index) by {
            if in_runs(runs, x) {
                let k = choose|k: int| 0 <= k < runs.len() && (#[trigger] runs[k]).0 <= x <= runs[k].1;
                if k == pos && x > index {
                    assert(r[k].0 <= x <= r[k].1);
                } else if k != pos {
                    assert(r[k].0 <= x <= r[k].1);
                }
            }
            if in_runs(r, x) {
                let k = choose|k: int| 0 <= k < r.len() && (#[trigger] r[k]).0 <= x <= r[k].1;
                assert(runs[k].0 <= x <= runs[k].1);
            }
            if x == index {
                assert(runs[pos].0 <= x <= runs[pos].1);
            }
        }
}

/// Inserting an index with free neighbours starts a run of its own.
proof fn lemma_insert_alone(r: Seq<(i64, i64)>, runs: Seq<(i64, i64)>, pos: int, index: i64)
    requires
        runs_wf(r),
        0 <= pos <= r.len(),
        forall|i: int| 0 <= i < pos ==> (#[trigger] r[i]).1 < index,
        forall|i: int| pos <= i < r.len() ==> (#[trigger] r[i]).0 > index,
        !(pos > 0 && r[pos - 1].1 + 1 == index),
        !(pos < r.len() && r[pos].0 - 1 == index),
        runs == r.insert(pos, (index, index)),
    ensures
        runs_wf(runs),
        forall|x: i64| in_runs(runs, x) == (in_runs(r, x) || x == index),
{
        assert forall|i: int| 0 <= i < runs.len() implies (#[trigger] runs[i]).0 <= runs[i].1 by {
            if i > pos {
                assert(runs[i] == r[i - 1]);
            } else if i < pos {
                assert(runs[i] == r[i]);
            }
        }
        assert forall|i: int, j: int| 0 <= i < j < runs.len() implies (#[trigger] runs[i]).1 + 1 < (#[trigger] runs[j]).0 by {
            let ii = if i > pos { i - 1 } else { i };
            let jj = if j > pos { j - 1 } else { j };
            if i == pos {
                assert(r[jj].0 > index);
                if jj == pos {
                    assert(r[jj].0 - 1 != index);
                }
            } else if j == pos {
                assert(r[ii].1 < index);
                if ii == pos - 1 {
                    assert(r[ii].1 + 1 != index);
                }
            } else {
                assert(r[ii].1 + 1 < r[jj].0);
            }
        }
        assert forall|x: i64| in_runs(runs, x) == (in_runs(r, x) || x == index) by {
            if in_runs(runs, x) {
                let k = choose|k: int| 0 <= k < runs.len() && (#[trigger] runs[k]).0 <= x <= runs[k].1;
                if k != pos {
                    let kk = if k > pos { k - 1 } else { k };
                    assert(r[kk].0 <= x <= r[kk].1);
                }
            }
            if in_runs(r, x) {
                let k = choose|k: int| 0 <= k < r.len() && (#[trigger] r[k]).0 <= x <= r[k].1;
                let kk = if k >= pos { k + 1 } else { k };
                assert(runs[kk].0 <= x <= runs[kk].1);
            }
            if x == index {
                assert(runs[pos].0 <= x <= runs[pos].1);
            }
        }
}

} // verus!
