//! Insertion sorting by a caller's comparison.
use vstd::prelude::*;
use super::sampling::{swapped, lemma_swap_multiset};

verus! {

/// Whether `after` has put `a` before `b`: asked whether `a` goes after
/// `b` it may answer no, or asked whether `b` goes after `a` it may answer
/// yes. For a strict order this is `!(b < a)`.
pub open spec fn in_order<T, F: Fn(&T, &T) -> bool>(after: F, a: T, b: T) -> bool {
    ||| after.ensures((&a, &b), false)
    ||| after.ensures((&b, &a), true)
}

/// Every two neighbours of `s` are in order by `after`.
pub open spec fn sorted_by<T, F: Fn(&T, &T) -> bool>(after: F, s: Seq<T>) -> bool {
    forall|i: int| 0 <= i < s.len() - 1 ==> #[trigger] in_order(after, s[i], s[i + 1])
}

/// Sorts `items` by `after`: each item in turn moves back past the items
/// that go after it.
pub fn insertion_sort<T: Copy, F: Fn(&T, &T) -> bool>(items: &mut Vec<T>, after: &F)
    requires
        forall|a: &T, b: &T| #[trigger] after.requires((a, b)),
    ensures
        final(items)@.to_multiset() == old(items)@.to_multiset(),
        final(items)@.len() == old(items)@.len(),
        sorted_by(*after, final(items)@),
{
    let n = items.len();
    if n == 0 {
        return;
    }
    let mut i: usize = 1;
    while i < n
        invariant
            1 <= i <= n,
            n == items@.len(),
            forall|a: &T, b: &T| #[trigger] after.requires((a, b)),
            items@.to_multiset() == old(items)@.to_multiset(),
            sorted_by(*after, items@.subrange(0, i as int)),
        decreases n - i,
    {
        let ghost start = items@;
        let x = items[i];
        let mut j: usize = i;
        while j > 0
            invariant_except_break
                j <= i < n,
                n == items@.len(),
                forall|a: &T, b: &T| #[trigger] after.requires((a, b)),
                items@.to_multiset() == old(items)@.to_multiset(),
                items@[j as int] == x,
                forall|k: int| 0 <= k < j ==> items@[k] == start[k],
                forall|k: int| j < k <= i ==> items@[k] == start[k - 1],
                forall|k: int| i < k < n ==> items@[k] == start[k],
                sorted_by(*after, start.subrange(0, i as int)),
                j < i ==> after.ensures((&start[j as int], &x), true),
            ensures
                j <= i < n,
                n == items@.len(),
                items@.to_multiset() == old(items)@.to_multiset(),
                items@[j as int] == x,
                forall|k: int| 0 <= k < j ==> items@[k] == start[k],
                forall|k: int| j < k <= i ==> items@[k] == start[k - 1],
                forall|k: int| i < k < n ==> items@[k] == start[k],
                sorted_by(*after, start.subrange(0, i as int)),
                j < i ==> after.ensures((&start[j as int], &x), true),
                j > 0 ==> after.ensures((&start[j - 1], &x), false),
            decreases j,
        {
            let before = items[j - 1];
            if after(&before, &x) {
                    proof {
                        lemma_swap_multiset(items@, (j - 1) as int, j as int);
                    }
                    let ghost prev = items@;
                    items.set(j - 1, x);
                    items.set(j, before);
                    proof {
                        assert(items@ =~= swapped(prev, (j - 1) as int, j as int));
                    }
                    j -= 1;
            } else {
                break;
            }
        }
        proof {
            let s = items@;
            let t = s.subrange(0, i + 1);
            let p = start.subrange(0, i as int);
            assert forall|k: int| 0 <= k < t.len() - 1 implies #[trigger] in_order(*after, t[k], t[k + 1]) by {
                if k + 1 < j {
                    assert(t[k] == p[k] && t[k + 1] == p[k + 1]);
                    assert(in_order(*after, p[k], p[k + 1]));
                } else if k + 1 == j {
                    assert(t[k] == start[j - 1] && t[k + 1] == x);
                    assert(after.ensures((&start[j - 1], &x), false));
                } else if k == j {
                    assert(t[k] == x && t[k + 1] == start[j as int]);
                    assert(after.ensures((&start[j as int], &x), true));
                } else {
                    assert(t[k] == p[k - 1] && t[k + 1] == p[k]);
                    let m = k - 1;
                    assert(in_order(*after, p[m], p[m + 1]));
                    assert(m + 1 == k);
                }
            }
        }
        i += 1;
    }
    proof {
        assert(items@.subrange(0, n as int) =~= items@);
    }
}

} // verus!
