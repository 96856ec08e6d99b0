//! Sorting by a three-way comparison.
use vstd::prelude::*;
use core::cmp::Ordering;
use super::sorting::{insertion_sort, in_order, sorted_by};

verus! {

/// Whether `compare` has put `a` before `b`: asked about `(a, b)` it may
/// answer other than `Greater`, or asked about `(b, a)` it may answer
/// `Greater`. For a comparison that is a total order this is `a <= b`.
pub open spec fn compared_in_order<T, F: Fn(&T, &T) -> Ordering>(compare: F, a: T, b: T) -> bool {
    ||| exists|r: Ordering| #[trigger] compare.ensures((&a, &b), r) && r != Ordering::Greater
    ||| compare.ensures((&b, &a), Ordering::Greater)
}

/// Every two neighbours of `s` are in order by `compare`.
pub open spec fn sorted_by_compare<T, F: Fn(&T, &T) -> Ordering>(compare: F, s: Seq<T>) -> bool {
    forall|i: int| 0 <= i < s.len() - 1 ==> #[trigger] compared_in_order(compare, s[i], s[i + 1])
}

/// Sorts `items` by `compare`: an insertion sort, which moves an item back
/// only past items that `compare` puts after it.
pub fn sort_vec_by<T: Copy, F: Fn(&T, &T) -> Ordering>(items: &mut Vec<T>, compare: &F)
    requires
        forall|a: &T, b: &T| #[trigger] compare.requires((a, b)),
    ensures
        final(items)@.to_multiset() == old(items)@.to_multiset(),
        final(items)@.len() == old(items)@.len(),
        sorted_by_compare(*compare, final(items)@),
{
    let after = |a: &T, b: &T| -> (r: bool)
        requires
            compare.requires((a, b)),
        ensures
            r ==> compare.ensures((a, b), Ordering::Greater),
            !r ==> exists|o: Ordering| #[trigger] compare.ensures((a, b), o) && o != Ordering::Greater,
        {
            let o = compare(a, b);
            match o {
                Ordering::Greater => true,
                _ => false,
            }
        };
    insertion_sort(items, &after);
    proof {
        let s = items@;
        assert forall|i: int| 0 <= i < s.len() - 1 implies #[trigger] compared_in_order(*compare, s[i], s[i + 1]) by {
            assert(in_order(after, s[i], s[i + 1]));
        }
    }
}

} // verus!
