//! One end of a range of `i64` values, as `RangeBounds` describes it.
use vstd::prelude::*;

verus! {

/// One end of a range of `i64` values.
#[derive(Clone, Copy, Debug)]
pub enum RangeEnd {
    Included(i64),
    Excluded(i64),
    Unbounded,
}

/// Whether `p` lies between the two ends.
pub open spec fn within(p: i64, low: RangeEnd, high: RangeEnd) -> bool {
    &&& match low {
        RangeEnd::Included(b) => b <= p,
        RangeEnd::Excluded(b) => b < p,
        RangeEnd::Unbounded => true,
    }
    &&& match high {
        RangeEnd::Included(b) => p <= b,
        RangeEnd::Excluded(b) => p < b,
        RangeEnd::Unbounded => true,
    }
}

/// Whether `p` lies between the two ends, computed.
pub fn is_within(p: i64, low: RangeEnd, high: RangeEnd) -> (inside: bool)
    ensures
        inside == within(p, low, high),
{
    (match low {
        RangeEnd::Included(b) => b <= p,
        RangeEnd::Excluded(b) => b < p,
        RangeEnd::Unbounded => true,
    }) && (match high {
        RangeEnd::Included(b) => p <= b,
        RangeEnd::Excluded(b) => p < b,
        RangeEnd::Unbounded => true,
    })
}

} // verus!
