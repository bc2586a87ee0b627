//! Overlap testing for half-open byte or character ranges.

use vstd::prelude::*;

verus! {

/// Whether the half-open ranges `r1` and `r2` share at least one index.
pub fn ranges_overlap(r1: &core::ops::Range<usize>, r2: &core::ops::Range<usize>) -> (r: bool)
    ensures
        r == (r1.start < r2.end && r1.end > r2.start),
{
    r1.start < r2.end && r1.end > r2.start
}

} // verus!
