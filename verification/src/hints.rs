//! The branch hint that the search for free slots gives the compiler.
use vstd::prelude::*;

verus! {

/// `frozen_core::hints::unlikely` hands its argument back; it only tells the compiler which way a
/// branch seldom goes.
pub assume_specification[ frozen_core::hints::unlikely ](b: bool) -> (r: bool)
    ensures
        r == b,
;

} // verus!
