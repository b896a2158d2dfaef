//! Easing: how the time spent on a segment is turned into the way covered.
//!
//! An easing function takes the progress of a segment in parts of
//! [`UNIT`](crate::geometry::UNIT) and returns the weight, in the same parts,
//! with which the segment's end enters the blend of its two end points. Any
//! `Fn(i64) -> i64` that can be copied serves; the result may leave `0..=UNIT`
//! for an animation that overshoots.

use vstd::prelude::*;
use crate::geometry::UNIT;

verus! {

/// The easing function accepts every progress from `0` to `UNIT`.
pub open spec fn accepts_unit_range<F: Fn(i64) -> i64>(easing: F) -> bool {
    forall|p: i64| 0 <= p <= UNIT ==> call_requires(easing, (p,))
}

/// The easing function leaves the two ends of the range where they are: it
/// returns `0` for `0` and `UNIT` for `UNIT`.
pub open spec fn fixes_endpoints<F: Fn(i64) -> i64>(easing: F) -> bool {
    &&& forall|s: i64| call_ensures(easing, (0i64,), s) ==> s == 0
    &&& forall|s: i64| call_ensures(easing, (UNIT,), s) ==> s == UNIT
}

/// Constant speed: the weight is the progress.
pub fn linear(progress: i64) -> (weight: i64)
    ensures
        weight == progress,
{
    progress
}

} // verus!
