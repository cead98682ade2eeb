//! Analysis verdicts on single points.

use vstd::prelude::*;

use crate::coord::Coord;

verus! {

/// A verdict on a point, meant to serve both sides: a point to avoid, or
/// a weighted recommendation.
pub enum Vote {
    Avoid(Coord),
    Vote(Coord, i8),
}

} // verus!
