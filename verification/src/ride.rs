//! The immutable transport job.

use vstd::prelude::*;

use crate::geometry::Intersection;

verus! {

/// A transport job: a pickup intersection whose time value is the step at
/// which the pickup window opens, and a dropoff intersection whose time
/// value is the deadline step.  Immutable after creation.
#[derive(Clone, Copy, PartialEq, Eq, Structural, Debug)]
pub struct Ride {
    pub index: u64,
    pub start: Intersection,
    pub end: Intersection,
}

impl Ride {
    /// Builds the ride with identity `index`, pickup `(a, b)` whose window
    /// opens at step `s`, and dropoff `(x, y)` with deadline `f`.
    pub fn new(index: u64, a: u64, b: u64, x: u64, y: u64, s: u64, f: u64) -> (r: Ride)
        ensures
            r == (Ride {
                index,
                start: Intersection { x: a, y: b, t: s },
                end: Intersection { x, y, t: f },
            }),
    {
        Ride { index, start: Intersection::new(a, b, s), end: Intersection::new(x, y, f) }
    }
}

} // verus!
