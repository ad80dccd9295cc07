//! Grid coordinates and Manhattan distance.

use vstd::prelude::*;

verus! {

/// A grid coordinate together with a time value.
///
/// The meaning of `t` depends on the owner: on a ride's pickup it is the
/// step at which the time window opens, on a ride's dropoff it is the
/// deadline step, and on a vehicle it is the number of steps the vehicle
/// remains busy (0 when free).
#[derive(Clone, Copy, PartialEq, Eq, Structural, Debug)]
pub struct Intersection {
    pub x: u64,
    pub y: u64,
    pub t: u64,
}

/// The absolute difference of two naturals, as used by each axis of the
/// Manhattan distance.
pub open spec fn abs_diff(a: int, b: int) -> int {
    if a >= b {
        a - b
    } else {
        b - a
    }
}

/// Manhattan distance between two intersections; the time values play no
/// part.  Never negative, since each axis contributes an absolute value.
pub open spec fn dist(a: Intersection, b: Intersection) -> int {
    abs_diff(a.x as int, b.x as int) + abs_diff(a.y as int, b.y as int)
}

/// The Manhattan distance of `a` and `b` fits into a `u64`, so that
/// [`Intersection::get_distance`] can return it without truncation.
pub open spec fn dist_fits(a: Intersection, b: Intersection) -> bool {
    dist(a, b) <= u64::MAX
}

impl Intersection {
    pub fn new(x: u64, y: u64, t: u64) -> (r: Intersection)
        ensures
            r == (Intersection { x, y, t }),
    {
        Intersection { x, y, t }
    }

    /// Manhattan distance between two intersections, computed without
    /// underflow by subtracting the smaller coordinate from the larger one
    /// on each axis.
    pub fn get_distance(a: &Intersection, b: &Intersection) -> (d: u64)
        requires
            dist_fits(*a, *b),
        ensures
            d == dist(*a, *b),
    {
        let dx = if a.x >= b.x {
            a.x - b.x
        } else {
            b.x - a.x
        };
        let dy = if a.y >= b.y {
            a.y - b.y
        } else {
            b.y - a.y
        };
        dx + dy
    }
}

} // verus!
