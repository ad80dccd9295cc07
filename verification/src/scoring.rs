//! The pure scoring and feasibility rules.
//!
//! For a candidate assignment of a ride to a vehicle standing at `pos` at
//! step `step`, the policy computes how long the vehicle would be busy and
//! how many points the ride would earn, or decides that the ride cannot be
//! completed in time.

use vstd::prelude::*;

use crate::geometry::{dist, dist_fits, Intersection};
use crate::ride::Ride;

verus! {

/// The vehicle reaches the pickup no later than the step at which the
/// ride's window opens, so it waits there and earns the bonus.
pub open spec fn wait_applies(pos: Intersection, step: int, r: Ride) -> bool {
    step + dist(pos, r.start) <= r.start.t
}

/// Steps spent waiting at the pickup for the window to open.
pub open spec fn wait_time(pos: Intersection, step: int, r: Ride) -> int {
    if wait_applies(pos, step, r) {
        r.start.t - (step + dist(pos, r.start))
    } else {
        0
    }
}

/// Steps from `step` until the vehicle departs from the pickup: travel to
/// the pickup plus any wait for the window to open.
pub open spec fn pickup_leg(pos: Intersection, step: int, r: Ride) -> int {
    if wait_applies(pos, step, r) {
        r.start.t - step
    } else {
        dist(pos, r.start)
    }
}

/// Total steps the assignment occupies the vehicle: travel to the pickup,
/// wait for the window, and the ride itself.
pub open spec fn travel_time(pos: Intersection, step: int, r: Ride) -> int {
    pickup_leg(pos, step, r) + dist(r.start, r.end)
}

/// Points the assignment earns: the ride's distance, plus the bonus when
/// the vehicle reaches the pickup before the window opens.
pub open spec fn score_points(pos: Intersection, step: int, bonus: int, r: Ride) -> int {
    (if wait_applies(pos, step, r) {
        bonus
    } else {
        0
    }) + dist(r.start, r.end)
}

/// The assignment is feasible: the dropoff is reached no later than the
/// ride's deadline and no later than the simulation horizon.
pub open spec fn feasible(pos: Intersection, step: int, max_step: int, r: Ride) -> bool {
    &&& step + travel_time(pos, step, r) <= r.end.t
    &&& step + travel_time(pos, step, r) <= max_step
}

/// Every intermediate sum of the scoring computation fits into a `u64`.
/// This is what the machine forces, not a restriction of the rules.
pub open spec fn score_fits(pos: Intersection, step: int, bonus: int, r: Ride) -> bool {
    &&& dist_fits(pos, r.start)
    &&& dist_fits(r.start, r.end)
    &&& step + dist(pos, r.start) + dist(r.start, r.end) <= u64::MAX
    &&& r.start.t + dist(r.start, r.end) <= u64::MAX
    &&& bonus + dist(r.start, r.end) <= u64::MAX
}

/// The earliest step at which any vehicle anywhere could complete the
/// ride: the window must have opened before the ride starts, so no dropoff
/// happens before `window-open + ride distance`.
pub open spec fn min_finish(r: Ride) -> int {
    r.start.t + dist(r.start, r.end)
}

/// Computes, for a vehicle at `pos` on step `step`, whether `r` is
/// feasible and what it yields: `Some((points, time))` where `time` is the
/// number of steps from `step` until the dropoff, or `None` when the ride
/// would miss its deadline or the horizon `max_step`.
pub fn score(pos: Intersection, step: u64, max_step: u64, bonus: u64, r: &Ride) -> (res: Option<
    (u64, u64),
>)
    requires
        score_fits(pos, step as int, bonus as int, *r),
    ensures
        res.is_some() <==> feasible(pos, step as int, max_step as int, *r),
        res matches Some((p, t)) ==> p == score_points(pos, step as int, bonus as int, *r) && t
            == travel_time(pos, step as int, *r),
{
    let mut time = Intersection::get_distance(&pos, &r.start);
    let mut points: u64 = 0;

    if step + time <= r.start.t {
        time += r.start.t - (step + time);
        points += bonus;
    }

    let distance = Intersection::get_distance(&r.start, &r.end);
    time += distance;
    points += distance;

    if step + time > r.end.t {
        None
    } else if step + time > max_step {
        None
    } else {
        Some((points, time))
    }
}

/// A feasible assignment exists only for rides whose deadline leaves room
/// for the minimum achievable finish step, and only within the horizon.
pub proof fn lemma_feasible_min_finish(pos: Intersection, step: int, max_step: int, r: Ride)
    requires
        0 <= step,
        feasible(pos, step, max_step, r),
    ensures
        min_finish(r) <= r.end.t,
        min_finish(r) <= max_step,
{
}

} // verus!
