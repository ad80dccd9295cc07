//! The mutable agent that executes rides.

use vstd::prelude::*;

use crate::geometry::{dist, dist_fits, Intersection};
use crate::ride::Ride;
use crate::scoring;
use crate::scoring::{feasible, score_fits, score_points, travel_time};

verus! {

/// A vehicle: its identity, its position (whose time value is the number
/// of steps it remains busy, 0 when free), the ordered identities of the
/// rides it has committed to, and the ride it is currently executing.
/// The vehicle is free exactly when `cur_ride` is absent.
pub struct Vehicle {
    pub index: u64,
    pub runs: Vec<u64>,
    pub pos: Intersection,
    pub cur_ride: Option<Ride>,
}

/// The mathematical model of a [`Vehicle`]: the same state with the
/// history as a sequence.
#[verifier::ext_equal]
pub struct VehicleView {
    pub index: u64,
    pub runs: Seq<u64>,
    pub pos: Intersection,
    pub cur_ride: Option<Ride>,
}

impl View for Vehicle {
    type V = VehicleView;

    open spec fn view(&self) -> VehicleView {
        VehicleView {
            index: self.index,
            runs: self.runs@,
            pos: self.pos,
            cur_ride: self.cur_ride,
        }
    }
}

/// The models of a fleet of vehicles.
pub open spec fn views(vs: Seq<Vehicle>) -> Seq<VehicleView> {
    vs.map_values(|v: Vehicle| v@)
}

/// Replacing one vehicle of a fleet replaces its model and no other.
pub proof fn lemma_views_update(vs: Seq<Vehicle>, i: int, v: Vehicle)
    requires
        0 <= i < vs.len(),
    ensures
        views(vs.update(i, v)) == views(vs).update(i, v@),
{
    assert(views(vs.update(i, v)) =~= views(vs).update(i, v@));
}

/// One tick of the per-vehicle state machine, as performed by
/// [`Vehicle::is_free`]: a busy vehicle counts down, and on its last
/// remaining step it appears at the current ride's dropoff and becomes
/// free; a free vehicle is unchanged.
pub open spec fn advanced(v: VehicleView) -> VehicleView {
    match v.cur_ride {
        Some(r) => {
            if v.pos.t > 1 {
                VehicleView { pos: Intersection { t: (v.pos.t - 1) as u64, ..v.pos }, ..v }
            } else {
                VehicleView {
                    pos: Intersection { x: r.end.x, y: r.end.y, t: 0 },
                    cur_ride: None,
                    ..v
                }
            }
        },
        None => v,
    }
}

/// The vehicle state after `n` ticks.
pub open spec fn advance_n(v: VehicleView, n: nat) -> VehicleView
    decreases n,
{
    if n == 0 {
        v
    } else {
        advanced(advance_n(v, (n - 1) as nat))
    }
}

/// The vehicle state after committing to ride `r` for `t` steps, as
/// performed by [`Vehicle::set_ride`].
pub open spec fn committed(v: VehicleView, t: u64, r: Ride) -> VehicleView {
    VehicleView {
        pos: Intersection { x: v.pos.x, y: v.pos.y, t },
        runs: v.runs.push(r.index),
        cur_ride: Some(r),
        ..v
    }
}

impl Vehicle {
    /// A fresh vehicle: free, with an empty history, standing at the
    /// origin.
    pub fn new(index: u64) -> (v: Vehicle)
        ensures
            v.index == index,
            v.runs@ == Seq::<u64>::empty(),
            v.pos == (Intersection { x: 0, y: 0, t: 0 }),
            v.cur_ride is None,
    {
        Vehicle { index, runs: Vec::new(), pos: Intersection::new(0, 0, 0), cur_ride: None }
    }

    /// Steps of travel separating the vehicle's position from the current
    /// ride's dropoff; 0 when free.
    pub fn get_remaining_time(&self) -> (time: u64)
        requires
            self.cur_ride matches Some(r) ==> dist_fits(self.pos, r.end),
        ensures
            time == match self.cur_ride {
                Some(r) => dist(self.pos, r.end),
                None => 0,
            },
    {
        match &self.cur_ride {
            Some(ride) => Intersection::get_distance(&self.pos, &ride.end),
            None => 0,
        }
    }

    /// Distance from the vehicle to the ride's pickup.
    pub fn get_start_distance(&self, r: &Ride) -> (d: u64)
        requires
            dist_fits(self.pos, r.start),
        ensures
            d == dist(self.pos, r.start),
    {
        Intersection::get_distance(&self.pos, &r.start)
    }

    /// Distance from the vehicle to the ride's dropoff.
    pub fn get_end_distance(&self, r: &Ride) -> (d: u64)
        requires
            dist_fits(self.pos, r.end),
        ensures
            d == dist(self.pos, r.end),
    {
        Intersection::get_distance(&self.pos, &r.end)
    }

    /// Whether `r`, started from this vehicle's position at step `step`,
    /// can be completed by its deadline and by the horizon `max_step`, and
    /// if so what it yields: `Some((points, time))` with the points earned
    /// and the number of steps until the dropoff.
    pub fn get_points(&self, step: u64, max_step: u64, bonus: u64, r: &Ride) -> (res: Option<
        (u64, u64),
    >)
        requires
            score_fits(self.pos, step as int, bonus as int, *r),
        ensures
            res.is_some() <==> feasible(self.pos, step as int, max_step as int, *r),
            res matches Some((p, t)) ==> p == score_points(self.pos, step as int, bonus as int, *r)
                && t == travel_time(self.pos, step as int, *r),
    {
        scoring::score(self.pos, step, max_step, bonus, r)
    }

    /// Advances the vehicle by one tick and reports whether it is free
    /// afterwards.  A busy vehicle counts down; on its last remaining step
    /// it moves to the current ride's dropoff, drops the ride, and is free
    /// within the same step.  A vehicle that was committed with no
    /// remaining time completes on its next tick.
    pub fn is_free(&mut self) -> (free: bool)
        ensures
            final (self)@ == advanced(old(self)@),
            free == final (self).cur_ride.is_none(),
    {
        match &self.cur_ride {
            Some(r) => {
                if self.pos.t > 1 {
                    self.pos.t = self.pos.t - 1;
                    false
                } else {
                    self.pos.x = r.end.x;
                    self.pos.y = r.end.y;
                    self.pos.t = 0;
                    self.cur_ride = None;
                    true
                }
            },
            None => true,
        }
    }

    /// Writes the vehicle's result line: its ride count followed by its
    /// committed ride identities in commit order, space-separated.
    pub fn history_line(&self) -> (out: Vec<u8>)
        ensures
            out@ == crate::codec::hist_line_rep(self.runs@),
    {
        crate::codec::serialize_history(&self.runs)
    }

    /// Commits the vehicle to ride `r` for `t` steps: the ride's identity
    /// is appended to the history and the vehicle turns busy on the spot.
    pub fn set_ride(&mut self, t: u64, r: Ride)
        ensures
            final (self)@ == committed(old(self)@, t, r),
    {
        self.pos.t = t;
        self.runs.push(r.index);
        self.cur_ride = Some(r);
    }
}

/// A committed vehicle's busy time strictly decreases to 0: committed for
/// `t >= 1` steps, it is still busy with `t - k` steps remaining after any
/// `k < t` ticks, and after exactly `t` ticks it is free and stands at the
/// committed ride's dropoff.
pub proof fn lemma_busy_countdown(v: VehicleView, k: nat)
    requires
        v.cur_ride is Some,
        v.pos.t >= 1,
        k <= v.pos.t,
    ensures
        k < v.pos.t ==> advance_n(v, k).cur_ride == v.cur_ride && advance_n(v, k).pos.t == v.pos.t
            - k,
        k == v.pos.t ==> advance_n(v, k).cur_ride is None && advance_n(v, k).pos.x
            == v.cur_ride.unwrap().end.x && advance_n(v, k).pos.y == v.cur_ride.unwrap().end.y
            && advance_n(v, k).pos.t == 0,
        advance_n(v, k).runs == v.runs,
        advance_n(v, k).index == v.index,
    decreases k,
{
    if k > 0 {
        lemma_busy_countdown(v, (k - 1) as nat);
    }
}

} // verus!
