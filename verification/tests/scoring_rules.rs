use ride_dispatch::geometry::Intersection;
use ride_dispatch::ride::Ride;
use ride_dispatch::vehicle::Vehicle;

#[test]
fn manhattan_distance() {
    let a = Intersection::new(2, 9, 0);
    let b = Intersection::new(7, 3, 5);
    assert_eq!(Intersection::get_distance(&a, &b), 11);
    assert_eq!(Intersection::get_distance(&b, &a), 11);
    assert_eq!(Intersection::get_distance(&a, &a), 0);
}

#[test]
fn scoring_awards_bonus_for_waiting() {
    // One vehicle at the origin, bonus 2: distance 5 to the pickup, the
    // window opens at 10, so 5 steps of waiting; the ride itself is of
    // length zero.  Total points 2, finish offset 10.
    let v = Vehicle::new(0);
    let r = Ride::new(0, 5, 0, 5, 0, 10, 10);
    assert_eq!(v.get_points(0, 10, 2, &r), Some((2, 10)));
}

#[test]
fn scoring_no_bonus_when_late() {
    // The window opened at step 0; arriving at step 3 earns the ride's
    // distance only.
    let v = Vehicle::new(0);
    let r = Ride::new(0, 1, 0, 4, 0, 0, 20);
    assert_eq!(v.get_points(2, 20, 7, &r), Some((3, 4)));
}

#[test]
fn scoring_rejects_missed_deadline() {
    // Minimum achievable finish step 5, deadline 4.
    let v = Vehicle::new(0);
    let r = Ride::new(0, 0, 0, 0, 5, 0, 4);
    assert_eq!(v.get_points(0, 100, 0, &r), None);
}

#[test]
fn scoring_respects_the_horizon() {
    let v = Vehicle::new(0);
    let r = Ride::new(0, 0, 0, 0, 5, 0, 100);
    assert_eq!(v.get_points(0, 4, 0, &r), None);
    assert_eq!(v.get_points(0, 5, 0, &r), Some((5, 5)));
}

#[test]
fn scoring_deadline_boundary_is_inclusive() {
    let v = Vehicle::new(0);
    let r = Ride::new(0, 0, 0, 0, 5, 0, 5);
    assert_eq!(v.get_points(0, 100, 0, &r), Some((5, 5)));
}

#[test]
fn vehicle_distances() {
    let mut v = Vehicle::new(3);
    let r = Ride::new(1, 2, 2, 6, 5, 0, 30);
    assert_eq!(v.get_start_distance(&r), 4);
    assert_eq!(v.get_end_distance(&r), 11);
    assert_eq!(v.get_remaining_time(), 0);
    v.set_ride(9, r);
    // Remaining time is measured as the distance to the dropoff.
    assert_eq!(v.get_remaining_time(), 11);
}
