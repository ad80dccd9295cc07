use ride_dispatch::ride::Ride;
use ride_dispatch::vehicle::Vehicle;

#[test]
fn busy_countdown_reaches_dropoff() {
    // Committed for 3 steps, the vehicle counts 3, 2, 1 and appears at
    // the ride's dropoff exactly on the third tick, free again.
    let mut v = Vehicle::new(0);
    let r = Ride::new(4, 0, 0, 2, 1, 0, 50);
    v.set_ride(3, r);
    assert_eq!(v.pos.t, 3);
    assert!(!v.is_free());
    assert_eq!(v.pos.t, 2);
    assert!(v.cur_ride.is_some());
    assert!(!v.is_free());
    assert_eq!(v.pos.t, 1);
    assert!(v.is_free());
    assert_eq!((v.pos.x, v.pos.y, v.pos.t), (2, 1, 0));
    assert!(v.cur_ride.is_none());
    assert_eq!(v.runs, vec![4]);
}

#[test]
fn free_vehicle_stays_put() {
    let mut v = Vehicle::new(7);
    assert!(v.is_free());
    assert_eq!((v.pos.x, v.pos.y, v.pos.t), (0, 0, 0));
    assert!(v.runs.is_empty());
}

#[test]
fn history_keeps_commit_order() {
    let mut v = Vehicle::new(0);
    v.set_ride(1, Ride::new(5, 0, 0, 0, 1, 0, 9));
    assert!(v.is_free());
    v.set_ride(1, Ride::new(2, 0, 1, 0, 2, 0, 9));
    assert!(v.is_free());
    assert_eq!(v.runs, vec![5, 2]);
    assert_eq!(v.history_line(), b"2 5 2".to_vec());
}
