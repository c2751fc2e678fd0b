//! Tests for the domain model: trips, routes, grouping, and the scan
//! queue.

use raptor::data::{precedes, Queue, QueueItem, RawRoute, Route, Stop, StopTime, Trip};
use raptor::ProcessingError;

fn st(stop: usize, arr: u32, dep: u32) -> StopTime {
    StopTime { stop, arrival_time: arr, departure_time: dep }
}

fn trip(id: &str, stop_times: Vec<StopTime>) -> Trip {
    Trip { id: id.to_string(), stop_times }
}

fn named_stop(id: &str) -> Stop {
    Stop { id: id.to_string(), name: id.to_string() }
}

fn abc_route() -> Route {
    Route {
        parent_id: "R".to_string(),
        parent_name: "line".to_string(),
        group_id: vec![0, 1, 2],
        trips: vec![trip("t1", vec![st(0, 0, 0), st(1, 10, 15), st(2, 30, 30)])],
    }
}

#[test]
fn trip_pattern_fingerprint() {
    let t = trip("t1", vec![st(4, 0, 0), st(7, 10, 15), st(2, 30, 30)]);
    assert_eq!(t.group_id(), vec![4, 7, 2]);
    assert_eq!(t.stops(), vec![4, 7, 2]);
}

#[test]
fn trip_stop_time_lookup() {
    let t = trip("t1", vec![st(0, 0, 0), st(1, 10, 15), st(2, 30, 30)]);
    assert_eq!(t.arr(1).unwrap(), 10);
    assert_eq!(t.dep(1).unwrap(), 15);
    assert_eq!(t.arr(2).unwrap(), 30);
    let looked = t.stop_time(0).unwrap();
    assert_eq!(looked.stop, 0);
    assert_eq!(looked.departure_time, 0);
}

#[test]
fn trip_stop_time_first_occurrence() {
    // a loop trip visiting stop 0 twice: lookups find the first visit
    let t = trip("loop", vec![st(0, 0, 5), st(1, 10, 15), st(0, 20, 25)]);
    assert_eq!(t.arr(0).unwrap(), 0);
    assert_eq!(t.dep(0).unwrap(), 5);
}

#[test]
fn trip_missing_stop_is_diagnosed() {
    let t = trip("t1", vec![st(0, 0, 0), st(1, 10, 15)]);
    let e = t.arr(9).unwrap_err();
    match e {
        ProcessingError::NoStopOnTrip { stop_id, trip_id } => {
            assert_eq!(stop_id, 9);
            assert_eq!(trip_id, "t1");
        },
        _ => panic!("wrong error: {:?}", e),
    }
}

#[test]
fn route_stops_follow_first_trip() {
    let r = abc_route();
    assert_eq!(r.stops(), vec![0, 1, 2]);
    let (parent, fingerprint) = r.id();
    assert_eq!(parent, "R");
    assert_eq!(fingerprint, vec![0, 1, 2]);
}

#[test]
fn route_without_trips_has_no_stops() {
    let r = Route {
        parent_id: "R".to_string(),
        parent_name: "line".to_string(),
        group_id: vec![],
        trips: vec![],
    };
    assert_eq!(r.stops(), Vec::<usize>::new());
}

#[test]
fn route_equality_is_by_identity() {
    let a = abc_route();
    let mut b = abc_route();
    b.trips = vec![trip("other", vec![st(0, 1, 1), st(1, 2, 2), st(2, 3, 3)])];
    assert!(a == b, "same parent and fingerprint must be the same route");
    let mut c = abc_route();
    c.group_id = vec![0, 2];
    assert!(a != c, "different fingerprints are different routes");
}

#[test]
fn raw_route_equality_is_by_id() {
    let a = RawRoute { id: "R".to_string(), name: "x".to_string(), trips: vec![] };
    let b = RawRoute { id: "R".to_string(), name: "y".to_string(), trips: vec![] };
    let c = RawRoute { id: "S".to_string(), name: "x".to_string(), trips: vec![] };
    assert!(a == b);
    assert!(a != c);
}

#[test]
fn precedes_follows_route_order() {
    let r = abc_route();
    assert_eq!(precedes(0, 2, &r).unwrap(), true);
    assert_eq!(precedes(2, 0, &r).unwrap(), false);
    assert_eq!(precedes(1, 1, &r).unwrap(), false);
}

#[test]
fn precedes_rejects_stray_stop() {
    let r = abc_route();
    let e = precedes(9, 0, &r).unwrap_err();
    match e {
        ProcessingError::NoStopOnRoute { stop_id, route_id, group_id } => {
            assert_eq!(stop_id, 9);
            assert_eq!(route_id, "R");
            assert_eq!(group_id, vec![0, 1, 2]);
        },
        _ => panic!("wrong error: {:?}", e),
    }
}

#[test]
fn splitting_separates_distinct_patterns() {
    // two trips share a pattern, one branches: exactly two logical routes
    let raw = RawRoute {
        id: "R".to_string(),
        name: "line".to_string(),
        trips: vec![
            trip("t1", vec![st(0, 0, 0), st(1, 10, 10)]),
            trip("t2", vec![st(0, 0, 0), st(2, 20, 20)]),
            trip("t3", vec![st(0, 5, 5), st(1, 15, 15)]),
        ],
    };
    let routes = raw.routes();
    assert_eq!(routes.len(), 2);
    assert_eq!(routes[0].group_id, vec![0, 1]);
    assert_eq!(routes[0].trips.len(), 2);
    assert_eq!(routes[0].trips[0].id, "t1");
    assert_eq!(routes[0].trips[1].id, "t3");
    assert_eq!(routes[0].parent_id, "R");
    assert_eq!(routes[1].group_id, vec![0, 2]);
    assert_eq!(routes[1].trips.len(), 1);
    assert_eq!(routes[1].trips[0].id, "t2");
}

#[test]
fn splitting_merges_identical_patterns() {
    let raw = RawRoute {
        id: "R".to_string(),
        name: "line".to_string(),
        trips: vec![
            trip("t1", vec![st(0, 0, 0), st(1, 10, 10)]),
            trip("t2", vec![st(0, 2, 2), st(1, 12, 12)]),
        ],
    };
    let routes = raw.routes();
    assert_eq!(routes.len(), 1);
    assert_eq!(routes[0].trips.len(), 2);
}

#[test]
fn trip_groups_keep_first_seen_order() {
    let raw = RawRoute {
        id: "R".to_string(),
        name: "line".to_string(),
        trips: vec![
            trip("t1", vec![st(3, 0, 0)]),
            trip("t2", vec![st(5, 0, 0)]),
            trip("t3", vec![st(3, 9, 9)]),
        ],
    };
    let groups = raw.trip_groups();
    assert_eq!(groups.len(), 2);
    assert_eq!(groups[0].0, vec![3]);
    assert_eq!(groups[0].1.len(), 2);
    assert_eq!(groups[1].0, vec![5]);
    assert_eq!(groups[1].1.len(), 1);
}

#[test]
fn enqueue_deduplicates_per_route() {
    // both marked stops lie on the route: one task, at the earlier stop
    let routes = vec![abc_route()];
    let marked = vec![1, 0];
    let q = Queue::enqueue(&marked, &routes);
    let items = q.as_vec();
    assert_eq!(items.len(), 1);
    assert_eq!(items[0], QueueItem { route: 0, hop_stop: 0 });
}

#[test]
fn enqueue_covers_each_affected_route() {
    let mut second = abc_route();
    second.parent_id = "S".to_string();
    second.group_id = vec![1, 2];
    second.trips = vec![trip("t9", vec![st(1, 0, 0), st(2, 9, 9)])];
    let routes = vec![abc_route(), second];
    let q = Queue::enqueue(&vec![1], &routes);
    let items = q.as_vec();
    assert_eq!(items.len(), 2);
    assert_eq!(items[0], QueueItem { route: 0, hop_stop: 1 });
    assert_eq!(items[1], QueueItem { route: 1, hop_stop: 1 });
}

#[test]
fn enqueue_skips_unrelated_routes() {
    let routes = vec![abc_route()];
    let q = Queue::enqueue(&vec![7], &routes);
    assert_eq!(q.as_vec().len(), 0);
}

#[test]
fn queue_insert_keeps_earlier_hop() {
    let routes = vec![abc_route()];
    let mut q = Queue { items: vec![] };
    q.insert(QueueItem { route: 0, hop_stop: 2 }, &routes).unwrap();
    q.insert(QueueItem { route: 0, hop_stop: 1 }, &routes).unwrap();
    assert_eq!(q.as_vec(), vec![QueueItem { route: 0, hop_stop: 1 }]);
    // a later hop does not displace an earlier one
    q.insert(QueueItem { route: 0, hop_stop: 2 }, &routes).unwrap();
    assert_eq!(q.as_vec(), vec![QueueItem { route: 0, hop_stop: 1 }]);
}

#[test]
fn queue_insert_rejects_stray_hop() {
    // a hop that cannot be located on the route is rejected up front,
    // whether or not the route is already queued
    let routes = vec![abc_route()];
    let mut q = Queue { items: vec![] };
    let e = q.insert(QueueItem { route: 0, hop_stop: 9 }, &routes).unwrap_err();
    match e {
        ProcessingError::NoStopOnRoute { stop_id, route_id, group_id } => {
            assert_eq!(stop_id, 9);
            assert_eq!(route_id, "R");
            assert_eq!(group_id, vec![0, 1, 2]);
        },
        other => panic!("wrong error: {:?}", other),
    }
    assert_eq!(q.as_vec().len(), 0, "a rejected task must not be queued");
    q.insert(QueueItem { route: 0, hop_stop: 1 }, &routes).unwrap();
    let e2 = q.insert(QueueItem { route: 0, hop_stop: 9 }, &routes).unwrap_err();
    assert!(matches!(e2, ProcessingError::NoStopOnRoute { .. }));
    assert_eq!(q.as_vec(), vec![QueueItem { route: 0, hop_stop: 1 }]);
}

#[test]
fn queue_item_stops_are_the_tail() {
    let routes = vec![abc_route()];
    let item = QueueItem { route: 0, hop_stop: 1 };
    assert_eq!(item.stops(&routes).unwrap(), vec![1, 2]);
}

#[test]
fn queue_item_stray_hop_is_diagnosed() {
    // a hop absent from the route is an inconsistency, never a silent
    // empty scan
    let routes = vec![abc_route()];
    let stray = QueueItem { route: 0, hop_stop: 9 };
    let e = stray.stops(&routes).unwrap_err();
    match e {
        ProcessingError::NoStopOnRoute { stop_id, route_id, group_id } => {
            assert_eq!(stop_id, 9);
            assert_eq!(route_id, "R");
            assert_eq!(group_id, vec![0, 1, 2]);
        },
        other => panic!("wrong error: {:?}", other),
    }
}

#[test]
fn stop_records_carry_display_data() {
    let s = named_stop("halt");
    assert_eq!(s.id, "halt");
    assert_eq!(s.name, "halt");
}
