use std::collections::HashMap;

use transit_csa::connection_scan::{earliest_arrival, earliest_arrival_checked, ScanError};
use transit_csa::journey::{find_journey, find_journey_checked, Leg};
use transit_csa::models::gtfs::{LocationType, Stop};
use transit_csa::models::{CSTime, Connection};
use transit_csa::names::Names;

fn stop(id: u64, name: &str) -> Stop {
    Stop {
        id: id.to_string(),
        stop_name: name.to_string(),
        location_type: LocationType::STOP,
        parent_station: String::new(),
        platform_code: String::new(),
    }
}

/// Names under which the stop written `k` has the number `k`.
fn names() -> Names {
    let mut names = Names::new();
    for k in 0..10 {
        assert_eq!(names.number(&k.to_string()), k);
    }
    names
}

fn at(hours: usize, minutes: usize) -> CSTime {
    CSTime::new(hours, minutes, 0)
}

fn hop(dep_stop: u64, arr_stop: u64, dep_time: CSTime, arr_time: CSTime, trip: u64) -> Connection {
    Connection { dep_stop, arr_stop, dep_time, arr_time, trip }
}

fn own_platform_only(ids: &[u64]) -> HashMap<u64, Vec<u64>> {
    ids.iter().map(|id| (*id, vec![*id])).collect()
}

#[test]
fn one_trip_over_three_stops() {
    let (x, y, z) = (stop(1, "X"), stop(2, "Y"), stop(3, "Z"));
    let stops = vec![x.clone(), y.clone(), z.clone()];
    let transfers = own_platform_only(&[1, 2, 3]);
    let first = hop(1, 2, at(10, 0), at(10, 10), 7);
    let second = hop(2, 3, at(10, 15), at(10, 30), 7);
    let connections = vec![first, second];

    let time = earliest_arrival(&x, &z, at(9, 50), &stops, &names(), &transfers, &connections);
    assert_eq!(time, Ok(Some(at(10, 30))));

    let journey = find_journey(&x, &z, at(9, 50), &stops, &names(), &transfers, &connections);
    assert_eq!(journey, Ok(Some((vec![Leg::Ride(first), Leg::Ride(second)], at(10, 30)))));
}

#[test]
fn walk_to_the_neighbouring_platform_first() {
    let (x1, x2, y) = (stop(1, "X"), stop(2, "X"), stop(3, "Y"));
    let stops = vec![x1.clone(), x2.clone(), y.clone()];
    let mut transfers = own_platform_only(&[1, 2, 3]);
    transfers.insert(1, vec![1, 2]);
    let ride = hop(2, 3, at(9, 5), at(9, 20), 4);
    let connections = vec![ride];

    let time = earliest_arrival(&x1, &y, at(9, 0), &stops, &names(), &transfers, &connections);
    assert_eq!(time, Ok(Some(at(9, 20))));

    let journey = find_journey(&x1, &y, at(9, 0), &stops, &names(), &transfers, &connections);
    assert_eq!(journey, Ok(Some((vec![Leg::Ride(ride)], at(9, 20)))));
}

#[test]
fn the_trip_that_is_too_tight_is_not_taken() {
    let (a, b, c) = (stop(1, "A"), stop(2, "B"), stop(3, "C"));
    let stops = vec![a.clone(), b.clone(), c.clone()];
    let transfers = own_platform_only(&[1, 2, 3]);
    let feeder = hop(1, 2, at(8, 0), at(8, 30), 10);
    let too_early = hop(2, 3, at(8, 20), at(8, 50), 20);
    let in_time = hop(2, 3, at(8, 40), at(9, 10), 30);
    let connections = vec![feeder, too_early, in_time];

    let time = earliest_arrival(&a, &c, at(7, 55), &stops, &names(), &transfers, &connections);
    assert_eq!(time, Ok(Some(at(9, 10))));

    let journey = find_journey(&a, &c, at(7, 55), &stops, &names(), &transfers, &connections);
    assert_eq!(journey, Ok(Some((vec![Leg::Ride(feeder), Leg::Ride(in_time)], at(9, 10)))));
}

#[test]
fn no_path_gives_none() {
    let (a, b, c) = (stop(1, "A"), stop(2, "B"), stop(3, "C"));
    let stops = vec![a.clone(), b.clone(), c.clone()];
    let transfers = own_platform_only(&[1, 2, 3]);
    let connections = vec![hop(1, 2, at(8, 0), at(8, 30), 10)];

    assert_eq!(earliest_arrival(&a, &c, at(7, 0), &stops, &names(), &transfers, &connections), Ok(None));
    assert_eq!(find_journey(&a, &c, at(7, 0), &stops, &names(), &transfers, &connections), Ok(None));
}

#[test]
fn missing_transfer_entry_is_reported() {
    let (a, b) = (stop(1, "A"), stop(2, "B"));
    let stops = vec![a.clone(), b.clone()];
    let transfers = own_platform_only(&[1]);
    let connections = vec![hop(1, 2, at(8, 0), at(8, 30), 10)];

    assert_eq!(
        earliest_arrival(&a, &b, at(7, 0), &stops, &names(), &transfers, &connections),
        Err(ScanError::UnknownStop(2))
    );
    assert_eq!(
        earliest_arrival(&b, &a, at(7, 0), &stops, &names(), &transfers, &connections),
        Err(ScanError::UnknownStop(2))
    );
}

#[test]
fn fastest_of_three_ways_is_found() {
    // A to D: direct but slow, over B, or over C. The way over C arrives first.
    let (a, b, c, d) = (stop(1, "A"), stop(2, "B"), stop(3, "C"), stop(4, "D"));
    let stops = vec![a.clone(), b.clone(), c.clone(), d.clone()];
    let transfers = own_platform_only(&[1, 2, 3, 4]);
    let direct = hop(1, 4, at(8, 0), at(11, 0), 1);
    let to_b = hop(1, 2, at(8, 5), at(8, 30), 2);
    let to_c = hop(1, 3, at(8, 10), at(8, 40), 3);
    let b_to_d = hop(2, 4, at(8, 45), at(10, 0), 4);
    let c_to_d = hop(3, 4, at(8, 50), at(9, 30), 5);
    let connections = vec![direct, to_b, to_c, b_to_d, c_to_d];

    let time = earliest_arrival(&a, &d, at(8, 0), &stops, &names(), &transfers, &connections);
    assert_eq!(time, Ok(Some(at(9, 30))));
    let journey = find_journey(&a, &d, at(8, 0), &stops, &names(), &transfers, &connections);
    assert_eq!(journey, Ok(Some((vec![Leg::Ride(to_c), Leg::Ride(c_to_d)], at(9, 30)))));
}

#[test]
fn departures_after_the_answer_change_nothing() {
    let (a, b, c) = (stop(1, "A"), stop(2, "B"), stop(3, "C"));
    let stops = vec![a.clone(), b.clone(), c.clone()];
    let transfers = own_platform_only(&[1, 2, 3]);
    let first = hop(1, 2, at(8, 0), at(8, 30), 10);
    let second = hop(2, 3, at(8, 40), at(9, 10), 30);
    let later = hop(1, 3, at(9, 20), at(9, 25), 40);
    let much_later = hop(2, 3, at(12, 0), at(12, 5), 50);
    let all = vec![first, second, later, much_later];
    let cut = vec![first, second];

    let with_all = find_journey(&a, &c, at(7, 55), &stops, &names(), &transfers, &all);
    let with_cut = find_journey(&a, &c, at(7, 55), &stops, &names(), &transfers, &cut);
    assert_eq!(with_all, Ok(Some((vec![Leg::Ride(first), Leg::Ride(second)], at(9, 10)))));
    assert_eq!(with_all, with_cut);
    assert_eq!(
        earliest_arrival(&a, &c, at(7, 55), &stops, &names(), &transfers, &all),
        earliest_arrival(&a, &c, at(7, 55), &stops, &names(), &transfers, &cut)
    );
}

#[test]
fn asking_twice_gives_the_same_answer() {
    let (a, b) = (stop(1, "A"), stop(2, "B"));
    let stops = vec![a.clone(), b.clone()];
    let transfers = own_platform_only(&[1, 2]);
    let one = hop(1, 2, at(8, 0), at(8, 30), 10);
    let other = hop(1, 2, at(8, 0), at(8, 30), 11);
    let connections = vec![one, other];

    let first = find_journey(&a, &b, at(8, 0), &stops, &names(), &transfers, &connections);
    let second = find_journey(&a, &b, at(8, 0), &stops, &names(), &transfers, &connections);
    assert_eq!(first, second);
    // Of two rides that arrive at the same time, the one scanned first stays.
    assert_eq!(first, Ok(Some((vec![Leg::Ride(one)], at(8, 30)))));
}

#[test]
fn a_walk_between_two_rides_is_a_leg() {
    let (a, b1, b2, c) = (stop(1, "A"), stop(2, "B"), stop(3, "B"), stop(4, "C"));
    let stops = vec![a.clone(), b1.clone(), b2.clone(), c.clone()];
    let mut transfers = own_platform_only(&[1, 2, 3, 4]);
    transfers.insert(2, vec![2, 3]);
    let first = hop(1, 2, at(9, 0), at(9, 10), 1);
    let second = hop(3, 4, at(9, 15), at(9, 40), 2);
    let connections = vec![first, second];

    let journey = find_journey(&a, &c, at(8, 30), &stops, &names(), &transfers, &connections);
    assert_eq!(
        journey,
        Ok(Some((
            vec![Leg::Ride(first), Leg::Walk { from: 2, to: 3 }, Leg::Ride(second)],
            at(9, 40)
        )))
    );
}

#[test]
fn any_platform_of_the_destination_counts() {
    let (a, b1, b2) = (stop(1, "A"), stop(2, "B"), stop(3, "B"));
    let stops = vec![a.clone(), b1.clone(), b2.clone()];
    let transfers = own_platform_only(&[1, 2, 3]);
    let to_second_platform = hop(1, 3, at(9, 0), at(9, 10), 1);
    let to_first_platform = hop(1, 2, at(9, 5), at(9, 30), 2);
    let connections = vec![to_second_platform, to_first_platform];

    let journey = find_journey(&a, &b1, at(8, 30), &stops, &names(), &transfers, &connections);
    assert_eq!(journey, Ok(Some((vec![Leg::Ride(to_second_platform)], at(9, 10)))));
    assert_eq!(
        earliest_arrival(&a, &b1, at(8, 30), &stops, &names(), &transfers, &connections),
        Ok(Some(at(9, 10)))
    );
}

#[test]
fn nothing_departs_after_the_departure_time() {
    let (a, b) = (stop(1, "A"), stop(2, "B"));
    let stops = vec![a.clone(), b.clone()];
    let transfers = own_platform_only(&[1, 2]);
    let connections = vec![hop(1, 2, at(8, 0), at(8, 30), 10)];

    assert_eq!(earliest_arrival(&a, &b, at(8, 1), &stops, &names(), &transfers, &connections), Ok(None));
    assert_eq!(find_journey(&a, &b, at(8, 1), &stops, &names(), &transfers, &connections), Ok(None));
    assert_eq!(earliest_arrival(&a, &b, at(8, 0), &stops, &names(), &transfers, &vec![]), Ok(None));
    // Not even for a traveller who is at the destination already.
    assert_eq!(earliest_arrival(&a, &a, at(8, 1), &stops, &names(), &transfers, &connections), Ok(None));
    assert_eq!(earliest_arrival(&a, &a, at(8, 0), &stops, &names(), &transfers, &connections), Ok(Some(at(8, 0))));
}

#[test]
fn staying_where_one_is_takes_no_leg() {
    let (a, b) = (stop(1, "A"), stop(2, "B"));
    let stops = vec![a.clone(), b.clone()];
    let transfers = own_platform_only(&[1, 2]);
    let connections = vec![hop(1, 2, at(8, 0), at(8, 30), 10)];

    assert_eq!(
        find_journey(&a, &a, at(7, 0), &stops, &names(), &transfers, &connections),
        Ok(Some((vec![], at(7, 0))))
    );
}

#[test]
fn a_boarded_trip_is_ridden_on() {
    // The traveller cannot reach B on foot, but stays on trip 1 through it.
    let (a, b, c) = (stop(1, "A"), stop(2, "B"), stop(3, "C"));
    let stops = vec![a.clone(), b.clone(), c.clone()];
    let transfers = own_platform_only(&[1, 2, 3]);
    let first = hop(1, 2, at(10, 0), at(10, 10), 1);
    let second = hop(2, 3, at(10, 10), at(10, 20), 1);
    let connections = vec![first, second];

    assert_eq!(
        find_journey(&a, &c, at(10, 0), &stops, &names(), &transfers, &connections),
        Ok(Some((vec![Leg::Ride(first), Leg::Ride(second)], at(10, 20))))
    );
}

#[test]
fn the_legs_of_a_journey_join_up() {
    let (a, b1, b2, c, d) =
        (stop(1, "A"), stop(2, "B"), stop(3, "B"), stop(4, "C"), stop(5, "D"));
    let stops = vec![a.clone(), b1.clone(), b2.clone(), c.clone(), d.clone()];
    let mut transfers = own_platform_only(&[1, 2, 3, 4, 5]);
    transfers.insert(2, vec![2, 3]);
    transfers.insert(3, vec![3, 2]);
    let connections = vec![
        hop(1, 2, at(9, 0), at(9, 10), 1),
        hop(3, 4, at(9, 15), at(9, 40), 2),
        hop(4, 5, at(9, 40), at(9, 55), 2),
        hop(1, 5, at(9, 45), at(10, 30), 3),
    ];
    let depart = at(8, 30);
    let (legs, arrival) =
        find_journey(&a, &d, depart, &stops, &names(), &transfers, &connections).unwrap().unwrap();
    assert_eq!(arrival, at(9, 55));
    assert_eq!(legs.len(), 4);
    assert_eq!(legs.first().unwrap().start_stop(), 1);
    assert_eq!(legs.last().unwrap().end_stop(), 5);
    let mut clock = depart;
    for (i, leg) in legs.iter().enumerate() {
        if i + 1 < legs.len() {
            assert_eq!(leg.end_stop(), legs[i + 1].start_stop());
        }
        if let Leg::Ride(c) = leg {
            assert!(clock <= c.dep_time);
            clock = c.arr_time;
        }
    }
    assert_eq!(clock, arrival);
}

#[test]
fn a_vehicle_that_arrives_before_it_leaves_can_close_a_circle() {
    let (a, b, c) = (stop(1, "A"), stop(2, "B"), stop(3, "C"));
    let stops = vec![a.clone(), b.clone(), c.clone()];
    let transfers = own_platform_only(&[1, 2, 3]);
    let there = hop(1, 2, at(9, 0), at(9, 10), 1);
    let back_in_time = hop(2, 1, at(9, 10), at(8, 0), 2);
    let onwards = hop(1, 3, at(9, 20), at(9, 30), 3);
    let connections = vec![there, back_in_time, onwards];

    assert_eq!(
        find_journey(&a, &c, at(9, 0), &stops, &names(), &transfers, &connections),
        Err(ScanError::PredecessorCycle)
    );
    assert_eq!(
        earliest_arrival(&a, &c, at(9, 0), &stops, &names(), &transfers, &connections),
        Ok(Some(at(9, 30)))
    );
}

#[test]
fn connections_out_of_order_are_refused() {
    let (a, b, c) = (stop(1, "A"), stop(2, "B"), stop(3, "C"));
    let stops = vec![a.clone(), b.clone(), c.clone()];
    let transfers = own_platform_only(&[1, 2, 3]);
    let first = hop(1, 2, at(8, 0), at(8, 30), 10);
    let second = hop(2, 3, at(8, 40), at(9, 10), 30);

    let ordered = vec![first, second];
    assert_eq!(
        earliest_arrival_checked(&a, &c, at(7, 55), &stops, &names(), &transfers, &ordered),
        Ok(Some(at(9, 10)))
    );
    assert_eq!(
        find_journey_checked(&a, &c, at(7, 55), &stops, &names(), &transfers, &ordered),
        Ok(Some((vec![Leg::Ride(first), Leg::Ride(second)], at(9, 10))))
    );

    let disordered = vec![second, first];
    assert_eq!(
        earliest_arrival_checked(&a, &c, at(7, 55), &stops, &names(), &transfers, &disordered),
        Err(ScanError::MalformedInput)
    );
    assert_eq!(
        find_journey_checked(&a, &c, at(7, 55), &stops, &names(), &transfers, &disordered),
        Err(ScanError::MalformedInput)
    );
}

#[test]
fn a_stop_without_number_cannot_be_asked_about() {
    let (a, b, elsewhere) = (stop(1, "A"), stop(2, "B"), stop(77, "B"));
    let stops = vec![a.clone(), b.clone(), elsewhere.clone()];
    let transfers = own_platform_only(&[1, 2]);
    let connections = vec![hop(1, 2, at(8, 0), at(8, 30), 10)];

    assert_eq!(
        earliest_arrival(&elsewhere, &b, at(7, 0), &stops, &names(), &transfers, &connections),
        Err(ScanError::UnnamedStop)
    );
    assert_eq!(
        find_journey(&a, &elsewhere, at(7, 0), &stops, &names(), &transfers, &connections),
        Err(ScanError::UnnamedStop)
    );
    // A platform of the destination that has no number is passed over.
    assert_eq!(
        earliest_arrival(&a, &b, at(7, 0), &stops, &names(), &transfers, &connections),
        Ok(Some(at(8, 30)))
    );
}
