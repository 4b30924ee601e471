use transit_csa::connection_scan::is_departure_ordered;
use transit_csa::models::gtfs::{StopTime, Trip};
use transit_csa::models::{
    join_calls, number_calls, number_trips, push_hops, sort_calls, trip_calls, CSTime, Call,
    Connection,
};
use transit_csa::names::Names;

fn trip(id: &str) -> Trip {
    Trip {
        id: id.to_string(),
        route_id: "R".to_string(),
        service_id: String::new(),
        trip_headsign: String::new(),
        trip_short_name: String::new(),
        trip_long_name: String::new(),
    }
}

fn stop_time(trip_id: &str, stop_sequence: usize, stop_id: &str, minute: usize) -> StopTime {
    StopTime {
        trip_id: trip_id.to_string(),
        stop_sequence,
        stop_id: stop_id.to_string(),
        arrival_time: CSTime::new(10, minute, 0),
        departure_time: CSTime::new(10, minute + 1, 0),
    }
}

fn call(trip_id: u64, stop_sequence: usize, stop_id: u64, minute: usize) -> Call {
    Call {
        trip_id,
        stop_sequence,
        stop_id,
        arrival_time: CSTime::new(10, minute, 0),
        departure_time: CSTime::new(10, minute + 1, 0),
    }
}

fn hop(dep_stop: u64, arr_stop: u64, dep_minute: usize, arr_minute: usize, trip: u64) -> Connection {
    Connection {
        dep_stop,
        arr_stop,
        dep_time: CSTime::new(10, dep_minute, 0),
        arr_time: CSTime::new(10, arr_minute, 0),
        trip,
    }
}

#[test]
fn connections_join_the_calls_of_each_trip() {
    let trips = vec![trip("T1"), trip("T2"), trip("T3")];
    let stop_times = vec![
        stop_time("T2", 1, "S70", 0),
        stop_time("T1", 2, "S20", 10),
        stop_time("T1", 1, "S10", 0),
        stop_time("T2", 2, "S80", 30),
        stop_time("T1", 3, "S30", 20),
        stop_time("T9", 1, "S99", 0),
    ];
    let mut stops = Names::new();
    let mut trip_names = Names::new();
    let connections =
        Connection::build_connections(&trips, &stop_times, &mut stops, &mut trip_names);
    let stop = |text: &str| stops.find(text).unwrap();
    let t1 = trip_names.find("T1").unwrap();
    let t2 = trip_names.find("T2").unwrap();
    assert_eq!(
        connections,
        vec![
            hop(stop("S10"), stop("S20"), 1, 10, t1),
            hop(stop("S20"), stop("S30"), 11, 20, t1),
            hop(stop("S70"), stop("S80"), 1, 30, t2),
        ]
    );
    assert!(!is_departure_ordered(&connections));
    // Numbers are given in the order in which the identifiers come.
    assert_eq!((stop("S70"), stop("S20"), stop("S10"), stop("S99")), (0, 1, 2, 5));
    assert_eq!((t2, t1, trip_names.find("T9"), trip_names.find("T3")), (0, 1, Some(2), Some(3)));
    assert_eq!(stops.text_of(1), Some("S20"));
    assert_eq!(stops.text_of(6), None);
}

#[test]
fn numbers_that_are_given_stay() {
    let mut stops = Names::new();
    assert_eq!(stops.number("S20"), 0);
    let mut trip_names = Names::new();
    assert_eq!(trip_names.number("T7"), 0);
    let stop_times = vec![stop_time("T1", 1, "S10", 0), stop_time("T1", 2, "S20", 5)];
    let connections =
        Connection::build_connections(&vec![trip("T1")], &stop_times, &mut stops, &mut trip_names);
    assert_eq!(connections, vec![hop(1, 0, 1, 5, 1)]);
    assert_eq!(stops.find("S20"), Some(0));
    assert_eq!(trip_names.find("T7"), Some(0));
}

#[test]
fn texts_that_spell_one_number_are_two_stops() {
    let mut stops = Names::new();
    let mut trip_names = Names::new();
    let stop_times = vec![stop_time("T", 1, "7", 0), stop_time("T", 2, "007", 5)];
    let connections =
        Connection::build_connections(&vec![trip("T")], &stop_times, &mut stops, &mut trip_names);
    assert_eq!(connections.len(), 1);
    assert_ne!(connections[0].dep_stop, connections[0].arr_stop);
}

#[test]
fn a_trip_with_one_call_has_no_connection() {
    let mut stops = Names::new();
    let mut trips = Names::new();
    let one = vec![stop_time("T1", 1, "S10", 0)];
    assert_eq!(Connection::build_connections(&vec![trip("T1")], &one, &mut stops, &mut trips), vec![]);
    assert_eq!(Connection::build_connections(&vec![trip("T1")], &vec![], &mut stops, &mut trips), vec![]);
    assert_eq!(Connection::build_connections(&vec![], &one, &mut stops, &mut trips), vec![]);
}

#[test]
fn records_are_numbered() {
    let mut stops = Names::new();
    let mut trips = Names::new();
    let records = vec![stop_time("T2", 1, "S70", 0), stop_time("T1", 2, "S70", 10)];
    assert_eq!(number_calls(&records, &mut stops, &mut trips), vec![call(0, 1, 0, 0), call(1, 2, 0, 10)]);
    assert_eq!(number_trips(&vec![trip("T1"), trip("T5"), trip("T1")], &mut trips), vec![1, 2, 1]);
    assert_eq!(join_calls(&vec![0, 1], &vec![call(1, 1, 4, 0), call(1, 2, 5, 9)]), vec![hop(4, 5, 1, 9, 1)]);
}

#[test]
fn calls_of_a_trip_are_picked_in_order() {
    let calls = vec![call(2, 1, 70, 0), call(1, 2, 20, 10), call(1, 1, 10, 0)];
    assert_eq!(trip_calls(&calls, 1), vec![call(1, 2, 20, 10), call(1, 1, 10, 0)]);
    assert_eq!(trip_calls(&calls, 3), vec![]);
}

#[test]
fn calls_with_the_same_place_keep_their_order() {
    let calls = vec![
        call(1, 2, 21, 0),
        call(1, 1, 11, 0),
        call(1, 2, 22, 0),
        call(1, 0, 1, 0),
        call(1, 2, 23, 0),
        call(1, 1, 12, 0),
    ];
    assert_eq!(
        sort_calls(&calls),
        vec![
            call(1, 0, 1, 0),
            call(1, 1, 11, 0),
            call(1, 1, 12, 0),
            call(1, 2, 21, 0),
            call(1, 2, 22, 0),
            call(1, 2, 23, 0),
        ]
    );
    assert_eq!(sort_calls(&vec![]), vec![]);
}

#[test]
fn hops_are_appended() {
    let mut out = vec![hop(1, 2, 0, 30, 5)];
    push_hops(&mut out, &vec![]);
    push_hops(&mut out, &vec![call(1, 1, 10, 0)]);
    assert_eq!(out.len(), 1);
    push_hops(&mut out, &vec![call(1, 1, 10, 0), call(1, 2, 20, 5)]);
    assert_eq!(out, vec![hop(1, 2, 0, 30, 5), hop(10, 20, 1, 5, 1)]);
}
