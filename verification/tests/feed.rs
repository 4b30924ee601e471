use std::collections::HashSet;

use csv::StringRecord;
use transit_csa::connection_scan::is_departure_ordered;
use transit_csa::feed::{
    active_trips, holds, parse_transfer_line, parse_transfer_line_checked, rail_routes,
    rail_stop_time, rail_stop_time_checked, rail_trips, running_connections, transfer_records, transfer_table, trip_ids,
};
use transit_csa::models::gtfs::{RecordError, Route, RouteType, StopTime, Transfer, Trip};
use transit_csa::models::{CSTime, Connection};
use transit_csa::names::Names;

fn line(fields: &[&str]) -> StringRecord {
    StringRecord::from(fields.to_vec())
}

fn route(id: &str, route_type: RouteType) -> Route {
    Route {
        id: id.to_string(),
        agency_id: String::new(),
        route_short_name: String::new(),
        route_long_name: String::new(),
        route_type,
    }
}

fn trip(id: &str, route_id: &str) -> Trip {
    Trip {
        id: id.to_string(),
        route_id: route_id.to_string(),
        service_id: format!("service of {}", id),
        trip_headsign: String::new(),
        trip_short_name: String::new(),
        trip_long_name: String::new(),
    }
}

fn pair(from: &str, to: &str) -> (String, String) {
    (from.to_string(), to.to_string())
}

fn names_of(texts: &[&str]) -> Names {
    let mut names = Names::new();
    for text in texts {
        names.number(text);
    }
    names
}

#[test]
fn a_transfer_line_gives_a_walk() {
    assert_eq!(parse_transfer_line(line(&["A", "B", "", "", "", "", "2"])), Some(pair("A", "B")));
    for code in ["0", "1", "2", "4", "5"] {
        assert_eq!(
            parse_transfer_line(line(&["10", "20", "", "", "", "", code])),
            Some(pair("10", "20"))
        );
        assert_eq!(
            parse_transfer_line_checked(line(&["10", "20", "", "", "", "", code])),
            Ok(Some(pair("10", "20")))
        );
    }
}

#[test]
fn a_transfer_line_without_a_walk_gives_none() {
    for code in ["3", "6", "", " 2", "02"] {
        assert_eq!(parse_transfer_line(line(&["10", "20", "", "", "", "", code])), None);
        assert_eq!(
            parse_transfer_line_checked(line(&["10", "20", "", "", "", "", code])),
            Ok(None)
        );
    }
}

#[test]
fn a_transfer_line_that_is_too_short_is_refused() {
    assert_eq!(
        parse_transfer_line_checked(line(&["10", "20", "", "", "", ""])),
        Err(RecordError::MissingField(6))
    );
    assert_eq!(parse_transfer_line_checked(line(&[])), Err(RecordError::MissingField(6)));
}

#[test]
fn rail_routes_are_picked() {
    let routes = vec![
        route("R1", RouteType::BUS),
        route("R2", RouteType::RAIL),
        route("R3", RouteType::METRO),
        route("R4", RouteType::RAIL),
        route("R2", RouteType::RAIL),
    ];
    let rail = rail_routes(&routes);
    assert_eq!(rail.len(), 2);
    assert!(rail.contains("R2"));
    assert!(rail.contains("R4"));
    assert!(!rail.contains("R1"));
    assert!(!rail.contains("R3"));
    assert_eq!(rail_routes(&vec![]).len(), 0);
}

#[test]
fn trips_on_rail_routes_are_kept_in_order() {
    let routes = names_of(&["R2", "R4"]);
    let trips = vec![
        trip("T10", "R2"),
        trip("T11", "R1"),
        trip("T12", "R4"),
        trip("T13", "R3"),
        trip("T14", "R2"),
    ];
    assert_eq!(
        rail_trips(trips, &routes),
        vec![trip("T10", "R2"), trip("T12", "R4"), trip("T14", "R2")]
    );
    assert_eq!(rail_trips(vec![trip("T1", "R1")], &routes), vec![]);
}

#[test]
fn trip_identifiers_are_collected() {
    let ids = trip_ids(&vec![trip("T10", "R2"), trip("T12", "R4"), trip("T10", "R4")]);
    assert_eq!(ids.len(), 2);
    assert_eq!(ids.find("T10"), Some(0));
    assert_eq!(ids.find("T12"), Some(1));
    assert_eq!(ids.find("T11"), None);
}

#[test]
fn stop_times_of_other_trips_are_passed_over() {
    let trips = names_of(&["T9"]);
    let call = StopTime {
        trip_id: "T9".to_string(),
        stop_sequence: 3,
        stop_id: "S1".to_string(),
        arrival_time: CSTime::new(12, 4, 0),
        departure_time: CSTime::new(12, 6, 30),
    };
    let source = line(&["T9", "3", "S1", "", "12:04:00", "12:06:30"]);
    assert_eq!(rail_stop_time(source.clone(), &trips), Some(call.clone()));
    assert_eq!(rail_stop_time_checked(source, &trips), Ok(Some(call)));
    // A line of a trip that does not run is not read further.
    assert_eq!(rail_stop_time(line(&["T8", "x", "y"]), &trips), None);
    assert_eq!(rail_stop_time_checked(line(&["T8", "x", "y"]), &trips), Ok(None));
    assert_eq!(
        rail_stop_time_checked(line(&["T9", "x", "S1", "", "12:04:00", "12:06:30"]), &trips),
        Err(RecordError::InvalidField(1))
    );
    assert_eq!(rail_stop_time_checked(line(&[]), &trips), Err(RecordError::MissingField(0)));
}

#[test]
fn every_stop_has_a_transfer_record() {
    let pairs = vec![pair("A", "B"), pair("A", "A"), pair("B", "A"), pair("E", "E")];
    let stops = vec!["E".to_string(), "D".to_string(), "A".to_string()];
    assert_eq!(
        transfer_records(&stops, &pairs),
        vec![
            Transfer { from_stop: "E".to_string(), to_stops: vec!["E".to_string()] },
            Transfer { from_stop: "D".to_string(), to_stops: vec![] },
            Transfer {
                from_stop: "A".to_string(),
                to_stops: vec!["B".to_string(), "A".to_string()]
            },
        ]
    );
    // A stop that is listed twice has its record twice, and walks are listed once.
    let twice = vec!["A".to_string(), "A".to_string()];
    let doubled = vec![pair("A", "B"), pair("A", "B"), pair("A", "C"), pair("X", "A")];
    let record = Transfer {
        from_stop: "A".to_string(),
        to_stops: vec!["B".to_string(), "C".to_string()],
    };
    assert_eq!(transfer_records(&twice, &doubled), vec![record.clone(), record]);
    // One stop and no transfer line: the stop has a record, with no walk.
    assert_eq!(
        transfer_records(&vec!["S".to_string()], &vec![]),
        vec![Transfer { from_stop: "S".to_string(), to_stops: vec![] }]
    );
}

#[test]
fn a_text_is_looked_for_in_a_list() {
    let texts = vec!["c".to_string(), "a".to_string(), "b".to_string()];
    assert!(holds(&texts, "b"));
    assert!(!holds(&texts, "d"));
    assert!(!holds(&vec![], ""));
}

#[test]
fn trips_of_running_services_are_picked() {
    let trips = vec![trip("T1", "R"), trip("T2", "R"), trip("T3", "R")];
    let services = names_of(&["service of T3", "service of T1", "holiday"]);
    let mut names = names_of(&["T0"]);
    let active = active_trips(&trips, &services, &mut names);
    let expected: HashSet<u64> = vec![1, 3].into_iter().collect();
    assert_eq!(active, expected);
    assert_eq!(names.find("T2"), Some(2));
    assert!(active_trips(&trips, &Names::new(), &mut names).is_empty());
}

#[test]
fn connections_of_running_trips_are_kept_in_order() {
    let hop = |trip: u64, minute: usize| Connection {
        dep_stop: 1,
        arr_stop: 2,
        dep_time: CSTime::new(8, minute, 0),
        arr_time: CSTime::new(9, 0, 0),
        trip,
    };
    let connections = vec![hop(1, 0), hop(2, 5), hop(3, 5), hop(1, 7), hop(2, 9)];
    let trips: HashSet<u64> = vec![1, 3].into_iter().collect();
    let kept = running_connections(&connections, &trips);
    assert_eq!(kept, vec![hop(1, 0), hop(3, 5), hop(1, 7)]);
    assert!(is_departure_ordered(&kept));
    assert_eq!(running_connections(&connections, &HashSet::new()), vec![]);
}

#[test]
fn the_transfer_table_is_numbered() {
    let names = names_of(&["A", "B", "C"]);
    let records = vec![
        Transfer { from_stop: "B".to_string(), to_stops: vec!["B".to_string(), "A".to_string()] },
        Transfer { from_stop: "C".to_string(), to_stops: vec![] },
        Transfer { from_stop: "A".to_string(), to_stops: vec!["C".to_string()] },
    ];
    let table = transfer_table(&records, &names).unwrap();
    assert_eq!(table.len(), 3);
    assert_eq!(table[&0], vec![2]);
    assert_eq!(table[&1], vec![1, 0]);
    assert_eq!(table[&2], Vec::<u64>::new());

    let unknown_from = vec![Transfer { from_stop: "D".to_string(), to_stops: vec![] }];
    assert_eq!(transfer_table(&unknown_from, &names), None);
    let unknown_to =
        vec![Transfer { from_stop: "A".to_string(), to_stops: vec!["D".to_string()] }];
    assert_eq!(transfer_table(&unknown_to, &names), None);
}
