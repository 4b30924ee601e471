use csv::StringRecord;
use transit_csa::models::gtfs::{
    count_field, id_field, text_field, time_field, CalendarDate, Date, ExceptionType,
    LocationType, RecordError, Route, RouteType, Stop, StopTime, TransferType, Trip,
};
use transit_csa::models::CSTime;

fn line(fields: &[&str]) -> StringRecord {
    StringRecord::from(fields.to_vec())
}

#[test]
fn a_stop_is_read() {
    let source = line(&["S1", "", "Utrecht Centraal", "", "", "0", "P1", "", "", "5a"]);
    let stop = Stop {
        id: "S1".to_string(),
        stop_name: "Utrecht Centraal".to_string(),
        location_type: LocationType::STOP,
        parent_station: "P1".to_string(),
        platform_code: "5a".to_string(),
    };
    assert_eq!(Stop::new(source.clone()), stop);
    assert_eq!(Stop::new_checked(source), Ok(stop));
    let station = line(&["stoparea:17", "", "Utrecht", "", "", "1", "", "", "", ""]);
    assert_eq!(Stop::new(station).id, "stoparea:17");
}

#[test]
fn identifiers_are_kept_as_they_are_written() {
    let seven = Stop::new(line(&["7", "", "A", "", "", "0", "", "", "", ""]));
    let padded = Stop::new(line(&["007", "", "A", "", "", "0", "", "", "", ""]));
    let empty = Stop::new(line(&["", "", "A", "", "", "0", "", "", "", ""]));
    assert_eq!(seven.id, "7");
    assert_eq!(padded.id, "007");
    assert_eq!(empty.id, "");
    assert_ne!(seven, padded);
}

#[test]
fn a_stop_with_a_fault_is_refused() {
    let good = ["12", "", "Name", "", "", "1", "parent", "", "", "3"];
    assert!(Stop::new_checked(line(&good)).is_ok());
    assert_eq!(Stop::new_checked(line(&good[..9])), Err(RecordError::MissingField(9)));
    assert_eq!(Stop::new_checked(line(&good[..6])), Err(RecordError::MissingField(6)));
    assert_eq!(Stop::new_checked(line(&good[..2])), Err(RecordError::MissingField(2)));
    assert_eq!(Stop::new_checked(line(&[])), Err(RecordError::MissingField(0)));
    for code in ["5", "", " 0", "00", "stop"] {
        let mut bad_type = good;
        bad_type[5] = code;
        assert_eq!(Stop::new_checked(line(&bad_type)), Err(RecordError::InvalidField(5)));
    }
    // The first fault in the order id, name, type, parent, platform is told.
    assert_eq!(
        Stop::new_checked(line(&["1", "", "Name", "", "", "9"])),
        Err(RecordError::InvalidField(5))
    );
}

#[test]
fn a_trip_is_read() {
    let source = line(&["R1", "SV1", "T9", "", "Amsterdam", "1234", "Intercity"]);
    let trip = Trip {
        id: "T9".to_string(),
        route_id: "R1".to_string(),
        service_id: "SV1".to_string(),
        trip_headsign: "Amsterdam".to_string(),
        trip_short_name: "1234".to_string(),
        trip_long_name: "Intercity".to_string(),
    };
    assert_eq!(Trip::new(source.clone()), trip);
    assert_eq!(Trip::new_checked(source), Ok(trip));
    assert_eq!(Trip::new_checked(line(&["17", "weekday"])), Err(RecordError::MissingField(2)));
    assert_eq!(
        Trip::new_checked(line(&["1", "weekday", "4", "", "", ""])),
        Err(RecordError::MissingField(6))
    );
}

#[test]
fn a_route_is_read() {
    let source = line(&["R1", "NS", "IC", "Intercity", "", "2"]);
    let route = Route {
        id: "R1".to_string(),
        agency_id: "NS".to_string(),
        route_short_name: "IC".to_string(),
        route_long_name: "Intercity".to_string(),
        route_type: RouteType::RAIL,
    };
    assert_eq!(Route::new(source.clone()), route);
    assert_eq!(Route::new_checked(source), Ok(route));
    for code in ["8", "10", "", " 2", "02"] {
        assert_eq!(
            Route::new_checked(line(&["R1", "NS", "IC", "Intercity", "", code])),
            Err(RecordError::InvalidField(5))
        );
    }
    assert_eq!(
        Route::new_checked(line(&["17", "NS", "IC", "Intercity", ""])),
        Err(RecordError::MissingField(5))
    );
}

#[test]
fn a_stop_time_is_read() {
    let source = line(&["T9", "3", "S1", "", "10:10:00", "10:15:00"]);
    let call = StopTime {
        trip_id: "T9".to_string(),
        stop_sequence: 3,
        stop_id: "S1".to_string(),
        arrival_time: CSTime::new(10, 10, 0),
        departure_time: CSTime::new(10, 15, 0),
    };
    assert_eq!(StopTime::new(source.clone()), call);
    assert_eq!(StopTime::new_checked(source), Ok(call));
    assert_eq!(
        StopTime::new_checked(line(&["4001", "three", "2993012", "", "12:04:00", "12:06:30"])),
        Err(RecordError::InvalidField(1))
    );
    assert_eq!(
        StopTime::new_checked(line(&["4001", "3", "2993012", "", "12:04", "12:06:30"])),
        Err(RecordError::InvalidField(4))
    );
    assert_eq!(
        StopTime::new_checked(line(&["4001", "3", "2993012", "", "12:04:00", "noon"])),
        Err(RecordError::InvalidField(5))
    );
    assert_eq!(
        StopTime::new_checked(line(&["4001", "3", "2993012", "", "12:04:00"])),
        Err(RecordError::MissingField(5))
    );
}

#[test]
fn a_calendar_date_is_read() {
    let added = CalendarDate {
        service_id: "weekday".to_string(),
        date: Date { year: 2024, month: 1, day: 31 },
        exception_type: ExceptionType::ADDED,
    };
    assert_eq!(CalendarDate::new(line(&["weekday", "20240131", "1"])), added);
    assert_eq!(CalendarDate::new_checked(line(&["weekday", "20240131", "1"])), Ok(added));
    assert_eq!(
        CalendarDate::new(line(&["weekday", "20231224", "2"])),
        CalendarDate {
            service_id: "weekday".to_string(),
            date: Date { year: 2023, month: 12, day: 24 },
            exception_type: ExceptionType::REMOVED,
        }
    );
}

#[test]
fn a_calendar_date_with_a_fault_is_refused() {
    assert_eq!(
        CalendarDate::new_checked(line(&["weekday", "20240230", "1"])),
        Err(RecordError::InvalidField(1))
    );
    assert_eq!(
        CalendarDate::new_checked(line(&["weekday", "yesterday", "1"])),
        Err(RecordError::InvalidField(1))
    );
    assert_eq!(
        CalendarDate::new_checked(line(&["weekday", "20240131", "3"])),
        Err(RecordError::InvalidField(2))
    );
    assert_eq!(
        CalendarDate::new_checked(line(&["weekday", "20240131"])),
        Err(RecordError::MissingField(2))
    );
    assert_eq!(CalendarDate::new_checked(line(&[])), Err(RecordError::MissingField(0)));
}

#[test]
fn a_calendar_date_is_made_of_its_parts() {
    assert_eq!(
        CalendarDate::from_parts("s", Some((1999, 12, 31)), "2"),
        Ok(CalendarDate {
            service_id: "s".to_string(),
            date: Date { year: 1999, month: 12, day: 31 },
            exception_type: ExceptionType::REMOVED,
        })
    );
    assert_eq!(CalendarDate::from_parts("s", None, "2"), Err(RecordError::InvalidField(1)));
    assert_eq!(CalendarDate::from_parts("s", None, "9"), Err(RecordError::InvalidField(1)));
    assert_eq!(
        CalendarDate::from_parts("s", Some((1999, 12, 31)), ""),
        Err(RecordError::InvalidField(2))
    );
}

#[test]
fn codes_are_read() {
    assert_eq!(ExceptionType::from_code("1"), Some(ExceptionType::ADDED));
    assert_eq!(ExceptionType::from_code("2"), Some(ExceptionType::REMOVED));
    assert_eq!(ExceptionType::from_code("0"), None);
    assert_eq!(ExceptionType::from_code("01"), None);

    let route_types = [
        ("0", RouteType::TRAM),
        ("1", RouteType::METRO),
        ("2", RouteType::RAIL),
        ("3", RouteType::BUS),
        ("4", RouteType::FERRY),
        ("5", RouteType::CABLETRAM),
        ("6", RouteType::AERIALLIFT),
        ("7", RouteType::FUNICULAR),
        ("11", RouteType::TROLLEYBUS),
        ("12", RouteType::MONORAIL),
    ];
    for (code, route_type) in route_types {
        assert_eq!(RouteType::from_code(code), Some(route_type));
    }
    for code in ["", "8", "9", "10", "13", "1 ", "02", "rail"] {
        assert_eq!(RouteType::from_code(code), None);
    }

    let location_types = [
        ("0", LocationType::STOP),
        ("1", LocationType::STATION),
        ("2", LocationType::ENTRANCE),
        ("3", LocationType::GENERIC),
        ("4", LocationType::BOARDINGAREA),
    ];
    for (code, location_type) in location_types {
        assert_eq!(LocationType::from_code(code), Some(location_type));
    }
    assert_eq!(LocationType::from_code("5"), None);
    assert_eq!(LocationType::from_code(""), None);

    let transfer_types = [
        ("0", TransferType::RECOMMENDED),
        ("1", TransferType::TIMED),
        ("2", TransferType::MINIMUMTIME),
        ("3", TransferType::NONE),
        ("4", TransferType::INSEAT),
        ("5", TransferType::REBOARD),
    ];
    for (code, transfer_type) in transfer_types {
        assert_eq!(TransferType::from_code(code), Some(transfer_type));
    }
    assert_eq!(TransferType::from_code("6"), None);
}

#[test]
fn single_fields_are_read() {
    let source = line(&["abc", "42", "10:20:30", "18446744073709551616"]);
    assert_eq!(text_field(&source, 0), Ok("abc"));
    assert_eq!(text_field(&source, 1), Ok("42"));
    assert_eq!(text_field(&source, 5), Err(RecordError::MissingField(5)));
    assert_eq!(id_field(&source, 0), Ok("abc".to_string()));
    assert_eq!(id_field(&source, 3), Ok("18446744073709551616".to_string()));
    assert_eq!(id_field(&source, 9), Err(RecordError::MissingField(9)));
    assert_eq!(count_field(&source, 1), Ok(42));
    assert_eq!(count_field(&source, 2), Err(RecordError::InvalidField(2)));
    assert_eq!(time_field(&source, 2), Ok(CSTime::new(10, 20, 30)));
    assert_eq!(time_field(&source, 1), Err(RecordError::InvalidField(1)));
    assert_eq!(time_field(&source, 7), Err(RecordError::MissingField(7)));
}
