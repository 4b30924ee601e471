use transit_csa::journey::{ride_line, walk_line};
use transit_csa::models::gtfs::{LocationType, Stop};
use transit_csa::models::CSTime;

fn platform(name: &str, code: &str) -> Stop {
    Stop {
        id: "1".to_string(),
        stop_name: name.to_string(),
        location_type: LocationType::STOP,
        parent_station: String::new(),
        platform_code: code.to_string(),
    }
}

#[test]
fn a_ride_is_told_in_one_line() {
    let line = ride_line(
        &platform("Utrecht Centraal", "5a"),
        CSTime::new(12, 4, 0),
        &platform("Amsterdam Zuid", "2"),
        CSTime::new(24, 31, 30),
    );
    assert_eq!(line, "Utrecht Centraal spoor 5a (12:04:00), Amsterdam Zuid spoor 2 (00:31:30)");
}

#[test]
fn a_walk_is_told_in_one_line() {
    let line = walk_line(&platform("Utrecht Centraal", "5a"), &platform("Utrecht Centraal", "7"));
    assert_eq!(line, "Walk from Utrecht Centraal spoor 5a to Utrecht Centraal spoor 7");
}
