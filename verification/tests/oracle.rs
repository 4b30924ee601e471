use std::collections::HashMap;

use transit_csa::connection_scan::{earliest_arrival, is_departure_ordered};
use transit_csa::journey::{find_journey, Leg};
use transit_csa::models::gtfs::{LocationType, Stop};
use transit_csa::models::{CSTime, Connection};
use transit_csa::names::Names;

/// A small generator of numbers that look random and are the same in every run.
struct Dice(u64);

impl Dice {
    fn roll(&mut self, sides: u64) -> u64 {
        self.0 = self.0.wrapping_mul(6364136223846793005).wrapping_add(1442695040888963407);
        (self.0 >> 33) % sides
    }
}

fn minutes(m: u64) -> CSTime {
    CSTime::new((m / 60) as usize, (m % 60) as usize, 0)
}

fn stop(id: u64, group: u64) -> Stop {
    Stop {
        id: format!("platform {}", id),
        stop_name: format!("station {}", group),
        location_type: LocationType::STOP,
        parent_station: String::new(),
        platform_code: String::new(),
    }
}

struct Network {
    stops: Vec<Stop>,
    names: Names,
    transfers: HashMap<u64, Vec<u64>>,
    connections: Vec<Connection>,
}

/// Stops in groups of platforms that are in walking reach of each other, and
/// trips that run through them with every ride taking a minute or more.
fn network(dice: &mut Dice) -> Network {
    let n_stops = 4 + dice.roll(5);
    let groups: Vec<u64> = (0..n_stops).map(|_| dice.roll(n_stops)).collect();
    let stops: Vec<Stop> = (0..n_stops).map(|s| stop(s, groups[s as usize])).collect();
    let mut names = Names::new();
    for (s, stop) in stops.iter().enumerate() {
        assert_eq!(names.number(&stop.id), s as u64);
    }
    let transfers: HashMap<u64, Vec<u64>> = (0..n_stops)
        .map(|s| {
            let reach =
                (0..n_stops).filter(|t| groups[*t as usize] == groups[s as usize]).collect();
            (s, reach)
        })
        .collect();
    let mut connections = Vec::new();
    let n_trips = 2 + dice.roll(8);
    for trip in 0..n_trips {
        let mut at_stop = dice.roll(n_stops);
        let mut clock = 300 + dice.roll(120);
        for _ in 0..(1 + dice.roll(4)) {
            let next = dice.roll(n_stops);
            let dep = clock + 1 + dice.roll(10);
            let arr = dep + 1 + dice.roll(30);
            connections.push(Connection {
                dep_stop: at_stop,
                arr_stop: next,
                dep_time: minutes(dep),
                arr_time: minutes(arr),
                trip,
            });
            at_stop = next;
            clock = arr;
        }
    }
    connections.sort_by(|a, b| a.dep_time.cmp(&b.dep_time));
    Network { stops, names, transfers, connections }
}

/// The earliest arrival found by trying every connection again and again
/// until nothing gets better.
fn by_trying_everything(net: &Network, origin: u64, dest: &Stop, depart: CSTime) -> Option<CSTime> {
    if !net.connections.iter().any(|c| c.dep_time >= depart) {
        return None;
    }
    let mut arrival: HashMap<u64, CSTime> = HashMap::new();
    arrival.insert(origin, depart);
    for s in &net.transfers[&origin] {
        arrival.insert(*s, depart);
    }
    loop {
        let mut better = false;
        for c in &net.connections {
            let in_time = arrival.get(&c.dep_stop).map_or(false, |t| *t <= c.dep_time);
            if !in_time {
                continue;
            }
            let mut reach = net.transfers[&c.arr_stop].clone();
            reach.push(c.arr_stop);
            for s in reach {
                if arrival.get(&s).map_or(true, |t| c.arr_time < *t) {
                    arrival.insert(s, c.arr_time);
                    better = true;
                }
            }
        }
        if !better {
            break;
        }
    }
    net.stops
        .iter()
        .filter(|s| s.id == dest.id || s.stop_name == dest.stop_name)
        .filter_map(|s| arrival.get(&net.names.find(&s.id).unwrap()).copied())
        .min()
}

#[test]
fn the_scan_agrees_with_trying_everything() {
    let mut dice = Dice(20240131);
    let mut answered = 0;
    for _ in 0..300 {
        let net = network(&mut dice);
        assert!(is_departure_ordered(&net.connections));
        for _ in 0..6 {
            let origin = dice.roll(net.stops.len() as u64);
            let dest = net.stops[dice.roll(net.stops.len() as u64) as usize].clone();
            let depart = minutes(290 + dice.roll(200));
            let expected = by_trying_everything(&net, origin, &dest, depart);
            let time = earliest_arrival(
                &net.stops[origin as usize],
                &dest,
                depart,
                &net.stops,
                &net.names,
                &net.transfers,
                &net.connections,
            );
            assert_eq!(time, Ok(expected));
            let journey = find_journey(
                &net.stops[origin as usize],
                &dest,
                depart,
                &net.stops,
                &net.names,
                &net.transfers,
                &net.connections,
            )
            .unwrap();
            assert_eq!(journey.as_ref().map(|j| j.1), expected);
            if let Some((legs, arrival)) = journey {
                answered += 1;
                let mut clock = depart;
                let mut at_stop = None;
                for leg in &legs {
                    match at_stop {
                        None => assert!(
                            leg.start_stop() == origin
                                || net.transfers[&origin].contains(&leg.start_stop())
                        ),
                        Some(s) => assert_eq!(leg.start_stop(), s),
                    }
                    match leg {
                        Leg::Ride(c) => {
                            assert!(net.connections.contains(c));
                            assert!(clock <= c.dep_time);
                            clock = c.arr_time;
                        }
                        Leg::Walk { from, to } => assert!(net.transfers[from].contains(to)),
                    }
                    at_stop = Some(leg.end_stop());
                }
                assert_eq!(clock, arrival);
                let end = at_stop.unwrap_or(origin);
                let last = &net.stops[end as usize];
                assert_eq!(last.stop_name, dest.stop_name);
            }
        }
    }
    assert!(answered > 100);
}
