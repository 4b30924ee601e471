//! Rebuilding a journey from the predecessors that a scan recorded.

use crate::connection_scan::{
    asked, earliest_of, footpaths, in_horizon, is_departure_ordered, numbers_asked, settle,
    settled, Predecessor, ScanError,
};
use crate::names::Names;
use crate::models::gtfs::{Stop, StopData};
use crate::models::time::clock_text;
use crate::models::{departure_ordered, CSTime, Connection, StopId};
use std::collections::HashMap;
use vstd::prelude::*;
use vstd::string::StringExecFns;

verus! {

broadcast use vstd::std_specs::hash::group_hash_axioms;

/// One segment of a journey.
#[derive(Debug, Clone, Copy, PartialEq, Eq, Structural)]
pub enum Leg {
    /// A ride on one connection.
    Ride(Connection),
    /// A walk between two stops, which takes no time.
    Walk { from: StopId, to: StopId },
}

impl Leg {
    /// The stop at which the leg starts.
    pub open spec fn start(self) -> StopId {
        match self {
            Leg::Ride(c) => c.dep_stop,
            Leg::Walk { from, to } => from,
        }
    }

    /// The stop at which the leg ends.
    pub open spec fn end(self) -> StopId {
        match self {
            Leg::Ride(c) => c.arr_stop,
            Leg::Walk { from, to } => to,
        }
    }

    /// Gives the stop at which the leg starts.
    pub fn start_stop(&self) -> (s: StopId)
        ensures
            s == self.start(),
    {
        match self {
            Leg::Ride(c) => c.dep_stop,
            Leg::Walk { from, to } => *from,
        }
    }

    /// Gives the stop at which the leg ends.
    pub fn end_stop(&self) -> (s: StopId)
        ensures
            s == self.end(),
    {
        match self {
            Leg::Ride(c) => c.arr_stop,
            Leg::Walk { from, to } => *to,
        }
    }
}

/// The leg that the predecessor `p` of `stop` stands for.
pub open spec fn leg_into(p: Predecessor, stop: StopId) -> Leg {
    match p {
        Predecessor::RideInto(c) => Leg::Ride(c),
        Predecessor::WalkInto(from) => Leg::Walk { from, to: stop },
    }
}

/// The stop from which the predecessor `p` came.
pub open spec fn stop_before(p: Predecessor) -> StopId {
    match p {
        Predecessor::RideInto(c) => c.dep_stop,
        Predecessor::WalkInto(from) => from,
    }
}

/// The legs that lead to `stop`, first leg first, found by following at most
/// `budget` predecessors back to a stop that has none; `None` if `budget`
/// predecessors do not lead to such a stop.
pub open spec fn traced(pred: Map<StopId, Predecessor>, stop: StopId, budget: nat) -> Option<
    Seq<Leg>,
>
    decreases budget,
{
    if !pred.contains_key(stop) {
        Some(Seq::empty())
    } else if budget == 0 {
        None
    } else {
        match traced(pred, stop_before(pred[stop]), (budget - 1) as nat) {
            None => None,
            Some(legs) => Some(legs.push(leg_into(pred[stop], stop))),
        }
    }
}

/// The legs that lead to `dest`. A chain of predecessors that visits more
/// stops than have a predecessor runs in a circle, and gives `None`.
pub open spec fn itinerary(pred: Map<StopId, Predecessor>, dest: StopId) -> Option<Seq<Leg>> {
    traced(pred, dest, pred.dom().len())
}

/// The answer to a journey query: the legs to the destination that is
/// reached earliest, and the time of arrival there.
pub open spec fn journey_of(
    origin: StopId,
    depart: CSTime,
    dests: Seq<StopId>,
    paths: Map<StopId, Seq<StopId>>,
    connections: Seq<Connection>,
) -> Result<Option<(Seq<Leg>, CSTime)>, ScanError> {
    match settled(origin, depart, dests, paths, connections) {
        Err(stop) => Err(ScanError::UnknownStop(stop)),
        Ok(st) => if !in_horizon(connections, depart) {
            Ok(None)
        } else {
            match earliest_of(st.arrival, dests) {
                None => Ok(None),
                Some(d) => match itinerary(st.pred, d) {
                    None => Err(ScanError::PredecessorCycle),
                    Some(legs) => Ok(Some((legs, st.arrival[d]))),
                },
            }
        },
    }
}

/// The answer to a journey query about two stops.
pub open spec fn journey_between(
    dep_stop: Stop,
    arr_stop: Stop,
    depart: CSTime,
    stops: Seq<Stop>,
    names: Seq<Seq<char>>,
    paths: Map<StopId, Seq<StopId>>,
    connections: Seq<Connection>,
) -> Result<Option<(Seq<Leg>, CSTime)>, ScanError> {
    match asked(dep_stop, arr_stop, stops, names) {
        None => Err(ScanError::UnnamedStop),
        Some(numbers) => journey_of(numbers.0, depart, numbers.1, paths, connections),
    }
}

/// What a found journey says, with its legs as a mathematical sequence.
pub open spec fn answer_of(r: Result<Option<(Vec<Leg>, CSTime)>, ScanError>) -> Result<
    Option<(Seq<Leg>, CSTime)>,
    ScanError,
> {
    match r {
        Err(e) => Err(e),
        Ok(None) => Ok(None),
        Ok(Some(found)) => Ok(Some((found.0@, found.1))),
    }
}

/// Follows the predecessors back from `dest` and gives the legs from the
/// stop where the chain starts to `dest`, first leg first.
///
/// A chain that runs in a circle is reported as an error.
pub fn reconstruct(pred: &HashMap<StopId, Predecessor>, dest: StopId) -> (r: Result<
    Vec<Leg>,
    ScanError,
>)
    ensures
        match itinerary(pred@, dest) {
            Some(legs) => r is Ok && r->Ok_0@ == legs,
            None => r == Err::<Vec<Leg>, ScanError>(ScanError::PredecessorCycle),
        },
{
    let budget = pred.len();
    let mut backwards: Vec<Leg> = Vec::new();
    let mut cursor = dest;
    let mut taken: usize = 0;
    loop
        invariant
            taken <= budget,
            budget == pred@.dom().len(),
            backwards.len() == taken,
            itinerary(pred@, dest) == match traced(pred@, cursor, (budget - taken) as nat) {
                None => None::<Seq<Leg>>,
                Some(legs) => Some(legs + backwards@.reverse()),
            },
        decreases budget - taken,
    {
        let p = match pred.get(&cursor) {
            None => {
                proof {
                    assert(Seq::<Leg>::empty() + backwards@.reverse() =~= backwards@.reverse());
                }
                return Ok(forwards(&backwards));
            },
            Some(p) => *p,
        };
        if taken == budget {
            return Err(ScanError::PredecessorCycle);
        }
        let (leg, before) = match p {
            Predecessor::RideInto(c) => (Leg::Ride(c), c.dep_stop),
            Predecessor::WalkInto(from) => (Leg::Walk { from, to: cursor }, from),
        };
        proof {
            let rest = traced(pred@, before, (budget - taken - 1) as nat);
            if rest is Some {
                let legs = rest->0;
                assert(legs.push(leg) + backwards@.reverse() =~= legs + backwards@.push(
                    leg,
                ).reverse());
            }
        }
        backwards.push(leg);
        cursor = before;
        taken += 1;
    }
}

/// Gives the legs of `backwards` in the opposite order.
pub fn forwards(backwards: &Vec<Leg>) -> (legs: Vec<Leg>)
    ensures
        legs@ == backwards@.reverse(),
{
    let mut legs: Vec<Leg> = Vec::new();
    let mut k: usize = backwards.len();
    while k > 0
        invariant
            k <= backwards.len(),
            legs.len() == backwards.len() - k,
            forall|i: int| 0 <= i < legs.len() ==> legs[i] == backwards[backwards.len() - 1 - i],
        decreases k,
    {
        k -= 1;
        legs.push(backwards[k]);
    }
    proof {
        assert(legs@ =~= backwards@.reverse());
    }
    legs
}

/// Finds the journey that brings a traveller who leaves `dep_stop` at
/// `dep_time` earliest to `arr_stop` or to another platform of that name:
/// its legs in order, and the time of arrival.
///
/// `names` gives the numbers under which `transfers` and `connections` know
/// the stops. `connections` must be ordered by departure time. The answer is
/// `None` when no destination is reached or no connection departs at
/// `dep_time` or later. A stop without transfer entry that the scan comes to
/// walk on from is an error, and so are predecessors that lead around in a
/// circle and a query about a stop without number.
pub fn find_journey(
    dep_stop: &Stop,
    arr_stop: &Stop,
    dep_time: CSTime,
    stops: &Vec<Stop>,
    names: &Names,
    transfers: &HashMap<StopId, Vec<StopId>>,
    connections: &Vec<Connection>,
) -> (r: Result<Option<(Vec<Leg>, CSTime)>, ScanError>)
    requires
        departure_ordered(connections@),
    ensures
        answer_of(r) == journey_between(
            *dep_stop,
            *arr_stop,
            dep_time,
            stops@,
            names@,
            footpaths(transfers@),
            connections@,
        ),
{
    let (origin, dests) = match numbers_asked(dep_stop, arr_stop, stops, names) {
        None => {
            return Err(ScanError::UnnamedStop);
        },
        Some(numbers) => numbers,
    };
    match settle(origin, dep_time, &dests, transfers, connections) {
        Err(e) => Err(e),
        Ok(None) => Ok(None),
        Ok(Some(tables)) => match tables.earliest(&dests) {
            None => Ok(None),
            Some((dest, time)) => match reconstruct(&tables.pred, dest) {
                Err(e) => Err(e),
                Ok(legs) => Ok(Some((legs, time))),
            },
        },
    }
}

/// Answers like [`find_journey`], for connections in any order: it looks
/// first whether they are ordered by departure time, and refuses them if
/// they are not.
pub fn find_journey_checked(
    dep_stop: &Stop,
    arr_stop: &Stop,
    dep_time: CSTime,
    stops: &Vec<Stop>,
    names: &Names,
    transfers: &HashMap<StopId, Vec<StopId>>,
    connections: &Vec<Connection>,
) -> (r: Result<Option<(Vec<Leg>, CSTime)>, ScanError>)
    ensures
        answer_of(r) == if departure_ordered(connections@) {
            journey_between(
                *dep_stop,
                *arr_stop,
                dep_time,
                stops@,
                names@,
                footpaths(transfers@),
                connections@,
            )
        } else {
            Err(ScanError::MalformedInput)
        },
{
    if is_departure_ordered(connections) {
        find_journey(dep_stop, arr_stop, dep_time, stops, names, transfers, connections)
    } else {
        Err(ScanError::MalformedInput)
    }
}

/// The line that tells of a ride: where and when it starts, where and when
/// it ends, each stop with its name and platform.
pub open spec fn ride_text(
    dep_stop: StopData,
    dep_time: CSTime,
    arr_stop: StopData,
    arr_time: CSTime,
) -> Seq<char> {
    dep_stop.stop_name + " spoor "@ + dep_stop.platform_code + " ("@ + clock_text(dep_time)
        + "), "@ + arr_stop.stop_name + " spoor "@ + arr_stop.platform_code + " ("@ + clock_text(
        arr_time,
    ) + ")"@
}

/// The line that tells of a walk: from which stop to which, each with its
/// name and platform.
pub open spec fn walk_text(from: StopData, to: StopData) -> Seq<char> {
    "Walk from "@ + from.stop_name + " spoor "@ + from.platform_code + " to "@ + to.stop_name
        + " spoor "@ + to.platform_code
}

/// Writes the line that tells of a ride from `dep_stop` at `dep_time` to
/// `arr_stop` at `arr_time`.
pub fn ride_line(dep_stop: &Stop, dep_time: CSTime, arr_stop: &Stop, arr_time: CSTime) -> (line:
    String)
    ensures
        line@ == ride_text(dep_stop@, dep_time, arr_stop@, arr_time),
{
    let mut line = String::new();
    line.append(dep_stop.stop_name.as_str());
    line.append(" spoor ");
    line.append(dep_stop.platform_code.as_str());
    line.append(" (");
    line.append(dep_time.to_string().as_str());
    line.append("), ");
    line.append(arr_stop.stop_name.as_str());
    line.append(" spoor ");
    line.append(arr_stop.platform_code.as_str());
    line.append(" (");
    line.append(arr_time.to_string().as_str());
    line.append(")");
    proof {
        assert(line@ =~= ride_text(dep_stop@, dep_time, arr_stop@, arr_time));
    }
    line
}

/// Writes the line that tells of a walk from `from` to `to`.
pub fn walk_line(from: &Stop, to: &Stop) -> (line: String)
    ensures
        line@ == walk_text(from@, to@),
{
    let mut line = String::new();
    line.append("Walk from ");
    line.append(from.stop_name.as_str());
    line.append(" spoor ");
    line.append(from.platform_code.as_str());
    line.append(" to ");
    line.append(to.stop_name.as_str());
    line.append(" spoor ");
    line.append(to.platform_code.as_str());
    proof {
        assert(line@ =~= walk_text(from@, to@));
    }
    line
}

} // verus!
