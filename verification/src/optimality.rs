//! No journey on the timetable arrives earlier than the scan says.

use crate::connection_scan::{
    earliest_arrival_of, first_departure, improves, in_horizon, reached_by, relaxed, scanned,
    seeded, settled, usable, ScanState,
};
use crate::guarantees::{
    all_well_timed, lemma_earliest_of, lemma_first_departure_range, lemma_scan_only_improves,
    no_later,
};
use crate::journey::Leg;
use crate::models::{departure_ordered, CSTime, Connection, StopId};
use crate::soundness::{clock_after, is_seed};
use vstd::prelude::*;

verus! {

/// Whoever can walk from a first stop to a second, and from the second to a
/// third, can walk from the first to the third.
pub open spec fn walks_are_closed(paths: Map<StopId, Seq<StopId>>) -> bool {
    forall|a: StopId, b: StopId, c: StopId|
        #![trigger paths[a].contains(b), paths[b].contains(c)]
        paths.contains_key(a) && paths[a].contains(b) && paths.contains_key(b) && paths[b].contains(
            c,
        ) ==> paths[a].contains(c)
}

/// `legs` is a journey on the timetable that brings a traveller who sets
/// out at `depart` to `stop`.
///
/// It starts at the origin or at a stop in walking reach of it. Each walk is
/// one of the transfer table. Each ride is a connection of the timetable with
/// an index below `below`, leaves from the stop where the traveller is, no
/// earlier than they are there, and stands in the timetable behind the rides
/// before it.
pub open spec fn leads_to(
    legs: Seq<Leg>,
    stop: StopId,
    origin: StopId,
    depart: CSTime,
    paths: Map<StopId, Seq<StopId>>,
    connections: Seq<Connection>,
    below: int,
) -> bool
    decreases legs.len(),
{
    if legs.len() == 0 {
        is_seed(origin, paths, stop)
    } else {
        match legs.last() {
            Leg::Walk { from, to } => {
                &&& to == stop
                &&& paths.contains_key(from)
                &&& paths[from].contains(to)
                &&& leads_to(legs.drop_last(), from, origin, depart, paths, connections, below)
            },
            Leg::Ride(c) => {
                &&& c.arr_stop == stop
                &&& clock_after(legs.drop_last(), depart).not_after(c.dep_time)
                &&& exists|j: int|
                    0 <= j < below && j < connections.len() && #[trigger] connections[j] == c
                        && leads_to(
                        legs.drop_last(),
                        c.dep_stop,
                        origin,
                        depart,
                        paths,
                        connections,
                        j,
                    )
            },
        }
    }
}

/// From every reached stop that has a transfer entry, every stop in walking
/// reach is reached no later.
pub open spec fn walked_out(st: ScanState, paths: Map<StopId, Seq<StopId>>) -> bool {
    forall|a: StopId, b: StopId|
        #![trigger st.arrival.contains_key(a), paths[a].contains(b)]
        st.arrival.contains_key(a) && paths.contains_key(a) && paths[a].contains(b)
            ==> st.arrival.contains_key(b) && st.arrival[b].not_after(st.arrival[a])
}

/// The watch of a traveller on the timetable never shows a time before they
/// set out.
pub proof fn lemma_clock_runs_on(
    legs: Seq<Leg>,
    stop: StopId,
    origin: StopId,
    depart: CSTime,
    paths: Map<StopId, Seq<StopId>>,
    connections: Seq<Connection>,
    below: int,
)
    requires
        all_well_timed(connections),
        leads_to(legs, stop, origin, depart, paths, connections, below),
    ensures
        depart.not_after(clock_after(legs, depart)),
    decreases legs.len(),
{
    if legs.len() > 0 {
        match legs.last() {
            Leg::Walk { from, to } => {
                lemma_clock_runs_on(
                    legs.drop_last(),
                    from,
                    origin,
                    depart,
                    paths,
                    connections,
                    below,
                );
            },
            Leg::Ride(c) => {
                let j = choose|j: int|
                    0 <= j < below && j < connections.len() && #[trigger] connections[j] == c
                        && leads_to(
                        legs.drop_last(),
                        c.dep_stop,
                        origin,
                        depart,
                        paths,
                        connections,
                        j,
                    );
                assert(connections[j].well_timed());
                lemma_clock_runs_on(
                    legs.drop_last(),
                    c.dep_stop,
                    origin,
                    depart,
                    paths,
                    connections,
                    j,
                );
            },
        }
    }
}

/// Before the first departure at a time or later, everything departs
/// earlier.
pub proof fn lemma_earlier_departures(connections: Seq<Connection>, time: CSTime, from: int)
    requires
        0 <= from,
    ensures
        forall|i: int|
            from <= i < first_departure(connections, time, from) ==> (#[trigger] connections[i])
                .dep_time.before(time),
    decreases connections.len() - from,
{
    if from < connections.len() && !time.not_after(connections[from].dep_time) {
        lemma_earlier_departures(connections, time, from + 1);
    }
}

/// A scan that comes to rest without a missing entry has met none on the way.
pub proof fn lemma_scan_so_far(
    st: ScanState,
    connections: Seq<Connection>,
    from: int,
    mid: int,
    end: int,
    dests: Seq<StopId>,
    paths: Map<StopId, Seq<StopId>>,
)
    requires
        from <= mid <= end,
        scanned(st, connections, from, end, dests, paths) is Ok,
    ensures
        scanned(st, connections, from, mid, dests, paths) is Ok,
    decreases end - from,
{
    if from >= mid || from < 0 || from >= connections.len() {
    } else if reached_by(st.arrival, dests, connections[from].dep_time) {
    } else {
        let next = relaxed(st, connections[from], paths)->Ok_0;
        lemma_scan_so_far(next, connections, from + 1, mid, end, dests, paths);
    }
}

/// Scanning one connection more: the scan stays where it is if a destination
/// is reached by the time that connection leaves, and looks at it otherwise.
pub proof fn lemma_scan_one_more(
    st: ScanState,
    connections: Seq<Connection>,
    from: int,
    end: int,
    dests: Seq<StopId>,
    paths: Map<StopId, Seq<StopId>>,
)
    requires
        departure_ordered(connections),
        0 <= from <= end < connections.len(),
    ensures
        scanned(st, connections, from, end + 1, dests, paths) == match scanned(
            st,
            connections,
            from,
            end,
            dests,
            paths,
        ) {
            Err(stop) => Err(stop),
            Ok(rest) => if reached_by(rest.arrival, dests, connections[end].dep_time) {
                Ok(rest)
            } else {
                relaxed(rest, connections[end], paths)
            },
        },
    decreases end - from,
{
    if from < end {
        if reached_by(st.arrival, dests, connections[from].dep_time) {
            let k = choose|k: int|
                0 <= k < dests.len() && st.arrival.contains_key(#[trigger] dests[k])
                    && st.arrival[dests[k]].not_after(connections[from].dep_time);
            assert(connections[from].dep_time.not_after(connections[end].dep_time));
            assert(st.arrival[dests[k]].not_after(connections[end].dep_time));
        } else {
            match relaxed(st, connections[from], paths) {
                Err(_) => {},
                Ok(next) => {
                    lemma_scan_one_more(next, connections, from + 1, end, dests, paths);
                },
            }
        }
    } else if !reached_by(st.arrival, dests, connections[from].dep_time) {
        match relaxed(st, connections[from], paths) {
            Err(_) => {},
            Ok(next) => {
                assert(scanned(next, connections, from + 1, end + 1, dests, paths) == Ok::<
                    ScanState,
                    StopId,
                >(next));
            },
        }
    }
}

/// Where walks are closed, looking at a connection keeps the stops walked
/// out.
pub proof fn lemma_relaxing_walks_out(
    st: ScanState,
    c: Connection,
    paths: Map<StopId, Seq<StopId>>,
)
    requires
        walks_are_closed(paths),
        walked_out(st, paths),
    ensures
        relaxed(st, c, paths) matches Ok(next) ==> walked_out(next, paths),
{
    if relaxed(st, c, paths) is Ok {
        let next = relaxed(st, c, paths)->Ok_0;
        if usable(st, c) && improves(st.arrival, c.arr_stop, c.arr_time) {
            let targets = paths[c.arr_stop];
            assert forall|a: StopId, b: StopId|
                #![trigger next.arrival.contains_key(a), paths[a].contains(b)]
                next.arrival.contains_key(a) && paths.contains_key(a) && paths[a].contains(
                    b,
                ) implies next.arrival.contains_key(b) && next.arrival[b].not_after(
                next.arrival[a],
            ) by {
                if a == c.arr_stop {
                } else if targets.contains(a) && improves(st.arrival, a, c.arr_time) {
                    assert(paths[c.arr_stop].contains(a) && paths[a].contains(b));
                    assert(targets.contains(b));
                } else {
                    assert(st.arrival.contains_key(a));
                    assert(st.arrival.contains_key(b) && st.arrival[b].not_after(st.arrival[a]));
                }
            }
        } else {
            assert(next.arrival == st.arrival);
        }
    }
}

/// Where walks are closed, a scan keeps the stops walked out.
pub proof fn lemma_scan_walks_out(
    st: ScanState,
    connections: Seq<Connection>,
    from: int,
    end: int,
    dests: Seq<StopId>,
    paths: Map<StopId, Seq<StopId>>,
)
    requires
        walks_are_closed(paths),
        walked_out(st, paths),
    ensures
        scanned(st, connections, from, end, dests, paths) matches Ok(rest) ==> walked_out(
            rest,
            paths,
        ),
    decreases end - from,
{
    if from >= end || from < 0 || from >= connections.len() {
    } else if reached_by(st.arrival, dests, connections[from].dep_time) {
    } else {
        match relaxed(st, connections[from], paths) {
            Err(_) => {},
            Ok(next) => {
                lemma_relaxing_walks_out(st, connections[from], paths);
                lemma_scan_walks_out(next, connections, from + 1, end, dests, paths);
            },
        }
    }
}

/// A destination that is reached by some time is reached by every later
/// time, and stays reached when arrival times improve.
pub proof fn lemma_stays_reached(
    before: Map<StopId, CSTime>,
    after: Map<StopId, CSTime>,
    dests: Seq<StopId>,
    by: CSTime,
    later: CSTime,
)
    requires
        no_later(after, before),
        reached_by(before, dests, by),
        by.not_after(later),
    ensures
        reached_by(after, dests, later),
{
    let k = choose|k: int|
        0 <= k < dests.len() && before.contains_key(#[trigger] dests[k]) && before[dests[k]].not_after(
            by,
        );
    assert(after.contains_key(dests[k]) && after[dests[k]].not_after(later));
}

/// When the scan has come as far as index `upto`, it knows of every journey
/// on the connections before `upto`: the stop to which the journey leads is
/// reached no later than the journey arrives there, unless a destination is.
pub proof fn lemma_scan_knows_journey(
    origin: StopId,
    depart: CSTime,
    dests: Seq<StopId>,
    paths: Map<StopId, Seq<StopId>>,
    connections: Seq<Connection>,
    legs: Seq<Leg>,
    stop: StopId,
    upto: int,
)
    requires
        departure_ordered(connections),
        all_well_timed(connections),
        walks_are_closed(paths),
        paths.contains_key(origin),
        first_departure(connections, depart, 0) <= upto <= connections.len(),
        leads_to(legs, stop, origin, depart, paths, connections, upto),
        scanned(
            seeded(origin, depart, paths[origin]),
            connections,
            first_departure(connections, depart, 0),
            upto,
            dests,
            paths,
        ) is Ok,
    ensures
        ({
            let rest = scanned(
                seeded(origin, depart, paths[origin]),
                connections,
                first_departure(connections, depart, 0),
                upto,
                dests,
                paths,
            )->Ok_0;
            ||| rest.arrival.contains_key(stop) && rest.arrival[stop].not_after(
                clock_after(legs, depart),
            )
            ||| reached_by(rest.arrival, dests, clock_after(legs, depart))
        }),
    decreases legs.len(),
{
    let start = first_departure(connections, depart, 0);
    let seed = seeded(origin, depart, paths[origin]);
    let rest = scanned(seed, connections, start, upto, dests, paths)->Ok_0;
    lemma_first_departure_range(connections, depart, 0);
    if legs.len() == 0 {
        lemma_scan_only_improves(seed, connections, start, start, upto, dests, paths);
        assert(seed.arrival.contains_key(stop));
    } else {
        let head = legs.drop_last();
        match legs.last() {
            Leg::Walk { from, to } => {
                lemma_scan_knows_journey(
                    origin,
                    depart,
                    dests,
                    paths,
                    connections,
                    head,
                    from,
                    upto,
                );
                assert(walked_out(seed, paths)) by {
                    assert forall|a: StopId, b: StopId|
                        #![trigger seed.arrival.contains_key(a), paths[a].contains(b)]
                        seed.arrival.contains_key(a) && paths.contains_key(a)
                            && paths[a].contains(b) implies seed.arrival.contains_key(b)
                        && seed.arrival[b].not_after(seed.arrival[a]) by {
                        if a != origin {
                            assert(paths[origin].contains(a) && paths[a].contains(b));
                        }
                    }
                }
                lemma_scan_walks_out(seed, connections, start, upto, dests, paths);
                if rest.arrival.contains_key(from) && rest.arrival[from].not_after(
                    clock_after(head, depart),
                ) {
                    assert(rest.arrival.contains_key(from) && paths[from].contains(to));
                }
            },
            Leg::Ride(c) => {
                let j = choose|j: int|
                    0 <= j < upto && j < connections.len() && #[trigger] connections[j] == c
                        && leads_to(head, c.dep_stop, origin, depart, paths, connections, j);
                assert(c.well_timed());
                lemma_clock_runs_on(head, c.dep_stop, origin, depart, paths, connections, j);
                lemma_earlier_departures(connections, depart, 0);
                assert(start <= j) by {
                    if j < start {
                        assert(connections[j].dep_time.before(depart));
                    }
                }
                lemma_scan_so_far(seed, connections, start, j, upto, dests, paths);
                lemma_scan_so_far(seed, connections, start, j + 1, upto, dests, paths);
                lemma_scan_knows_journey(
                    origin,
                    depart,
                    dests,
                    paths,
                    connections,
                    head,
                    c.dep_stop,
                    j,
                );
                let there = scanned(seed, connections, start, j, dests, paths)->Ok_0;
                let then = scanned(seed, connections, start, j + 1, dests, paths)->Ok_0;
                lemma_scan_only_improves(seed, connections, start, j, upto, dests, paths);
                lemma_scan_only_improves(seed, connections, start, j + 1, upto, dests, paths);
                lemma_scan_one_more(seed, connections, start, j, dests, paths);
                let was = clock_after(head, depart);
                if reached_by(there.arrival, dests, was) {
                    lemma_stays_reached(there.arrival, rest.arrival, dests, was, c.arr_time);
                } else if reached_by(there.arrival, dests, c.dep_time) {
                    lemma_stays_reached(
                        there.arrival,
                        rest.arrival,
                        dests,
                        c.dep_time,
                        c.arr_time,
                    );
                } else {
                    assert(usable(there, c));
                    assert(then.arrival.contains_key(c.arr_stop) && then.arrival[c.arr_stop].not_after(
                        c.arr_time,
                    ));
                }
            },
        }
    }
}

/// No journey on the timetable arrives earlier than the answer: if a journey
/// leads to a destination, the earliest arrival is not `None`, and is no
/// later than the time at which that journey arrives.
///
/// This holds where the connections are ordered by departure, no vehicle
/// arrives before it leaves, walks are closed, and some connection departs
/// at the departure time or later.
pub proof fn lemma_no_journey_arrives_earlier(
    origin: StopId,
    depart: CSTime,
    dests: Seq<StopId>,
    paths: Map<StopId, Seq<StopId>>,
    connections: Seq<Connection>,
    legs: Seq<Leg>,
    k: int,
)
    requires
        departure_ordered(connections),
        all_well_timed(connections),
        walks_are_closed(paths),
        in_horizon(connections, depart),
        0 <= k < dests.len(),
        leads_to(legs, dests[k], origin, depart, paths, connections, connections.len() as int),
    ensures
        match earliest_arrival_of(origin, depart, dests, paths, connections) {
            Ok(Some(time)) => time.not_after(clock_after(legs, depart)),
            Ok(None) => false,
            Err(_) => true,
        },
{
    if settled(origin, depart, dests, paths, connections) is Ok {
        let rest = settled(origin, depart, dests, paths, connections)->Ok_0;
        lemma_first_departure_range(connections, depart, 0);
        lemma_scan_knows_journey(
            origin,
            depart,
            dests,
            paths,
            connections,
            legs,
            dests[k],
            connections.len() as int,
        );
        lemma_earliest_of(rest.arrival, dests);
        let arrives = clock_after(legs, depart);
        if !(rest.arrival.contains_key(dests[k]) && rest.arrival[dests[k]].not_after(arrives)) {
            let m = choose|m: int|
                0 <= m < dests.len() && rest.arrival.contains_key(#[trigger] dests[m])
                    && rest.arrival[dests[m]].not_after(arrives);
            assert(rest.arrival.contains_key(dests[m]));
        }
    }
}

} // verus!
