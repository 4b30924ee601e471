//! A journey that the scan hands out can be travelled.

use crate::connection_scan::{
    earliest_of, first_departure, improves, in_horizon, reached_by, relaxed, scanned, seeded,
    settled, usable, Predecessor, ScanState,
};
use crate::guarantees::{lemma_earliest_of, lemma_first_departure_range};
use crate::journey::{itinerary, journey_of, leg_into, stop_before, traced, Leg};
use crate::models::{CSTime, Connection, StopId, TripId};
use vstd::prelude::*;

verus! {

/// The time on the traveller's watch after the legs of `legs`, when they set
/// out at `start`: the arrival of the last ride, since a walk takes no time.
pub open spec fn clock_after(legs: Seq<Leg>, start: CSTime) -> CSTime
    decreases legs.len(),
{
    if legs.len() == 0 {
        start
    } else {
        match legs.last() {
            Leg::Ride(c) => c.arr_time,
            Leg::Walk { from, to } => clock_after(legs.drop_last(), start),
        }
    }
}

/// Each leg starts where the leg before it ends.
pub open spec fn legs_connect(legs: Seq<Leg>) -> bool {
    forall|i: int| 0 <= i < legs.len() - 1 ==> (#[trigger] legs[i]).end() == legs[i + 1].start()
}

/// No ride leaves before the traveller is there: each ride departs at the
/// time on their watch after the legs before it, or later.
pub open spec fn rides_in_time(legs: Seq<Leg>, start: CSTime) -> bool {
    forall|i: int|
        0 <= i < legs.len() ==> ((#[trigger] legs[i]) matches Leg::Ride(c) ==> clock_after(
            legs.take(i),
            start,
        ).not_after(c.dep_time))
}

/// Each walk is one that the transfer table offers.
pub open spec fn walks_in_table(legs: Seq<Leg>, paths: Map<StopId, Seq<StopId>>) -> bool {
    forall|i: int|
        0 <= i < legs.len() ==> ((#[trigger] legs[i]) matches Leg::Walk { from, to }
            ==> paths.contains_key(from) && paths[from].contains(to))
}

/// The traveller is at `stop` when they set out: it is the origin or in
/// walking reach of it.
pub open spec fn is_seed(origin: StopId, paths: Map<StopId, Seq<StopId>>, stop: StopId) -> bool {
    stop == origin || (paths.contains_key(origin) && paths[origin].contains(stop))
}

/// `legs` can be travelled from the origin to `dest`, setting out at
/// `depart` and arriving at `time` or earlier.
pub open spec fn travels(
    legs: Seq<Leg>,
    origin: StopId,
    depart: CSTime,
    dest: StopId,
    time: CSTime,
    paths: Map<StopId, Seq<StopId>>,
) -> bool {
    &&& legs_connect(legs)
    &&& rides_in_time(legs, depart)
    &&& walks_in_table(legs, paths)
    &&& clock_after(legs, depart).not_after(time)
    &&& if legs.len() == 0 {
        is_seed(origin, paths, dest)
    } else {
        is_seed(origin, paths, legs.first().start()) && legs.last().end() == dest
    }
}

/// The index of the last connection before index `before` that belongs to
/// `trip`; -1 if there is none.
pub open spec fn last_of_trip(connections: Seq<Connection>, trip: TripId, before: int) -> int
    decreases before,
{
    if before <= 0 {
        -1
    } else if connections[before - 1].trip == trip {
        before - 1
    } else {
        last_of_trip(connections, trip, before - 1)
    }
}

/// Each trip runs through the sequence as one chain: a connection leaves
/// from the stop at which the connection before it on the same trip arrived,
/// and no earlier than that arrival.
pub open spec fn trips_chained(connections: Seq<Connection>) -> bool {
    forall|i: int|
        0 <= i < connections.len() && last_of_trip(
            connections,
            (#[trigger] connections[i]).trip,
            i,
        ) >= 0 ==> {
            let j = last_of_trip(connections, connections[i].trip, i);
            &&& connections[j].arr_stop == connections[i].dep_stop
            &&& connections[j].arr_time.not_after(connections[i].dep_time)
        }
}

/// What `last_of_trip` finds is a connection of the trip, and none follows
/// it before `before`.
pub proof fn lemma_last_of_trip(connections: Seq<Connection>, trip: TripId, before: int)
    requires
        0 <= before <= connections.len(),
    ensures
        -1 <= last_of_trip(connections, trip, before) < before,
        last_of_trip(connections, trip, before) >= 0 ==> connections[last_of_trip(
            connections,
            trip,
            before,
        )].trip == trip,
        forall|m: int|
            last_of_trip(connections, trip, before) < m < before ==> (#[trigger] connections[m]).trip
                != trip,
    decreases before,
{
    if before > 0 && connections[before - 1].trip != trip {
        lemma_last_of_trip(connections, trip, before - 1);
    }
}

/// The predecessor of `stop` fits the arrival times: a ride arrives at the
/// stop at its recorded time and left a stop that was reached in time; a
/// walk comes from a stop in walking reach that was reached no later.
pub open spec fn pred_fits(st: ScanState, stop: StopId, paths: Map<StopId, Seq<StopId>>) -> bool {
    match st.pred[stop] {
        Predecessor::RideInto(c) => {
            &&& c.arr_stop == stop
            &&& st.arrival.contains_key(stop)
            &&& st.arrival[stop] == c.arr_time
            &&& st.arrival.contains_key(c.dep_stop)
            &&& st.arrival[c.dep_stop].not_after(c.dep_time)
        },
        Predecessor::WalkInto(from) => {
            &&& st.arrival.contains_key(stop)
            &&& st.arrival.contains_key(from)
            &&& st.arrival[from].not_after(st.arrival[stop])
            &&& paths.contains_key(from)
            &&& paths[from].contains(stop)
        },
    }
}

/// Every predecessor fits the arrival times, and a stop that is reached
/// without one is a stop where the traveller set out.
pub open spec fn chain_fits(
    st: ScanState,
    origin: StopId,
    depart: CSTime,
    paths: Map<StopId, Seq<StopId>>,
) -> bool {
    &&& forall|s: StopId| #[trigger] st.pred.contains_key(s) ==> pred_fits(st, s, paths)
    &&& forall|s: StopId| #[trigger]
        st.arrival.contains_key(s) && !st.pred.contains_key(s) ==> st.arrival[s] == depart
            && is_seed(origin, paths, s)
}

/// Of every boarded trip, the last connection before index `at` was scanned,
/// and its arrival stop is reached by the time it arrives there.
pub open spec fn trips_fit(st: ScanState, connections: Seq<Connection>, start: int, at: int)
    -> bool {
    forall|t: TripId| #[trigger]
        st.boarded.contains(t) ==> {
            let j = last_of_trip(connections, t, at);
            &&& start <= j
            &&& st.arrival.contains_key(connections[j].arr_stop)
            &&& st.arrival[connections[j].arr_stop].not_after(connections[j].arr_time)
        }
}

/// On chained trips a connection that can be taken leaves from a stop that
/// was reached in time, also where it is taken because its trip is boarded.
pub proof fn lemma_usable_is_in_time(
    st: ScanState,
    connections: Seq<Connection>,
    start: int,
    at: int,
)
    requires
        trips_chained(connections),
        0 <= start <= at < connections.len(),
        trips_fit(st, connections, start, at),
        usable(st, connections[at]),
    ensures
        st.arrival.contains_key(connections[at].dep_stop),
        st.arrival[connections[at].dep_stop].not_after(connections[at].dep_time),
{
    let c = connections[at];
    if st.boarded.contains(c.trip) {
        let j = last_of_trip(connections, c.trip, at);
        lemma_last_of_trip(connections, c.trip, at);
        assert(connections[j].arr_stop == c.dep_stop);
    }
}

/// Looking at one connection of chained trips keeps the predecessors and
/// the boarded trips fitting.
pub proof fn lemma_relaxing_keeps_fit(
    st: ScanState,
    connections: Seq<Connection>,
    start: int,
    at: int,
    origin: StopId,
    depart: CSTime,
    paths: Map<StopId, Seq<StopId>>,
)
    requires
        trips_chained(connections),
        0 <= start <= at < connections.len(),
        chain_fits(st, origin, depart, paths),
        trips_fit(st, connections, start, at),
        relaxed(st, connections[at], paths) is Ok,
    ensures
        chain_fits(relaxed(st, connections[at], paths)->Ok_0, origin, depart, paths),
        trips_fit(relaxed(st, connections[at], paths)->Ok_0, connections, start, at + 1),
{
    let c = connections[at];
    let next = relaxed(st, c, paths)->Ok_0;
    if usable(st, c) {
        lemma_usable_is_in_time(st, connections, start, at);
        assert(next.arrival.contains_key(c.arr_stop) && next.arrival[c.arr_stop].not_after(
            c.arr_time,
        ));
    }
    assert forall|t: TripId| #[trigger] next.boarded.contains(t) implies ({
        let j = last_of_trip(connections, t, at + 1);
        &&& start <= j
        &&& next.arrival.contains_key(connections[j].arr_stop)
        &&& next.arrival[connections[j].arr_stop].not_after(connections[j].arr_time)
    }) by {
        if t != c.trip {
            assert(st.boarded.contains(t));
            let j = last_of_trip(connections, t, at);
            assert(st.arrival.contains_key(connections[j].arr_stop));
        }
    }
    assert forall|s: StopId| #[trigger] next.pred.contains_key(s) implies pred_fits(
        next,
        s,
        paths,
    ) by {
        if usable(st, c) && improves(st.arrival, c.arr_stop, c.arr_time) {
            let targets = paths[c.arr_stop];
            if s == c.arr_stop {
                assert(next.pred[s] == Predecessor::RideInto(c));
                assert(next.arrival[s] == c.arr_time);
                assert(next.arrival.contains_key(c.dep_stop));
            } else if targets.contains(s) && improves(st.arrival, s, c.arr_time) {
                assert(next.pred[s] == Predecessor::WalkInto(c.arr_stop));
            } else {
                assert(st.pred.contains_key(s));
                assert(pred_fits(st, s, paths));
                assert(next.pred[s] == st.pred[s]);
                assert(next.arrival[s] == st.arrival[s]);
                match st.pred[s] {
                    Predecessor::RideInto(r) => {
                        assert(next.arrival.contains_key(r.dep_stop));
                    },
                    Predecessor::WalkInto(from) => {
                        assert(next.arrival.contains_key(from));
                    },
                }
            }
        } else {
            assert(pred_fits(st, s, paths));
        }
    }
    assert forall|s: StopId| #[trigger]
        next.arrival.contains_key(s) && !next.pred.contains_key(s) implies next.arrival[s]
        == depart && is_seed(origin, paths, s) by {
        assert(st.arrival.contains_key(s) && !st.pred.contains_key(s));
    }
}

/// A scan of chained trips keeps the predecessors fitting.
pub proof fn lemma_scan_keeps_fit(
    st: ScanState,
    connections: Seq<Connection>,
    start: int,
    from: int,
    end: int,
    dests: Seq<StopId>,
    origin: StopId,
    depart: CSTime,
    paths: Map<StopId, Seq<StopId>>,
)
    requires
        trips_chained(connections),
        0 <= start <= from,
        chain_fits(st, origin, depart, paths),
        trips_fit(st, connections, start, from),
    ensures
        scanned(st, connections, from, end, dests, paths) matches Ok(rest) ==> chain_fits(
            rest,
            origin,
            depart,
            paths,
        ),
    decreases end - from,
{
    if from >= end || from >= connections.len() {
    } else if reached_by(st.arrival, dests, connections[from].dep_time) {
    } else {
        match relaxed(st, connections[from], paths) {
            Err(_) => {},
            Ok(next) => {
                lemma_relaxing_keeps_fit(st, connections, start, from, origin, depart, paths);
                lemma_scan_keeps_fit(
                    next,
                    connections,
                    start,
                    from + 1,
                    end,
                    dests,
                    origin,
                    depart,
                    paths,
                );
            },
        }
    }
}

/// Where the predecessors fit, the legs traced back from a reached stop can
/// be travelled, and arrive by the time known for the stop.
pub proof fn lemma_traced_travels(
    st: ScanState,
    origin: StopId,
    depart: CSTime,
    paths: Map<StopId, Seq<StopId>>,
    stop: StopId,
    budget: nat,
)
    requires
        chain_fits(st, origin, depart, paths),
        st.arrival.contains_key(stop),
    ensures
        traced(st.pred, stop, budget) matches Some(legs) ==> travels(
            legs,
            origin,
            depart,
            stop,
            st.arrival[stop],
            paths,
        ) && (legs.len() == 0 <==> !st.pred.contains_key(stop)),
    decreases budget,
{
    if st.pred.contains_key(stop) && budget > 0 {
        let p = st.pred[stop];
        let before = stop_before(p);
        assert(pred_fits(st, stop, paths));
        lemma_traced_travels(st, origin, depart, paths, before, (budget - 1) as nat);
        let rest = traced(st.pred, before, (budget - 1) as nat);
        if rest is Some {
            let head = rest->0;
            let leg = leg_into(p, stop);
            let legs = head.push(leg);
            assert(legs.drop_last() =~= head);
            assert(legs.take(head.len() as int) =~= head);
            assert forall|i: int| 0 <= i < legs.len() - 1 implies (#[trigger] legs[i]).end()
                == legs[i + 1].start() by {
                if i < head.len() - 1 {
                    assert(head[i].end() == head[i + 1].start());
                }
            }
            assert forall|i: int| 0 <= i < legs.len() implies ((#[trigger] legs[i]) matches Leg::Ride(
                c,
            ) ==> clock_after(legs.take(i), depart).not_after(c.dep_time)) by {
                if i < head.len() {
                    assert(legs.take(i) =~= head.take(i));
                    assert(legs[i] == head[i]);
                }
            }
            assert forall|i: int| 0 <= i < legs.len() implies ((#[trigger] legs[i]) matches Leg::Walk {
                from,
                to,
            } ==> paths.contains_key(from) && paths[from].contains(to)) by {
                if i < head.len() {
                    assert(legs[i] == head[i]);
                }
            }
            if head.len() > 0 {
                assert(legs.first() == head.first());
            }
        }
    }
}

/// The state that a scan starts from has nothing that does not fit.
pub proof fn lemma_seeded_fits(
    origin: StopId,
    depart: CSTime,
    paths: Map<StopId, Seq<StopId>>,
    connections: Seq<Connection>,
    start: int,
)
    requires
        paths.contains_key(origin),
    ensures
        chain_fits(seeded(origin, depart, paths[origin]), origin, depart, paths),
        trips_fit(seeded(origin, depart, paths[origin]), connections, start, start),
{
}

/// A journey that is handed out can be travelled, if each trip runs through
/// the connections as one chain: every leg starts where the leg before it
/// ended, the first starts where the traveller set out and the last ends at
/// a destination, no ride leaves before the traveller has arrived, every walk
/// is one of the transfer table, and the traveller is there by the time
/// that is handed out with the journey.
pub proof fn lemma_journeys_can_be_travelled(
    origin: StopId,
    depart: CSTime,
    dests: Seq<StopId>,
    paths: Map<StopId, Seq<StopId>>,
    connections: Seq<Connection>,
)
    requires
        trips_chained(connections),
    ensures
        journey_of(origin, depart, dests, paths, connections) matches Ok(Some(found)) ==> exists|
            k: int,
        |
            0 <= k < dests.len() && travels(
                found.0,
                origin,
                depart,
                #[trigger] dests[k],
                found.1,
                paths,
            ),
{
    if paths.contains_key(origin) {
        let start = first_departure(connections, depart, 0);
        lemma_first_departure_range(connections, depart, 0);
        let st = seeded(origin, depart, paths[origin]);
        lemma_seeded_fits(origin, depart, paths, connections, start);
        lemma_scan_keeps_fit(
            st,
            connections,
            start,
            start,
            connections.len() as int,
            dests,
            origin,
            depart,
            paths,
        );
        let rest = settled(origin, depart, dests, paths, connections);
        if rest is Ok && in_horizon(connections, depart) {
            let fin = rest->Ok_0;
            lemma_earliest_of(fin.arrival, dests);
            if earliest_of(fin.arrival, dests) is Some {
                let d = earliest_of(fin.arrival, dests)->0;
                lemma_traced_travels(fin, origin, depart, paths, d, fin.pred.dom().len());
                if itinerary(fin.pred, d) is Some {
                    let k = choose|k: int| 0 <= k < dests.len() && dests[k] == d;
                    assert(travels(
                        itinerary(fin.pred, d)->0,
                        origin,
                        depart,
                        dests[k],
                        fin.arrival[d],
                        paths,
                    ));
                }
            }
        }
    }
}

/// Every recorded ride arrives at the stop whose predecessor it is.
pub open spec fn rides_arrive(st: ScanState) -> bool {
    forall|s: StopId| #[trigger]
        st.pred.contains_key(s) ==> (st.pred[s] matches Predecessor::RideInto(c) ==> c.arr_stop
            == s)
}

/// A scan records a ride only at the stop at which it arrives.
pub proof fn lemma_scan_keeps_arrivals(
    st: ScanState,
    connections: Seq<Connection>,
    from: int,
    end: int,
    dests: Seq<StopId>,
    paths: Map<StopId, Seq<StopId>>,
)
    requires
        rides_arrive(st),
    ensures
        scanned(st, connections, from, end, dests, paths) matches Ok(rest) ==> rides_arrive(rest),
    decreases end - from,
{
    if from >= end || from < 0 || from >= connections.len() {
    } else if reached_by(st.arrival, dests, connections[from].dep_time) {
    } else {
        match relaxed(st, connections[from], paths) {
            Err(_) => {},
            Ok(next) => {
                assert forall|s: StopId| #[trigger] next.pred.contains_key(s) implies (
                next.pred[s] matches Predecessor::RideInto(c) ==> c.arr_stop == s) by {
                    if next.pred[s] is RideInto && s != connections[from].arr_stop {
                        assert(st.pred.contains_key(s));
                    }
                }
                lemma_scan_keeps_arrivals(next, connections, from + 1, end, dests, paths);
            },
        }
    }
}

/// Legs that are traced back join up and end at the stop from which they
/// were traced.
pub proof fn lemma_traced_joins(st: ScanState, stop: StopId, budget: nat)
    requires
        rides_arrive(st),
    ensures
        traced(st.pred, stop, budget) matches Some(legs) ==> legs_connect(legs) && (legs.len() > 0
            ==> legs.last().end() == stop),
    decreases budget,
{
    if st.pred.contains_key(stop) && budget > 0 {
        let p = st.pred[stop];
        let before = stop_before(p);
        lemma_traced_joins(st, before, (budget - 1) as nat);
        let rest = traced(st.pred, before, (budget - 1) as nat);
        if rest is Some {
            let head = rest->0;
            let legs = head.push(leg_into(p, stop));
            assert forall|i: int| 0 <= i < legs.len() - 1 implies (#[trigger] legs[i]).end()
                == legs[i + 1].start() by {
                if i < head.len() - 1 {
                    assert(head[i].end() == head[i + 1].start());
                }
            }
        }
    }
}

/// The legs of every journey that is handed out join up, whatever the
/// timetable: each leg starts where the leg before it ends, and the last leg
/// ends at a destination.
pub proof fn lemma_legs_join(
    origin: StopId,
    depart: CSTime,
    dests: Seq<StopId>,
    paths: Map<StopId, Seq<StopId>>,
    connections: Seq<Connection>,
)
    ensures
        journey_of(origin, depart, dests, paths, connections) matches Ok(Some(found))
            ==> legs_connect(found.0) && (found.0.len() > 0 ==> dests.contains(
            found.0.last().end(),
        )),
{
    if paths.contains_key(origin) {
        let st = seeded(origin, depart, paths[origin]);
        lemma_scan_keeps_arrivals(
            st,
            connections,
            first_departure(connections, depart, 0),
            connections.len() as int,
            dests,
            paths,
        );
        let rest = settled(origin, depart, dests, paths, connections);
        if rest is Ok && in_horizon(connections, depart) {
            let fin = rest->Ok_0;
            lemma_earliest_of(fin.arrival, dests);
            if earliest_of(fin.arrival, dests) is Some {
                let d = earliest_of(fin.arrival, dests)->0;
                lemma_traced_joins(fin, d, fin.pred.dom().len());
            }
        }
    }
}

} // verus!
