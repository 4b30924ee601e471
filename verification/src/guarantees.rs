//! What holds of every scan, whatever the timetable.

use crate::connection_scan::{
    earliest_arrival_of, earliest_of, first_departure, in_horizon, reached_by, relaxed, scanned,
    seeded, settled, ScanError, ScanState,
};
use crate::journey::{answer_of, journey_of, Leg};
use crate::models::{departure_ordered, CSTime, Connection, StopId, TripId};
use vstd::prelude::*;

verus! {

/// Every stop that has a time in `before` has one in `after` that is the
/// same or earlier.
pub open spec fn no_later(after: Map<StopId, CSTime>, before: Map<StopId, CSTime>) -> bool {
    forall|s: StopId| #[trigger]
        before.contains_key(s) ==> after.contains_key(s) && after[s].not_after(before[s])
}

/// Looking at one connection makes no arrival time later.
pub proof fn lemma_relaxing_only_improves(
    st: ScanState,
    c: Connection,
    paths: Map<StopId, Seq<StopId>>,
)
    ensures
        relaxed(st, c, paths) matches Ok(next) ==> no_later(next.arrival, st.arrival),
{
}

/// During one scan the arrival time of a stop only ever gets earlier: the
/// times known when the scan has come as far as `end` are no later than those
/// known when it had come as far as `mid`.
pub proof fn lemma_scan_only_improves(
    st: ScanState,
    connections: Seq<Connection>,
    from: int,
    mid: int,
    end: int,
    dests: Seq<StopId>,
    paths: Map<StopId, Seq<StopId>>,
)
    requires
        from <= mid <= end,
    ensures
        scanned(st, connections, from, mid, dests, paths) matches Ok(earlier) ==> scanned(
            st,
            connections,
            from,
            end,
            dests,
            paths,
        ) matches Ok(later) ==> no_later(later.arrival, earlier.arrival),
    decreases end - from,
{
    if from >= end || from < 0 || from >= connections.len() {
    } else if reached_by(st.arrival, dests, connections[from].dep_time) {
    } else {
        match relaxed(st, connections[from], paths) {
            Err(_) => {},
            Ok(next) => {
                if from < mid {
                    lemma_scan_only_improves(next, connections, from + 1, mid, end, dests, paths);
                } else {
                    lemma_relaxing_only_improves(st, connections[from], paths);
                    lemma_scan_only_improves(
                        next,
                        connections,
                        from + 1,
                        from + 1,
                        end,
                        dests,
                        paths,
                    );
                    let later = scanned(next, connections, from + 1, end, dests, paths);
                    if later is Ok {
                        assert forall|s: StopId| #[trigger]
                            st.arrival.contains_key(s) implies later->Ok_0.arrival.contains_key(s)
                            && later->Ok_0.arrival[s].not_after(st.arrival[s]) by {
                            assert(next.arrival.contains_key(s));
                        }
                    }
                }
            },
        }
    }
}

/// The earliest destination is a destination that is reached, and no
/// destination is reached earlier; there is none only if no destination is
/// reached.
pub proof fn lemma_earliest_of(arrival: Map<StopId, CSTime>, dests: Seq<StopId>)
    ensures
        earliest_of(arrival, dests) matches Some(d) ==> dests.contains(d) && arrival.contains_key(
            d,
        ),
        earliest_of(arrival, dests) matches Some(d) ==> forall|k: int|
            0 <= k < dests.len() && arrival.contains_key(#[trigger] dests[k])
                ==> arrival[d].not_after(arrival[dests[k]]),
        earliest_of(arrival, dests) is None ==> forall|k: int|
            0 <= k < dests.len() ==> !arrival.contains_key(#[trigger] dests[k]),
    decreases dests.len(),
{
    if dests.len() > 0 {
        let rest = dests.drop_last();
        lemma_earliest_of(arrival, rest);
        let among_rest = earliest_of(arrival, rest);
        assert forall|k: int| 0 <= k < dests.len() - 1 implies rest[k] == dests[k] by {}
        if among_rest is Some {
            let d = among_rest->0;
            let i = choose|i: int| 0 <= i < rest.len() && rest[i] == d;
            assert(dests[i] == d);
        }
        assert(dests[dests.len() - 1] == dests.last());
        let best = earliest_of(arrival, dests);
        if best is Some {
            let d = best->0;
            assert forall|k: int|
                0 <= k < dests.len() && arrival.contains_key(
                    #[trigger] dests[k],
                ) implies arrival[d].not_after(arrival[dests[k]]) by {
                if k < dests.len() - 1 {
                    assert(arrival.contains_key(rest[k]));
                }
            }
        } else {
            assert forall|k: int| 0 <= k < dests.len() implies !arrival.contains_key(
                #[trigger] dests[k],
            ) by {
                if k < dests.len() - 1 {
                    assert(!arrival.contains_key(rest[k]));
                }
            }
        }
    }
}

/// No connection leads out of `stops` and `trips`: a connection that leaves
/// from one of the stops, or belongs to one of the trips, belongs to one of
/// the trips, arrives at one of the stops, and only these stops are in
/// walking reach of its arrival stop.
pub open spec fn closed_under(
    stops: Set<StopId>,
    trips: Set<TripId>,
    paths: Map<StopId, Seq<StopId>>,
    connections: Seq<Connection>,
) -> bool {
    forall|i: int|
        0 <= i < connections.len() && (stops.contains((#[trigger] connections[i]).dep_stop)
            || trips.contains(connections[i].trip)) ==> {
            &&& trips.contains(connections[i].trip)
            &&& stops.contains(connections[i].arr_stop)
            &&& paths.contains_key(connections[i].arr_stop) ==> within(
                paths[connections[i].arr_stop],
                stops,
            )
        }
}

/// Every item of `walk` is one of `stops`.
pub open spec fn within(walk: Seq<StopId>, stops: Set<StopId>) -> bool {
    forall|k: int| 0 <= k < walk.len() ==> stops.contains(#[trigger] walk[k])
}

/// The transfer table has an entry for the origin and for the arrival stop
/// of every connection.
pub open spec fn table_covers(
    paths: Map<StopId, Seq<StopId>>,
    origin: StopId,
    connections: Seq<Connection>,
) -> bool {
    &&& paths.contains_key(origin)
    &&& forall|i: int|
        0 <= i < connections.len() ==> paths.contains_key((#[trigger] connections[i]).arr_stop)
}

/// A scan that starts inside a closed set of stops and trips stays inside.
pub proof fn lemma_scan_stays_inside(
    st: ScanState,
    connections: Seq<Connection>,
    from: int,
    end: int,
    dests: Seq<StopId>,
    paths: Map<StopId, Seq<StopId>>,
    stops: Set<StopId>,
    trips: Set<TripId>,
)
    requires
        closed_under(stops, trips, paths, connections),
        forall|s: StopId| #[trigger] st.arrival.contains_key(s) ==> stops.contains(s),
        forall|t: TripId| #[trigger] st.boarded.contains(t) ==> trips.contains(t),
    ensures
        scanned(st, connections, from, end, dests, paths) matches Ok(rest) ==> forall|s: StopId|
            #[trigger] rest.arrival.contains_key(s) ==> stops.contains(s),
    decreases end - from,
{
    if from >= end || from < 0 || from >= connections.len() {
    } else if reached_by(st.arrival, dests, connections[from].dep_time) {
    } else {
        let c = connections[from];
        match relaxed(st, c, paths) {
            Err(_) => {},
            Ok(next) => {
                assert forall|s: StopId| #[trigger] next.arrival.contains_key(s) implies stops
                    .contains(s) by {
                    if !st.arrival.contains_key(s) && s != c.arr_stop {
                        let walk = paths[c.arr_stop];
                        let k = choose|k: int| 0 <= k < walk.len() && walk[k] == s;
                        assert(stops.contains(walk[k]));
                    }
                }
                lemma_scan_stays_inside(
                    next,
                    connections,
                    from + 1,
                    end,
                    dests,
                    paths,
                    stops,
                    trips,
                );
            },
        }
    }
}

/// A scan never misses a transfer entry if the table has one for the arrival
/// stop of every connection.
pub proof fn lemma_scan_with_full_table(
    st: ScanState,
    connections: Seq<Connection>,
    from: int,
    end: int,
    dests: Seq<StopId>,
    paths: Map<StopId, Seq<StopId>>,
)
    requires
        forall|i: int|
            0 <= i < connections.len() ==> paths.contains_key((#[trigger] connections[i]).arr_stop),
    ensures
        scanned(st, connections, from, end, dests, paths) is Ok,
    decreases end - from,
{
    if from >= end || from < 0 || from >= connections.len() {
    } else if reached_by(st.arrival, dests, connections[from].dep_time) {
    } else {
        assert(paths.contains_key(connections[from].arr_stop));
        let next = relaxed(st, connections[from], paths)->Ok_0;
        lemma_scan_with_full_table(next, connections, from + 1, end, dests, paths);
    }
}

/// A destination to which no connection path leads has no answer: if the
/// origin and all that is in walking reach of it lie in a set of stops that
/// no connection leads out of, and no destination lies in it, a query is
/// never answered with a time or a journey. It is answered with `None`,
/// and not with an error, if the transfer table has its entries.
pub proof fn lemma_no_path_no_answer(
    origin: StopId,
    depart: CSTime,
    dests: Seq<StopId>,
    paths: Map<StopId, Seq<StopId>>,
    connections: Seq<Connection>,
    stops: Set<StopId>,
    trips: Set<TripId>,
)
    requires
        stops.contains(origin),
        paths.contains_key(origin) ==> within(paths[origin], stops),
        closed_under(stops, trips, paths, connections),
        forall|k: int| 0 <= k < dests.len() ==> !stops.contains(#[trigger] dests[k]),
    ensures
        earliest_arrival_of(origin, depart, dests, paths, connections) is Ok
            ==> earliest_arrival_of(origin, depart, dests, paths, connections) == Ok::<
            Option<CSTime>,
            ScanError,
        >(None),
        journey_of(origin, depart, dests, paths, connections) is Ok ==> journey_of(
            origin,
            depart,
            dests,
            paths,
            connections,
        ) is Ok && journey_of(origin, depart, dests, paths, connections)->Ok_0 is None,
        table_covers(paths, origin, connections) ==> earliest_arrival_of(
            origin,
            depart,
            dests,
            paths,
            connections,
        ) is Ok && journey_of(origin, depart, dests, paths, connections) is Ok,
{
    if paths.contains_key(origin) {
        let st = seeded(origin, depart, paths[origin]);
        let from = first_departure(connections, depart, 0);
        let end = connections.len() as int;
        assert forall|s: StopId| #[trigger] st.arrival.contains_key(s) implies stops.contains(
            s,
        ) by {
            if s != origin {
                let walk = paths[origin];
                let k = choose|k: int| 0 <= k < walk.len() && walk[k] == s;
                assert(stops.contains(walk[k]));
            }
        }
        lemma_scan_stays_inside(st, connections, from, end, dests, paths, stops, trips);
        if table_covers(paths, origin, connections) {
            lemma_scan_with_full_table(st, connections, from, end, dests, paths);
        }
        let rest = scanned(st, connections, from, end, dests, paths);
        if rest is Ok {
            lemma_earliest_of(rest->Ok_0.arrival, dests);
            if earliest_of(rest->Ok_0.arrival, dests) is Some {
                let d = earliest_of(rest->Ok_0.arrival, dests)->0;
                let k = choose|k: int| 0 <= k < dests.len() && dests[k] == d;
                assert(!stops.contains(dests[k]));
            }
        }
    }
}

/// No vehicle of `connections` arrives before it leaves.
pub open spec fn all_well_timed(connections: Seq<Connection>) -> bool {
    forall|i: int| 0 <= i < connections.len() ==> (#[trigger] connections[i]).well_timed()
}

/// A scan that ends in front of index `keep` reads no connection from there
/// on.
pub proof fn lemma_scan_reads_prefix(
    st: ScanState,
    connections: Seq<Connection>,
    from: int,
    keep: int,
    dests: Seq<StopId>,
    paths: Map<StopId, Seq<StopId>>,
)
    requires
        0 <= keep <= connections.len(),
    ensures
        scanned(st, connections.take(keep), from, keep, dests, paths) == scanned(
            st,
            connections,
            from,
            keep,
            dests,
            paths,
        ),
    decreases keep - from,
{
    if from >= keep || from < 0 {
    } else {
        assert(connections.take(keep)[from] == connections[from]);
        if !reached_by(st.arrival, dests, connections[from].dep_time) {
            match relaxed(st, connections[from], paths) {
                Err(_) => {},
                Ok(next) => {
                    lemma_scan_reads_prefix(next, connections, from + 1, keep, dests, paths);
                },
            }
        }
    }
}

/// The first departure from `from` on lies between `from` and the end.
pub proof fn lemma_first_departure_range(connections: Seq<Connection>, time: CSTime, from: int)
    requires
        0 <= from <= connections.len(),
    ensures
        from <= first_departure(connections, time, from) <= connections.len(),
    decreases connections.len() - from,
{
    if from < connections.len() && !time.not_after(connections[from].dep_time) {
        lemma_first_departure_range(connections, time, from + 1);
    }
}

/// The first departure at a time or later that is found among the first
/// `keep` connections is the first such departure of them all.
pub proof fn lemma_first_departure_in_prefix(
    connections: Seq<Connection>,
    time: CSTime,
    from: int,
    keep: int,
)
    requires
        0 <= from,
        0 <= keep <= connections.len(),
        first_departure(connections.take(keep), time, from) < keep,
    ensures
        first_departure(connections, time, from) == first_departure(
            connections.take(keep),
            time,
            from,
        ),
    decreases keep - from,
{
    if from < keep {
        assert(connections.take(keep)[from] == connections[from]);
        if !time.not_after(connections[from].dep_time) {
            lemma_first_departure_in_prefix(connections, time, from + 1, keep);
        }
    }
}

/// An arrival time that a scan from index `from` on has written is no
/// earlier than the departure of the connection at `from`.
pub proof fn lemma_new_times_are_late(
    st: ScanState,
    connections: Seq<Connection>,
    from: int,
    end: int,
    dests: Seq<StopId>,
    paths: Map<StopId, Seq<StopId>>,
)
    requires
        departure_ordered(connections),
        all_well_timed(connections),
        0 <= from < connections.len(),
    ensures
        scanned(st, connections, from, end, dests, paths) matches Ok(rest) ==> forall|s: StopId|
            #[trigger] rest.arrival.contains_key(s) ==> (st.arrival.contains_key(s)
                && rest.arrival[s] == st.arrival[s]) || connections[from].dep_time.not_after(
                rest.arrival[s],
            ),
    decreases end - from,
{
    if from >= end {
    } else if reached_by(st.arrival, dests, connections[from].dep_time) {
    } else {
        let c = connections[from];
        assert(c.well_timed());
        match relaxed(st, c, paths) {
            Err(_) => {},
            Ok(next) => {
                assert forall|s: StopId| #[trigger] next.arrival.contains_key(s) implies (
                st.arrival.contains_key(s) && next.arrival[s] == st.arrival[s])
                    || c.dep_time.not_after(next.arrival[s]) by {}
                if from + 1 < connections.len() {
                    lemma_new_times_are_late(next, connections, from + 1, end, dests, paths);
                    assert(connections[from].dep_time.not_after(connections[from + 1].dep_time));
                }
            },
        }
    }
}

/// A scan whose answer is earlier than every departure from index `keep` on
/// comes to rest in the same state if it ends in front of `keep`.
pub proof fn lemma_scan_cut(
    st: ScanState,
    connections: Seq<Connection>,
    from: int,
    keep: int,
    dests: Seq<StopId>,
    paths: Map<StopId, Seq<StopId>>,
)
    requires
        departure_ordered(connections),
        all_well_timed(connections),
        0 <= from,
        0 <= keep <= connections.len(),
        scanned(st, connections, from, connections.len() as int, dests, paths) matches Ok(rest)
            && earliest_of(rest.arrival, dests) matches Some(d) && forall|i: int|
            keep <= i < connections.len() ==> rest.arrival[d].before(
                (#[trigger] connections[i]).dep_time,
            ),
    ensures
        scanned(st, connections, from, keep, dests, paths) == scanned(
            st,
            connections,
            from,
            connections.len() as int,
            dests,
            paths,
        ),
    decreases connections.len() - from,
{
    let end = connections.len() as int;
    let rest = scanned(st, connections, from, end, dests, paths)->Ok_0;
    let d = earliest_of(rest.arrival, dests)->0;
    if from >= end {
    } else if reached_by(st.arrival, dests, connections[from].dep_time) {
    } else if from < keep {
        let next = relaxed(st, connections[from], paths)->Ok_0;
        lemma_scan_cut(next, connections, from + 1, keep, dests, paths);
    } else {
        lemma_new_times_are_late(st, connections, from, end, dests, paths);
        lemma_earliest_of(rest.arrival, dests);
        assert(rest.arrival[d].before(connections[from].dep_time));
        assert(rest.arrival.contains_key(d));
        let k = choose|k: int| 0 <= k < dests.len() && dests[k] == d;
        assert(st.arrival.contains_key(dests[k]) && st.arrival[dests[k]].not_after(
            connections[from].dep_time,
        ));
        assert(false);
    }
}

/// Connections that depart after the answer do not matter: if a query is
/// answered with a time, and all connections from index `keep` on depart
/// after that time, the query has the same answer on the connections before
/// `keep` alone, as long as one of them departs at the departure time or
/// later.
pub proof fn lemma_later_departures_do_not_matter(
    origin: StopId,
    depart: CSTime,
    dests: Seq<StopId>,
    paths: Map<StopId, Seq<StopId>>,
    connections: Seq<Connection>,
    keep: int,
)
    requires
        departure_ordered(connections),
        all_well_timed(connections),
        0 <= keep <= connections.len(),
        earliest_arrival_of(origin, depart, dests, paths, connections) matches Ok(Some(time))
            && forall|i: int|
            keep <= i < connections.len() ==> time.before((#[trigger] connections[i]).dep_time),
        in_horizon(connections.take(keep), depart),
    ensures
        earliest_arrival_of(origin, depart, dests, paths, connections.take(keep))
            == earliest_arrival_of(origin, depart, dests, paths, connections),
        journey_of(origin, depart, dests, paths, connections.take(keep)) == journey_of(
            origin,
            depart,
            dests,
            paths,
            connections,
        ),
{
    let kept = connections.take(keep);
    let st = seeded(origin, depart, paths[origin]);
    lemma_first_departure_in_prefix(connections, depart, 0, keep);
    let from = first_departure(connections, depart, 0);
    lemma_first_departure_range(connections, depart, 0);
    lemma_scan_cut(st, connections, from, keep, dests, paths);
    lemma_scan_reads_prefix(st, connections, from, keep, dests, paths);
    assert(settled(origin, depart, dests, paths, kept) == settled(
        origin,
        depart,
        dests,
        paths,
        connections,
    ));
}

/// Asking twice gives the same answer: two answers to one query are the same
/// time or lack of one, and the same journey, leg by leg.
pub proof fn lemma_same_query_same_answer(
    origin: StopId,
    depart: CSTime,
    dests: Seq<StopId>,
    paths: Map<StopId, Seq<StopId>>,
    connections: Seq<Connection>,
    first_time: Result<Option<CSTime>, ScanError>,
    second_time: Result<Option<CSTime>, ScanError>,
    first_journey: Result<Option<(Vec<Leg>, CSTime)>, ScanError>,
    second_journey: Result<Option<(Vec<Leg>, CSTime)>, ScanError>,
)
    requires
        first_time == earliest_arrival_of(origin, depart, dests, paths, connections),
        second_time == earliest_arrival_of(origin, depart, dests, paths, connections),
        answer_of(first_journey) == journey_of(origin, depart, dests, paths, connections),
        answer_of(second_journey) == journey_of(origin, depart, dests, paths, connections),
    ensures
        first_time == second_time,
        answer_of(first_journey) == answer_of(second_journey),
{
}

/// The two queries agree: a journey is handed out with the earliest arrival
/// time, there is no journey exactly when there is no arrival time, and a
/// missing transfer entry fails both alike. The order of the connections is
/// not theirs to fault.
pub proof fn lemma_queries_agree(
    origin: StopId,
    depart: CSTime,
    dests: Seq<StopId>,
    paths: Map<StopId, Seq<StopId>>,
    connections: Seq<Connection>,
)
    ensures
        match journey_of(origin, depart, dests, paths, connections) {
            Ok(Some(found)) => earliest_arrival_of(origin, depart, dests, paths, connections)
                == Ok::<Option<CSTime>, ScanError>(Some(found.1)),
            Ok(None) => earliest_arrival_of(origin, depart, dests, paths, connections) == Ok::<
                Option<CSTime>,
                ScanError,
            >(None),
            Err(ScanError::UnknownStop(stop)) => earliest_arrival_of(
                origin,
                depart,
                dests,
                paths,
                connections,
            ) == Err::<Option<CSTime>, ScanError>(ScanError::UnknownStop(stop)),
            Err(ScanError::PredecessorCycle) => earliest_arrival_of(
                origin,
                depart,
                dests,
                paths,
                connections,
            ) matches Ok(Some(_)),
            Err(ScanError::MalformedInput) => false,
            Err(ScanError::UnnamedStop) => false,
        },
{
}

} // verus!
