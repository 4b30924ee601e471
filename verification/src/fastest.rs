//! The journey that is handed out is a fastest journey on the timetable.

use crate::connection_scan::{
    earliest_arrival_of, earliest_of, first_departure, improves, reached_by, relaxed, scanned,
    seeded, settled, usable, Predecessor, ScanState,
};
use crate::guarantees::{all_well_timed, lemma_earliest_of, lemma_first_departure_range};
use crate::journey::{journey_of, leg_into, stop_before, traced, Leg};
use crate::models::{departure_ordered, CSTime, Connection, StopId};
use crate::optimality::{leads_to, lemma_no_journey_arrives_earlier, walks_are_closed};
use crate::soundness::{
    chain_fits, clock_after, lemma_relaxing_keeps_fit, lemma_seeded_fits, lemma_traced_travels,
    lemma_usable_is_in_time, pred_fits, trips_chained, trips_fit,
};
use vstd::prelude::*;

verus! {

/// `when` tells for each predecessor the index of the connection that wrote
/// it, and the connections were written in the order of a journey: a ride is
/// the connection at its index and was written after the predecessor of the
/// stop it leaves from; a walk comes from the stop of a ride that was written
/// with it.
pub open spec fn written_in_order(
    st: ScanState,
    when: Map<StopId, int>,
    connections: Seq<Connection>,
    start: int,
    at: int,
) -> bool {
    forall|s: StopId| #[trigger]
        st.pred.contains_key(s) ==> {
            &&& start <= when[s] < at
            &&& match st.pred[s] {
                Predecessor::RideInto(c) => {
                    &&& connections[when[s]] == c
                    &&& st.pred.contains_key(c.dep_stop) ==> when[c.dep_stop] < when[s]
                },
                Predecessor::WalkInto(from) => {
                    &&& st.pred.contains_key(from)
                    &&& st.pred[from] is RideInto
                    &&& when[from] == when[s]
                },
            }
        }
}

/// The indices of the writing connections, after the connection at index
/// `at` has been looked at.
pub open spec fn marked(
    st: ScanState,
    when: Map<StopId, int>,
    c: Connection,
    paths: Map<StopId, Seq<StopId>>,
    at: int,
) -> Map<StopId, int> {
    if usable(st, c) && improves(st.arrival, c.arr_stop, c.arr_time) && paths.contains_key(
        c.arr_stop,
    ) {
        Map::new(
            |s: StopId| true,
            |s: StopId|
                if s == c.arr_stop || (paths[c.arr_stop].contains(s) && improves(
                    st.arrival,
                    s,
                    c.arr_time,
                )) {
                    at
                } else {
                    when[s]
                },
        )
    } else {
        when
    }
}

/// Looking at one connection keeps the predecessors written in order.
pub proof fn lemma_relaxing_keeps_order(
    st: ScanState,
    when: Map<StopId, int>,
    connections: Seq<Connection>,
    start: int,
    at: int,
    origin: StopId,
    depart: CSTime,
    paths: Map<StopId, Seq<StopId>>,
)
    requires
        departure_ordered(connections),
        all_well_timed(connections),
        trips_chained(connections),
        walks_are_closed(paths),
        0 <= start <= at < connections.len(),
        chain_fits(st, origin, depart, paths),
        trips_fit(st, connections, start, at),
        written_in_order(st, when, connections, start, at),
        relaxed(st, connections[at], paths) is Ok,
    ensures
        written_in_order(
            relaxed(st, connections[at], paths)->Ok_0,
            marked(st, when, connections[at], paths, at),
            connections,
            start,
            at + 1,
        ),
{
    let c = connections[at];
    let next = relaxed(st, c, paths)->Ok_0;
    let after = marked(st, when, c, paths, at);
    assert(c.well_timed());
    if usable(st, c) && improves(st.arrival, c.arr_stop, c.arr_time) {
        let targets = paths[c.arr_stop];
        lemma_usable_is_in_time(st, connections, start, at);
        assert(c.dep_stop != c.arr_stop);
        assert(!improves(st.arrival, c.dep_stop, c.arr_time));
        assert forall|s: StopId| #[trigger] next.pred.contains_key(s) implies ({
            &&& start <= after[s] < at + 1
            &&& match next.pred[s] {
                Predecessor::RideInto(r) => {
                    &&& connections[after[s]] == r
                    &&& next.pred.contains_key(r.dep_stop) ==> after[r.dep_stop] < after[s]
                },
                Predecessor::WalkInto(from) => {
                    &&& next.pred.contains_key(from)
                    &&& next.pred[from] is RideInto
                    &&& after[from] == after[s]
                },
            }
        }) by {
            if s == c.arr_stop {
                assert(next.pred[s] == Predecessor::RideInto(c));
                if next.pred.contains_key(c.dep_stop) {
                    assert(st.pred.contains_key(c.dep_stop));
                    assert(after[c.dep_stop] == when[c.dep_stop]);
                }
            } else if targets.contains(s) && improves(st.arrival, s, c.arr_time) {
                assert(next.pred[s] == Predecessor::WalkInto(c.arr_stop));
                assert(next.pred[c.arr_stop] == Predecessor::RideInto(c));
            } else {
                assert(st.pred.contains_key(s));
                assert(pred_fits(st, s, paths));
                assert(next.pred[s] == st.pred[s]);
                assert(after[s] == when[s]);
                match st.pred[s] {
                    Predecessor::RideInto(r) => {
                        let p = r.dep_stop;
                        assert(connections[when[s]] == r);
                        assert(connections[when[s]].dep_time.not_after(connections[at].dep_time));
                        assert(!improves(st.arrival, p, c.arr_time));
                        assert(p != c.arr_stop);
                        assert(after[p] == when[p]);
                        if next.pred.contains_key(p) {
                            assert(st.pred.contains_key(p));
                        }
                    },
                    Predecessor::WalkInto(from) => {
                        assert(st.pred.contains_key(from));
                        assert(st.arrival[from].not_after(st.arrival[s]));
                        assert(paths[from].contains(s));
                        if from == c.arr_stop {
                            assert(targets.contains(s));
                            assert(false);
                        }
                        if targets.contains(from) && improves(st.arrival, from, c.arr_time) {
                            assert(paths[c.arr_stop].contains(from) && paths[from].contains(s));
                            assert(targets.contains(s));
                            assert(false);
                        }
                        assert(next.pred[from] == st.pred[from]);
                        assert(after[from] == when[from]);
                    },
                }
            }
        }
    } else {
        assert(next.pred == st.pred);
    }
}

/// A scan keeps the predecessors written in order, and fitting.
pub proof fn lemma_scan_keeps_order(
    st: ScanState,
    when: Map<StopId, int>,
    connections: Seq<Connection>,
    start: int,
    from: int,
    end: int,
    dests: Seq<StopId>,
    origin: StopId,
    depart: CSTime,
    paths: Map<StopId, Seq<StopId>>,
) -> (last: Map<StopId, int>)
    requires
        departure_ordered(connections),
        all_well_timed(connections),
        trips_chained(connections),
        walks_are_closed(paths),
        0 <= start <= from <= connections.len(),
        chain_fits(st, origin, depart, paths),
        trips_fit(st, connections, start, from),
        written_in_order(st, when, connections, start, from),
    ensures
        scanned(st, connections, from, end, dests, paths) matches Ok(rest) ==> chain_fits(
            rest,
            origin,
            depart,
            paths,
        ) && written_in_order(rest, last, connections, start, connections.len() as int),
    decreases end - from,
{
    if from >= end || from >= connections.len() {
        when
    } else if reached_by(st.arrival, dests, connections[from].dep_time) {
        when
    } else {
        match relaxed(st, connections[from], paths) {
            Err(_) => when,
            Ok(next) => {
                lemma_relaxing_keeps_fit(st, connections, start, from, origin, depart, paths);
                lemma_relaxing_keeps_order(
                    st,
                    when,
                    connections,
                    start,
                    from,
                    origin,
                    depart,
                    paths,
                );
                lemma_scan_keeps_order(
                    next,
                    marked(st, when, connections[from], paths, from),
                    connections,
                    start,
                    from + 1,
                    end,
                    dests,
                    origin,
                    depart,
                    paths,
                )
            },
        }
    }
}

/// A journey on the connections before an index is a journey on the
/// connections before any later index.
pub proof fn lemma_leads_to_with_more(
    legs: Seq<Leg>,
    stop: StopId,
    origin: StopId,
    depart: CSTime,
    paths: Map<StopId, Seq<StopId>>,
    connections: Seq<Connection>,
    below: int,
    more: int,
)
    requires
        below <= more,
        leads_to(legs, stop, origin, depart, paths, connections, below),
    ensures
        leads_to(legs, stop, origin, depart, paths, connections, more),
    decreases legs.len(),
{
    if legs.len() > 0 {
        match legs.last() {
            Leg::Walk { from, to } => {
                lemma_leads_to_with_more(
                    legs.drop_last(),
                    from,
                    origin,
                    depart,
                    paths,
                    connections,
                    below,
                    more,
                );
            },
            Leg::Ride(c) => {
                let j = choose|j: int|
                    0 <= j < below && j < connections.len() && #[trigger] connections[j] == c
                        && leads_to(
                        legs.drop_last(),
                        c.dep_stop,
                        origin,
                        depart,
                        paths,
                        connections,
                        j,
                    );
                assert(0 <= j < more && connections[j] == c);
            },
        }
    }
}

/// Where the predecessors fit and were written in order, the legs traced
/// back from a reached stop are a journey on the timetable.
pub proof fn lemma_traced_is_a_journey(
    st: ScanState,
    when: Map<StopId, int>,
    connections: Seq<Connection>,
    start: int,
    origin: StopId,
    depart: CSTime,
    paths: Map<StopId, Seq<StopId>>,
    stop: StopId,
    budget: nat,
)
    requires
        0 <= start,
        chain_fits(st, origin, depart, paths),
        written_in_order(st, when, connections, start, connections.len() as int),
        st.arrival.contains_key(stop),
    ensures
        traced(st.pred, stop, budget) matches Some(legs) ==> leads_to(
            legs,
            stop,
            origin,
            depart,
            paths,
            connections,
            if st.pred.contains_key(stop) {
                when[stop] + 1
            } else {
                0
            },
        ),
    decreases budget,
{
    if st.pred.contains_key(stop) && budget > 0 {
        let p = st.pred[stop];
        let before = stop_before(p);
        assert(pred_fits(st, stop, paths));
        lemma_traced_is_a_journey(
            st,
            when,
            connections,
            start,
            origin,
            depart,
            paths,
            before,
            (budget - 1) as nat,
        );
        lemma_traced_travels(st, origin, depart, paths, before, (budget - 1) as nat);
        let rest = traced(st.pred, before, (budget - 1) as nat);
        if rest is Some {
            let head = rest->0;
            let legs = head.push(leg_into(p, stop));
            assert(legs.drop_last() =~= head);
            assert(legs.last() == leg_into(p, stop));
            let low = if st.pred.contains_key(before) {
                when[before] + 1
            } else {
                0
            };
            match p {
                Predecessor::RideInto(c) => {
                    let j = when[stop];
                    lemma_leads_to_with_more(
                        head,
                        before,
                        origin,
                        depart,
                        paths,
                        connections,
                        low,
                        j,
                    );
                    assert(connections[j] == c);
                },
                Predecessor::WalkInto(from) => {
                    assert(low == when[stop] + 1);
                },
            }
        }
    }
}

/// The journey that is handed out is a fastest journey on the timetable: it
/// is a journey on the timetable to a destination, it arrives at the time
/// that is handed out with it, and no journey on the timetable to a
/// destination arrives earlier.
///
/// This holds where the connections are ordered by departure, no vehicle
/// arrives before it leaves, every trip is one chain, and walks are closed.
pub proof fn lemma_handed_out_is_fastest(
    origin: StopId,
    depart: CSTime,
    dests: Seq<StopId>,
    paths: Map<StopId, Seq<StopId>>,
    connections: Seq<Connection>,
)
    requires
        departure_ordered(connections),
        all_well_timed(connections),
        trips_chained(connections),
        walks_are_closed(paths),
    ensures
        journey_of(origin, depart, dests, paths, connections) matches Ok(Some(found)) ==> {
            &&& earliest_arrival_of(origin, depart, dests, paths, connections) == Ok::<
                Option<CSTime>,
                crate::connection_scan::ScanError,
            >(Some(found.1))
            &&& clock_after(found.0, depart) == found.1
            &&& exists|k: int|
                0 <= k < dests.len() && leads_to(
                    found.0,
                    #[trigger] dests[k],
                    origin,
                    depart,
                    paths,
                    connections,
                    connections.len() as int,
                )
            &&& forall|legs: Seq<Leg>, k: int|
                0 <= k < dests.len() && #[trigger] leads_to(
                    legs,
                    dests[k],
                    origin,
                    depart,
                    paths,
                    connections,
                    connections.len() as int,
                ) ==> found.1.not_after(clock_after(legs, depart))
        },
{
    let answer = journey_of(origin, depart, dests, paths, connections);
    if answer is Ok && answer->Ok_0 is Some {
        let found = answer->Ok_0->0;
        let end = connections.len() as int;
        let start = first_departure(connections, depart, 0);
        lemma_first_departure_range(connections, depart, 0);
        let st = seeded(origin, depart, paths[origin]);
        lemma_seeded_fits(origin, depart, paths, connections, start);
        let none = Map::<StopId, int>::new(|s: StopId| true, |s: StopId| 0int);
        let when = lemma_scan_keeps_order(
            st,
            none,
            connections,
            start,
            start,
            end,
            dests,
            origin,
            depart,
            paths,
        );
        let fin = settled(origin, depart, dests, paths, connections)->Ok_0;
        lemma_earliest_of(fin.arrival, dests);
        let d = earliest_of(fin.arrival, dests)->0;
        let k = choose|k: int| 0 <= k < dests.len() && dests[k] == d;
        lemma_traced_is_a_journey(
            fin,
            when,
            connections,
            start,
            origin,
            depart,
            paths,
            d,
            fin.pred.dom().len(),
        );
        lemma_traced_travels(fin, origin, depart, paths, d, fin.pred.dom().len());
        let low = if fin.pred.contains_key(d) {
            when[d] + 1
        } else {
            0
        };
        lemma_leads_to_with_more(found.0, d, origin, depart, paths, connections, low, end);
        assert(leads_to(found.0, dests[k], origin, depart, paths, connections, end));
        lemma_no_journey_arrives_earlier(origin, depart, dests, paths, connections, found.0, k);
        assert forall|legs: Seq<Leg>, m: int|
            0 <= m < dests.len() && #[trigger] leads_to(
                legs,
                dests[m],
                origin,
                depart,
                paths,
                connections,
                end,
            ) implies found.1.not_after(clock_after(legs, depart)) by {
            lemma_no_journey_arrives_earlier(origin, depart, dests, paths, connections, legs, m);
        }
    }
}

} // verus!
