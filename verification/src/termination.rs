//! On a timetable in which no vehicle arrives before it leaves and every trip
//! is one chain, the predecessors never lead around in a circle.

use crate::connection_scan::{
    earliest_of, first_departure, improves, in_horizon, reached_by, relaxed, scanned, seeded,
    settled, usable, Predecessor, ScanError, ScanState,
};
use crate::guarantees::{all_well_timed, lemma_first_departure_range};
use crate::journey::{journey_of, stop_before, traced};
use crate::models::{CSTime, Connection, StopId};
use crate::soundness::{
    chain_fits, lemma_relaxing_keeps_fit, lemma_seeded_fits, lemma_usable_is_in_time, pred_fits,
    trips_chained, trips_fit,
};
use vstd::prelude::*;
use vstd::set_lib::lemma_len_subset;

verus! {

/// Stop `p` ranks strictly below stop `s`: it is reached earlier, or at the
/// same time and its predecessor was written earlier.
pub open spec fn ranks_below(st: ScanState, stamp: Map<StopId, int>, p: StopId, s: StopId)
    -> bool {
    st.arrival[p].before(st.arrival[s]) || (st.arrival[p] == st.arrival[s] && stamp[p] < stamp[s])
}

/// Stop `x` ranks no higher than stop `s`.
pub open spec fn ranks_up_to(st: ScanState, stamp: Map<StopId, int>, x: StopId, s: StopId)
    -> bool {
    st.arrival[x].before(st.arrival[s]) || (st.arrival[x] == st.arrival[s] && stamp[x]
        <= stamp[s])
}

/// Every predecessor leads to a stop that ranks strictly below, or to one
/// that has no predecessor; `stamp` says when each predecessor was written,
/// and no stamp is `limit` or more.
pub open spec fn ranked(st: ScanState, stamp: Map<StopId, int>, limit: int) -> bool {
    &&& st.pred.dom().finite()
    &&& forall|s: StopId| #[trigger] st.pred.contains_key(s) ==> stamp[s] < limit
    &&& forall|s: StopId| #[trigger]
        st.pred.contains_key(s) ==> (st.pred[s] matches Predecessor::RideInto(c)
            ==> c.well_timed())
    &&& forall|s: StopId| #[trigger]
        st.pred.contains_key(s) && st.pred.contains_key(stop_before(st.pred[s])) ==> ranks_below(
            st,
            stamp,
            stop_before(st.pred[s]),
            s,
        )
}

/// When the predecessor of each stop was written, after the connection at
/// index `at` has been looked at.
pub open spec fn stamped(
    st: ScanState,
    stamp: Map<StopId, int>,
    c: Connection,
    paths: Map<StopId, Seq<StopId>>,
    at: int,
) -> Map<StopId, int> {
    if usable(st, c) && improves(st.arrival, c.arr_stop, c.arr_time) && paths.contains_key(
        c.arr_stop,
    ) {
        Map::new(
            |s: StopId| true,
            |s: StopId|
                if s == c.arr_stop {
                    2 * at
                } else if paths[c.arr_stop].contains(s) && improves(st.arrival, s, c.arr_time) {
                    2 * at + 1
                } else {
                    stamp[s]
                },
        )
    } else {
        stamp
    }
}

/// Looking at one connection keeps the predecessors ranked.
pub proof fn lemma_relaxing_keeps_ranked(
    st: ScanState,
    stamp: Map<StopId, int>,
    connections: Seq<Connection>,
    start: int,
    at: int,
    origin: StopId,
    depart: CSTime,
    paths: Map<StopId, Seq<StopId>>,
)
    requires
        trips_chained(connections),
        all_well_timed(connections),
        0 <= start <= at < connections.len(),
        chain_fits(st, origin, depart, paths),
        trips_fit(st, connections, start, at),
        ranked(st, stamp, 2 * at),
        relaxed(st, connections[at], paths) is Ok,
    ensures
        ranked(
            relaxed(st, connections[at], paths)->Ok_0,
            stamped(st, stamp, connections[at], paths, at),
            2 * at + 2,
        ),
{
    let c = connections[at];
    let next = relaxed(st, c, paths)->Ok_0;
    let after = stamped(st, stamp, c, paths, at);
    assert(c.well_timed());
    if usable(st, c) && improves(st.arrival, c.arr_stop, c.arr_time) {
        let targets = paths[c.arr_stop];
        lemma_usable_is_in_time(st, connections, start, at);
        assert(next.pred.dom().subset_of(st.pred.dom().union(targets.to_set()).insert(c.arr_stop)))
            by {
            assert forall|s: StopId| next.pred.dom().contains(s) implies st.pred.dom().union(
                targets.to_set(),
            ).insert(c.arr_stop).contains(s) by {
                if targets.contains(s) {
                    assert(targets.to_set().contains(s));
                }
            }
        }
        vstd::seq_lib::seq_to_set_is_finite(targets);
        lemma_len_subset(
            next.pred.dom(),
            st.pred.dom().union(targets.to_set()).insert(c.arr_stop),
        );
        assert(c.dep_stop != c.arr_stop);
        assert(!improves(st.arrival, c.dep_stop, c.arr_time));
        assert forall|s: StopId| #[trigger]
            next.pred.contains_key(s) && next.pred.contains_key(
                stop_before(next.pred[s]),
            ) implies ranks_below(next, after, stop_before(next.pred[s]), s) by {
            let p = stop_before(next.pred[s]);
            if s == c.arr_stop {
                assert(p == c.dep_stop);
                assert(next.arrival[p] == st.arrival[p]);
                assert(st.pred.contains_key(p));
                assert(after[p] == stamp[p]);
            } else if targets.contains(s) && improves(st.arrival, s, c.arr_time) {
                assert(p == c.arr_stop);
            } else {
                assert(st.pred.contains_key(s));
                assert(pred_fits(st, s, paths));
                assert(next.pred[s] == st.pred[s]);
                assert(next.arrival[s] == st.arrival[s]);
                assert(st.arrival.contains_key(p));
                assert(st.arrival[p].not_after(st.arrival[s]));
                if p == c.arr_stop || (targets.contains(p) && improves(
                    st.arrival,
                    p,
                    c.arr_time,
                )) {
                    assert(next.arrival[p].before(st.arrival[p]));
                } else {
                    assert(st.pred.contains_key(p));
                    assert(ranks_below(st, stamp, p, s));
                    assert(next.arrival[p] == st.arrival[p]);
                }
            }
        }
    } else {
        assert(next.pred == st.pred);
        assert(next.arrival == st.arrival);
    }
}

/// A scan keeps the predecessors ranked, and fitting.
pub proof fn lemma_scan_keeps_ranked(
    st: ScanState,
    stamp: Map<StopId, int>,
    connections: Seq<Connection>,
    start: int,
    from: int,
    end: int,
    dests: Seq<StopId>,
    origin: StopId,
    depart: CSTime,
    paths: Map<StopId, Seq<StopId>>,
) -> (last: Map<StopId, int>)
    requires
        trips_chained(connections),
        all_well_timed(connections),
        0 <= start <= from <= connections.len(),
        chain_fits(st, origin, depart, paths),
        trips_fit(st, connections, start, from),
        ranked(st, stamp, 2 * from),
    ensures
        scanned(st, connections, from, end, dests, paths) matches Ok(rest) ==> ranked(
            rest,
            last,
            2 * (connections.len() as int),
        ),
    decreases end - from,
{
    if from >= end || from >= connections.len() {
        stamp
    } else if reached_by(st.arrival, dests, connections[from].dep_time) {
        stamp
    } else {
        match relaxed(st, connections[from], paths) {
            Err(_) => stamp,
            Ok(next) => {
                lemma_relaxing_keeps_fit(st, connections, start, from, origin, depart, paths);
                lemma_relaxing_keeps_ranked(
                    st,
                    stamp,
                    connections,
                    start,
                    from,
                    origin,
                    depart,
                    paths,
                );
                lemma_scan_keeps_ranked(
                    next,
                    stamped(st, stamp, connections[from], paths, from),
                    connections,
                    start,
                    from + 1,
                    end,
                    dests,
                    origin,
                    depart,
                    paths,
                )
            },
        }
    }
}

/// The stops with a predecessor that rank no higher than `s`.
pub open spec fn up_to(st: ScanState, stamp: Map<StopId, int>, s: StopId) -> Set<StopId> {
    Set::new(|x: StopId| st.pred.contains_key(x) && ranks_up_to(st, stamp, x, s))
}

/// Ranked predecessors lead to a stop without predecessor, within as many
/// steps as there are stops that rank no higher than the first.
pub proof fn lemma_ranked_is_traced(
    st: ScanState,
    stamp: Map<StopId, int>,
    limit: int,
    s: StopId,
    budget: nat,
)
    requires
        ranked(st, stamp, limit),
        st.pred.contains_key(s) ==> budget >= up_to(st, stamp, s).len(),
    ensures
        traced(st.pred, s, budget) is Some,
    decreases budget,
{
    if st.pred.contains_key(s) {
        let here = up_to(st, stamp, s);
        assert(here.subset_of(st.pred.dom()));
        lemma_len_subset(here, st.pred.dom());
        assert(here.contains(s));
        assert(here.len() > 0) by {
            if here.len() == 0 {
                assert(here =~= Set::empty());
            }
        }
        let p = stop_before(st.pred[s]);
        if st.pred.contains_key(p) {
            assert(ranks_below(st, stamp, p, s));
            let there = up_to(st, stamp, p);
            assert(there.subset_of(here.remove(s)));
            lemma_len_subset(there, here.remove(s));
        }
        lemma_ranked_is_traced(st, stamp, limit, p, (budget - 1) as nat);
    }
}

/// On a timetable in which no vehicle arrives before it leaves and every
/// trip is one chain, a journey query never fails for a circle of
/// predecessors.
pub proof fn lemma_no_circle(
    origin: StopId,
    depart: CSTime,
    dests: Seq<StopId>,
    paths: Map<StopId, Seq<StopId>>,
    connections: Seq<Connection>,
)
    requires
        trips_chained(connections),
        all_well_timed(connections),
    ensures
        journey_of(origin, depart, dests, paths, connections) != Err::<
            Option<(Seq<crate::journey::Leg>, CSTime)>,
            ScanError,
        >(ScanError::PredecessorCycle),
{
    if paths.contains_key(origin) {
        let start = first_departure(connections, depart, 0);
        lemma_first_departure_range(connections, depart, 0);
        let st = seeded(origin, depart, paths[origin]);
        lemma_seeded_fits(origin, depart, paths, connections, start);
        let stamp = Map::<StopId, int>::new(|s: StopId| true, |s: StopId| 0int);
        assert(st.pred.dom() =~= Set::empty());
        let last = lemma_scan_keeps_ranked(
            st,
            stamp,
            connections,
            start,
            start,
            connections.len() as int,
            dests,
            origin,
            depart,
            paths,
        );
        let rest = settled(origin, depart, dests, paths, connections);
        if rest is Ok && in_horizon(connections, depart) {
            let fin = rest->Ok_0;
            if earliest_of(fin.arrival, dests) is Some {
                let d = earliest_of(fin.arrival, dests)->0;
                if fin.pred.contains_key(d) {
                    assert(up_to(fin, last, d).subset_of(fin.pred.dom()));
                    lemma_len_subset(up_to(fin, last, d), fin.pred.dom());
                }
                lemma_ranked_is_traced(
                    fin,
                    last,
                    2 * (connections.len() as int),
                    d,
                    fin.pred.dom().len(),
                );
            }
        }
    }
}

} // verus!
