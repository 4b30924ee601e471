//! The connection scan: one pass over the departure-ordered connections that
//! keeps, for every stop, the earliest arrival found so far and the ride or
//! walk that achieved it.

use crate::models::gtfs::Stop;
use crate::models::{departure_ordered, CSTime, Connection, StopId, TripId};
use crate::names::{place_of, Names};
use std::collections::{HashMap, HashSet};
use vstd::prelude::*;

pub use crate::journey::{find_journey, find_journey_checked};

verus! {

broadcast use vstd::std_specs::hash::group_hash_axioms;

/// How the best known arrival at a stop was achieved.
#[derive(Debug, Clone, Copy, PartialEq, Eq, Structural)]
pub enum Predecessor {
    /// The traveller rode this connection into the stop.
    RideInto(Connection),
    /// The traveller walked over from this stop.
    WalkInto(StopId),
}

/// Why a query could not be answered.
#[derive(Debug, Clone, Copy, PartialEq, Eq, Structural)]
pub enum ScanError {
    /// The transfer table has no entry for this stop.
    UnknownStop(StopId),
    /// The recorded predecessors lead around in a circle.
    PredecessorCycle,
    /// The connections are not ordered by departure time.
    MalformedInput,
    /// The stop to leave from or to arrive at has no number among the names.
    UnnamedStop,
}

/// What one scan knows at a moment: the model of [`ScanTables`].
pub struct ScanState {
    /// The best known arrival time of each stop reached so far.
    pub arrival: Map<StopId, CSTime>,
    /// The trips the traveller can be on.
    pub boarded: Set<TripId>,
    /// The last leg of the best known way to each stop that was not seeded.
    pub pred: Map<StopId, Predecessor>,
}

/// The transfer table as a mathematical map from a stop to the stops in
/// walking reach of it.
pub open spec fn footpaths(transfers: Map<StopId, Vec<StopId>>) -> Map<StopId, Seq<StopId>> {
    Map::new(|s: StopId| transfers.contains_key(s), |s: StopId| transfers[s]@)
}

/// Arriving at `stop` at `time` would be news: the stop has no arrival time
/// yet, or a strictly later one.
pub open spec fn improves(arrival: Map<StopId, CSTime>, stop: StopId, time: CSTime) -> bool {
    !arrival.contains_key(stop) || time.before(arrival[stop])
}

/// The state a scan starts from: the origin and every stop in walking reach
/// of it are reached at the departure time, nothing has a predecessor.
pub open spec fn seeded(origin: StopId, depart: CSTime, reach: Seq<StopId>) -> ScanState {
    ScanState {
        arrival: Map::new(|s: StopId| s == origin || reach.contains(s), |s: StopId| depart),
        boarded: Set::empty(),
        pred: Map::empty(),
    }
}

/// The state after walking on from `from`, reached at `time`, to each of
/// `targets` that this improves.
pub open spec fn walked(st: ScanState, from: StopId, time: CSTime, targets: Seq<StopId>)
    -> ScanState {
    ScanState {
        arrival: Map::new(
            |s: StopId| st.arrival.contains_key(s) || targets.contains(s),
            |s: StopId|
                if targets.contains(s) && improves(st.arrival, s, time) {
                    time
                } else {
                    st.arrival[s]
                },
        ),
        boarded: st.boarded,
        pred: Map::new(
            |s: StopId|
                st.pred.contains_key(s) || (targets.contains(s) && improves(st.arrival, s, time)),
            |s: StopId|
                if targets.contains(s) && improves(st.arrival, s, time) {
                    Predecessor::WalkInto(from)
                } else {
                    st.pred[s]
                },
        ),
    }
}

/// The traveller can take connection `c`: they are already on its trip, or
/// they stand at its departure stop when it leaves.
pub open spec fn usable(st: ScanState, c: Connection) -> bool {
    st.boarded.contains(c.trip) || (st.arrival.contains_key(c.dep_stop)
        && st.arrival[c.dep_stop].not_after(c.dep_time))
}

/// The state after looking at connection `c`, or the stop whose transfer
/// entry is missing.
///
/// A connection that cannot be taken changes nothing. One that can be taken
/// boards its trip. If it reaches its arrival stop strictly earlier than
/// known, the stop's time and predecessor are replaced and the traveller
/// walks on from there.
pub open spec fn relaxed(st: ScanState, c: Connection, paths: Map<StopId, Seq<StopId>>) -> Result<
    ScanState,
    StopId,
> {
    if !usable(st, c) {
        Ok(st)
    } else if !improves(st.arrival, c.arr_stop, c.arr_time) {
        Ok(ScanState { boarded: st.boarded.insert(c.trip), ..st })
    } else if !paths.contains_key(c.arr_stop) {
        Err(c.arr_stop)
    } else {
        Ok(
            walked(
                ScanState {
                    arrival: st.arrival.insert(c.arr_stop, c.arr_time),
                    boarded: st.boarded.insert(c.trip),
                    pred: st.pred.insert(c.arr_stop, Predecessor::RideInto(c)),
                },
                c.arr_stop,
                c.arr_time,
                paths[c.arr_stop],
            ),
        )
    }
}

/// One of `dests` is known to be reached at `by` or earlier.
pub open spec fn reached_by(arrival: Map<StopId, CSTime>, dests: Seq<StopId>, by: CSTime) -> bool {
    exists|k: int|
        0 <= k < dests.len() && arrival.contains_key(#[trigger] dests[k])
            && arrival[dests[k]].not_after(by)
}

/// The state in which the scan of `connections[from..end]` comes to rest.
///
/// The scan stops in front of the first connection that leaves when a
/// destination is already reached, and otherwise relaxes one connection
/// after the other up to `end`.
pub open spec fn scanned(
    st: ScanState,
    connections: Seq<Connection>,
    from: int,
    end: int,
    dests: Seq<StopId>,
    paths: Map<StopId, Seq<StopId>>,
) -> Result<ScanState, StopId>
    decreases end - from,
{
    if from >= end || from < 0 || from >= connections.len() {
        Ok(st)
    } else if reached_by(st.arrival, dests, connections[from].dep_time) {
        Ok(st)
    } else {
        match relaxed(st, connections[from], paths) {
            Err(stop) => Err(stop),
            Ok(next) => scanned(next, connections, from + 1, end, dests, paths),
        }
    }
}

/// The state in which the scan of `connections[from..end]` is left: the
/// state in which it comes to rest, or, where a transfer entry is missing, the
/// state in front of the connection that needed it.
pub open spec fn left_at(
    st: ScanState,
    connections: Seq<Connection>,
    from: int,
    end: int,
    dests: Seq<StopId>,
    paths: Map<StopId, Seq<StopId>>,
) -> ScanState
    decreases end - from,
{
    if from >= end || from < 0 || from >= connections.len() {
        st
    } else if reached_by(st.arrival, dests, connections[from].dep_time) {
        st
    } else {
        match relaxed(st, connections[from], paths) {
            Err(stop) => st,
            Ok(next) => left_at(next, connections, from + 1, end, dests, paths),
        }
    }
}

/// The destination among `dests` that is reached earliest, if any is
/// reached. Of several reached at the same time, the one named first.
pub open spec fn earliest_of(arrival: Map<StopId, CSTime>, dests: Seq<StopId>) -> Option<StopId>
    decreases dests.len(),
{
    if dests.len() == 0 {
        None
    } else {
        let among_rest = earliest_of(arrival, dests.drop_last());
        let last = dests.last();
        if arrival.contains_key(last) && (among_rest is None || arrival[last].before(
            arrival[among_rest->0],
        )) {
            Some(last)
        } else {
            among_rest
        }
    }
}

/// The numbers of the stops of `stops` that carry the name `name` and have
/// a number, in their order.
pub open spec fn platforms_named(name: Seq<char>, stops: Seq<Stop>, names: Seq<Seq<char>>)
    -> Seq<StopId>
    decreases stops.len(),
{
    if stops.len() == 0 {
        Seq::empty()
    } else {
        let rest = platforms_named(name, stops.drop_last(), names);
        if stops.last().stop_name@ == name && names.contains(stops.last().id@) {
            rest.push(place_of(names, stops.last().id@) as u64)
        } else {
            rest
        }
    }
}

/// The stops at which a journey to `arr_stop` may end: the stop itself, then
/// every stop of `stops` that shares its name.
pub open spec fn destinations(arr_stop: Stop, stops: Seq<Stop>, names: Seq<Seq<char>>) -> Seq<
    StopId,
> {
    seq![place_of(names, arr_stop.id@) as u64] + platforms_named(arr_stop.stop_name@, stops, names)
}

/// The numbers that a query is about: that of the stop to leave from, and
/// those of the stops to arrive at. There are none if one of the two stops
/// has no number.
pub open spec fn asked(dep_stop: Stop, arr_stop: Stop, stops: Seq<Stop>, names: Seq<Seq<char>>)
    -> Option<(StopId, Seq<StopId>)> {
    if names.contains(dep_stop.id@) && names.contains(arr_stop.id@) {
        Some((place_of(names, dep_stop.id@) as u64, destinations(arr_stop, stops, names)))
    } else {
        None
    }
}

/// The answer to an earliest-arrival query about two stops.
pub open spec fn earliest_arrival_between(
    dep_stop: Stop,
    arr_stop: Stop,
    depart: CSTime,
    stops: Seq<Stop>,
    names: Seq<Seq<char>>,
    paths: Map<StopId, Seq<StopId>>,
    connections: Seq<Connection>,
) -> Result<Option<CSTime>, ScanError> {
    match asked(dep_stop, arr_stop, stops, names) {
        None => Err(ScanError::UnnamedStop),
        Some(numbers) => earliest_arrival_of(numbers.0, depart, numbers.1, paths, connections),
    }
}

/// The state in which the scan for a query comes to rest, or the stop whose
/// transfer entry was missing.
///
/// The scan starts from the seeded state at the first connection that
/// departs at `depart` or later.
pub open spec fn settled(
    origin: StopId,
    depart: CSTime,
    dests: Seq<StopId>,
    paths: Map<StopId, Seq<StopId>>,
    connections: Seq<Connection>,
) -> Result<ScanState, StopId> {
    if !paths.contains_key(origin) {
        Err(origin)
    } else {
        scanned(
            seeded(origin, depart, paths[origin]),
            connections,
            first_departure(connections, depart, 0),
            connections.len() as int,
            dests,
            paths,
        )
    }
}

/// Some connection departs at `depart` or later.
pub open spec fn in_horizon(connections: Seq<Connection>, depart: CSTime) -> bool {
    first_departure(connections, depart, 0) < connections.len()
}

/// The answer to an earliest-arrival query.
///
/// A missing transfer entry is an error. Outside the horizon of the
/// connections there is no answer. Otherwise the answer is the earliest time
/// at which the scan, when it comes to rest, has reached a destination.
pub open spec fn earliest_arrival_of(
    origin: StopId,
    depart: CSTime,
    dests: Seq<StopId>,
    paths: Map<StopId, Seq<StopId>>,
    connections: Seq<Connection>,
) -> Result<Option<CSTime>, ScanError> {
    match settled(origin, depart, dests, paths, connections) {
        Err(stop) => Err(ScanError::UnknownStop(stop)),
        Ok(st) => if !in_horizon(connections, depart) {
            Ok(None)
        } else {
            match earliest_of(st.arrival, dests) {
                None => Ok(None),
                Some(d) => Ok(Some(st.arrival[d])),
            }
        },
    }
}

/// The index of the first connection, from `from` on, that departs at `time`
/// or later; the length of the sequence if there is none.
pub open spec fn first_departure(connections: Seq<Connection>, time: CSTime, from: int) -> int
    decreases connections.len() - from,
{
    if from < 0 || from >= connections.len() {
        connections.len() as int
    } else if time.not_after(connections[from].dep_time) {
        from
    } else {
        first_departure(connections, time, from + 1)
    }
}

/// An index is the first departure at `time` or later if everything before it
/// departs earlier and it does not.
pub proof fn lemma_first_departure(connections: Seq<Connection>, time: CSTime, from: int, at: int)
    requires
        0 <= from <= at <= connections.len(),
        forall|i: int| from <= i < at ==> (#[trigger] connections[i]).dep_time.before(time),
        at < connections.len() ==> time.not_after(connections[at].dep_time),
    ensures
        first_departure(connections, time, from) == at,
    decreases at - from,
{
    if from < at {
        assert(connections[from].dep_time.before(time));
        lemma_first_departure(connections, time, from + 1, at);
    }
}

/// A prefix one longer holds what the shorter one holds, and the next item.
pub proof fn lemma_take_one_more(s: Seq<StopId>, k: int)
    requires
        0 <= k < s.len(),
    ensures
        s.take(k + 1) == s.take(k).push(s[k]),
        forall|x: StopId| s.take(k + 1).contains(x) <==> (s.take(k).contains(x) || x == s[k]),
{
    let before = s.take(k);
    let after = s.take(k + 1);
    assert(after =~= before.push(s[k]));
    assert forall|x: StopId| after.contains(x) <==> (before.contains(x) || x == s[k]) by {
        if after.contains(x) {
            let i = choose|i: int| 0 <= i < after.len() && after[i] == x;
            if i < k {
                assert(before[i] == x);
            }
        }
        if before.contains(x) {
            let i = choose|i: int| 0 <= i < before.len() && before[i] == x;
            assert(after[i] == x);
        }
        assert(after[k] == s[k]);
    }
}

/// The tables of one scan. They belong to one query and are dropped with it.
pub struct ScanTables {
    pub arrival: HashMap<StopId, CSTime>,
    pub boarded: HashSet<TripId>,
    pub pred: HashMap<StopId, Predecessor>,
}

impl View for ScanTables {
    type V = ScanState;

    open spec fn view(&self) -> ScanState {
        ScanState { arrival: self.arrival@, boarded: self.boarded@, pred: self.pred@ }
    }
}

impl ScanTables {
    /// Starts a scan at `origin` at time `depart`; `reach` lists the stops in
    /// walking reach of the origin.
    pub fn seed(origin: StopId, depart: CSTime, reach: &Vec<StopId>) -> (tables: ScanTables)
        ensures
            tables@ == seeded(origin, depart, reach@),
    {
        let mut arrival: HashMap<StopId, CSTime> = HashMap::new();
        arrival.insert(origin, depart);
        let mut k: usize = 0;
        while k < reach.len()
            invariant
                k <= reach.len(),
                arrival@ =~= seeded(origin, depart, reach@.take(k as int)).arrival,
            decreases reach.len() - k,
        {
            arrival.insert(reach[k], depart);
            proof {
                lemma_take_one_more(reach@, k as int);
            }
            k += 1;
        }
        proof {
            assert(reach@.take(k as int) =~= reach@);
        }
        let tables = ScanTables { arrival, boarded: HashSet::new(), pred: HashMap::new() };
        proof {
            assert(tables@.pred =~= seeded(origin, depart, reach@).pred);
            assert(tables@.boarded =~= seeded(origin, depart, reach@).boarded);
        }
        tables
    }
    /// Walks on from `from`, reached at `time`, to each of `targets`, and
    /// records the walk at every stop that it reaches strictly earlier.
    pub fn walk_on(&mut self, from: StopId, time: CSTime, targets: &Vec<StopId>)
        ensures
            final(self)@ == walked(old(self)@, from, time, targets@),
    {
        let ghost start = self@;
        let mut k: usize = 0;
        proof {
            assert(self@.arrival =~= walked(start, from, time, targets@.take(0)).arrival);
            assert(self@.pred =~= walked(start, from, time, targets@.take(0)).pred);
        }
        while k < targets.len()
            invariant
                k <= targets.len(),
                self@.arrival == walked(start, from, time, targets@.take(k as int)).arrival,
                self@.pred == walked(start, from, time, targets@.take(k as int)).pred,
                self@.boarded == start.boarded,
            decreases targets.len() - k,
        {
            let stop = targets[k];
            let news = match self.arrival.get(&stop) {
                Some(known) => time.is_before(known),
                None => true,
            };
            proof {
                lemma_take_one_more(targets@, k as int);
            }
            if news {
                self.arrival.insert(stop, time);
                self.pred.insert(stop, Predecessor::WalkInto(from));
            }
            proof {
                let next = walked(start, from, time, targets@.take(k + 1));
                assert(self@.arrival =~= next.arrival);
                assert(self@.pred =~= next.pred);
            }
            k += 1;
        }
        proof {
            assert(targets@.take(k as int) =~= targets@);
        }
    }

    /// Looks at connection `c`: boards its trip if the traveller can take it,
    /// and records the ride, and the walks on from its arrival stop, wherever
    /// they arrive strictly earlier than known.
    ///
    /// No arrival time ever gets later. If the arrival stop would be improved
    /// but has no entry in `transfers`, the tables stay as they were and the
    /// stop is reported.
    pub fn relax(&mut self, c: &Connection, transfers: &HashMap<StopId, Vec<StopId>>) -> (r:
        Result<(), ScanError>)
        ensures
            match relaxed(old(self)@, *c, footpaths(transfers@)) {
                Ok(next) => r is Ok && final(self)@ == next,
                Err(stop) => {
                    &&& r == Err::<(), ScanError>(ScanError::UnknownStop(stop))
                    &&& final(self)@ == old(self)@
                },
            },
            forall|s: StopId| #[trigger]
                old(self)@.arrival.contains_key(s) ==> final(self)@.arrival.contains_key(s)
                    && final(self)@.arrival[s].not_after(old(self)@.arrival[s]),
    {
        let on_trip = self.boarded.contains(&c.trip);
        let at_stop = match self.arrival.get(&c.dep_stop) {
            Some(known) => known.is_not_after(&c.dep_time),
            None => false,
        };
        if !on_trip && !at_stop {
            return Ok(());
        }
        let news = match self.arrival.get(&c.arr_stop) {
            Some(known) => c.arr_time.is_before(known),
            None => true,
        };
        if !news {
            self.boarded.insert(c.trip);
            return Ok(());
        }
        match transfers.get(&c.arr_stop) {
            None => Err(ScanError::UnknownStop(c.arr_stop)),
            Some(targets) => {
                self.boarded.insert(c.trip);
                self.arrival.insert(c.arr_stop, c.arr_time);
                self.pred.insert(c.arr_stop, Predecessor::RideInto(*c));
                self.walk_on(c.arr_stop, c.arr_time, targets);
                Ok(())
            },
        }
    }

    /// Tells whether one of `dests` is known to be reached at `by` or earlier.
    pub fn reached(&self, dests: &Vec<StopId>, by: &CSTime) -> (b: bool)
        ensures
            b == reached_by(self@.arrival, dests@, *by),
    {
        let mut k: usize = 0;
        while k < dests.len()
            invariant
                k <= dests.len(),
                forall|j: int|
                    0 <= j < k ==> !(self@.arrival.contains_key(#[trigger] dests[j])
                        && self@.arrival[dests[j]].not_after(*by)),
            decreases dests.len() - k,
        {
            match self.arrival.get(&dests[k]) {
                Some(known) => {
                    if known.is_not_after(by) {
                        return true;
                    }
                },
                None => {},
            }
            k += 1;
        }
        false
    }

    /// Gives the destination among `dests` that is reached earliest, with its
    /// arrival time.
    pub fn earliest(&self, dests: &Vec<StopId>) -> (best: Option<(StopId, CSTime)>)
        ensures
            match earliest_of(self@.arrival, dests@) {
                None => best is None,
                Some(d) => best == Some((d, self@.arrival[d])),
            },
    {
        let mut best: Option<(StopId, CSTime)> = None;
        let mut k: usize = 0;
        while k < dests.len()
            invariant
                k <= dests.len(),
                match earliest_of(self@.arrival, dests@.take(k as int)) {
                    None => best is None,
                    Some(d) => best == Some((d, self@.arrival[d])),
                },
            decreases dests.len() - k,
        {
            proof {
                assert(dests@.take(k + 1).drop_last() =~= dests@.take(k as int));
            }
            match self.arrival.get(&dests[k]) {
                Some(known) => {
                    let better = match best {
                        None => true,
                        Some((_, time)) => known.is_before(&time),
                    };
                    if better {
                        best = Some((dests[k], *known));
                    }
                },
                None => {},
            }
            k += 1;
        }
        proof {
            assert(dests@.take(k as int) =~= dests@);
        }
        best
    }

    /// Scans the connections from index `from` to the end, and stops early
    /// in front of the first one that leaves when a destination is reached.
    ///
    /// Where a transfer entry is missing, the scan stops in front of the
    /// connection that needed it and reports the stop. No arrival time ever
    /// gets later.
    pub fn scan(
        &mut self,
        connections: &Vec<Connection>,
        from: usize,
        dests: &Vec<StopId>,
        transfers: &HashMap<StopId, Vec<StopId>>,
    ) -> (r: Result<(), ScanError>)
        ensures
            match scanned(
                old(self)@,
                connections@,
                from as int,
                connections.len() as int,
                dests@,
                footpaths(transfers@),
            ) {
                Ok(rest) => r is Ok && final(self)@ == rest,
                Err(stop) => r == Err::<(), ScanError>(ScanError::UnknownStop(stop)),
            },
            final(self)@ == left_at(
                old(self)@,
                connections@,
                from as int,
                connections.len() as int,
                dests@,
                footpaths(transfers@),
            ),
            forall|s: StopId| #[trigger]
                old(self)@.arrival.contains_key(s) ==> final(self)@.arrival.contains_key(s)
                    && final(self)@.arrival[s].not_after(old(self)@.arrival[s]),
    {
        let ghost left = left_at(
            self@,
            connections@,
            from as int,
            connections.len() as int,
            dests@,
            footpaths(transfers@),
        );
        let ghost goal = scanned(
            self@,
            connections@,
            from as int,
            connections.len() as int,
            dests@,
            footpaths(transfers@),
        );
        let mut i: usize = from;
        while i < connections.len()
            invariant
                from <= i,
                goal == scanned(
                    old(self)@,
                    connections@,
                    from as int,
                    connections.len() as int,
                    dests@,
                    footpaths(transfers@),
                ),
                left == left_at(
                    old(self)@,
                    connections@,
                    from as int,
                    connections.len() as int,
                    dests@,
                    footpaths(transfers@),
                ),
                left == left_at(
                    self@,
                    connections@,
                    i as int,
                    connections.len() as int,
                    dests@,
                    footpaths(transfers@),
                ),
                forall|s: StopId| #[trigger]
                    old(self)@.arrival.contains_key(s) ==> self@.arrival.contains_key(s)
                        && self@.arrival[s].not_after(old(self)@.arrival[s]),
                goal == scanned(
                    self@,
                    connections@,
                    i as int,
                    connections.len() as int,
                    dests@,
                    footpaths(transfers@),
                ),
            decreases connections.len() - i,
        {
            if self.reached(dests, &connections[i].dep_time) {
                return Ok(());
            }
            match self.relax(&connections[i], transfers) {
                Err(e) => {
                    return Err(e);
                },
                Ok(()) => {},
            }
            i += 1;
        }
        Ok(())
    }
}

/// Tells whether every connection departs no earlier than the one before it.
pub fn is_departure_ordered(connections: &Vec<Connection>) -> (b: bool)
    ensures
        b == departure_ordered(connections@),
{
    if connections.len() < 2 {
        return true;
    }
    let mut i: usize = 1;
    while i < connections.len()
        invariant
            1 <= i <= connections.len(),
            departure_ordered(connections@.take(i as int)),
        decreases connections.len() - i,
    {
        if connections[i].dep_time.is_before(&connections[i - 1].dep_time) {
            return false;
        }
        proof {
            let prev = connections@.take(i as int);
            let next = connections@.take(i + 1);
            assert forall|a: int, b: int| 0 <= a <= b < next.len() implies (#[trigger] next[a])
                .dep_time.not_after((#[trigger] next[b]).dep_time) by {
                if b < i {
                    assert(prev[a].dep_time.not_after(prev[b].dep_time));
                } else if a < i {
                    assert(prev[a].dep_time.not_after(prev[i - 1].dep_time));
                }
            }
        }
        i += 1;
    }
    proof {
        assert(connections@.take(i as int) =~= connections@);
    }
    true
}

/// Finds the first connection that departs at `time` or later, by halving
/// the sequence; gives its length if there is none.
pub fn first_departure_at(connections: &Vec<Connection>, time: &CSTime) -> (at: usize)
    requires
        departure_ordered(connections@),
    ensures
        at == first_departure(connections@, *time, 0),
        at <= connections.len(),
        forall|i: int| 0 <= i < at ==> (#[trigger] connections[i]).dep_time.before(*time),
        forall|i: int|
            at <= i < connections.len() ==> time.not_after((#[trigger] connections[i]).dep_time),
{
    let mut lo: usize = 0;
    let mut hi: usize = connections.len();
    while lo < hi
        invariant
            lo <= hi <= connections.len(),
            departure_ordered(connections@),
            forall|i: int| 0 <= i < lo ==> (#[trigger] connections[i]).dep_time.before(*time),
            forall|i: int|
                hi <= i < connections.len() ==> time.not_after(
                    (#[trigger] connections[i]).dep_time,
                ),
        decreases hi - lo,
    {
        let mid = lo + (hi - lo) / 2;
        if connections[mid].dep_time.is_before(time) {
            proof {
                assert forall|i: int| 0 <= i < mid + 1 implies (#[trigger] connections[i])
                    .dep_time.before(*time) by {
                    assert(connections[i].dep_time.not_after(connections[mid as int].dep_time));
                }
            }
            lo = mid + 1;
        } else {
            proof {
                assert forall|i: int| mid <= i < connections.len() implies time.not_after(
                    (#[trigger] connections[i]).dep_time,
                ) by {
                    assert(connections[mid as int].dep_time.not_after(connections[i].dep_time));
                }
            }
            hi = mid;
        }
    }
    proof {
        lemma_first_departure(connections@, *time, 0, lo as int);
    }
    lo
}

/// Looks up the numbers that a query is about: that of the stop to leave
/// from, and those of the stops at which a journey to `arr_stop` may end: the
/// stop itself, then every stop of `stops` that shares its name.
pub fn numbers_asked(dep_stop: &Stop, arr_stop: &Stop, stops: &Vec<Stop>, names: &Names) -> (r:
    Option<(StopId, Vec<StopId>)>)
    ensures
        match asked(*dep_stop, *arr_stop, stops@, names@) {
            None => r is None,
            Some(numbers) => r matches Some(found) && found.0 == numbers.0 && found.1@
                == numbers.1,
        },
{
    let origin = match names.find(dep_stop.id.as_str()) {
        None => {
            return None;
        },
        Some(origin) => origin,
    };
    let target = match names.find(arr_stop.id.as_str()) {
        None => {
            return None;
        },
        Some(target) => target,
    };
    let mut dests: Vec<StopId> = Vec::new();
    dests.push(target);
    let mut k: usize = 0;
    while k < stops.len()
        invariant
            k <= stops.len(),
            dests@ == seq![target] + platforms_named(
                arr_stop.stop_name@,
                stops@.take(k as int),
                names@,
            ),
        decreases stops.len() - k,
    {
        proof {
            assert(stops@.take(k + 1).drop_last() =~= stops@.take(k as int));
        }
        if stops[k].stop_name == arr_stop.stop_name {
            match names.find(stops[k].id.as_str()) {
                Some(number) => {
                    dests.push(number);
                },
                None => {},
            }
        }
        k += 1;
    }
    proof {
        assert(stops@.take(k as int) =~= stops@);
    }
    Some((origin, dests))
}

/// Runs the scan for one query and hands back its tables, or nothing when no
/// connection departs at `depart` or later.
pub fn settle(
    origin: StopId,
    depart: CSTime,
    dests: &Vec<StopId>,
    transfers: &HashMap<StopId, Vec<StopId>>,
    connections: &Vec<Connection>,
) -> (r: Result<Option<ScanTables>, ScanError>)
    requires
        departure_ordered(connections@),
    ensures
        match settled(origin, depart, dests@, footpaths(transfers@), connections@) {
            Err(stop) => r == Err::<Option<ScanTables>, ScanError>(ScanError::UnknownStop(stop)),
            Ok(st) => r is Ok && if in_horizon(connections@, depart) {
                r->Ok_0 is Some && r->Ok_0->0@ == st
            } else {
                r->Ok_0 is None
            },
        },
{
    let reach = match transfers.get(&origin) {
        None => {
            return Err(ScanError::UnknownStop(origin));
        },
        Some(reach) => reach,
    };
    let from = first_departure_at(connections, &depart);
    if from >= connections.len() {
        return Ok(None);
    }
    let mut tables = ScanTables::seed(origin, depart, reach);
    match tables.scan(connections, from, dests, transfers) {
        Err(e) => Err(e),
        Ok(()) => Ok(Some(tables)),
    }
}

/// Finds the earliest time at which a traveller who leaves `dep_stop` at
/// `dep_time` can be at `arr_stop` or at another platform of that name.
///
/// `names` gives the numbers under which `transfers` and `connections` know
/// the stops. `connections` must be ordered by departure time. The answer is
/// `None` when no destination is reached or no connection departs at
/// `dep_time` or later. A stop without transfer entry that the scan comes to
/// walk on from is an error, and so is a query about a stop without number.
pub fn earliest_arrival(
    dep_stop: &Stop,
    arr_stop: &Stop,
    dep_time: CSTime,
    stops: &Vec<Stop>,
    names: &Names,
    transfers: &HashMap<StopId, Vec<StopId>>,
    connections: &Vec<Connection>,
) -> (r: Result<Option<CSTime>, ScanError>)
    requires
        departure_ordered(connections@),
    ensures
        r == earliest_arrival_between(
            *dep_stop,
            *arr_stop,
            dep_time,
            stops@,
            names@,
            footpaths(transfers@),
            connections@,
        ),
{
    let (origin, dests) = match numbers_asked(dep_stop, arr_stop, stops, names) {
        None => {
            return Err(ScanError::UnnamedStop);
        },
        Some(numbers) => numbers,
    };
    match settle(origin, dep_time, &dests, transfers, connections) {
        Err(e) => Err(e),
        Ok(None) => Ok(None),
        Ok(Some(tables)) => match tables.earliest(&dests) {
            None => Ok(None),
            Some((_, time)) => Ok(Some(time)),
        },
    }
}

/// Answers like [`earliest_arrival`], for connections in any order: it
/// looks first whether they are ordered by departure time, and refuses them
/// if they are not.
pub fn earliest_arrival_checked(
    dep_stop: &Stop,
    arr_stop: &Stop,
    dep_time: CSTime,
    stops: &Vec<Stop>,
    names: &Names,
    transfers: &HashMap<StopId, Vec<StopId>>,
    connections: &Vec<Connection>,
) -> (r: Result<Option<CSTime>, ScanError>)
    ensures
        r == if departure_ordered(connections@) {
            earliest_arrival_between(
                *dep_stop,
                *arr_stop,
                dep_time,
                stops@,
                names@,
                footpaths(transfers@),
                connections@,
            )
        } else {
            Err(ScanError::MalformedInput)
        },
{
    if is_departure_ordered(connections) {
        earliest_arrival(dep_stop, arr_stop, dep_time, stops, names, transfers, connections)
    } else {
        Err(ScanError::MalformedInput)
    }
}

} // verus!
