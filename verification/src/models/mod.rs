//! The records the journey search works on.

use vstd::prelude::*;

use crate::names::{lemma_with_name, lemma_with_names, place_of, with_names, Names};
use gtfs::{StopTime, StopTimeData, Trip};

pub mod gtfs;
pub mod time;

pub use time::CSTime;
pub use time::TimeError;

verus! {

/// The token that names one stop (one platform of a station).
pub type StopId = u64;

/// The token that names one trip (one run of a vehicle).
pub type TripId = u64;

/// One timetabled hop of a vehicle between two stops.
#[derive(Debug, Clone, Copy, PartialEq, Eq, Structural)]
pub struct Connection {
    pub dep_stop: StopId,
    pub arr_stop: StopId,
    pub dep_time: CSTime,
    pub arr_time: CSTime,
    pub trip: TripId,
}

impl Connection {
    /// The vehicle does not arrive before it leaves.
    pub open spec fn well_timed(self) -> bool {
        self.dep_time.not_after(self.arr_time)
    }
}

/// Every connection departs no earlier than the one before it.
pub open spec fn departure_ordered(connections: Seq<Connection>) -> bool {
    forall|i: int, j: int|
        0 <= i <= j < connections.len() ==> (#[trigger] connections[i]).dep_time.not_after(
            (#[trigger] connections[j]).dep_time,
        )
}

/// One call of a trip at a stop, with the numbers of the trip and the stop.
#[derive(Debug, Clone, Copy, PartialEq, Eq, Structural)]
pub struct Call {
    pub trip_id: TripId,
    pub stop_sequence: usize,
    pub stop_id: StopId,
    pub arrival_time: CSTime,
    pub departure_time: CSTime,
}

/// The calls of `stop_times` that belong to `trip`, in their order.
pub open spec fn calls_of(stop_times: Seq<Call>, trip: TripId) -> Seq<Call>
    decreases stop_times.len(),
{
    if stop_times.len() == 0 {
        Seq::empty()
    } else {
        let rest = calls_of(stop_times.drop_last(), trip);
        if stop_times.last().trip_id == trip {
            rest.push(stop_times.last())
        } else {
            rest
        }
    }
}

/// `calls` with `call` put in behind the last call whose place in the
/// trip's order is the same or earlier.
pub open spec fn with_call(calls: Seq<Call>, call: Call) -> Seq<Call>
    decreases calls.len(),
{
    if calls.len() == 0 {
        seq![call]
    } else if calls.last().stop_sequence <= call.stop_sequence {
        calls.push(call)
    } else {
        with_call(calls.drop_last(), call).push(calls.last())
    }
}

/// `calls` by their place in the trip's order; calls with the same place
/// stay in the order in which they came.
pub open spec fn in_trip_order(calls: Seq<Call>) -> Seq<Call>
    decreases calls.len(),
{
    if calls.len() == 0 {
        Seq::empty()
    } else {
        with_call(in_trip_order(calls.drop_last()), calls.last())
    }
}

/// The hop of a vehicle that leaves the stop of `from` and calls at the
/// stop of `to` next.
pub open spec fn hop_between(from: Call, to: Call) -> Connection {
    Connection {
        dep_stop: from.stop_id,
        arr_stop: to.stop_id,
        dep_time: from.departure_time,
        arr_time: to.arrival_time,
        trip: from.trip_id,
    }
}

/// The hops between each call of `calls` and the next.
pub open spec fn hops_of(calls: Seq<Call>) -> Seq<Connection> {
    if calls.len() == 0 {
        Seq::empty()
    } else {
        Seq::new((calls.len() - 1) as nat, |i: int| hop_between(calls[i], calls[i + 1]))
    }
}

/// The connections of `trips`: trip after trip, the hops between the calls
/// of the trip in the trip's order.
pub open spec fn connections_of(trips: Seq<TripId>, stop_times: Seq<Call>) -> Seq<Connection>
    decreases trips.len(),
{
    if trips.len() == 0 {
        Seq::empty()
    } else {
        connections_of(trips.drop_last(), stop_times) + hops_of(
            in_trip_order(calls_of(stop_times, trips.last())),
        )
    }
}

/// The call that a record of the feed stands for, with the numbers that
/// `stops` and `trips` give to its stop and its trip.
pub open spec fn call_of(record: StopTimeData, stops: Seq<Seq<char>>, trips: Seq<Seq<char>>)
    -> Call {
    Call {
        trip_id: place_of(trips, record.trip_id) as u64,
        stop_sequence: record.stop_sequence,
        stop_id: place_of(stops, record.stop_id) as u64,
        arrival_time: record.arrival_time,
        departure_time: record.departure_time,
    }
}

/// The calls that the records stand for, in their order.
pub open spec fn calls_numbered(
    records: Seq<StopTime>,
    stops: Seq<Seq<char>>,
    trips: Seq<Seq<char>>,
) -> Seq<Call> {
    Seq::new(records.len(), |i: int| call_of(records[i]@, stops, trips))
}

/// The stop identifiers of the records, in their order.
pub open spec fn stop_texts(records: Seq<StopTime>) -> Seq<Seq<char>> {
    Seq::new(records.len(), |i: int| records[i].stop_id@)
}

/// The trip identifiers of the records, in their order.
pub open spec fn call_trip_texts(records: Seq<StopTime>) -> Seq<Seq<char>> {
    Seq::new(records.len(), |i: int| records[i].trip_id@)
}

/// The identifiers of the trips, in their order.
pub open spec fn trip_texts(trips: Seq<Trip>) -> Seq<Seq<char>> {
    Seq::new(trips.len(), |i: int| trips[i].id@)
}

/// The numbers that `names` gives to the trips, in their order.
pub open spec fn trips_numbered(trips: Seq<Trip>, names: Seq<Seq<char>>) -> Seq<TripId> {
    Seq::new(trips.len(), |i: int| place_of(names, trips[i].id@) as u64)
}

/// The calls are in the trip's order.
pub open spec fn trip_ordered(calls: Seq<Call>) -> bool {
    forall|i: int, j: int|
        0 <= i <= j < calls.len() ==> (#[trigger] calls[i]).stop_sequence <= (
        #[trigger] calls[j]).stop_sequence
}

/// Where `with_call` puts a call: behind the first `at` calls, if those that
/// follow have a later place in the trip's order and the one before has not.
pub proof fn lemma_with_call(calls: Seq<Call>, call: Call, at: int)
    requires
        0 <= at <= calls.len(),
        forall|i: int| at <= i < calls.len() ==> (#[trigger] calls[i]).stop_sequence
            > call.stop_sequence,
        at > 0 ==> calls[at - 1].stop_sequence <= call.stop_sequence,
    ensures
        with_call(calls, call) == calls.insert(at, call),
    decreases calls.len(),
{
    if calls.len() == 0 {
        assert(calls.insert(at, call) =~= seq![call]);
    } else if at == calls.len() {
        assert(calls.insert(at, call) =~= calls.push(call));
    } else {
        assert(calls.last().stop_sequence > call.stop_sequence);
        lemma_with_call(calls.drop_last(), call, at);
        assert(calls.drop_last().insert(at, call).push(calls.last()) =~= calls.insert(at, call));
    }
}

/// Putting a call into calls that are in the trip's order leaves them in
/// the trip's order, and adds this call and no other.
pub proof fn lemma_with_call_keeps_order(calls: Seq<Call>, call: Call)
    requires
        trip_ordered(calls),
    ensures
        trip_ordered(with_call(calls, call)),
        with_call(calls, call).to_multiset() == calls.to_multiset().insert(call),
    decreases calls.len(),
{
    broadcast use vstd::seq_lib::group_to_multiset_ensures;

    if calls.len() == 0 {
    } else if calls.last().stop_sequence <= call.stop_sequence {
        let out = calls.push(call);
        assert forall|i: int, j: int| 0 <= i <= j < out.len() implies (#[trigger] out[i])
            .stop_sequence <= (#[trigger] out[j]).stop_sequence by {
            if j == calls.len() && i < calls.len() {
                assert(calls[i].stop_sequence <= calls.last().stop_sequence);
            }
        }
    } else {
        let head = calls.drop_last();
        assert forall|i: int, j: int| 0 <= i <= j < head.len() implies (#[trigger] head[i])
            .stop_sequence <= (#[trigger] head[j]).stop_sequence by {
            assert(calls[i].stop_sequence <= calls[j].stop_sequence);
        }
        lemma_with_call_keeps_order(head, call);
        let mid = with_call(head, call);
        let out = mid.push(calls.last());
        assert forall|x: Call| mid.contains(x) implies x.stop_sequence
            <= calls.last().stop_sequence by {
            assert(mid.to_multiset().count(x) > 0);
            if x != call {
                assert(head.to_multiset().count(x) > 0);
                assert(head.contains(x));
                let k = choose|k: int| 0 <= k < head.len() && head[k] == x;
                assert(calls[k].stop_sequence <= calls[calls.len() - 1].stop_sequence);
            }
        }
        assert forall|i: int, j: int| 0 <= i <= j < out.len() implies (#[trigger] out[i])
            .stop_sequence <= (#[trigger] out[j]).stop_sequence by {
            if j == mid.len() && i < mid.len() {
                assert(mid.contains(mid[i]));
            } else if j < mid.len() {
                assert(mid[i].stop_sequence <= mid[j].stop_sequence);
            }
        }
        assert(calls =~= head.push(calls.last()));
    }
}

/// The calls in the trip's order are the same calls, and each is followed by
/// calls of the same or a later place only.
pub proof fn lemma_in_trip_order(calls: Seq<Call>)
    ensures
        trip_ordered(in_trip_order(calls)),
        in_trip_order(calls).to_multiset() == calls.to_multiset(),
    decreases calls.len(),
{
    broadcast use vstd::seq_lib::group_to_multiset_ensures;

    if calls.len() > 0 {
        lemma_in_trip_order(calls.drop_last());
        lemma_with_call_keeps_order(in_trip_order(calls.drop_last()), calls.last());
        assert(calls =~= calls.drop_last().push(calls.last()));
    }
}

/// Picks the calls of `trip` out of `stop_times`, in their order.
pub fn trip_calls(stop_times: &Vec<Call>, trip: TripId) -> (calls: Vec<Call>)
    ensures
        calls@ == calls_of(stop_times@, trip),
{
    let mut calls: Vec<Call> = Vec::new();
    let mut k: usize = 0;
    while k < stop_times.len()
        invariant
            k <= stop_times.len(),
            calls@ == calls_of(stop_times@.take(k as int), trip),
        decreases stop_times.len() - k,
    {
        proof {
            assert(stop_times@.take(k + 1).drop_last() =~= stop_times@.take(k as int));
        }
        if stop_times[k].trip_id == trip {
            calls.push(stop_times[k]);
        }
        k += 1;
    }
    proof {
        assert(stop_times@.take(k as int) =~= stop_times@);
    }
    calls
}

/// Puts calls into the trip's order. Calls with the same place stay in the
/// order in which they came.
pub fn sort_calls(calls: &Vec<Call>) -> (sorted: Vec<Call>)
    ensures
        sorted@ == in_trip_order(calls@),
        trip_ordered(sorted@),
        sorted@.to_multiset() == calls@.to_multiset(),
{
    let mut sorted: Vec<Call> = Vec::new();
    let mut k: usize = 0;
    while k < calls.len()
        invariant
            k <= calls.len(),
            sorted@ == in_trip_order(calls@.take(k as int)),
        decreases calls.len() - k,
    {
        let call = calls[k];
        let mut at: usize = sorted.len();
        while at > 0 && sorted[at - 1].stop_sequence > call.stop_sequence
            invariant
                at <= sorted.len(),
                forall|i: int| at <= i < sorted.len() ==> (#[trigger] sorted[i]).stop_sequence
                    > call.stop_sequence,
            decreases at,
        {
            at -= 1;
        }
        proof {
            lemma_with_call(sorted@, call, at as int);
            assert(calls@.take(k + 1).drop_last() =~= calls@.take(k as int));
        }
        sorted.insert(at, call);
        k += 1;
    }
    proof {
        assert(calls@.take(k as int) =~= calls@);
        lemma_in_trip_order(calls@);
    }
    sorted
}

/// Appends to `out` the hops between each call of `calls` and the next.
pub fn push_hops(out: &mut Vec<Connection>, calls: &Vec<Call>)
    ensures
        final(out)@ == old(out)@ + hops_of(calls@),
{
    if calls.len() == 0 {
        proof {
            assert(out@ + hops_of(calls@) =~= out@);
        }
        return ;
    }
    let ghost before = out@;
    let mut k: usize = 0;
    while k + 1 < calls.len()
        invariant
            k < calls.len(),
            out@ == before + hops_of(calls@).take(k as int),
        decreases calls.len() - k,
    {
        let hop = Connection {
            dep_stop: calls[k].stop_id,
            arr_stop: calls[k + 1].stop_id,
            dep_time: calls[k].departure_time,
            arr_time: calls[k + 1].arrival_time,
            trip: calls[k].trip_id,
        };
        out.push(hop);
        proof {
            let hops = hops_of(calls@);
            assert(hops[k as int] == hop);
            assert(before + hops.take(k + 1) =~= (before + hops.take(k as int)).push(hop));
        }
        k += 1;
    }
    proof {
        assert(hops_of(calls@).take(k as int) =~= hops_of(calls@));
    }
}

/// Gives each record the numbers of its stop and its trip, and a number to
/// every identifier that has none yet.
pub fn number_calls(records: &Vec<StopTime>, stops: &mut Names, trips: &mut Names) -> (calls: Vec<
    Call,
>)
    ensures
        final(stops)@ == with_names(old(stops)@, stop_texts(records@)),
        final(trips)@ == with_names(old(trips)@, call_trip_texts(records@)),
        calls@ == calls_numbered(records@, final(stops)@, final(trips)@),
{
    let ghost stops_before = stops@;
    let ghost trips_before = trips@;
    let mut calls: Vec<Call> = Vec::new();
    let mut k: usize = 0;
    proof {
        assert(stop_texts(records@).take(0) =~= Seq::<Seq<char>>::empty());
        assert(call_trip_texts(records@).take(0) =~= Seq::<Seq<char>>::empty());
    }
    while k < records.len()
        invariant
            k <= records.len(),
            stops@ == with_names(stops_before, stop_texts(records@).take(k as int)),
            trips@ == with_names(trips_before, call_trip_texts(records@).take(k as int)),
            calls@.len() == k,
            forall|i: int| 0 <= i < k ==> stops@.contains(#[trigger] records@[i].stop_id@),
            forall|i: int| 0 <= i < k ==> trips@.contains(#[trigger] records@[i].trip_id@),
            forall|i: int| 0 <= i < k ==> #[trigger] calls@[i] == call_of(records@[i]@, stops@, trips@),
        decreases records.len() - k,
    {
        let ghost stops_so_far = stops@;
        let ghost trips_so_far = trips@;
        let record = &records[k];
        let stop_id = stops.number(record.stop_id.as_str());
        let trip_id = trips.number(record.trip_id.as_str());
        proof {
            let stop_ids = stop_texts(records@);
            let trip_ids = call_trip_texts(records@);
            assert(stop_ids.take(k + 1).drop_last() =~= stop_ids.take(k as int));
            assert(trip_ids.take(k + 1).drop_last() =~= trip_ids.take(k as int));
            assert(stop_ids.take(k + 1).last() == record.stop_id@);
            assert(trip_ids.take(k + 1).last() == record.trip_id@);
            assert forall|i: int| 0 <= i <= k implies stops@.contains(
                #[trigger] records@[i].stop_id@,
            ) by {
                lemma_with_name(stops_so_far, records@[i].stop_id@, record.stop_id@);
            }
            assert forall|i: int| 0 <= i <= k implies trips@.contains(
                #[trigger] records@[i].trip_id@,
            ) by {
                lemma_with_name(trips_so_far, records@[i].trip_id@, record.trip_id@);
            }
            assert forall|i: int| 0 <= i < k implies #[trigger] calls@[i] == call_of(
                records@[i]@,
                stops@,
                trips@,
            ) by {
                lemma_with_name(stops_so_far, records@[i].stop_id@, record.stop_id@);
                lemma_with_name(trips_so_far, records@[i].trip_id@, record.trip_id@);
            }
        }
        calls.push(
            Call {
                trip_id,
                stop_sequence: record.stop_sequence,
                stop_id,
                arrival_time: record.arrival_time,
                departure_time: record.departure_time,
            },
        );
        k += 1;
    }
    proof {
        assert(stop_texts(records@).take(k as int) =~= stop_texts(records@));
        assert(call_trip_texts(records@).take(k as int) =~= call_trip_texts(records@));
        assert(calls@ =~= calls_numbered(records@, stops@, trips@));
    }
    calls
}

/// Gives the number of each trip, and a number to every trip that has none
/// yet.
pub fn number_trips(trips: &Vec<Trip>, names: &mut Names) -> (ids: Vec<TripId>)
    ensures
        final(names)@ == with_names(old(names)@, trip_texts(trips@)),
        ids@ == trips_numbered(trips@, final(names)@),
{
    let ghost names_before = names@;
    let mut ids: Vec<TripId> = Vec::new();
    let mut k: usize = 0;
    proof {
        assert(trip_texts(trips@).take(0) =~= Seq::<Seq<char>>::empty());
    }
    while k < trips.len()
        invariant
            k <= trips.len(),
            names@ == with_names(names_before, trip_texts(trips@).take(k as int)),
            ids@.len() == k,
            forall|i: int| 0 <= i < k ==> names@.contains(#[trigger] trips@[i].id@),
            forall|i: int| 0 <= i < k ==> #[trigger] ids@[i] == place_of(names@, trips@[i].id@),
        decreases trips.len() - k,
    {
        let ghost so_far = names@;
        let id = names.number(trips[k].id.as_str());
        proof {
            let texts = trip_texts(trips@);
            assert(texts.take(k + 1).drop_last() =~= texts.take(k as int));
            assert(texts.take(k + 1).last() == trips@[k as int].id@);
            assert forall|i: int| 0 <= i <= k implies names@.contains(#[trigger] trips@[i].id@) by {
                lemma_with_name(so_far, trips@[i].id@, trips@[k as int].id@);
            }
            assert forall|i: int| 0 <= i < k implies #[trigger] ids@[i] == place_of(
                names@,
                trips@[i].id@,
            ) by {
                lemma_with_name(so_far, trips@[i].id@, trips@[k as int].id@);
            }
        }
        ids.push(id);
        k += 1;
    }
    proof {
        assert(trip_texts(trips@).take(k as int) =~= trip_texts(trips@));
        assert(ids@ =~= trips_numbered(trips@, names@));
    }
    ids
}

/// Builds the connections of numbered trips out of numbered calls: for each
/// trip in turn, one connection from each of its calls to the next in the
/// trip's order.
pub fn join_calls(trips: &Vec<TripId>, calls: &Vec<Call>) -> (connections: Vec<Connection>)
    ensures
        connections@ == connections_of(trips@, calls@),
{
    let mut connections: Vec<Connection> = Vec::new();
    let mut k: usize = 0;
    while k < trips.len()
        invariant
            k <= trips.len(),
            connections@ == connections_of(trips@.take(k as int), calls@),
        decreases trips.len() - k,
    {
        proof {
            assert(trips@.take(k + 1).drop_last() =~= trips@.take(k as int));
        }
        let of_trip = trip_calls(calls, trips[k]);
        let sorted = sort_calls(&of_trip);
        push_hops(&mut connections, &sorted);
        k += 1;
    }
    proof {
        assert(trips@.take(k as int) =~= trips@);
    }
    connections
}

impl Connection {
    /// Builds the connections of `trips` out of the calls in `stop_times`:
    /// for each trip in turn, one connection from each of its calls to the
    /// next in the trip's order.
    ///
    /// Stops and trips stand in the connections with the numbers that `stops`
    /// and `trip_names` give them; an identifier that has no number yet gets
    /// one.
    pub fn build_connections(
        trips: &Vec<Trip>,
        stop_times: &Vec<StopTime>,
        stops: &mut Names,
        trip_names: &mut Names,
    ) -> (connections: Vec<Connection>)
        ensures
            final(stops)@ == with_names(old(stops)@, stop_texts(stop_times@)),
            final(trip_names)@ == with_names(
                with_names(old(trip_names)@, call_trip_texts(stop_times@)),
                trip_texts(trips@),
            ),
            connections@ == connections_of(
                trips_numbered(trips@, final(trip_names)@),
                calls_numbered(stop_times@, final(stops)@, final(trip_names)@),
            ),
    {
        let calls = number_calls(stop_times, stops, trip_names);
        let ghost with_calls = trip_names@;
        let ghost trips_before = old(trip_names)@;
        let ids = number_trips(trips, trip_names);
        proof {
            assert(calls@ =~= calls_numbered(stop_times@, stops@, trip_names@)) by {
                assert forall|i: int| 0 <= i < stop_times@.len() implies call_of(
                    stop_times@[i]@,
                    stops@,
                    with_calls,
                ) == call_of(stop_times@[i]@, stops@, trip_names@) by {
                    let text = stop_times@[i].trip_id@;
                    assert(call_trip_texts(stop_times@)[i] == text);
                    lemma_with_names(trips_before, call_trip_texts(stop_times@), text);
                    lemma_with_names(with_calls, trip_texts(trips@), text);
                }
            }
        }
        join_calls(&ids, &calls)
    }
}

} // verus!
