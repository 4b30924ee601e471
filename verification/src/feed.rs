//! Picking out of a feed what the journey search needs: the rail routes and
//! their trips, the calls of these trips, and the walks between stops.

use crate::models::gtfs::{
    id_at, id_field, stop_time_of, text_at, text_field, transfer_type_of, RecordError, Route,
    RouteType, StopTime, StopTimeData, Transfer, TransferData, TransferType, Trip,
};
use crate::connection_scan::footpaths;
use crate::models::{departure_ordered, number_trips, trip_texts, Connection, StopId, TripId};
use crate::names::{
    distinct, lemma_place_of, lemma_with_names, lemma_with_names_holds, place_of, with_names,
    Names,
};
use crate::outside::record_fields;
use crate::text::same_text;
use csv::StringRecord;
use std::collections::{HashMap, HashSet};
use vstd::pervasive::unreached;
use vstd::prelude::*;

verus! {

broadcast use vstd::std_specs::hash::group_hash_axioms;

/// The walk that a line of the transfers file offers: from the stop in
/// field 0 to the stop in field 1, unless the code in field 6 is unknown or
/// says that no transfer is possible.
pub open spec fn transfer_of(fields: Seq<Seq<char>>) -> Result<
    Option<(Seq<char>, Seq<char>)>,
    RecordError,
> {
    if text_at(fields, 6) is Err {
        Err(text_at(fields, 6)->Err_0)
    } else if transfer_type_of(fields[6]) is None || transfer_type_of(fields[6])
        == Some(TransferType::NONE) {
        Ok(None)
    } else if id_at(fields, 0) is Err {
        Err(id_at(fields, 0)->Err_0)
    } else if id_at(fields, 1) is Err {
        Err(id_at(fields, 1)->Err_0)
    } else {
        Ok(Some((id_at(fields, 0)->Ok_0, id_at(fields, 1)->Ok_0)))
    }
}

/// What a pair of identifiers holds, if there is one.
pub open spec fn walk_view(walk: Option<(String, String)>) -> Option<(Seq<char>, Seq<char>)> {
    match walk {
        None => None,
        Some(pair) => Some((pair.0@, pair.1@)),
    }
}

/// What a list of texts holds.
pub open spec fn texts_of(texts: Seq<String>) -> Seq<Seq<char>> {
    Seq::new(texts.len(), |i: int| texts[i]@)
}

/// What a list of pairs of identifiers holds.
pub open spec fn pairs_of(pairs: Seq<(String, String)>) -> Seq<(Seq<char>, Seq<char>)> {
    Seq::new(pairs.len(), |i: int| (pairs[i].0@, pairs[i].1@))
}

/// The identifiers of the routes of `routes` that are served by rail, in
/// their order.
pub open spec fn rail_route_texts(routes: Seq<Route>) -> Seq<Seq<char>>
    decreases routes.len(),
{
    if routes.len() == 0 {
        Seq::empty()
    } else {
        let rest = rail_route_texts(routes.drop_last());
        if routes.last().route_type == RouteType::RAIL {
            rest.push(routes.last().id@)
        } else {
            rest
        }
    }
}

/// The trips of `trips` that run on one of `routes`, in their order.
pub open spec fn trips_on(trips: Seq<Trip>, routes: Seq<Seq<char>>) -> Seq<Trip>
    decreases trips.len(),
{
    if trips.len() == 0 {
        Seq::empty()
    } else {
        let rest = trips_on(trips.drop_last(), routes);
        if routes.contains(trips.last().route_id@) {
            rest.push(trips.last())
        } else {
            rest
        }
    }
}

/// The call that a line of the stop times file spells, if it belongs to one
/// of `trips`; nothing if it belongs to another trip.
pub open spec fn rail_call_of(fields: Seq<Seq<char>>, trips: Seq<Seq<char>>) -> Result<
    Option<StopTimeData>,
    RecordError,
> {
    match id_at(fields, 0) {
        Err(e) => Err(e),
        Ok(trip) => if !trips.contains(trip) {
            Ok(None)
        } else {
            match stop_time_of(fields) {
                Err(e) => Err(e),
                Ok(call) => Ok(Some(call)),
            }
        },
    }
}

/// What a call holds, if there is one.
pub open spec fn call_view(call: Option<StopTime>) -> Option<StopTimeData> {
    match call {
        None => None,
        Some(call) => Some(call@),
    }
}

/// The stops to which `pairs` offers a walk from `from`: each once, in the
/// order in which `pairs` names it first.
pub open spec fn walks_from(pairs: Seq<(Seq<char>, Seq<char>)>, from: Seq<char>) -> Seq<
    Seq<char>,
>
    decreases pairs.len(),
{
    if pairs.len() == 0 {
        Seq::empty()
    } else {
        let rest = walks_from(pairs.drop_last(), from);
        if pairs.last().0 == from && !rest.contains(pairs.last().1) {
            rest.push(pairs.last().1)
        } else {
            rest
        }
    }
}

/// One record for every stop of `stops`, in their order: the stop, and the
/// stops to which `pairs` offers a walk from it, which may be none.
pub open spec fn records_of(stops: Seq<Seq<char>>, pairs: Seq<(Seq<char>, Seq<char>)>) -> Seq<
    TransferData,
> {
    Seq::new(
        stops.len(),
        |i: int| TransferData { from_stop: stops[i], to_stops: walks_from(pairs, stops[i]) },
    )
}

/// What a list of transfer records holds.
pub open spec fn records_view(records: Seq<Transfer>) -> Seq<TransferData> {
    Seq::new(records.len(), |i: int| records[i]@)
}

/// The numbers of the trips of `trips` whose service is one of `services`,
/// by the numbers that `names` gives to the trips.
pub open spec fn active_of(trips: Seq<Trip>, services: Seq<Seq<char>>, names: Seq<Seq<char>>)
    -> Set<TripId> {
    Set::new(
        |id: TripId|
            exists|i: int|
                0 <= i < trips.len() && services.contains((#[trigger] trips[i]).service_id@)
                    && place_of(names, trips[i].id@) == id,
    )
}

/// Each of `texts` has a number in `names`.
pub open spec fn all_named(texts: Seq<Seq<char>>, names: Seq<Seq<char>>) -> bool {
    forall|j: int| 0 <= j < texts.len() ==> names.contains(#[trigger] texts[j])
}

/// The numbers that `names` gives to `texts`, in their order.
pub open spec fn numbers_of(texts: Seq<Seq<char>>, names: Seq<Seq<char>>) -> Seq<StopId> {
    Seq::new(texts.len(), |j: int| place_of(names, texts[j]) as u64)
}

/// The transfer table that the records make, with the numbers that `names`
/// gives to the stops: each record is the entry of its stop, and of two
/// records of one stop the later counts. There is no table if a stop of the
/// records has no number.
pub open spec fn table_of(records: Seq<TransferData>, names: Seq<Seq<char>>) -> Option<
    Map<StopId, Seq<StopId>>,
>
    decreases records.len(),
{
    if records.len() == 0 {
        Some(Map::empty())
    } else {
        let last = records.last();
        match table_of(records.drop_last(), names) {
            None => None,
            Some(table) => if names.contains(last.from_stop) && all_named(last.to_stops, names) {
                Some(
                    table.insert(
                        place_of(names, last.from_stop) as u64,
                        numbers_of(last.to_stops, names),
                    ),
                )
            } else {
                None
            },
        }
    }
}

/// The identifiers of the rail routes are those of the routes that are
/// served by rail, and no others.
pub proof fn lemma_rail_route_texts(routes: Seq<Route>, text: Seq<char>)
    ensures
        rail_route_texts(routes).contains(text) <==> exists|i: int|
            0 <= i < routes.len() && (#[trigger] routes[i]).id@ == text && routes[i].route_type
                == RouteType::RAIL,
    decreases routes.len(),
{
    if routes.len() > 0 {
        let head = routes.drop_last();
        let last = routes.last();
        lemma_rail_route_texts(head, text);
        let rest = rail_route_texts(head);
        let all = rail_route_texts(routes);
        if all.contains(text) {
            let j = choose|j: int| 0 <= j < all.len() && all[j] == text;
            if j < rest.len() {
                assert(rest[j] == text);
                let i = choose|i: int|
                    0 <= i < head.len() && (#[trigger] head[i]).id@ == text && head[i].route_type
                        == RouteType::RAIL;
                assert(routes[i].id@ == text);
            } else {
                assert(routes[routes.len() - 1].id@ == text);
            }
        }
        if exists|i: int|
            0 <= i < routes.len() && (#[trigger] routes[i]).id@ == text && routes[i].route_type
                == RouteType::RAIL {
            let i = choose|i: int|
                0 <= i < routes.len() && (#[trigger] routes[i]).id@ == text && routes[i].route_type
                    == RouteType::RAIL;
            if i < head.len() {
                assert(head[i].id@ == text);
                let j = choose|j: int| 0 <= j < rest.len() && rest[j] == text;
                assert(all[j] == text);
            } else {
                assert(all[all.len() - 1] == text);
            }
        }
    }
}

/// Where the first records make no table, all of them make none.
pub proof fn lemma_no_table(records: Seq<TransferData>, names: Seq<Seq<char>>, k: int)
    requires
        0 <= k <= records.len(),
        table_of(records.take(k), names) is None,
    ensures
        table_of(records, names) is None,
    decreases records.len() - k,
{
    if k < records.len() {
        assert(records.take(k + 1).drop_last() =~= records.take(k));
        lemma_no_table(records, names, k + 1);
    } else {
        assert(records.take(k) =~= records);
    }
}

/// The connections of `connections` that belong to one of `trips`, in their
/// order.
pub open spec fn running(connections: Seq<Connection>, trips: Set<TripId>) -> Seq<Connection>
    decreases connections.len(),
{
    if connections.len() == 0 {
        Seq::empty()
    } else {
        let rest = running(connections.drop_last(), trips);
        if trips.contains(connections.last().trip) {
            rest.push(connections.last())
        } else {
            rest
        }
    }
}

/// The connections that are kept are connections that were there, and they
/// stay ordered by departure.
pub proof fn lemma_running_keeps_order(connections: Seq<Connection>, trips: Set<TripId>)
    ensures
        forall|i: int|
            0 <= i < running(connections, trips).len() ==> connections.contains(
                #[trigger] running(connections, trips)[i],
            ) && trips.contains(running(connections, trips)[i].trip),
        departure_ordered(connections) ==> departure_ordered(running(connections, trips)),
    decreases connections.len(),
{
    if connections.len() > 0 {
        let head = connections.drop_last();
        let last = connections.last();
        lemma_running_keeps_order(head, trips);
        let kept = running(head, trips);
        let all = running(connections, trips);
        assert forall|i: int| 0 <= i < kept.len() implies connections.contains(
            #[trigger] kept[i],
        ) by {
            let j = choose|j: int| 0 <= j < head.len() && head[j] == kept[i];
            assert(connections[j] == kept[i]);
        }
        assert(connections[connections.len() - 1] == last);
        if departure_ordered(connections) {
            assert forall|i: int, j: int| 0 <= i <= j < head.len() implies (#[trigger] head[i])
                .dep_time.not_after((#[trigger] head[j]).dep_time) by {
                assert(connections[i].dep_time.not_after(connections[j].dep_time));
            }
            assert forall|i: int, j: int| 0 <= i <= j < all.len() implies (#[trigger] all[i])
                .dep_time.not_after((#[trigger] all[j]).dep_time) by {
                if j < kept.len() {
                    assert(kept[i].dep_time.not_after(kept[j].dep_time));
                } else if i < kept.len() {
                    let m = choose|m: int| 0 <= m < head.len() && head[m] == kept[i];
                    assert(connections[m].dep_time.not_after(
                        connections[connections.len() - 1].dep_time,
                    ));
                }
            }
        }
    }
}

/// Reads a line of the transfers file that has its seven fields.
pub fn parse_transfer_line(line: StringRecord) -> (walk: Option<(String, String)>)
    requires
        record_fields(line).len() >= 7,
    ensures
        Ok::<Option<(Seq<char>, Seq<char>)>, RecordError>(walk_view(walk)) == transfer_of(
            record_fields(line),
        ),
{
    match parse_transfer_line_checked(line) {
        Ok(walk) => walk,
        Err(_) => unreached(),
    }
}

/// Reads any line of the transfers file, and says which field is missing if
/// the line is too short.
pub fn parse_transfer_line_checked(line: StringRecord) -> (r: Result<
    Option<(String, String)>,
    RecordError,
>)
    ensures
        match transfer_of(record_fields(line)) {
            Ok(walk) => r is Ok && walk_view(r->Ok_0) == walk,
            Err(e) => r == Err::<Option<(String, String)>, RecordError>(e),
        },
{
    let code = text_field(&line, 6)?;
    match TransferType::from_code(code) {
        None => {
            return Ok(None);
        },
        Some(TransferType::NONE) => {
            return Ok(None);
        },
        Some(_) => {},
    }
    let from = id_field(&line, 0)?;
    let to = id_field(&line, 1)?;
    Ok(Some((from, to)))
}

/// Collects the identifiers of the routes that are served by rail.
pub fn rail_routes(routes: &Vec<Route>) -> (ids: Names)
    ensures
        ids@ == with_names(Seq::empty(), rail_route_texts(routes@)),
        forall|text: Seq<char>|
            ids@.contains(text) <==> exists|i: int|
                0 <= i < routes@.len() && (#[trigger] routes@[i]).id@ == text
                    && routes@[i].route_type == RouteType::RAIL,
{
    let mut ids = Names::new();
    let mut k: usize = 0;
    while k < routes.len()
        invariant
            k <= routes.len(),
            ids@ == with_names(Seq::empty(), rail_route_texts(routes@.take(k as int))),
        decreases routes.len() - k,
    {
        proof {
            assert(routes@.take(k + 1).drop_last() =~= routes@.take(k as int));
        }
        let rail = match routes[k].route_type {
            RouteType::RAIL => true,
            _ => false,
        };
        if rail {
            proof {
                let texts = rail_route_texts(routes@.take(k + 1));
                assert(texts.drop_last() =~= rail_route_texts(routes@.take(k as int)));
            }
            ids.number(routes[k].id.as_str());
        }
        k += 1;
    }
    proof {
        assert(routes@.take(k as int) =~= routes@);
        assert forall|text: Seq<char>|
            ids@.contains(text) <==> exists|i: int|
                0 <= i < routes@.len() && (#[trigger] routes@[i]).id@ == text
                    && routes@[i].route_type == RouteType::RAIL by {
            lemma_with_names_holds(Seq::empty(), rail_route_texts(routes@), text);
            lemma_rail_route_texts(routes@, text);
        }
    }
    ids
}

/// Keeps the trips that run on one of `routes`, in their order.
pub fn rail_trips(trips: Vec<Trip>, routes: &Names) -> (kept: Vec<Trip>)
    ensures
        kept@ == trips_on(trips@, routes@),
{
    let ghost all = trips@;
    let mut kept: Vec<Trip> = Vec::new();
    for trip in it: trips
        invariant
            it.seq() == all,
            kept@ == trips_on(all.take(it.index() as int), routes@),
    {
        proof {
            assert(all.take(it.index() + 1).drop_last() =~= all.take(it.index() as int));
        }
        if routes.contains(trip.route_id.as_str()) {
            kept.push(trip);
        }
    }
    proof {
        assert(all.take(all.len() as int) =~= all);
    }
    kept
}

/// Collects the identifiers of `trips`.
pub fn trip_ids(trips: &Vec<Trip>) -> (ids: Names)
    ensures
        ids@ == with_names(Seq::empty(), trip_texts(trips@)),
        forall|text: Seq<char>|
            ids@.contains(text) <==> exists|i: int|
                0 <= i < trips@.len() && (#[trigger] trips@[i]).id@ == text,
{
    let mut ids = Names::new();
    number_trips(trips, &mut ids);
    proof {
        assert forall|text: Seq<char>|
            ids@.contains(text) <==> exists|i: int|
                0 <= i < trips@.len() && (#[trigger] trips@[i]).id@ == text by {
            lemma_with_names_holds(Seq::empty(), trip_texts(trips@), text);
            if trip_texts(trips@).contains(text) {
                let i = choose|i: int|
                    0 <= i < trip_texts(trips@).len() && trip_texts(trips@)[i] == text;
                assert(trips@[i].id@ == text);
            }
            if exists|i: int| 0 <= i < trips@.len() && (#[trigger] trips@[i]).id@ == text {
                let i = choose|i: int| 0 <= i < trips@.len() && (#[trigger] trips@[i]).id@ == text;
                assert(trip_texts(trips@)[i] == text);
            }
        }
    }
    ids
}

/// Reads a line of the stop times file if it belongs to one of `trips`, and
/// passes over it otherwise. The line names its trip, and spells a call if
/// the trip is one of `trips`.
pub fn rail_stop_time(line: StringRecord, trips: &Names) -> (call: Option<StopTime>)
    requires
        rail_call_of(record_fields(line), trips@) is Ok,
    ensures
        call_view(call) == rail_call_of(record_fields(line), trips@)->Ok_0,
{
    match rail_stop_time_checked(line, trips) {
        Ok(call) => call,
        Err(_) => unreached(),
    }
}

/// Reads any line of the stop times file if it belongs to one of `trips`,
/// and passes over it otherwise. Says which field is missing or cannot be
/// read if the line names no trip, or belongs to one of `trips` and spells no
/// call.
pub fn rail_stop_time_checked(line: StringRecord, trips: &Names) -> (r: Result<
    Option<StopTime>,
    RecordError,
>)
    ensures
        match rail_call_of(record_fields(line), trips@) {
            Ok(call) => r is Ok && call_view(r->Ok_0) == call,
            Err(e) => r == Err::<Option<StopTime>, RecordError>(e),
        },
{
    let trip = text_field(&line, 0)?;
    if !trips.contains(trip) {
        return Ok(None);
    }
    match StopTime::new_checked(line) {
        Err(e) => Err(e),
        Ok(call) => Ok(Some(call)),
    }
}

/// Tells whether `text` is one of `texts`.
pub fn holds(texts: &Vec<String>, text: &str) -> (b: bool)
    ensures
        b == texts_of(texts@).contains(text@),
{
    let mut k: usize = 0;
    while k < texts.len()
        invariant
            k <= texts.len(),
            forall|j: int| 0 <= j < k ==> texts_of(texts@)[j] != text@,
        decreases texts.len() - k,
    {
        if same_text(texts[k].as_str(), text) {
            assert(texts_of(texts@)[k as int] == text@);
            return true;
        }
        k += 1;
    }
    false
}

/// Copies a list of texts.
pub fn copy_of(texts: &Vec<String>) -> (copy: Vec<String>)
    ensures
        texts_of(copy@) == texts_of(texts@),
{
    let mut copy: Vec<String> = Vec::new();
    let mut k: usize = 0;
    while k < texts.len()
        invariant
            k <= texts.len(),
            copy@.len() == k,
            forall|i: int| 0 <= i < k ==> (#[trigger] copy@[i])@ == texts@[i]@,
        decreases texts.len() - k,
    {
        copy.push(texts[k].clone());
        k += 1;
    }
    proof {
        assert(texts_of(copy@) =~= texts_of(texts@));
    }
    copy
}

/// Lists, for every stop of `stops`, the stop and the stops in walking reach
/// of it. A stop from which no walk leads has a record with none.
pub fn transfer_records(stops: &Vec<String>, pairs: &Vec<(String, String)>) -> (records: Vec<
    Transfer,
>)
    ensures
        records_view(records@) == records_of(texts_of(stops@), pairs_of(pairs@)),
{
    let ghost stop_texts = texts_of(stops@);
    let ghost walks = pairs_of(pairs@);
    let mut names = Names::new();
    let mut k: usize = 0;
    proof {
        assert(stop_texts.take(0) =~= Seq::<Seq<char>>::empty());
    }
    while k < stops.len()
        invariant
            k <= stops.len(),
            stop_texts == texts_of(stops@),
            names@ == with_names(Seq::empty(), stop_texts.take(k as int)),
        decreases stops.len() - k,
    {
        proof {
            assert(stop_texts.take(k + 1).drop_last() =~= stop_texts.take(k as int));
            assert(stop_texts.take(k + 1).last() == stops@[k as int]@);
        }
        names.number(stops[k].as_str());
        k += 1;
    }
    proof {
        assert(stop_texts.take(k as int) =~= stop_texts);
        lemma_with_names(Seq::empty(), stop_texts, Seq::empty());
    }
    let count = names.len();
    let mut groups: Vec<Vec<String>> = Vec::new();
    let mut n: usize = 0;
    proof {
        assert(walks.take(0) =~= Seq::<(Seq<char>, Seq<char>)>::empty());
    }
    while n < count
        invariant
            n <= count,
            groups@.len() == n,
            forall|m: int|
                0 <= m < n ==> texts_of((#[trigger] groups@[m])@) == Seq::<Seq<char>>::empty(),
        decreases count - n,
    {
        let none: Vec<String> = Vec::new();
        proof {
            assert(texts_of(none@) =~= Seq::<Seq<char>>::empty());
        }
        groups.push(none);
        n += 1;
    }
    let mut k: usize = 0;
    while k < pairs.len()
        invariant
            k <= pairs.len(),
            walks == pairs_of(pairs@),
            count == names@.len(),
            distinct(names@),
            groups@.len() == count,
            forall|m: int|
                0 <= m < count ==> texts_of((#[trigger] groups@[m])@) == walks_from(
                    walks.take(k as int),
                    names@[m],
                ),
        decreases pairs.len() - k,
    {
        let ghost so_far = groups@;
        proof {
            assert(walks.take(k + 1).drop_last() =~= walks.take(k as int));
            assert(walks.take(k + 1).last() == (pairs@[k as int].0@, pairs@[k as int].1@));
            lemma_place_of(names@, pairs@[k as int].0@);
        }
        match names.find(pairs[k].0.as_str()) {
            None => {},
            Some(found) => {
                let at = found as usize;
                let ghost before = texts_of(groups@[at as int]@);
                if !holds(&groups[at], pairs[k].1.as_str()) {
                    groups[at].push(pairs[k].1.clone());
                    proof {
                        assert(texts_of(groups@[at as int]@) =~= before.push(pairs@[k as int].1@));
                    }
                }
                proof {
                    assert forall|m: int| 0 <= m < count && m != at implies names@[m]
                        != pairs@[k as int].0@ by {
                        if m < at {
                            assert(names@[m] != names@[at as int]);
                        } else {
                            assert(names@[at as int] != names@[m]);
                        }
                    }
                    assert forall|m: int| 0 <= m < count && m != at implies #[trigger] groups@[m]
                        == so_far[m] by {}
                }
            },
        }
        k += 1;
    }
    proof {
        assert(walks.take(k as int) =~= walks);
    }
    let mut records: Vec<Transfer> = Vec::new();
    let mut k: usize = 0;
    while k < stops.len()
        invariant
            k <= stops.len(),
            stop_texts == texts_of(stops@),
            walks == pairs_of(pairs@),
            names@ == with_names(Seq::empty(), stop_texts),
            count == names@.len(),
            groups@.len() == count,
            forall|m: int|
                0 <= m < count ==> texts_of((#[trigger] groups@[m])@) == walks_from(
                    walks,
                    names@[m],
                ),
            records@.len() == k,
            forall|i: int| 0 <= i < k ==> (#[trigger] records@[i])@ == records_of(stop_texts, walks)[i],
        decreases stops.len() - k,
    {
        proof {
            assert(stop_texts[k as int] == stops@[k as int]@);
            lemma_with_names(Seq::empty(), stop_texts, stops@[k as int]@);
            lemma_place_of(names@, stops@[k as int]@);
        }
        let to_stops = match names.find(stops[k].as_str()) {
            Some(found) => copy_of(&groups[found as usize]),
            None => unreached(),
        };
        let record = Transfer { from_stop: stops[k].clone(), to_stops };
        proof {
            assert(record@.to_stops =~= texts_of(record.to_stops@));
        }
        records.push(record);
        k += 1;
    }
    proof {
        assert(records_view(records@) =~= records_of(stop_texts, walks));
    }
    records
}

/// Picks the trips whose service is one of `services`, and gives their
/// numbers. A trip that has no number yet gets one.
pub fn active_trips(trips: &Vec<Trip>, services: &Names, names: &mut Names) -> (ids: HashSet<
    TripId,
>)
    ensures
        final(names)@ == with_names(old(names)@, trip_texts(trips@)),
        ids@ == active_of(trips@, services@, final(names)@),
{
    let numbers = number_trips(trips, names);
    let count = names.len();
    let mut ids: HashSet<TripId> = HashSet::new();
    let mut k: usize = 0;
    proof {
        assert forall|i: int| 0 <= i < trips@.len() implies #[trigger] numbers@[i] == place_of(
            names@,
            trips@[i].id@,
        ) by {
            lemma_place_of(names@, trips@[i].id@);
        }
    }
    while k < trips.len()
        invariant
            k <= trips.len(),
            numbers@.len() == trips@.len(),
            forall|i: int|
                0 <= i < trips@.len() ==> #[trigger] numbers@[i] == place_of(
                    names@,
                    trips@[i].id@,
                ),
            ids@ =~= active_of(trips@.take(k as int), services@, names@),
        decreases trips.len() - k,
    {
        let ghost before = trips@.take(k as int);
        let ghost after = trips@.take(k + 1);
        let active = services.contains(trips[k].service_id.as_str());
        if active {
            ids.insert(numbers[k]);
        }
        proof {
            let id_k = numbers@[k as int];
            assert forall|id: TripId| #[trigger]
                active_of(after, services@, names@).contains(id) <==> (active_of(
                    before,
                    services@,
                    names@,
                ).contains(id) || (active && id == id_k)) by {
                if active_of(after, services@, names@).contains(id) {
                    let i = choose|i: int|
                        0 <= i < after.len() && services@.contains(
                            (#[trigger] after[i]).service_id@,
                        ) && place_of(names@, after[i].id@) == id;
                    if i < k {
                        assert(before[i] == after[i]);
                    }
                }
                if active_of(before, services@, names@).contains(id) {
                    let i = choose|i: int|
                        0 <= i < before.len() && services@.contains(
                            (#[trigger] before[i]).service_id@,
                        ) && place_of(names@, before[i].id@) == id;
                    assert(after[i] == before[i]);
                }
                if active && id == id_k {
                    assert(after[k as int] == trips@[k as int]);
                }
            }
        }
        k += 1;
    }
    proof {
        assert(trips@.take(k as int) =~= trips@);
    }
    ids
}

/// Looks up the numbers of `texts`; there are none if one of them has no
/// number.
pub fn look_up_all(texts: &Vec<String>, names: &Names) -> (r: Option<Vec<StopId>>)
    ensures
        match r {
            Some(numbers) => all_named(texts_of(texts@), names@) && numbers@ == numbers_of(
                texts_of(texts@),
                names@,
            ),
            None => !all_named(texts_of(texts@), names@),
        },
{
    let count = names.len();
    let mut numbers: Vec<StopId> = Vec::new();
    let mut k: usize = 0;
    while k < texts.len()
        invariant
            k <= texts.len(),
            count == names@.len(),
            numbers@.len() == k,
            forall|j: int| 0 <= j < k ==> names@.contains(#[trigger] texts_of(texts@)[j]),
            forall|j: int|
                0 <= j < k ==> #[trigger] numbers@[j] == place_of(names@, texts_of(texts@)[j]),
        decreases texts.len() - k,
    {
        assert(texts_of(texts@)[k as int] == texts@[k as int]@);
        match names.find(texts[k].as_str()) {
            None => {
                return None;
            },
            Some(number) => {
                numbers.push(number);
            },
        }
        k += 1;
    }
    proof {
        assert forall|j: int| 0 <= j < texts@.len() implies numbers@[j] == numbers_of(
            texts_of(texts@),
            names@,
        )[j] by {
            lemma_place_of(names@, texts_of(texts@)[j]);
        }
        assert(numbers@ =~= numbers_of(texts_of(texts@), names@));
    }
    Some(numbers)
}

/// Builds the transfer table of the journey search out of the transfer
/// records, with the numbers that `names` gives to the stops. There is no
/// table if a stop of the records has no number.
pub fn transfer_table(records: &Vec<Transfer>, names: &Names) -> (r: Option<
    HashMap<StopId, Vec<StopId>>,
>)
    ensures
        match table_of(records_view(records@), names@) {
            None => r is None,
            Some(table) => r is Some && footpaths(r->0@) == table,
        },
{
    let count = names.len();
    let mut table: HashMap<StopId, Vec<StopId>> = HashMap::new();
    let mut k: usize = 0;
    let ghost all = records_view(records@);
    proof {
        assert(footpaths(table@) =~= Map::<StopId, Seq<StopId>>::empty());
    }
    while k < records.len()
        invariant
            k <= records.len(),
            count == names@.len(),
            all == records_view(records@),
            table_of(all.take(k as int), names@) == Some(footpaths(table@)),
        decreases records.len() - k,
    {
        let ghost before = table@;
        proof {
            assert(all.take(k + 1).drop_last() =~= all.take(k as int));
            assert(all.take(k + 1).last() == records@[k as int]@);
            assert(records@[k as int]@.to_stops =~= texts_of(records@[k as int].to_stops@));
            lemma_place_of(names@, records@[k as int].from_stop@);
        }
        let from = match names.find(records[k].from_stop.as_str()) {
            None => {
                proof {
                    lemma_no_table(all, names@, k + 1);
                }
                return None;
            },
            Some(from) => from,
        };
        let to = match look_up_all(&records[k].to_stops, names) {
            None => {
                proof {
                    lemma_no_table(all, names@, k + 1);
                }
                return None;
            },
            Some(to) => to,
        };
        let ghost reach = to@;
        table.insert(from, to);
        proof {
            assert(footpaths(table@) =~= footpaths(before).insert(from, reach));
        }
        k += 1;
    }
    proof {
        assert(all.take(k as int) =~= all);
    }
    Some(table)
}

/// Keeps the connections that belong to one of `trips`, in their order.
/// Connections that were ordered by departure stay so.
pub fn running_connections(connections: &Vec<Connection>, trips: &HashSet<TripId>) -> (kept: Vec<
    Connection,
>)
    ensures
        kept@ == running(connections@, trips@),
        departure_ordered(connections@) ==> departure_ordered(kept@),
{
    let mut kept: Vec<Connection> = Vec::new();
    let mut k: usize = 0;
    while k < connections.len()
        invariant
            k <= connections.len(),
            kept@ == running(connections@.take(k as int), trips@),
        decreases connections.len() - k,
    {
        proof {
            assert(connections@.take(k + 1).drop_last() =~= connections@.take(k as int));
        }
        if trips.contains(&connections[k].trip) {
            kept.push(connections[k]);
        }
        k += 1;
    }
    proof {
        assert(connections@.take(k as int) =~= connections@);
        lemma_running_keeps_order(connections@, trips@);
    }
    kept
}

} // verus!
