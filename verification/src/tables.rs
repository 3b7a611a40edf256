//! Building the tables of a timetable from a feed.
//!
//! The trips are grouped into lines by the stops they call at, the trips of
//! each line are put in the order of their first departure and numbered, and
//! their times are laid out in one list.
use crate::buckets::{
    grouped, hash_list, hash_name, lemma_grouped, list_hash, name_hash, Buckets,
};
use crate::feed::{
    bookings_of, calling, calls, calls_at, departures, first_trip, keyed, last_index,
    lemma_last_index, lines_of, members, named, names, offset, record_of, records_of, route_of,
    routes_of, running, slot, stops_of, times_of, visits, Booking, FeedTrip, Line, PatternIdx,
    StopIdx, StopTime, TripIdx,
};
use crate::ordered::is_ascending;
use crate::sorting::{lemma_sorted_by_key, sort_by_key, sorted_by_key};
use std::collections::HashMap;
use vstd::prelude::*;

verus! {

/// The hashes of the names of the stops, by place.
pub(crate) open spec fn name_keys(names: Seq<Seq<char>>) -> Seq<u64> {
    names.map_values(|name: Seq<char>| name_hash(name))
}

/// The hashes of the routes, by place.
pub(crate) open spec fn route_keys(routes: Seq<Seq<StopIdx>>) -> Seq<u64> {
    routes.map_values(|stops: Seq<StopIdx>| list_hash(stops))
}

/// The last place of an item is the last of the places of its hash that
/// holds it.
pub(crate) proof fn lemma_last_of_group<A>(
    items: Seq<A>,
    keys: Seq<u64>,
    item: A,
    hash: u64,
    found: Option<usize>,
)
    requires
        keys.len() == items.len(),
        items.len() <= usize::MAX,
        forall|i: int| 0 <= i < items.len() && items[i] == item ==> keys[i] == hash,
        found matches Some(place) ==> place < items.len() && items[place as int] == item,
        forall|at: int|
            0 <= at < grouped(keys, hash, keys.len()).len() && (found matches Some(place)
                ==> place < grouped(keys, hash, keys.len())[at]) ==> items[(#[trigger] grouped(
                keys,
                hash,
                keys.len(),
            )[at]) as int] != item,
    ensures
        last_index(items, item, items.len()) == found,
{
    lemma_last_index(items, item, items.len());
    lemma_grouped(keys, hash, keys.len());
    match last_index(items, item, items.len()) {
        Some(last) => {
            let group = grouped(keys, hash, keys.len());
            assert(keys[last as int] == hash);
            assert(group.contains(last as int as usize));
            let at = choose|at: int| 0 <= at < group.len() && group[at] == last;
            assert(group[at] == last);
        },
        None => {},
    }
}

/// An index over the names of the stops.
pub(crate) fn index_stops(ids: &Vec<String>) -> (index: Buckets)
    ensures
        index.wf(),
        index.keys() == name_keys(names(ids@)),
{
    let mut index = Buckets::new();
    let mut i: usize = 0;
    assert(name_keys(names(ids@.take(0))) =~= Seq::<u64>::empty());
    while i < ids.len()
        invariant
            i <= ids.len(),
            index.wf(),
            index.keys() == name_keys(names(ids@.take(i as int))),
        decreases ids.len() - i,
    {
        let hash = hash_name(ids[i].as_str());
        assert(name_keys(names(ids@.take(i as int))).len() == i);
        index.add(hash);
        assert(name_keys(names(ids@.take(i + 1))) =~= name_keys(names(ids@.take(i as int))).push(
            hash,
        ));
        i = i + 1;
    }
    assert(ids@.take(ids@.len() as int) =~= ids@);
    index
}

/// The index of the stop that the feed names `id`.
pub(crate) fn find_stop(ids: &Vec<String>, index: &Buckets, id: &String) -> (found: Option<StopIdx>)
    requires
        index.wf(),
        index.keys() == name_keys(names(ids@)),
    ensures
        found == named(names(ids@), id@),
        found matches Some(stop) ==> stop < ids.len(),
{
    let hash = hash_name(id.as_str());
    let ghost known = names(ids@);
    let ghost keys = name_keys(known);
    let ghost group = grouped(keys, hash, keys.len());
    proof {
        assert(known.len() == ids.len());
        assert(keys.len() == known.len());
        lemma_grouped(keys, hash, keys.len());
    }
    match index.candidates(hash) {
        Some(places) => {
            let mut k: usize = places.len();
            while k > 0
                invariant
                    k <= places.len(),
                    places@ == group,
                    known == names(ids@),
                    keys == name_keys(known),
                    keys.len() == known.len(),
                    known.len() == ids.len(),
                    hash == name_hash(id@),
                    group == grouped(keys, hash, keys.len()),
                    is_ascending(group),
                    forall|at: int| 0 <= at < group.len() ==> (#[trigger] group[at]) < ids.len(),
                    forall|at: int| k <= at < group.len() ==> known[(#[trigger] group[at]) as int] != id@,
                decreases k,
            {
                k = k - 1;
                let place = places[k];
                if ids[place] == *id {
                    proof {
                        lemma_last_of_group(known, keys, id@, hash, Some(place));
                    }
                    return Some(place);
                }
            }
            proof {
                lemma_last_of_group(known, keys, id@, hash, None);
            }
            None
        },
        None => {
            proof {
                lemma_last_of_group(known, keys, id@, hash, None);
            }
            None
        },
    }
}

/// Whether two routes serve the same stops in the same order.
pub(crate) fn same_stops(a: &Vec<StopIdx>, b: &Vec<StopIdx>) -> (same: bool)
    ensures
        same == (a@ == b@),
{
    if a.len() != b.len() {
        return false;
    }
    let mut i: usize = 0;
    while i < a.len()
        invariant
            i <= a.len(),
            a.len() == b.len(),
            forall|j: int| 0 <= j < i ==> a@[j] == b@[j],
        decreases a.len() - i,
    {
        if a[i] != b[i] {
            return false;
        }
        i = i + 1;
    }
    assert(a@ =~= b@);
    true
}

/// What a trip does: the stops it calls at by increasing sequence number,
/// and its times there.
pub(crate) fn record_trip(ids: &Vec<String>, index: &Buckets, trip: &FeedTrip) -> (record: (
    Vec<StopIdx>,
    Vec<StopTime>,
))
    requires
        index.wf(),
        index.keys() == name_keys(names(ids@)),
    ensures
        record.0@ == stops_of(record_of(names(ids@), trip@)),
        record.1@ == times_of(record_of(names(ids@), trip@)),
        forall|j: int| 0 <= j < record.0@.len() ==> #[trigger] record.0@[j] < ids.len(),
{
    let mut keys: Vec<(u32, usize)> = Vec::new();
    let mut i: usize = 0;
    while i < trip.stop_times.len()
        invariant
            i <= trip.stop_times.len(),
            keys.len() == i,
            forall|j: int| 0 <= j < i ==> keys@[j] == keyed(trip@)[j],
        decreases trip.stop_times.len() - i,
    {
        keys.push((trip.stop_times[i].stop_sequence, i));
        i = i + 1;
    }
    assert(keys@ =~= keyed(trip@));
    let order = sort_by_key(&keys);
    proof {
        lemma_sorted_by_key(keys@);
    }
    let mut stops: Vec<StopIdx> = Vec::new();
    let mut times: Vec<StopTime> = Vec::new();
    let mut i: usize = 0;
    while i < order.len()
        invariant
            i <= order.len(),
            index.wf(),
            index.keys() == name_keys(names(ids@)),
            order@ == sorted_by_key(keyed(trip@)),
            order.len() == trip@.len(),
            trip@.len() == trip.stop_times.len(),
            forall|j: int| 0 <= j < order.len() ==> keyed(trip@).contains(#[trigger] order@[j]),
            stops@ == stops_of(visits(names(ids@), trip@, order@, i as nat)),
            times@ == times_of(visits(names(ids@), trip@, order@, i as nat)),
            forall|j: int| 0 <= j < stops@.len() ==> #[trigger] stops@[j] < ids.len(),
        decreases order.len() - i,
    {
        let at = order[i].1;
        proof {
            let key = order@[i as int];
            assert(keyed(trip@).contains(key));
            let from = choose|from: int| 0 <= from < keyed(trip@).len() && keyed(trip@)[from] == key;
            assert(at == from);
        }
        let call = &trip.stop_times[at];
        let ghost before = visits(names(ids@), trip@, order@, i as nat);
        match find_stop(ids, index, &call.stop_id) {
            Some(stop) => {
                let time = StopTime {
                    arrival: match call.arrival_time {
                        Some(at) => at,
                        None => 0,
                    },
                    departure: match call.departure_time {
                        Some(at) => at,
                        None => 0,
                    },
                };
                stops.push(stop);
                times.push(time);
                assert(stops_of(before.push((stop, time))) =~= stops_of(before).push(stop));
                assert(times_of(before.push((stop, time))) =~= times_of(before).push(time));
            },
            None => {},
        }
        i = i + 1;
    }
    (stops, times)
}

/// The place of each of the first `n` stops of a route; where a stop occurs
/// more than once, its last place.
pub open spec fn positions(stops: Seq<StopIdx>, n: nat) -> Map<StopIdx, usize>
    decreases n,
{
    if n == 0 {
        Map::empty()
    } else {
        positions(stops, (n - 1) as nat).insert(stops[n - 1], (n - 1) as usize)
    }
}

/// The map of positions holds the place of every stop of the route.
pub(crate) proof fn lemma_positions(stops: Seq<StopIdx>, stop: StopIdx, n: nat)
    requires
        n <= stops.len() <= usize::MAX,
    ensures
        match last_index(stops, stop, n) {
            Some(at) => positions(stops, n).contains_key(stop) && positions(stops, n)[stop] == at,
            None => !positions(stops, n).contains_key(stop),
        },
    decreases n,
{
    if n > 0 {
        lemma_positions(stops, stop, (n - 1) as nat);
    }
}

/// One line of the timetable.
pub(crate) struct Pattern {
    pub(crate) stops: Vec<StopIdx>,
    pub(crate) stop_positions: HashMap<StopIdx, usize>,
    pub(crate) trips: Vec<TripIdx>,
    pub(crate) departures_by_stop: Vec<Vec<(u32, TripIdx)>>,
}

/// One trip of the feed, with the line it runs on.
pub(crate) struct TripData {
    pub(crate) pattern_idx: PatternIdx,
    pub(crate) first_departure: u32,
    pub(crate) times: Vec<StopTime>,
}

impl TripData {
    pub(crate) open spec fn view(&self) -> Booking {
        Booking {
            line: self.pattern_idx,
            first_departure: self.first_departure,
            times: self.times@,
        }
    }
}

/// The stops of each line.
pub(crate) open spec fn routes(patterns: Seq<Pattern>) -> Seq<Seq<StopIdx>> {
    patterns.map_values(|pattern: Pattern| pattern.stops@)
}

/// The trips as contracts speak of them.
pub(crate) open spec fn bookings(data: Seq<TripData>) -> Seq<Booking> {
    data.map_values(|trip: TripData| trip@)
}

/// A line that holds its stops and no trip yet.
pub(crate) open spec fn fresh(pattern: Pattern) -> bool {
    &&& pattern.stop_positions@ == positions(pattern.stops@, pattern.stops@.len())
    &&& pattern.trips@.len() == 0
    &&& pattern.departures_by_stop@.len() == 0
}

/// A line over `stops`, without trips.
pub(crate) fn new_pattern(stops: Vec<StopIdx>) -> (pattern: Pattern)
    ensures
        pattern.stops@ == stops@,
        fresh(pattern),
{
    let mut stop_positions: HashMap<StopIdx, usize> = HashMap::new();
    let mut i: usize = 0;
    while i < stops.len()
        invariant
            i <= stops.len(),
            stop_positions@ == positions(stops@, i as nat),
        decreases stops.len() - i,
    {
        stop_positions.insert(stops[i], i);
        i = i + 1;
    }
    Pattern { stops, stop_positions, trips: Vec::new(), departures_by_stop: Vec::new() }
}

/// The line that serves `stops`, if there is one.
pub(crate) fn find_pattern(
    patterns: &Vec<Pattern>,
    signatures: &Buckets,
    stops: &Vec<StopIdx>,
) -> (found: Option<PatternIdx>)
    requires
        signatures.wf(),
        signatures.keys() == route_keys(routes(patterns@)),
    ensures
        found == route_of(routes(patterns@), stops@),
        found matches Some(line) ==> line < patterns.len(),
{
    let hash = hash_list(stops);
    let ghost lines = routes(patterns@);
    let ghost keys = route_keys(lines);
    let ghost group = grouped(keys, hash, keys.len());
    proof {
        assert(lines.len() == patterns.len());
        assert(keys.len() == lines.len());
        lemma_grouped(keys, hash, keys.len());
    }
    match signatures.candidates(hash) {
        Some(places) => {
            let mut k: usize = places.len();
            while k > 0
                invariant
                    k <= places.len(),
                    places@ == group,
                    lines == routes(patterns@),
                    keys == route_keys(lines),
                    keys.len() == lines.len(),
                    lines.len() == patterns.len(),
                    hash == list_hash(stops@),
                    group == grouped(keys, hash, keys.len()),
                    is_ascending(group),
                    forall|at: int|
                        0 <= at < group.len() ==> (#[trigger] group[at]) < patterns.len(),
                    forall|at: int|
                        k <= at < group.len() ==> lines[(#[trigger] group[at]) as int] != stops@,
                decreases k,
            {
                k = k - 1;
                let place = places[k];
                if same_stops(&patterns[place].stops, stops) {
                    proof {
                        lemma_last_of_group(lines, keys, stops@, hash, Some(place));
                    }
                    return Some(place);
                }
            }
            proof {
                lemma_last_of_group(lines, keys, stops@, hash, None);
            }
            None
        },
        None => {
            proof {
                lemma_last_of_group(lines, keys, stops@, hash, None);
            }
            None
        },
    }
}

/// Every stop of the route is one of the first `n` stops.
pub(crate) open spec fn within(stops: Seq<StopIdx>, n: nat) -> bool {
    forall|at: int| 0 <= at < stops.len() ==> #[trigger] stops[at] < n
}

/// The trip `trip` stands for `record` among the lines `patterns`.
pub(crate) open spec fn booked(
    trip: TripData,
    patterns: Seq<Pattern>,
    record: Seq<(StopIdx, StopTime)>,
) -> bool {
    &&& record.len() > 0
    &&& trip.pattern_idx < patterns.len()
    &&& patterns[trip.pattern_idx as int].stops@ == stops_of(record)
    &&& trip.first_departure == record[0].1.departure
    &&& trip.times@ == times_of(record)
}

/// No two lines serve the same stops in the same order.
pub(crate) open spec fn distinct(lines: Seq<Seq<StopIdx>>) -> bool {
    forall|p: int, q: int| 0 <= p < q < lines.len() ==> lines[p] != lines[q]
}

/// Groups the trips of the feed into lines by the stops they call at.
pub(crate) fn build_patterns(trips: &Vec<FeedTrip>, ids: &Vec<String>, index: &Buckets) -> (built: (
    Vec<Pattern>,
    Vec<TripData>,
))
    requires
        index.wf(),
        index.keys() == name_keys(names(ids@)),
    ensures
        ({
            let records = records_of(names(ids@), calls(trips@), trips@.len());
            let found = routes_of(records, records.len());
            &&& routes(built.0@) == found
            &&& bookings(built.1@) == bookings_of(records, found)
            &&& forall|p: int| 0 <= p < built.0@.len() ==> fresh(#[trigger] built.0@[p])
            &&& forall|p: int|
                0 <= p < built.0@.len() ==> within(#[trigger] built.0@[p].stops@, ids@.len())
            &&& forall|i: int|
                0 <= i < built.1@.len() ==> (#[trigger] built.1@[i]).pattern_idx < built.0@.len()
                    && built.1@[i].times@.len() == built.0@[built.1@[i].pattern_idx as int].stops@.len()
        }),
{
    let mut patterns: Vec<Pattern> = Vec::new();
    let mut signatures = Buckets::new();
    let mut trip_data: Vec<TripData> = Vec::new();
    assert(route_keys(routes(patterns@)) =~= Seq::<u64>::empty());
    let ghost known = names(ids@);
    let ghost feed = calls(trips@);
    let mut n: usize = 0;
    assert(routes(patterns@) =~= routes_of(records_of(known, feed, 0), 0));
    while n < trips.len()
        invariant
            n <= trips.len(),
            known == names(ids@),
            feed == calls(trips@),
            index.wf(),
            index.keys() == name_keys(names(ids@)),
            signatures.wf(),
            signatures.keys() == route_keys(routes(patterns@)),
            routes(patterns@) == routes_of(
                records_of(known, feed, n as nat),
                records_of(known, feed, n as nat).len(),
            ),
            distinct(routes(patterns@)),
            trip_data@.len() == records_of(known, feed, n as nat).len(),
            forall|p: int| 0 <= p < patterns@.len() ==> fresh(#[trigger] patterns@[p]),
            forall|p: int|
                0 <= p < patterns@.len() ==> within(#[trigger] patterns@[p].stops@, ids@.len()),
            forall|i: int|
                0 <= i < trip_data@.len() ==> booked(
                    #[trigger] trip_data@[i],
                    patterns@,
                    records_of(known, feed, n as nat)[i],
                ),
        decreases trips.len() - n,
    {
        let ghost before = records_of(known, feed, n as nat);
        let ghost lines = routes(patterns@);
        let ghost old_patterns = patterns@;
        let ghost old_data = trip_data@;
        assert(lines.len() == patterns.len());
        let (stops, times) = record_trip(ids, index, &trips[n]);
        assert(feed[n as int] == trips@[n as int]@);
        let ghost record = record_of(known, feed[n as int]);
        n = n + 1;
        if stops.len() > 0 {
            assert(stops_of(record).len() == record.len());
            assert(times_of(record)[0] == record[0].1);
            let first_departure = times[0].departure;
            let ghost after = before.push(record);
            assert(records_of(known, feed, n as nat) == after);
            assert(after.drop_last() =~= before);
            let pattern_idx = match find_pattern(&patterns, &signatures, &stops) {
                Some(found) => {
                    proof {
                        lemma_last_index(lines, stops@, lines.len());
                    }
                    found
                },
                None => {
                    proof {
                        lemma_last_index(lines, stops@, lines.len());
                    }
                    let created = patterns.len();
                    let hash = hash_list(&stops);
                    let pattern = new_pattern(stops);
                    patterns.push(pattern);
                    assert(route_keys(lines).len() == created);
                    assert(patterns.len() == created + 1);
                    signatures.add(hash);
                    assert(routes(patterns@) =~= lines.push(stops_of(record)));
                    assert(route_keys(routes(patterns@)) =~= route_keys(lines).push(
                        list_hash(stops_of(record)),
                    ));
                    created
                },
            };
            assert(routes_of(after, after.len()) == routes(patterns@)) by {
                assert(routes_of(after, (after.len() - 1) as nat) == routes_of(
                    before,
                    before.len(),
                )) by {
                    lemma_routes_of_prefix(after, before, before.len());
                }
            }
            trip_data.push(TripData { pattern_idx, first_departure, times });
            proof {
                assert(patterns@[pattern_idx as int].stops@ == stops_of(record)) by {
                    assert(routes(patterns@)[pattern_idx as int] == stops_of(record));
                }
                assert forall|p: int, q: int| 0 <= p < q < routes(patterns@).len() implies routes(
                    patterns@,
                )[p] != routes(patterns@)[q] by {
                    if q < lines.len() {
                        assert(lines[p] != lines[q]);
                    }
                }
                assert forall|p: int| 0 <= p < patterns@.len() implies fresh(
                    #[trigger] patterns@[p],
                ) by {
                    if p < old_patterns.len() {
                        assert(patterns@[p] == old_patterns[p]);
                    }
                }
                assert forall|p: int| 0 <= p < patterns@.len() implies within(
                    #[trigger] patterns@[p].stops@,
                    ids@.len(),
                ) by {
                    if p < old_patterns.len() {
                        assert(patterns@[p] == old_patterns[p]);
                    }
                }
                assert forall|i: int| 0 <= i < trip_data@.len() implies booked(
                    #[trigger] trip_data@[i],
                    patterns@,
                    after[i],
                ) by {
                    if i < old_data.len() {
                        assert(trip_data@[i] == old_data[i]);
                        assert(after[i] == before[i]);
                        assert(patterns@[old_data[i].pattern_idx as int]
                            == old_patterns[old_data[i].pattern_idx as int]);
                    }
                }
            }
        } else {
            assert(stops_of(record).len() == record.len());
            assert(records_of(known, feed, n as nat) == before);
        }
    }
    proof {
        let records = records_of(known, feed, trips@.len());
        let found = routes_of(records, records.len());
        assert forall|i: int| 0 <= i < trip_data@.len() implies bookings(trip_data@)[i]
            == bookings_of(records, found)[i] by {
            let trip = trip_data@[i];
            assert(found.len() == patterns.len());
            assert(found[trip.pattern_idx as int] == patterns@[trip.pattern_idx as int].stops@);
            lemma_last_index(found, stops_of(records[i]), found.len());
        }
        assert(bookings(trip_data@) =~= bookings_of(records, found));
    }
    (patterns, trip_data)
}

/// The routes of the first records depend on those records alone.
pub(crate) proof fn lemma_routes_of_prefix(
    longer: Seq<Seq<(StopIdx, StopTime)>>,
    shorter: Seq<Seq<(StopIdx, StopTime)>>,
    n: nat,
)
    requires
        n <= shorter.len() <= longer.len(),
        forall|i: int| 0 <= i < shorter.len() ==> longer[i] == shorter[i],
    ensures
        routes_of(longer, n) == routes_of(shorter, n),
    decreases n,
{
    if n > 0 {
        lemma_routes_of_prefix(longer, shorter, (n - 1) as nat);
    }
}

/// A line as it was, but for its trips.
pub(crate) open spec fn kept(before: Pattern, after: Pattern) -> bool {
    &&& after.stops@ == before.stops@
    &&& after.stop_positions@ == before.stop_positions@
    &&& after.departures_by_stop@ == before.departures_by_stop@
}

/// The trips of a line bear `count` numbers in a row, from `first` on.
pub(crate) open spec fn numbered(trips: Seq<TripIdx>, first: nat, count: nat) -> bool {
    &&& trips.len() == count
    &&& forall|j: int| 0 <= j < count ==> #[trigger] trips[j] == first + j
}

/// The trip at place `j` of line `p` is known by its number: `trip_info`
/// holds its line and place, and `order` where the feed lists it.
pub(crate) open spec fn indexed(
    trip_info: Seq<(PatternIdx, usize)>,
    order: Seq<usize>,
    lines: Seq<Line>,
    booked: Seq<Booking>,
    p: int,
    j: int,
) -> bool {
    let trip = first_trip(lines, p as nat) + j;
    &&& trip < trip_info.len()
    &&& trip < order.len()
    &&& trip_info[trip] == (p as usize, j as usize)
    &&& order[trip] == running(booked, p as usize)[j].1
}

/// The trip number `trip` is that of the trip at the place of the line that
/// `trip_info` holds for it.
pub(crate) open spec fn located(
    trip_info: Seq<(PatternIdx, usize)>,
    lines: Seq<Line>,
    trip: int,
) -> bool {
    let (p, j) = trip_info[trip];
    &&& p < lines.len()
    &&& j < lines[p as int].trips.len()
    &&& first_trip(lines, p as nat) + j == trip
}

/// Orders the trips of each line by their first departure and numbers them,
/// line by line. Returns for each number the line and the place of the trip,
/// and where the feed lists it.
pub(crate) fn sort_and_index_trips(
    patterns: &mut Vec<Pattern>,
    trip_data: &Vec<TripData>,
) -> (found: (Vec<(PatternIdx, usize)>, Vec<usize>))
    requires
        forall|i: int|
            0 <= i < trip_data@.len() ==> (#[trigger] trip_data@[i]).pattern_idx < old(
                patterns,
            )@.len(),
    ensures
        final(patterns)@.len() == old(patterns)@.len(),
        forall|p: int|
            0 <= p < old(patterns)@.len() ==> kept(
                old(patterns)@[p],
                #[trigger] final(patterns)@[p],
            ),
        ({
            let booked = bookings(trip_data@);
            let lines = lines_of(routes(old(patterns)@), booked);
            &&& found.0@.len() == first_trip(lines, lines.len())
            &&& found.1@.len() == first_trip(lines, lines.len())
            &&& forall|trip: int|
                0 <= trip < found.0@.len() ==> #[trigger] located(found.0@, lines, trip)
            &&& forall|p: int|
                0 <= p < lines.len() ==> numbered(
                    (#[trigger] final(patterns)@[p]).trips@,
                    first_trip(lines, p as nat),
                    lines[p].trips.len(),
                )
            &&& forall|p: int, j: int|
                0 <= p < lines.len() && 0 <= j < lines[p].trips.len() ==> #[trigger] indexed(
                    found.0@,
                    found.1@,
                    lines,
                    booked,
                    p,
                    j,
                )
        }),
{
    let ghost before = patterns@;
    let ghost booked = bookings(trip_data@);
    let ghost lines = lines_of(routes(before), booked);
    let count = patterns.len();
    let mut groups: Vec<Vec<(u32, usize)>> = Vec::new();
    let mut p: usize = 0;
    while p < count
        invariant
            p <= count,
            groups.len() == p,
            forall|q: int| 0 <= q < p ==> (#[trigger] groups@[q])@ == Seq::<(u32, usize)>::empty(),
        decreases count - p,
    {
        groups.push(Vec::new());
        p = p + 1;
    }
    let mut i: usize = 0;
    while i < trip_data.len()
        invariant
            i <= trip_data.len(),
            groups.len() == count,
            booked == bookings(trip_data@),
            forall|r: int|
                0 <= r < trip_data@.len() ==> (#[trigger] trip_data@[r]).pattern_idx < count,
            forall|q: int|
                0 <= q < count ==> (#[trigger] groups@[q])@ == members(booked, q as usize, i as nat),
        decreases trip_data.len() - i,
    {
        let line = trip_data[i].pattern_idx;
        let ghost grouped = groups@;
        assert(booked[i as int] == trip_data@[i as int]@);
        groups[line].push((trip_data[i].first_departure, i));
        assert forall|q: int| 0 <= q < count implies (#[trigger] groups@[q])@ == members(
            booked,
            q as usize,
            (i + 1) as nat,
        ) by {
            if q != line {
                assert(groups@[q] == grouped[q]);
            }
        }
        i = i + 1;
    }
    let mut trip_info: Vec<(PatternIdx, usize)> = Vec::new();
    let mut order: Vec<usize> = Vec::new();
    let mut p: usize = 0;
    assert(lines.len() == count);
    while p < count
        invariant
            p <= count,
            patterns.len() == count,
            groups.len() == count,
            before.len() == count,
            lines.len() == count,
            lines == lines_of(routes(before), booked),
            forall|q: int|
                0 <= q < count ==> (#[trigger] groups@[q])@ == members(
                    booked,
                    q as usize,
                    booked.len(),
                ),
            forall|q: int| 0 <= q < count ==> kept(before[q], #[trigger] patterns@[q]),
            trip_info.len() == first_trip(lines, p as nat),
            order.len() == first_trip(lines, p as nat),
            forall|trip: int|
                0 <= trip < trip_info@.len() ==> #[trigger] located(trip_info@, lines, trip),
            forall|q: int|
                0 <= q < p ==> numbered(
                    (#[trigger] patterns@[q]).trips@,
                    first_trip(lines, q as nat),
                    lines[q].trips.len(),
                ),
            forall|q: int, j: int|
                0 <= q < p && 0 <= j < lines[q].trips.len() ==> #[trigger] indexed(
                    trip_info@,
                    order@,
                    lines,
                    booked,
                    q,
                    j,
                ),
        decreases count - p,
    {
        let sorted = sort_by_key(&groups[p]);
        assert(sorted@ == running(booked, p));
        assert(lines[p as int].trips.len() == sorted@.len());
        let ghost first = first_trip(lines, p as nat);
        let mut trips: Vec<TripIdx> = Vec::new();
        let mut j: usize = 0;
        while j < sorted.len()
            invariant
                j <= sorted.len(),
                p < count,
                lines.len() == count,
                sorted@ == running(booked, p),
                lines[p as int].trips.len() == sorted@.len(),
                first == first_trip(lines, p as nat),
                trips.len() == j,
                trip_info.len() == first + j,
                order.len() == first + j,
                forall|trip: int|
                    0 <= trip < trip_info@.len() ==> #[trigger] located(trip_info@, lines, trip),
                forall|r: int| 0 <= r < j ==> #[trigger] trips@[r] == first + r,
                forall|q: int, r: int|
                    0 <= q < p && 0 <= r < lines[q].trips.len() ==> #[trigger] indexed(
                        trip_info@,
                        order@,
                        lines,
                        booked,
                        q,
                        r,
                    ),
                forall|r: int|
                    0 <= r < j ==> #[trigger] indexed(trip_info@, order@, lines, booked, p as int, r),
            decreases sorted.len() - j,
        {
            let ghost info = trip_info@;
            let ghost listed = order@;
            trips.push(trip_info.len());
            trip_info.push((p, j));
            order.push(sorted[j].1);
            proof {
                assert forall|trip: int| 0 <= trip < trip_info@.len() implies #[trigger] located(
                    trip_info@,
                    lines,
                    trip,
                ) by {
                    if trip < info.len() {
                        assert(located(info, lines, trip));
                    }
                }
                assert forall|q: int, r: int|
                    0 <= q < p && 0 <= r < lines[q].trips.len() implies #[trigger] indexed(
                    trip_info@,
                    order@,
                    lines,
                    booked,
                    q,
                    r,
                ) by {
                    assert(indexed(info, listed, lines, booked, q, r));
                }
                assert forall|r: int| 0 <= r < j + 1 implies #[trigger] indexed(
                    trip_info@,
                    order@,
                    lines,
                    booked,
                    p as int,
                    r,
                ) by {
                    if r < j {
                        assert(indexed(info, listed, lines, booked, p as int, r));
                    }
                }
            }
            j = j + 1;
        }
        let ghost held = patterns@;
        patterns[p].trips = trips;
        proof {
            assert forall|q: int| 0 <= q < count implies kept(before[q], #[trigger] patterns@[q]) by {
                assert(kept(before[q], held[q]));
                if q != p {
                    assert(patterns@[q] == held[q]);
                }
            }
            assert forall|q: int| 0 <= q < p + 1 implies numbered(
                (#[trigger] patterns@[q]).trips@,
                first_trip(lines, q as nat),
                lines[q].trips.len(),
            ) by {
                if q < p {
                    assert(patterns@[q] == held[q]);
                }
            }
        }
        p = p + 1;
    }
    (trip_info, order)
}

/// Lists for each stop the lines that call there, each with the place of the
/// call along the line.
pub(crate) fn build_stop_to_patterns(patterns: &Vec<Pattern>, num_stops: usize) -> (found: Vec<
    Vec<(PatternIdx, usize)>,
>)
    requires
        forall|p: int|
            0 <= p < patterns@.len() ==> within((#[trigger] patterns@[p]).stops@, num_stops as nat),
    ensures
        found@.len() == num_stops,
        forall|stop: int|
            0 <= stop < num_stops ==> (#[trigger] found@[stop])@ == calling(
                routes(patterns@),
                stop as usize,
                patterns@.len(),
            ),
{
    let ghost lines = routes(patterns@);
    let mut found: Vec<Vec<(PatternIdx, usize)>> = Vec::new();
    let mut stop: usize = 0;
    while stop < num_stops
        invariant
            stop <= num_stops,
            found.len() == stop,
            forall|s: int|
                0 <= s < stop ==> (#[trigger] found@[s])@ == Seq::<(PatternIdx, usize)>::empty(),
        decreases num_stops - stop,
    {
        found.push(Vec::new());
        stop = stop + 1;
    }
    let mut p: usize = 0;
    while p < patterns.len()
        invariant
            p <= patterns.len(),
            lines == routes(patterns@),
            found.len() == num_stops,
            forall|q: int|
                0 <= q < patterns@.len() ==> within(
                    (#[trigger] patterns@[q]).stops@,
                    num_stops as nat,
                ),
            forall|s: int|
                0 <= s < num_stops ==> (#[trigger] found@[s])@ == calling(
                    lines,
                    s as usize,
                    p as nat,
                ),
        decreases patterns.len() - p,
    {
        let pattern = &patterns[p];
        assert(lines[p as int] == pattern.stops@);
        let mut at: usize = 0;
        assert forall|s: int| 0 <= s < num_stops implies (#[trigger] found@[s])@ == calling(
            lines,
            s as usize,
            p as nat,
        ) + calls_at(pattern.stops@, s as usize, p, 0) by {
            assert(calling(lines, s as usize, p as nat) + Seq::<(PatternIdx, usize)>::empty()
                =~= calling(lines, s as usize, p as nat));
        }
        while at < pattern.stops.len()
            invariant
                at <= pattern.stops.len(),
                found.len() == num_stops,
                within(pattern.stops@, num_stops as nat),
                forall|s: int|
                    0 <= s < num_stops ==> (#[trigger] found@[s])@ == calling(
                        lines,
                        s as usize,
                        p as nat,
                    ) + calls_at(pattern.stops@, s as usize, p, at as nat),
            decreases pattern.stops.len() - at,
        {
            let stop = pattern.stops[at];
            let ghost listed = found@;
            found[stop].push((p, at));
            assert forall|s: int| 0 <= s < num_stops implies (#[trigger] found@[s])@ == calling(
                lines,
                s as usize,
                p as nat,
            ) + calls_at(pattern.stops@, s as usize, p, (at + 1) as nat) by {
                let before = calls_at(pattern.stops@, s as usize, p, at as nat);
                if s == stop {
                    assert(calling(lines, s as usize, p as nat) + before.push((p, at)) =~= (
                    calling(lines, s as usize, p as nat) + before).push((p, at)));
                } else {
                    assert(found@[s] == listed[s]);
                }
            }
            at = at + 1;
        }
        p = p + 1;
    }
    found
}

/// The list of all times holds the time of the trip at place `j` of line `p`
/// at the stop at place `at`.
pub(crate) open spec fn stored(
    times: Seq<StopTime>,
    lines: Seq<Line>,
    p: int,
    j: int,
    at: int,
) -> bool {
    let place = slot(lines, p, j, at);
    &&& 0 <= place < times.len()
    &&& times[place] == lines[p].trips[j][at]
}

/// The trip at place `j` of line `p` is found in the feed through `order`,
/// with a time for each stop of the line.
pub(crate) open spec fn listed(
    order: Seq<usize>,
    data: Seq<TripData>,
    lines: Seq<Line>,
    p: int,
    j: int,
) -> bool {
    let trip = first_trip(lines, p as nat) + j;
    &&& trip < order.len()
    &&& order[trip] < data.len()
    &&& data[order[trip] as int].times@ == lines[p].trips[j]
    &&& lines[p].trips[j].len() == lines[p].stops.len()
}

/// A line as it was, but for its departures.
pub(crate) open spec fn settled(before: Pattern, after: Pattern) -> bool {
    &&& after.stops@ == before.stops@
    &&& after.stop_positions@ == before.stop_positions@
    &&& after.trips@ == before.trips@
}

/// The line holds, for each of its stops, the departures of its trips from
/// that stop by time.
pub(crate) open spec fn timed(pattern: Pattern, lines: Seq<Line>, p: int) -> bool {
    &&& pattern.departures_by_stop@.len() == lines[p].stops.len()
    &&& forall|at: int|
        0 <= at < lines[p].stops.len() ==> (#[trigger] pattern.departures_by_stop@[at])@
            == departures(lines, p, at)
}

/// The times of the next trip begin where those of the trip before end.
pub(crate) proof fn lemma_next_row(j: int, n: int)
    ensures
        j * n + n == (j + 1) * n,
{
    assert(j * n + n == (j + 1) * n) by (nonlinear_arith);
}

/// Lays the times of all trips out in one list, line by line and trip by
/// trip, and orders the departures from each stop of each line. Returns the
/// list and where each line begins in it.
pub(crate) fn build_stop_times(
    patterns: &mut Vec<Pattern>,
    trip_data: &Vec<TripData>,
    order: &Vec<usize>,
    Ghost(lines): Ghost<Seq<Line>>,
) -> (found: (Vec<StopTime>, Vec<usize>))
    requires
        lines.len() == old(patterns)@.len(),
        forall|p: int|
            0 <= p < lines.len() ==> lines[p].stops == (#[trigger] old(patterns)@[p]).stops@,
        forall|p: int|
            0 <= p < lines.len() ==> numbered(
                (#[trigger] old(patterns)@[p]).trips@,
                first_trip(lines, p as nat),
                lines[p].trips.len(),
            ),
        forall|p: int, j: int|
            0 <= p < lines.len() && 0 <= j < lines[p].trips.len() ==> #[trigger] listed(
                order@,
                trip_data@,
                lines,
                p,
                j,
            ),
    ensures
        final(patterns)@.len() == old(patterns)@.len(),
        forall|p: int|
            0 <= p < lines.len() ==> settled(old(patterns)@[p], #[trigger] final(patterns)@[p]),
        forall|p: int| 0 <= p < lines.len() ==> timed(#[trigger] final(patterns)@[p], lines, p),
        found.1@.len() == lines.len(),
        forall|p: int| 0 <= p < lines.len() ==> #[trigger] found.1@[p] == offset(lines, p as nat),
        found.0@.len() == offset(lines, lines.len()),
        forall|p: int, j: int, at: int|
            0 <= p < lines.len() && 0 <= j < lines[p].trips.len() && 0 <= at
                < lines[p].stops.len() ==> #[trigger] stored(found.0@, lines, p, j, at),
{
    let ghost before = patterns@;
    let count = patterns.len();
    let mut times: Vec<StopTime> = Vec::new();
    let mut offsets: Vec<usize> = Vec::new();
    let mut p: usize = 0;
    while p < count
        invariant
            p <= count,
            patterns.len() == count,
            before.len() == count,
            lines.len() == count,
            forall|q: int| 0 <= q < count ==> lines[q].stops == (#[trigger] before[q]).stops@,
            forall|q: int|
                0 <= q < count ==> numbered(
                    (#[trigger] before[q]).trips@,
                    first_trip(lines, q as nat),
                    lines[q].trips.len(),
                ),
            forall|q: int, j: int|
                0 <= q < lines.len() && 0 <= j < lines[q].trips.len() ==> #[trigger] listed(
                    order@,
                    trip_data@,
                    lines,
                    q,
                    j,
                ),
            forall|q: int| 0 <= q < count ==> settled(before[q], #[trigger] patterns@[q]),
            forall|q: int| 0 <= q < p ==> timed(#[trigger] patterns@[q], lines, q),
            offsets.len() == p,
            forall|q: int| 0 <= q < p ==> #[trigger] offsets@[q] == offset(lines, q as nat),
            times.len() == offset(lines, p as nat),
            forall|q: int, j: int, at: int|
                0 <= q < p && 0 <= j < lines[q].trips.len() && 0 <= at
                    < lines[q].stops.len() ==> #[trigger] stored(times@, lines, q, j, at),
        decreases count - p,
    {
        offsets.push(times.len());
        assert(settled(before[p as int], patterns@[p as int]));
        assert(numbered(
            before[p as int].trips@,
            first_trip(lines, p as nat),
            lines[p as int].trips.len(),
        ));
        let stops = patterns[p].stops.len();
        let trips = patterns[p].trips.len();
        let ghost first = first_trip(lines, p as nat);
        let mut j: usize = 0;
        while j < trips
            invariant
                j <= trips,
                p < count,
                lines.len() == count,
                patterns.len() == count,
                stops == lines[p as int].stops.len(),
                trips == lines[p as int].trips.len(),
                first == first_trip(lines, p as nat),
                numbered(patterns@[p as int].trips@, first, trips as nat),
                forall|r: int|
                    0 <= r < trips ==> #[trigger] listed(order@, trip_data@, lines, p as int, r),
                times.len() == slot(lines, p as int, j as int, 0),
                forall|q: int, r: int, at: int|
                    0 <= q < p && 0 <= r < lines[q].trips.len() && 0 <= at
                        < lines[q].stops.len() ==> #[trigger] stored(times@, lines, q, r, at),
                forall|r: int, at: int|
                    0 <= r < j && 0 <= at < stops ==> #[trigger] stored(
                        times@,
                        lines,
                        p as int,
                        r,
                        at,
                    ),
            decreases trips - j,
        {
            let trip = patterns[p].trips[j];
            assert(listed(order@, trip_data@, lines, p as int, j as int));
            let data = &trip_data[order[trip]];
            let mut at: usize = 0;
            while at < stops
                invariant
                    at <= stops,
                    j < trips,
                    p < count,
                    lines.len() == count,
                    stops == lines[p as int].stops.len(),
                    trips == lines[p as int].trips.len(),
                    data.times@ == lines[p as int].trips[j as int],
                    data.times@.len() == stops,
                    times.len() == slot(lines, p as int, j as int, at as int),
                    forall|q: int, r: int, a: int|
                        0 <= q < p && 0 <= r < lines[q].trips.len() && 0 <= a
                            < lines[q].stops.len() ==> #[trigger] stored(times@, lines, q, r, a),
                    forall|r: int, a: int|
                        0 <= r < j && 0 <= a < stops ==> #[trigger] stored(
                            times@,
                            lines,
                            p as int,
                            r,
                            a,
                        ),
                    forall|a: int|
                        0 <= a < at ==> #[trigger] stored(times@, lines, p as int, j as int, a),
                decreases stops - at,
            {
                let ghost laid = times@;
                times.push(data.times[at]);
                proof {
                    assert forall|q: int, r: int, a: int|
                        0 <= q < p && 0 <= r < lines[q].trips.len() && 0 <= a
                            < lines[q].stops.len() implies #[trigger] stored(
                        times@,
                        lines,
                        q,
                        r,
                        a,
                    ) by {
                        assert(stored(laid, lines, q, r, a));
                    }
                    assert forall|r: int, a: int| 0 <= r < j && 0 <= a < stops implies #[trigger] stored(
                        times@,
                        lines,
                        p as int,
                        r,
                        a,
                    ) by {
                        assert(stored(laid, lines, p as int, r, a));
                    }
                    assert forall|a: int| 0 <= a < at + 1 implies #[trigger] stored(
                        times@,
                        lines,
                        p as int,
                        j as int,
                        a,
                    ) by {
                        if a < at {
                            assert(stored(laid, lines, p as int, j as int, a));
                        }
                    }
                }
                at = at + 1;
            }
            proof {
                lemma_next_row(j as int, stops as int);
            }
            j = j + 1;
        }
        let mut departures_by_stop: Vec<Vec<(u32, TripIdx)>> = Vec::new();
        let mut at: usize = 0;
        while at < stops
            invariant
                at <= stops,
                p < count,
                lines.len() == count,
                patterns.len() == count,
                stops == lines[p as int].stops.len(),
                trips == lines[p as int].trips.len(),
                first == first_trip(lines, p as nat),
                numbered(patterns@[p as int].trips@, first, trips as nat),
                forall|r: int|
                    0 <= r < trips ==> #[trigger] listed(order@, trip_data@, lines, p as int, r),
                departures_by_stop.len() == at,
                forall|a: int|
                    0 <= a < at ==> (#[trigger] departures_by_stop@[a])@ == departures(
                        lines,
                        p as int,
                        a,
                    ),
            decreases stops - at,
        {
            let mut leaving: Vec<(u32, TripIdx)> = Vec::new();
            let mut j: usize = 0;
            while j < trips
                invariant
                    j <= trips,
                    at < stops,
                    p < count,
                    patterns.len() == count,
                    stops == lines[p as int].stops.len(),
                    trips == lines[p as int].trips.len(),
                    first == first_trip(lines, p as nat),
                    numbered(patterns@[p as int].trips@, first, trips as nat),
                    forall|r: int|
                        0 <= r < trips ==> #[trigger] listed(
                            order@,
                            trip_data@,
                            lines,
                            p as int,
                            r,
                        ),
                    leaving.len() == j,
                    forall|r: int|
                        0 <= r < j ==> #[trigger] leaving@[r] == (
                            lines[p as int].trips[r][at as int].departure,
                            (first + r) as usize,
                        ),
                decreases trips - j,
            {
                let trip = patterns[p].trips[j];
                assert(listed(order@, trip_data@, lines, p as int, j as int));
                let data = &trip_data[order[trip]];
                leaving.push((data.times[at].departure, trip));
                j = j + 1;
            }
            assert(leaving@ =~= Seq::new(
                lines[p as int].trips.len(),
                |r: int|
                    (
                        lines[p as int].trips[r][at as int].departure,
                        (first_trip(lines, p as nat) + r) as usize,
                    ),
            ));
            departures_by_stop.push(sort_by_key(&leaving));
            at = at + 1;
        }
        let ghost held = patterns@;
        patterns[p].departures_by_stop = departures_by_stop;
        proof {
            assert forall|q: int| 0 <= q < count implies settled(
                before[q],
                #[trigger] patterns@[q],
            ) by {
                assert(settled(before[q], held[q]));
                if q != p {
                    assert(patterns@[q] == held[q]);
                }
            }
            assert forall|q: int| 0 <= q < p + 1 implies timed(
                #[trigger] patterns@[q],
                lines,
                q,
            ) by {
                if q < p {
                    assert(patterns@[q] == held[q]);
                }
            }
        }
        p = p + 1;
    }
    (times, offsets)
}

} // verus!
