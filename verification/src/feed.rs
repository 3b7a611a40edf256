//! A transit feed as plain values, and what a timetable makes of it.
//!
//! A feed names its stops and lists its trips, each trip as the stops it
//! calls at with their times. A timetable groups the trips that call at the
//! same stops in the same order into lines, and orders the trips of a line by
//! their first departure.
use crate::sorting::sorted_by_key;
use crate::timetable::{
    Network, Route, Stop, Tau, Trip, DEFAULT_TRANSFER_TIME, UNREACHED,
};
use vstd::prelude::*;

verus! {

pub type StopIdx = usize;

pub type PatternIdx = usize;

pub type TripIdx = usize;

/// When a trip arrives at a stop and when it leaves it.
#[derive(Clone, Copy, Debug, PartialEq, Eq)]
pub struct StopTime {
    pub arrival: u32,
    pub departure: u32,
}

/// One call of a trip at a stop, as the feed gives it.
#[derive(Clone, Debug)]
pub struct FeedStopTime {
    /// The feed's name of the stop.
    pub stop_id: String,
    /// The place of the call within the trip; calls are made by increasing
    /// number.
    pub stop_sequence: u32,
    pub arrival_time: Option<u32>,
    pub departure_time: Option<u32>,
}

/// One trip of the feed: its calls, in any order.
#[derive(Clone, Debug)]
pub struct FeedTrip {
    pub stop_times: Vec<FeedStopTime>,
}

/// A call as contracts speak of it.
pub struct Call {
    pub stop: Seq<char>,
    pub sequence: u32,
    pub arrival: Option<u32>,
    pub departure: Option<u32>,
}

impl View for FeedStopTime {
    type V = Call;

    open spec fn view(&self) -> Call {
        Call {
            stop: self.stop_id@,
            sequence: self.stop_sequence,
            arrival: self.arrival_time,
            departure: self.departure_time,
        }
    }
}

impl View for FeedTrip {
    type V = Seq<Call>;

    open spec fn view(&self) -> Seq<Call> {
        self.stop_times@.map_values(|call: FeedStopTime| call@)
    }
}

/// The names of a list of stops as contracts speak of them.
pub open spec fn names(ids: Seq<String>) -> Seq<Seq<char>> {
    ids.map_values(|id: String| id@)
}

/// The trips of a list as contracts speak of them.
pub open spec fn calls(trips: Seq<FeedTrip>) -> Seq<Seq<Call>> {
    trips.map_values(|trip: FeedTrip| trip@)
}

/// The place of `item` among the first `n` of `items`: the last one, where
/// it occurs more than once.
pub open spec fn last_index<A>(items: Seq<A>, item: A, n: nat) -> Option<usize>
    decreases n,
{
    if n == 0 {
        None
    } else if items[n - 1] == item {
        Some((n - 1) as usize)
    } else {
        last_index(items, item, (n - 1) as nat)
    }
}

/// The index of the stop that a feed with the stops `ids` names `id`.
pub open spec fn named(ids: Seq<Seq<char>>, id: Seq<char>) -> Option<StopIdx> {
    last_index(ids, id, ids.len())
}

/// The place of `stop` along a route.
pub open spec fn position(stops: Seq<StopIdx>, stop: StopIdx) -> Option<usize> {
    last_index(stops, stop, stops.len())
}

/// The calls of a trip, each with its place in the list, keyed by sequence
/// number.
pub open spec fn keyed(trip: Seq<Call>) -> Seq<(u32, usize)> {
    Seq::new(trip.len(), |i: int| (trip[i].sequence, i as usize))
}

/// The times of a call; a time that the feed leaves out counts as zero.
pub open spec fn time_of(call: Call) -> StopTime {
    StopTime {
        arrival: match call.arrival {
            Some(at) => at,
            None => 0,
        },
        departure: match call.departure {
            Some(at) => at,
            None => 0,
        },
    }
}

/// The first `n` calls of a trip in the order `order`, without those at
/// stops that the feed does not name: the stop and the times of each.
pub open spec fn visits(
    ids: Seq<Seq<char>>,
    trip: Seq<Call>,
    order: Seq<(u32, usize)>,
    n: nat,
) -> Seq<(StopIdx, StopTime)>
    decreases n,
{
    if n == 0 {
        Seq::empty()
    } else {
        let before = visits(ids, trip, order, (n - 1) as nat);
        let call = trip[order[n - 1].1 as int];
        match named(ids, call.stop) {
            Some(stop) => before.push((stop, time_of(call))),
            None => before,
        }
    }
}

/// What a trip does: the stops it calls at by increasing sequence number,
/// with its times there.
pub open spec fn record_of(ids: Seq<Seq<char>>, trip: Seq<Call>) -> Seq<(StopIdx, StopTime)> {
    visits(ids, trip, sorted_by_key(keyed(trip)), trip.len())
}

/// The records of the first `n` trips, without the trips that call nowhere.
pub open spec fn records_of(ids: Seq<Seq<char>>, trips: Seq<Seq<Call>>, n: nat) -> Seq<
    Seq<(StopIdx, StopTime)>,
>
    decreases n,
{
    if n == 0 {
        Seq::empty()
    } else {
        let before = records_of(ids, trips, (n - 1) as nat);
        let record = record_of(ids, trips[n - 1]);
        if record.len() > 0 {
            before.push(record)
        } else {
            before
        }
    }
}

/// The stops of a record.
pub open spec fn stops_of(record: Seq<(StopIdx, StopTime)>) -> Seq<StopIdx> {
    record.map_values(|visit: (StopIdx, StopTime)| visit.0)
}

/// The times of a record.
pub open spec fn times_of(record: Seq<(StopIdx, StopTime)>) -> Seq<StopTime> {
    record.map_values(|visit: (StopIdx, StopTime)| visit.1)
}

/// The index of the route with the stops `stops`.
pub open spec fn route_of(routes: Seq<Seq<StopIdx>>, stops: Seq<StopIdx>) -> Option<PatternIdx> {
    last_index(routes, stops, routes.len())
}

/// The routes of the first `n` records: their lists of stops, each once, in
/// the order in which they first occur.
pub open spec fn routes_of(records: Seq<Seq<(StopIdx, StopTime)>>, n: nat) -> Seq<Seq<StopIdx>>
    decreases n,
{
    if n == 0 {
        Seq::empty()
    } else {
        let before = routes_of(records, (n - 1) as nat);
        let stops = stops_of(records[n - 1]);
        if route_of(before, stops) is Some {
            before
        } else {
            before.push(stops)
        }
    }
}

/// A trip with the line it runs on.
pub struct Booking {
    pub line: PatternIdx,
    pub first_departure: u32,
    pub times: Seq<StopTime>,
}

/// The bookings of the records: each with the line of its stops.
pub open spec fn bookings_of(
    records: Seq<Seq<(StopIdx, StopTime)>>,
    routes: Seq<Seq<StopIdx>>,
) -> Seq<Booking> {
    Seq::new(
        records.len(),
        |i: int|
            Booking {
                line: match route_of(routes, stops_of(records[i])) {
                    Some(line) => line,
                    None => 0,
                },
                first_departure: records[i][0].1.departure,
                times: times_of(records[i]),
            },
    )
}

/// The first `n` bookings that run on `line`, each with its place in the
/// list, keyed by first departure.
pub open spec fn members(bookings: Seq<Booking>, line: PatternIdx, n: nat) -> Seq<(u32, usize)>
    decreases n,
{
    if n == 0 {
        Seq::empty()
    } else {
        let before = members(bookings, line, (n - 1) as nat);
        if bookings[n - 1].line == line {
            before.push((bookings[n - 1].first_departure, (n - 1) as usize))
        } else {
            before
        }
    }
}

/// The trips of `line` in the order in which they run: by first departure,
/// and as the feed lists them where that is the same.
pub open spec fn running(bookings: Seq<Booking>, line: PatternIdx) -> Seq<(u32, usize)> {
    sorted_by_key(members(bookings, line, bookings.len()))
}

/// A line: the stops it serves in order, and its trips by first departure,
/// each as its times at those stops.
pub struct Line {
    pub stops: Seq<StopIdx>,
    pub trips: Seq<Seq<StopTime>>,
}

/// What a timetable holds of a feed.
pub struct Schedule {
    /// The names of the stops; a stop is known by its place in this list.
    pub stops: Seq<Seq<char>>,
    /// The lines; a line is known by its place in this list. The trips are
    /// numbered line by line, and within a line in the order they run.
    pub lines: Seq<Line>,
}

/// The lines that the routes and the bookings give.
pub open spec fn lines_of(routes: Seq<Seq<StopIdx>>, bookings: Seq<Booking>) -> Seq<Line> {
    Seq::new(
        routes.len(),
        |p: int|
            Line {
                stops: routes[p],
                trips: running(bookings, p as usize).map_values(
                    |member: (u32, usize)| bookings[member.1 as int].times,
                ),
            },
    )
}

/// What a timetable holds of the feed with the stops `ids` and the trips
/// `trips`.
pub open spec fn schedule_of(ids: Seq<Seq<char>>, trips: Seq<Seq<Call>>) -> Schedule {
    let records = records_of(ids, trips, trips.len());
    let routes = routes_of(records, records.len());
    Schedule { stops: ids, lines: lines_of(routes, bookings_of(records, routes)) }
}

/// What is known of `last_index`: the place it gives holds the item, and no
/// later place does.
pub proof fn lemma_last_index<A>(items: Seq<A>, item: A, n: nat)
    requires
        n <= items.len() <= usize::MAX,
    ensures
        match last_index(items, item, n) {
            Some(at) => at < n && items[at as int] == item && forall|i: int|
                at < i < n ==> items[i] != item,
            None => forall|i: int| 0 <= i < n ==> items[i] != item,
        },
    decreases n,
{
    if n > 0 && items[n - 1] != item {
        lemma_last_index(items, item, (n - 1) as nat);
    }
}

/// The number of the first trip of line `p`: the trips are numbered line by
/// line.
pub open spec fn first_trip(lines: Seq<Line>, p: nat) -> nat
    decreases p,
{
    if p == 0 {
        0
    } else {
        first_trip(lines, (p - 1) as nat) + lines[p - 1].trips.len()
    }
}

/// Where the times of line `p` begin in the list of all times: each trip
/// takes one place for each stop of its line.
pub open spec fn offset(lines: Seq<Line>, p: nat) -> nat
    decreases p,
{
    if p == 0 {
        0
    } else {
        offset(lines, (p - 1) as nat) + lines[p - 1].trips.len() * lines[p - 1].stops.len()
    }
}

/// The line and the place within it of the trip `trip`, looked for among the
/// first `n` lines.
pub open spec fn locate(lines: Seq<Line>, trip: TripIdx, n: nat) -> Option<(PatternIdx, usize)>
    decreases n,
{
    if n == 0 {
        None
    } else if trip >= first_trip(lines, (n - 1) as nat) {
        let slot = trip - first_trip(lines, (n - 1) as nat);
        if slot < lines[n - 1].trips.len() {
            Some(((n - 1) as usize, slot as usize))
        } else {
            None
        }
    } else {
        locate(lines, trip, (n - 1) as nat)
    }
}

/// The calls that the route `stops` of line `line` makes at `stop` among its
/// first `n` places, each as the line and the place.
pub open spec fn calls_at(stops: Seq<StopIdx>, stop: StopIdx, line: PatternIdx, n: nat) -> Seq<
    (PatternIdx, usize),
>
    decreases n,
{
    if n == 0 {
        Seq::empty()
    } else {
        let before = calls_at(stops, stop, line, (n - 1) as nat);
        if stops[n - 1] == stop {
            before.push((line, (n - 1) as usize))
        } else {
            before
        }
    }
}

/// The calls that the first `p` routes make at `stop`, route by route.
pub open spec fn calling(routes: Seq<Seq<StopIdx>>, stop: StopIdx, p: nat) -> Seq<
    (PatternIdx, usize),
>
    decreases p,
{
    if p == 0 {
        Seq::empty()
    } else {
        calling(routes, stop, (p - 1) as nat) + calls_at(
            routes[p - 1],
            stop,
            (p - 1) as usize,
            routes[p - 1].len(),
        )
    }
}

/// The routes of the lines.
pub open spec fn routes_in(lines: Seq<Line>) -> Seq<Seq<StopIdx>> {
    lines.map_values(|line: Line| line.stops)
}

/// The place in the list of all times of the time of the trip at place `j`
/// of line `p` at the stop at place `at`.
pub open spec fn slot(lines: Seq<Line>, p: int, j: int, at: int) -> int {
    offset(lines, p as nat) + j * lines[p].stops.len() + at
}

/// The departures of the trips of line `p` from the stop at place `at`, each
/// with the number of its trip, by time of departure.
pub open spec fn departures(lines: Seq<Line>, p: int, at: int) -> Seq<(u32, TripIdx)> {
    sorted_by_key(
        Seq::new(
            lines[p].trips.len(),
            |j: int| (lines[p].trips[j][at].departure, (first_trip(lines, p as nat) + j) as usize),
        ),
    )
}

/// The first of the departures from place `from` on that is not before `at`.
pub open spec fn catch(departures: Seq<(u32, TripIdx)>, at: Tau, from: nat) -> Option<TripIdx>
    decreases departures.len() - from,
{
    if from >= departures.len() {
        None
    } else if departures[from as int].0 >= at {
        Some(departures[from as int].1)
    } else {
        catch(departures, at, from + 1)
    }
}

/// The lines that serve `stop`, once for each call they make there.
pub open spec fn serving(lines: Seq<Line>, stop: Stop) -> Seq<Route> {
    calling(routes_in(lines), stop, lines.len()).map_values(|call: (PatternIdx, usize)| call.0)
}

/// Of two stops of a line, the one that comes first along it; of a stop of
/// the line and another, the stop of the line; else the left one.
pub open spec fn earlier_on(lines: Seq<Line>, route: Route, left: Stop, right: Stop) -> Stop {
    if route < lines.len() {
        let stops = lines[route as int].stops;
        match (position(stops, left), position(stops, right)) {
            (Some(l), Some(r)) => if l <= r {
                stops[l as int]
            } else {
                stops[r as int]
            },
            (Some(_), None) => left,
            (None, Some(_)) => right,
            (None, None) => left,
        }
    } else {
        left
    }
}

/// The stops of a line from `stop` on.
pub open spec fn rest_of(lines: Seq<Line>, route: Route, stop: Stop) -> Seq<Stop> {
    if route < lines.len() {
        let stops = lines[route as int].stops;
        match position(stops, stop) {
            Some(at) => stops.subrange(at as int, stops.len() as int),
            None => Seq::empty(),
        }
    } else {
        Seq::empty()
    }
}

/// The trip of a line that leaves `stop` first, at `at` or later.
pub open spec fn next_trip(lines: Seq<Line>, route: Route, at: Tau, stop: Stop) -> Option<Trip> {
    if route < lines.len() {
        match position(lines[route as int].stops, stop) {
            Some(place) => catch(departures(lines, route as int, place as int), at, 0),
            None => None,
        }
    } else {
        None
    }
}

/// The times of `trip` at `stop`, where the trip exists and calls there.
pub open spec fn time_at(lines: Seq<Line>, trip: Trip, stop: Stop) -> Option<StopTime> {
    match locate(lines, trip, lines.len()) {
        Some((p, slot)) => match position(lines[p as int].stops, stop) {
            Some(place) => Some(lines[p as int].trips[slot as int][place as int]),
            None => None,
        },
        None => None,
    }
}

/// What a timetable over `schedule` answers. It knows no footpaths.
pub open spec fn network_of(schedule: Schedule) -> Network {
    Network {
        routes_serving_stop: |stop: Stop| serving(schedule.lines, stop),
        earlier_stop: |route: Route, left: Stop, right: Stop|
            earlier_on(schedule.lines, route, left, right),
        stops_after: |route: Route, stop: Stop| rest_of(schedule.lines, route, stop),
        earliest_trip: |route: Route, at: Tau, stop: Stop|
            next_trip(schedule.lines, route, at, stop),
        arrival_time: |trip: Trip, stop: Stop|
            match time_at(schedule.lines, trip, stop) {
                Some(time) => time.arrival as usize,
                None => UNREACHED,
            },
        departure_time: |trip: Trip, stop: Stop|
            match time_at(schedule.lines, trip, stop) {
                Some(time) => time.departure as usize,
                None => UNREACHED,
            },
        footpaths_from: |stop: Stop| Seq::empty(),
        transfer_time: |from: Stop, to: Stop| DEFAULT_TRANSFER_TIME,
    }
}

/// A trip of a line is found by its number.
pub proof fn lemma_locate(lines: Seq<Line>, p: int, j: int, n: nat)
    requires
        0 <= p < n <= lines.len(),
        0 <= j < lines[p].trips.len(),
        first_trip(lines, lines.len()) <= usize::MAX,
    ensures
        locate(lines, (first_trip(lines, p as nat) + j) as usize, n) == Some(
            (p as usize, j as usize),
        ),
    decreases n,
{
    lemma_first_trip(lines, p as nat + 1, lines.len());
    if n - 1 > p {
        lemma_first_trip(lines, p as nat + 1, (n - 1) as nat);
        lemma_locate(lines, p, j, (n - 1) as nat);
    }
}

/// The trips are numbered upwards from line to line.
pub proof fn lemma_first_trip(lines: Seq<Line>, p: nat, q: nat)
    requires
        p <= q,
    ensures
        first_trip(lines, p) <= first_trip(lines, q),
    decreases q,
{
    if p < q {
        lemma_first_trip(lines, p, (q - 1) as nat);
    }
}

/// A number beyond those of the first `n` lines is that of none of their
/// trips.
pub proof fn lemma_locate_none(lines: Seq<Line>, trip: TripIdx, n: nat)
    requires
        trip >= first_trip(lines, n),
    ensures
        locate(lines, trip, n) is None,
    decreases n,
{
    if n > 0 {
        lemma_first_trip(lines, (n - 1) as nat, n);
    }
}

/// Departures that are too early are passed over.
pub proof fn lemma_catch(leaving: Seq<(u32, TripIdx)>, at: Tau, from: nat, to: nat)
    requires
        from <= to <= leaving.len(),
        forall|i: int| from <= i < to ==> (#[trigger] leaving[i]).0 < at,
    ensures
        catch(leaving, at, from) == catch(leaving, at, to),
    decreases to - from,
{
    if from < to {
        lemma_catch(leaving, at, from + 1, to);
    }
}

} // verus!
