//! Feeds whose timetables are regular.
//!
//! A schedule is orderly where no line calls at a stop twice, every trip
//! runs forward in time, and no trip of a line overtakes another. The
//! timetable of an orderly schedule is regular, so that no journey beats the
//! labels that a search over it finds.
use crate::feed::{
    calling, calls_at, catch, departures, first_trip, lemma_first_trip, lemma_last_index,
    lemma_locate, network_of, position, rest_of, routes_in, serving, Line, PatternIdx, Schedule,
    StopIdx, StopTime, TripIdx,
};
use crate::optimal::{
    can_catch, earlier_is_first, first_catch, in_order, keeps_order, reaches, reaches_on,
    regular, runs_forward, runs_on, serves, stops_served,
};
use crate::progress::{passes, rides_on};
use crate::sorting::{is_ordered, lemma_sorted_by_key, sorted_by_key};
use crate::timetable::{Route, Stop, Tau, Trip};
use vstd::prelude::*;

verus! {

/// No stop occurs twice among the stops of a line.
pub open spec fn no_stop_twice(stops: Seq<StopIdx>) -> bool {
    forall|i: int, j: int| 0 <= i < j < stops.len() ==> stops[i] != stops[j]
}

/// The trip leaves the stop at place `at` no later than it reaches the stop
/// at place `later`.
pub open spec fn forward(times: Seq<StopTime>, at: int, later: int) -> bool {
    times[at].departure <= times[later].arrival
}

/// Where the first trip leaves the stop at place `at` no later than the
/// second, it reaches and leaves the stop at place `later` no later.
pub open spec fn in_step(first: Seq<StopTime>, second: Seq<StopTime>, at: int, later: int) -> bool {
    first[at].departure <= second[at].departure ==> first[later].arrival <= second[later].arrival
        && first[later].departure <= second[later].departure
}

/// An orderly line: it calls at no stop twice, each of its trips has a time
/// for each of its stops and runs forward in time, and no trip overtakes
/// another.
pub open spec fn orderly_line(line: Line) -> bool {
    &&& no_stop_twice(line.stops)
    &&& line.stops.len() <= usize::MAX
    &&& forall|j: int|
        0 <= j < line.trips.len() ==> (#[trigger] line.trips[j]).len() == line.stops.len()
    &&& forall|j: int, at: int, later: int|
        0 <= j < line.trips.len() && 0 <= at < later < line.stops.len() ==> #[trigger] forward(
            line.trips[j],
            at,
            later,
        )
    &&& forall|j: int, k: int, at: int, later: int|
        0 <= j < line.trips.len() && 0 <= k < line.trips.len() && 0 <= at < later
            < line.stops.len() ==> #[trigger] in_step(line.trips[j], line.trips[k], at, later)
}

/// An orderly schedule: each of its lines is orderly.
pub open spec fn orderly(schedule: Schedule) -> bool {
    &&& schedule.lines.len() <= usize::MAX
    &&& first_trip(schedule.lines, schedule.lines.len()) <= usize::MAX
    &&& forall|p: int| 0 <= p < schedule.lines.len() ==> orderly_line(#[trigger] schedule.lines[p])
}

/// The stop `stop` is the one at place `at` of line `route`.
pub open spec fn placed(lines: Seq<Line>, route: Route, stop: Stop, at: int) -> bool {
    &&& route < lines.len()
    &&& 0 <= at < lines[route as int].stops.len()
    &&& lines[route as int].stops[at] == stop
}

/// The trip `trip` is the one at place `j` of line `route`.
pub open spec fn slotted(lines: Seq<Line>, route: Route, trip: Trip, j: int) -> bool {
    &&& route < lines.len()
    &&& 0 <= j < lines[route as int].trips.len()
    &&& trip == first_trip(lines, route as nat) + j
}

/// On a line that calls at no stop twice a stop is found at its place.
proof fn lemma_placed(lines: Seq<Line>, route: Route, stop: Stop, at: int)
    requires
        placed(lines, route, stop, at),
        orderly_line(lines[route as int]),
    ensures
        position(lines[route as int].stops, stop) == Some(at as usize),
{
    let stops = lines[route as int].stops;
    lemma_last_index(stops, stop, stops.len());
}

/// A stop that is found on a line has a place there.
proof fn lemma_position(lines: Seq<Line>, route: Route, stop: Stop)
    requires
        route < lines.len(),
        orderly_line(lines[route as int]),
        position(lines[route as int].stops, stop) is Some,
    ensures
        placed(lines, route, stop, position(lines[route as int].stops, stop)->0 as int),
{
    let stops = lines[route as int].stops;
    lemma_last_index(stops, stop, stops.len());
}

/// What a ride from `start` passes at its place `i` has the place `i` after
/// that of `start` along the line.
proof fn lemma_rest(schedule: Schedule, route: Route, start: Stop, i: int) -> (from: int)
    requires
        orderly(schedule),
        0 <= i < (network_of(schedule).stops_after)(route, start).len(),
    ensures
        placed(schedule.lines, route, start, from),
        placed(
            schedule.lines,
            route,
            (network_of(schedule).stops_after)(route, start)[i],
            from + i,
        ),
        (network_of(schedule).stops_after)(route, start).len()
            == schedule.lines[route as int].stops.len() - from,
{
    let lines = schedule.lines;
    assert((network_of(schedule).stops_after)(route, start) == rest_of(lines, route, start));
    lemma_position(lines, route, start);
    position(lines[route as int].stops, start)->0 as int
}

/// A ride from a stop of a line passes every stop at a later place.
proof fn lemma_rest_has(schedule: Schedule, route: Route, start: Stop, from: int, at: int)
    requires
        orderly(schedule),
        placed(schedule.lines, route, start, from),
        from <= at < schedule.lines[route as int].stops.len(),
    ensures
        at - from < (network_of(schedule).stops_after)(route, start).len(),
        (network_of(schedule).stops_after)(route, start)[at - from]
            == schedule.lines[route as int].stops[at],
{
    let lines = schedule.lines;
    assert((network_of(schedule).stops_after)(route, start) == rest_of(lines, route, start));
    lemma_placed(lines, route, start, from);
}

/// Where a stop lies after another on a route, it has a later place on the
/// line.
proof fn lemma_rides_on(schedule: Schedule, route: Route, board: Stop, stop: Stop) -> (at: (
    int,
    int,
))
    requires
        orderly(schedule),
        rides_on(network_of(schedule), route, board, stop),
    ensures
        at.0 < at.1,
        placed(schedule.lines, route, board, at.0),
        placed(schedule.lines, route, stop, at.1),
{
    let net = network_of(schedule);
    let (start, i, j) = choose|start: Stop, i: int, j: int| #[trigger]
        passes(net, route, start, i, j, board, stop);
    let from = lemma_rest(schedule, route, start, i);
    let again = lemma_rest(schedule, route, start, j);
    lemma_placed(schedule.lines, route, start, from);
    lemma_placed(schedule.lines, route, start, again);
    (from + i, from + j)
}

/// The trip that is caught is the first in the list that does not leave too
/// early.
proof fn lemma_catch_found(leaving: Seq<(u32, TripIdx)>, at: Tau, from: nat) -> (found: int)
    requires
        catch(leaving, at, from) is Some,
    ensures
        from <= found < leaving.len(),
        leaving[found].0 >= at,
        leaving[found].1 == catch(leaving, at, from)->0,
        forall|q: int| from <= q < found ==> (#[trigger] leaving[q]).0 < at,
    decreases leaving.len() - from,
{
    if leaving[from as int].0 >= at {
        from as int
    } else {
        lemma_catch_found(leaving, at, from + 1)
    }
}

/// Where some trip of the list does not leave too early, one is caught.
proof fn lemma_catch_some(leaving: Seq<(u32, TripIdx)>, at: Tau, from: nat, late: int)
    requires
        from <= late < leaving.len(),
        leaving[late].0 >= at,
    ensures
        catch(leaving, at, from) is Some,
    decreases leaving.len() - from,
{
    if leaving[from as int].0 < at {
        lemma_catch_some(leaving, at, from + 1, late);
    }
}

/// The departures of the trips of a line from the stop at place `at`, in
/// the order of the trips.
pub open spec fn leaving(lines: Seq<Line>, route: Route, at: int) -> Seq<(u32, TripIdx)> {
    Seq::new(
        lines[route as int].trips.len(),
        |j: int|
            (
                lines[route as int].trips[j][at].departure,
                (first_trip(lines, route as nat) + j) as usize,
            ),
    )
}

/// The trips of a line have numbers of their own.
proof fn lemma_slotted(schedule: Schedule, route: Route, j: int)
    requires
        orderly(schedule),
        route < schedule.lines.len(),
        0 <= j < schedule.lines[route as int].trips.len(),
    ensures
        first_trip(schedule.lines, route as nat) + j <= usize::MAX,
        slotted(
            schedule.lines,
            route,
            (first_trip(schedule.lines, route as nat) + j) as usize,
            j,
        ),
{
    lemma_first_trip(schedule.lines, route as nat + 1, schedule.lines.len());
}

/// A trip of a route is one of the trips of the line.
proof fn lemma_runs_on(schedule: Schedule, route: Route, trip: Trip) -> (j: int)
    requires
        orderly(schedule),
        runs_on(network_of(schedule), route, trip),
    ensures
        slotted(schedule.lines, route, trip, j),
{
    let net = network_of(schedule);
    let lines = schedule.lines;
    let (at, stop) = choose|at: Tau, stop: Stop| #[trigger]
        (net.earliest_trip)(route, at, stop) == Some(trip);
    let place = position(lines[route as int].stops, stop)->0 as int;
    assert(departures(lines, route as int, place) == sorted_by_key(leaving(lines, route, place)));
    let sorted = departures(lines, route as int, place);
    let found = lemma_catch_found(sorted, at, 0);
    lemma_sorted_by_key(leaving(lines, route, place));
    assert(leaving(lines, route, place).contains(sorted[found]));
    let j = choose|j: int|
        0 <= j < leaving(lines, route, place).len() && leaving(lines, route, place)[j]
            == sorted[found];
    lemma_slotted(schedule, route, j);
    j
}

/// The times of a trip of a line at a stop of the line are those that the
/// line holds at their places.
proof fn lemma_times(schedule: Schedule, route: Route, trip: Trip, j: int, stop: Stop, at: int)
    requires
        orderly(schedule),
        slotted(schedule.lines, route, trip, j),
        placed(schedule.lines, route, stop, at),
    ensures
        (network_of(schedule).departure_time)(trip, stop)
            == schedule.lines[route as int].trips[j][at].departure,
        (network_of(schedule).arrival_time)(trip, stop)
            == schedule.lines[route as int].trips[j][at].arrival,
{
    let lines = schedule.lines;
    lemma_locate(lines, route as int, j, lines.len());
    lemma_placed(lines, route, stop, at);
}

/// The times of a trip at a stop where its line does not call are never.
proof fn lemma_no_times(schedule: Schedule, route: Route, trip: Trip, j: int, stop: Stop)
    requires
        orderly(schedule),
        slotted(schedule.lines, route, trip, j),
        position(schedule.lines[route as int].stops, stop) is None,
    ensures
        (network_of(schedule).departure_time)(trip, stop) == usize::MAX,
{
    lemma_locate(schedule.lines, route as int, j, schedule.lines.len());
}

/// Each trip of a line is among the departures from each of its stops.
proof fn lemma_leaves(schedule: Schedule, route: Route, trip: Trip, j: int, at: int) -> (found:
    int)
    requires
        orderly(schedule),
        slotted(schedule.lines, route, trip, j),
        0 <= at < schedule.lines[route as int].stops.len(),
    ensures
        0 <= found < departures(schedule.lines, route as int, at).len(),
        departures(schedule.lines, route as int, at)[found] == (
            schedule.lines[route as int].trips[j][at].departure,
            trip,
        ),
        is_ordered(departures(schedule.lines, route as int, at)),
{
    let lines = schedule.lines;
    let list = leaving(lines, route, at);
    lemma_sorted_by_key(list);
    assert(departures(lines, route as int, at) == sorted_by_key(list));
    assert(list[j] == (lines[route as int].trips[j][at].departure, trip));
    assert(sorted_by_key(list).contains(list[j]));
    choose|found: int|
        0 <= found < sorted_by_key(list).len() && sorted_by_key(list)[found] == list[j]
}

/// Over an orderly schedule the earliest trip is the first that can be
/// caught.
proof fn lemma_first_catch(
    schedule: Schedule,
    route: Route,
    at: Tau,
    stop: Stop,
    trip: Trip,
    other: Trip,
)
    requires
        orderly(schedule),
    ensures
        first_catch(network_of(schedule), route, at, stop, trip, other),
{
    let net = network_of(schedule);
    let lines = schedule.lines;
    if (net.earliest_trip)(route, at, stop) == Some(trip) && runs_on(net, route, other) && (
    net.departure_time)(other, stop) >= at {
        lemma_position(lines, route, stop);
        let place = position(lines[route as int].stops, stop)->0 as int;
        let sorted = departures(lines, route as int, place);
        let found = lemma_catch_found(sorted, at, 0);
        let caught = lemma_runs_on(schedule, route, trip);
        let j = lemma_runs_on(schedule, route, other);
        let late = lemma_leaves(schedule, route, other, j, place);
        let early = lemma_leaves(schedule, route, trip, caught, place);
        lemma_times(schedule, route, other, j, stop, place);
        lemma_times(schedule, route, trip, caught, stop, place);
        assert(sorted[late].0 >= at);
        if late < found {
            assert(sorted[late].0 < at);
        }
        if early < found {
            assert(sorted[early].0 < at);
        }
        assert(sorted[found].0 <= sorted[late].0);
        assert(sorted[early].0 <= sorted[found].0 || sorted[found].0 <= sorted[early].0);
        lemma_same_trip(schedule, route, place, found, early);
    }
}

/// Two departures of the same trip from a stop are at the same time.
proof fn lemma_same_trip(schedule: Schedule, route: Route, at: int, a: int, b: int)
    requires
        orderly(schedule),
        route < schedule.lines.len(),
        0 <= at < schedule.lines[route as int].stops.len(),
        0 <= a < departures(schedule.lines, route as int, at).len(),
        0 <= b < departures(schedule.lines, route as int, at).len(),
        departures(schedule.lines, route as int, at)[a].1 == departures(
            schedule.lines,
            route as int,
            at,
        )[b].1,
    ensures
        departures(schedule.lines, route as int, at)[a].0 == departures(
            schedule.lines,
            route as int,
            at,
        )[b].0,
{
    let lines = schedule.lines;
    let list = leaving(lines, route, at);
    let sorted = departures(lines, route as int, at);
    lemma_sorted_by_key(list);
    assert(sorted == sorted_by_key(list));
    assert(list.contains(sorted[a]));
    assert(list.contains(sorted[b]));
    let i = choose|i: int| 0 <= i < list.len() && list[i] == sorted[a];
    let j = choose|j: int| 0 <= j < list.len() && list[j] == sorted[b];
    lemma_slotted(schedule, route, i);
    lemma_slotted(schedule, route, j);
}

/// Over an orderly schedule a trip is caught wherever one can be.
proof fn lemma_can_catch(schedule: Schedule, route: Route, at: Tau, stop: Stop, other: Trip)
    requires
        orderly(schedule),
    ensures
        can_catch(network_of(schedule), route, at, stop, other),
{
    let net = network_of(schedule);
    let lines = schedule.lines;
    if runs_on(net, route, other) && at <= (net.departure_time)(other, stop) < usize::MAX {
        let j = lemma_runs_on(schedule, route, other);
        if position(lines[route as int].stops, stop) is None {
            lemma_no_times(schedule, route, other, j, stop);
        } else {
            lemma_position(lines, route, stop);
            let place = position(lines[route as int].stops, stop)->0 as int;
            let late = lemma_leaves(schedule, route, other, j, place);
            lemma_times(schedule, route, other, j, stop, place);
            lemma_catch_some(departures(lines, route as int, place), at, 0, late);
        }
    }
}

/// Over an orderly schedule the trips of a route keep their order.
proof fn lemma_keeps_order(
    schedule: Schedule,
    route: Route,
    first: Trip,
    second: Trip,
    stop: Stop,
    later: Stop,
)
    requires
        orderly(schedule),
    ensures
        keeps_order(network_of(schedule), route, first, second, stop, later),
{
    let net = network_of(schedule);
    let lines = schedule.lines;
    if runs_on(net, route, first) && runs_on(net, route, second) && rides_on(
        net,
        route,
        stop,
        later,
    ) {
        let j = lemma_runs_on(schedule, route, first);
        let k = lemma_runs_on(schedule, route, second);
        let at = lemma_rides_on(schedule, route, stop, later);
        lemma_times(schedule, route, first, j, stop, at.0);
        lemma_times(schedule, route, second, k, stop, at.0);
        lemma_times(schedule, route, first, j, later, at.1);
        lemma_times(schedule, route, second, k, later, at.1);
        assert(in_step(lines[route as int].trips[j], lines[route as int].trips[k], at.0, at.1));
    }
}

/// Over an orderly schedule every trip runs forward in time.
proof fn lemma_runs_forward(schedule: Schedule, route: Route, trip: Trip, stop: Stop, later: Stop)
    requires
        orderly(schedule),
    ensures
        runs_forward(network_of(schedule), route, trip, stop, later),
{
    let net = network_of(schedule);
    let lines = schedule.lines;
    if runs_on(net, route, trip) && rides_on(net, route, stop, later) {
        let j = lemma_runs_on(schedule, route, trip);
        let at = lemma_rides_on(schedule, route, stop, later);
        lemma_times(schedule, route, trip, j, stop, at.0);
        lemma_times(schedule, route, trip, j, later, at.1);
        assert(forward(lines[route as int].trips[j], at.0, at.1));
    }
}

/// A call of a line at a stop is among its calls there.
proof fn lemma_calls_at_has(stops: Seq<StopIdx>, stop: StopIdx, line: PatternIdx, n: nat, at: int)
    requires
        0 <= at < n <= stops.len() <= usize::MAX,
        stops[at] == stop,
    ensures
        calls_at(stops, stop, line, n).contains((line, at as usize)),
    decreases n,
{
    let calls = calls_at(stops, stop, line, n);
    if at == n - 1 {
        assert(calls[calls.len() - 1] == (line, at as usize));
    } else {
        lemma_calls_at_has(stops, stop, line, (n - 1) as nat, at);
        let before = calls_at(stops, stop, line, (n - 1) as nat);
        let i = choose|i: int| 0 <= i < before.len() && before[i] == (line, at as usize);
        assert(calls[i] == (line, at as usize));
    }
}

/// The calls of a line at a stop are calls of that line at that stop.
proof fn lemma_calls_at_only(stops: Seq<StopIdx>, stop: StopIdx, line: PatternIdx, n: nat, i: int)
    requires
        n <= stops.len() <= usize::MAX,
        0 <= i < calls_at(stops, stop, line, n).len(),
    ensures
        calls_at(stops, stop, line, n)[i].0 == line,
        calls_at(stops, stop, line, n)[i].1 < n,
        stops[calls_at(stops, stop, line, n)[i].1 as int] == stop,
    decreases n,
{
    if n > 0 {
        let before = calls_at(stops, stop, line, (n - 1) as nat);
        if i < before.len() {
            lemma_calls_at_only(stops, stop, line, (n - 1) as nat, i);
        }
    }
}

/// A call of one of the first `p` lines at a stop is among their calls
/// there.
proof fn lemma_calling_has(
    routes: Seq<Seq<StopIdx>>,
    stop: StopIdx,
    p: nat,
    line: int,
    at: int,
)
    requires
        0 <= line < p <= routes.len() <= usize::MAX,
        0 <= at < routes[line].len() <= usize::MAX,
        routes[line][at] == stop,
    ensures
        calling(routes, stop, p).contains((line as usize, at as usize)),
    decreases p,
{
    let before = calling(routes, stop, (p - 1) as nat);
    let last = calls_at(routes[p - 1], stop, (p - 1) as usize, routes[p - 1].len());
    if line == p - 1 {
        lemma_calls_at_has(routes[line], stop, line as usize, routes[line].len(), at);
        let i = choose|i: int| 0 <= i < last.len() && last[i] == (line as usize, at as usize);
        assert((before + last)[before.len() + i] == (line as usize, at as usize));
    } else {
        lemma_calling_has(routes, stop, (p - 1) as nat, line, at);
        let i = choose|i: int| 0 <= i < before.len() && before[i] == (line as usize, at as usize);
        assert((before + last)[i] == (line as usize, at as usize));
    }
}

/// The calls of the first `p` lines at a stop are calls of those lines at
/// that stop.
proof fn lemma_calling_only(routes: Seq<Seq<StopIdx>>, stop: StopIdx, p: nat, i: int)
    requires
        p <= routes.len() <= usize::MAX,
        forall|q: int| 0 <= q < routes.len() ==> (#[trigger] routes[q]).len() <= usize::MAX,
        0 <= i < calling(routes, stop, p).len(),
    ensures
        calling(routes, stop, p)[i].0 < p,
        calling(routes, stop, p)[i].1 < routes[calling(routes, stop, p)[i].0 as int].len(),
        routes[calling(routes, stop, p)[i].0 as int][calling(routes, stop, p)[i].1 as int]
            == stop,
    decreases p,
{
    if p > 0 {
        let before = calling(routes, stop, (p - 1) as nat);
        if i < before.len() {
            lemma_calling_only(routes, stop, (p - 1) as nat, i);
        } else {
            assert(routes[p - 1].len() <= usize::MAX);
            lemma_calls_at_only(
                routes[p - 1],
                stop,
                (p - 1) as usize,
                routes[p - 1].len(),
                i - before.len(),
            );
        }
    }
}

/// A line serves the stops it calls at.
proof fn lemma_serves_placed(schedule: Schedule, route: Route, stop: Stop, at: int)
    requires
        orderly(schedule),
        placed(schedule.lines, route, stop, at),
    ensures
        serves(network_of(schedule), route, stop),
{
    let lines = schedule.lines;
    let routes = routes_in(lines);
    assert(routes[route as int] == lines[route as int].stops);
    lemma_calling_has(routes, stop, lines.len(), route as int, at);
    let calls = calling(routes, stop, lines.len());
    let i = choose|i: int| 0 <= i < calls.len() && calls[i] == (route, at as usize);
    assert(serving(lines, stop)[i] == route);
}

/// A stop that a line serves has a place on the line.
proof fn lemma_serves(schedule: Schedule, route: Route, stop: Stop) -> (at: int)
    requires
        orderly(schedule),
        serves(network_of(schedule), route, stop),
    ensures
        placed(schedule.lines, route, stop, at),
{
    let lines = schedule.lines;
    let routes = routes_in(lines);
    let served = serving(lines, stop);
    let calls = calling(routes, stop, lines.len());
    assert(served.contains(route));
    let i = choose|i: int| 0 <= i < served.len() && served[i] == route;
    assert(calls[i].0 == route);
    assert forall|q: int| 0 <= q < routes.len() implies (#[trigger] routes[q]).len()
        <= usize::MAX by {
        assert(orderly_line(lines[q]));
    }
    lemma_calling_only(routes, stop, lines.len(), i);
    assert(routes[route as int] == lines[route as int].stops);
    calls[i].1 as int
}

/// Over an orderly schedule the stops of a route come in one order.
proof fn lemma_in_order(schedule: Schedule, route: Route, start: Stop, board: Stop, stop: Stop)
    requires
        orderly(schedule),
    ensures
        in_order(network_of(schedule), route, start, board, stop),
{
    let net = network_of(schedule);
    if reaches(net, route, start, board) && rides_on(net, route, board, stop) {
        let rest = (net.stops_after)(route, start);
        let i = choose|i: int| 0 <= i < rest.len() && rest[i] == board;
        let from = lemma_rest(schedule, route, start, i);
        let at = lemma_rides_on(schedule, route, board, stop);
        lemma_placed(schedule.lines, route, board, from + i);
        lemma_placed(schedule.lines, route, board, at.0);
        lemma_rest_has(schedule, route, start, from, at.1);
        assert(passes(net, route, start, i, at.1 - from, board, stop));
    }
}

/// Over an orderly schedule a route serves the stops that its rides pass.
proof fn lemma_stops_served(schedule: Schedule, route: Route, board: Stop, stop: Stop)
    requires
        orderly(schedule),
    ensures
        stops_served(network_of(schedule), route, board, stop),
{
    if rides_on(network_of(schedule), route, board, stop) {
        let at = lemma_rides_on(schedule, route, board, stop);
        lemma_serves_placed(schedule, route, board, at.0);
    }
}

/// Over an orderly schedule the earlier of two stops of a route is the one
/// with the earlier place.
proof fn lemma_earlier_is_first(schedule: Schedule, route: Route, left: Stop, right: Stop)
    requires
        orderly(schedule),
    ensures
        earlier_is_first(network_of(schedule), route, left, right),
{
    let net = network_of(schedule);
    let lines = schedule.lines;
    if serves(net, route, left) && serves(net, route, right) {
        let l = lemma_serves(schedule, route, left);
        let r = lemma_serves(schedule, route, right);
        lemma_placed(lines, route, left, l);
        lemma_placed(lines, route, right, r);
        let first = (net.earlier_stop)(route, left, right);
        if l <= r {
            assert(first == left);
            lemma_rest_has(schedule, route, left, l, l);
            lemma_rest_has(schedule, route, left, l, r);
            let rest = (net.stops_after)(route, left);
            assert(rest[0] == left);
            assert(rest[r - l] == right);
        } else {
            assert(first == right);
            lemma_rest_has(schedule, route, right, r, r);
            lemma_rest_has(schedule, route, right, r, l);
            let rest = (net.stops_after)(route, right);
            assert(rest[0] == right);
            assert(rest[l - r] == left);
        }
    }
}

/// Over an orderly schedule a ride comes to whatever a ride from one of its
/// stops comes to.
proof fn lemma_reaches_on(schedule: Schedule, route: Route, start: Stop, stop: Stop, later: Stop)
    requires
        orderly(schedule),
    ensures
        reaches_on(network_of(schedule), route, start, stop, later),
{
    let net = network_of(schedule);
    if reaches(net, route, start, stop) && reaches(net, route, stop, later) {
        let rest = (net.stops_after)(route, start);
        let further = (net.stops_after)(route, stop);
        let i = choose|i: int| 0 <= i < rest.len() && rest[i] == stop;
        let j = choose|j: int| 0 <= j < further.len() && further[j] == later;
        let from = lemma_rest(schedule, route, start, i);
        let mid = lemma_rest(schedule, route, stop, j);
        lemma_placed(schedule.lines, route, stop, from + i);
        lemma_placed(schedule.lines, route, stop, mid);
        lemma_rest_has(schedule, route, start, from, mid + j);
        assert(rest[mid + j - from] == later);
    }
}

/// The timetable of an orderly schedule is regular.
pub proof fn lemma_orderly_is_regular(schedule: Schedule)
    requires
        orderly(schedule),
    ensures
        regular(network_of(schedule)),
{
    let net = network_of(schedule);
    assert forall|route: Route, at: Tau, stop: Stop, trip: Trip, other: Trip| #[trigger]
        first_catch(net, route, at, stop, trip, other) by {
        lemma_first_catch(schedule, route, at, stop, trip, other);
    }
    assert forall|route: Route, at: Tau, stop: Stop, other: Trip| #[trigger]
        can_catch(net, route, at, stop, other) by {
        lemma_can_catch(schedule, route, at, stop, other);
    }
    assert forall|route: Route, first: Trip, second: Trip, stop: Stop, later: Stop| #[trigger]
        keeps_order(net, route, first, second, stop, later) by {
        lemma_keeps_order(schedule, route, first, second, stop, later);
    }
    assert forall|route: Route, trip: Trip, stop: Stop, later: Stop| #[trigger]
        runs_forward(net, route, trip, stop, later) by {
        lemma_runs_forward(schedule, route, trip, stop, later);
    }
    assert forall|route: Route, start: Stop, board: Stop, stop: Stop| #[trigger]
        in_order(net, route, start, board, stop) by {
        lemma_in_order(schedule, route, start, board, stop);
    }
    assert forall|route: Route, board: Stop, stop: Stop| #[trigger]
        stops_served(net, route, board, stop) by {
        lemma_stops_served(schedule, route, board, stop);
    }
    assert forall|route: Route, left: Stop, right: Stop| #[trigger]
        earlier_is_first(net, route, left, right) by {
        lemma_earlier_is_first(schedule, route, left, right);
    }
    assert forall|route: Route, start: Stop, stop: Stop, later: Stop| #[trigger]
        reaches_on(net, route, start, stop, later) by {
        lemma_reaches_on(schedule, route, start, stop, later);
    }
}

} // verus!
