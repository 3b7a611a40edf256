//! No journey beats the labels.
//!
//! Where a timetable is regular, the label that round `k` leaves at the
//! target is no later than the arrival of any journey of at most `k` trips
//! that the timetable allows.
use crate::laws::law_labels_never_later;
use crate::progress::{
    advances, lemma_ride_route, lemma_ride_routes, lemma_round, lemma_state_after, lemma_visit,
    lemma_walk_all, lemma_walk_from, passes, rides_on, tidy,
};
use crate::ordered::{ascending, entries, lemma_ascending};
use crate::rounds::{
    cleared, collect_routes, departure, label, note_route, note_routes, ride_route, ride_routes,
    round, state_after, visit, walk_all, Ride, State,
};
use crate::timetable::{Network, Route, Stop, Tau, Trip, K};
use vstd::prelude::*;

verus! {

/// The route is among those that the timetable lists for the stop.
pub open spec fn serves(net: Network, route: Route, stop: Stop) -> bool {
    (net.routes_serving_stop)(stop).contains(route)
}

/// A ride along the route that begins at `start` comes to `stop`.
pub open spec fn reaches(net: Network, route: Route, start: Stop, stop: Stop) -> bool {
    (net.stops_after)(route, start).contains(stop)
}

/// The trip is one of the route: at some stop it is the earliest trip of
/// the route from some time.
pub open spec fn runs_on(net: Network, route: Route, trip: Trip) -> bool {
    exists|at: Tau, stop: Stop| #[trigger] (net.earliest_trip)(route, at, stop) == Some(trip)
}

/// The earliest trip leaves no later than any other trip of the route that
/// can still be caught.
pub open spec fn first_catch(
    net: Network,
    route: Route,
    at: Tau,
    stop: Stop,
    trip: Trip,
    other: Trip,
) -> bool {
    (net.earliest_trip)(route, at, stop) == Some(trip) && runs_on(net, route, other) && (
    net.departure_time)(other, stop) >= at ==> (net.departure_time)(trip, stop) <= (
    net.departure_time)(other, stop)
}

/// Where a trip of the route can still be caught, there is an earliest one.
pub open spec fn can_catch(net: Network, route: Route, at: Tau, stop: Stop, other: Trip) -> bool {
    runs_on(net, route, other) && at <= (net.departure_time)(other, stop) < usize::MAX ==> (
    net.earliest_trip)(route, at, stop) is Some
}

/// The trips of a route do not overtake each other: of two, the one that
/// leaves a stop no later reaches and leaves every later stop no later.
pub open spec fn keeps_order(
    net: Network,
    route: Route,
    first: Trip,
    second: Trip,
    stop: Stop,
    later: Stop,
) -> bool {
    runs_on(net, route, first) && runs_on(net, route, second) && rides_on(net, route, stop, later)
        && (net.departure_time)(first, stop) <= (net.departure_time)(second, stop) ==> (
    net.arrival_time)(first, later) <= (net.arrival_time)(second, later) && (net.departure_time)(
        first,
        later,
    ) <= (net.departure_time)(second, later)
}

/// A trip reaches a later stop no earlier than it leaves an earlier one.
pub open spec fn runs_forward(
    net: Network,
    route: Route,
    trip: Trip,
    stop: Stop,
    later: Stop,
) -> bool {
    runs_on(net, route, trip) && rides_on(net, route, stop, later) ==> (net.departure_time)(
        trip,
        stop,
    ) <= (net.arrival_time)(trip, later)
}

/// The stops of a route come in one order: a ride that comes to `board`
/// passes it before every stop that lies after it.
pub open spec fn in_order(
    net: Network,
    route: Route,
    start: Stop,
    board: Stop,
    stop: Stop,
) -> bool {
    reaches(net, route, start, board) && rides_on(net, route, board, stop) ==> exists|
        i: int,
        j: int,
    | #[trigger] passes(net, route, start, i, j, board, stop)
}

/// A stop that a ride along a route passes is served by the route.
pub open spec fn stops_served(net: Network, route: Route, board: Stop, stop: Stop) -> bool {
    rides_on(net, route, board, stop) ==> serves(net, route, board)
}

/// Of two stops of a route the earlier one is one of them, and a ride from
/// it comes to both.
pub open spec fn earlier_is_first(net: Network, route: Route, left: Stop, right: Stop) -> bool {
    serves(net, route, left) && serves(net, route, right) ==> {
        let first = (net.earlier_stop)(route, left, right);
        &&& first == left || first == right
        &&& reaches(net, route, first, left)
        &&& reaches(net, route, first, right)
    }
}

/// A ride that comes to a stop comes to every stop that a ride from there
/// comes to.
pub open spec fn reaches_on(
    net: Network,
    route: Route,
    start: Stop,
    stop: Stop,
    later: Stop,
) -> bool {
    reaches(net, route, start, stop) && reaches(net, route, stop, later) ==> reaches(
        net,
        route,
        start,
        later,
    )
}

/// A regular timetable: its routes are lists of stops in a fixed order, its
/// trips run forward in time and do not overtake each other, and the
/// earliest trip is the first that can be caught.
pub open spec fn regular(net: Network) -> bool {
    &&& forall|route: Route, at: Tau, stop: Stop, trip: Trip, other: Trip| #[trigger]
        first_catch(net, route, at, stop, trip, other)
    &&& forall|route: Route, at: Tau, stop: Stop, other: Trip| #[trigger]
        can_catch(net, route, at, stop, other)
    &&& forall|route: Route, first: Trip, second: Trip, stop: Stop, later: Stop| #[trigger]
        keeps_order(net, route, first, second, stop, later)
    &&& forall|route: Route, trip: Trip, stop: Stop, later: Stop| #[trigger]
        runs_forward(net, route, trip, stop, later)
    &&& forall|route: Route, start: Stop, board: Stop, stop: Stop| #[trigger]
        in_order(net, route, start, board, stop)
    &&& forall|route: Route, board: Stop, stop: Stop| #[trigger]
        stops_served(net, route, board, stop)
    &&& forall|route: Route, left: Stop, right: Stop| #[trigger]
        earlier_is_first(net, route, left, right)
    &&& forall|route: Route, start: Stop, stop: Stop, later: Stop| #[trigger]
        reaches_on(net, route, start, stop, later)
}

/// Every route of the queue is to be ridden from a stop that it serves.
pub open spec fn anchored(net: Network, queue: Map<Route, Stop>) -> bool {
    forall|route: Route| #[trigger]
        queue.contains_key(route) ==> serves(net, route, queue[route])
}

/// The queue holds the route, to be ridden from a stop from which the ride
/// comes to `stop`.
pub open spec fn covers(net: Network, queue: Map<Route, Stop>, route: Route, stop: Stop) -> bool {
    queue.contains_key(route) && reaches(net, route, queue[route], stop)
}

/// Noting a route keeps the queue anchored, covers the noted stop, and
/// leaves covered what was covered.
proof fn lemma_note_route(net: Network, queue: Map<Route, Stop>, stop: Stop, route: Route)
    requires
        regular(net),
        anchored(net, queue),
        serves(net, route, stop),
    ensures
        anchored(net, note_route(net, queue, stop, route)),
        covers(net, note_route(net, queue, stop, route), route, stop),
        forall|other: Route, seen: Stop| #[trigger]
            covers(net, queue, other, seen) ==> covers(
                net,
                note_route(net, queue, stop, route),
                other,
                seen,
            ),
{
    let held = if queue.contains_key(route) {
        queue[route]
    } else {
        stop
    };
    let first = (net.earlier_stop)(route, stop, held);
    let after = note_route(net, queue, stop, route);
    assert(serves(net, route, held));
    assert(earlier_is_first(net, route, stop, held));
    assert forall|other: Route, seen: Stop| #[trigger]
        covers(net, queue, other, seen) implies covers(net, after, other, seen) by {
        if other == route {
            assert(reaches_on(net, route, first, held, seen));
        }
    }
}

/// Noting the routes of a marked stop covers the stop on each of them and
/// leaves covered what was covered.
proof fn lemma_note_routes(
    net: Network,
    queue: Map<Route, Stop>,
    stop: Stop,
    n: nat,
)
    requires
        regular(net),
        anchored(net, queue),
        n <= (net.routes_serving_stop)(stop).len(),
    ensures
        ({
            let routes = (net.routes_serving_stop)(stop);
            let after = note_routes(net, queue, stop, routes, n);
            &&& anchored(net, after)
            &&& forall|j: int| 0 <= j < n ==> covers(net, after, #[trigger] routes[j], stop)
            &&& forall|other: Route, seen: Stop| #[trigger]
                covers(net, queue, other, seen) ==> covers(net, after, other, seen)
        }),
    decreases n,
{
    let routes = (net.routes_serving_stop)(stop);
    if n > 0 {
        let before = note_routes(net, queue, stop, routes, (n - 1) as nat);
        let after = note_routes(net, queue, stop, routes, n);
        lemma_note_routes(net, queue, stop, (n - 1) as nat);
        assert(routes.contains(routes[n - 1]));
        lemma_note_route(net, before, stop, routes[n - 1]);
        assert forall|j: int| 0 <= j < n implies covers(net, after, #[trigger] routes[j], stop) by {
            if j < n - 1 {
                assert(covers(net, before, routes[j], stop));
            }
        }
        assert forall|other: Route, seen: Stop| #[trigger]
            covers(net, queue, other, seen) implies covers(net, after, other, seen) by {
            assert(covers(net, before, other, seen));
        }
    }
}

/// Stage one leaves no marked stop out: each route that serves one of the
/// first `n` marked stops is in the queue, to be ridden from a stop from
/// which the ride comes to the marked stop.
pub proof fn lemma_collect_routes(net: Network, marked: Seq<Stop>, n: nat)
    requires
        regular(net),
        n <= marked.len(),
    ensures
        anchored(net, collect_routes(net, marked, n)),
        forall|i: int, route: Route|
            0 <= i < n && serves(net, route, marked[i]) ==> #[trigger] covers(
                net,
                collect_routes(net, marked, n),
                route,
                marked[i],
            ),
    decreases n,
{
    if n > 0 {
        let before = collect_routes(net, marked, (n - 1) as nat);
        let after = collect_routes(net, marked, n);
        let stop = marked[n - 1];
        let routes = (net.routes_serving_stop)(stop);
        lemma_collect_routes(net, marked, (n - 1) as nat);
        lemma_note_routes(net, before, stop, routes.len());
        assert forall|i: int, route: Route|
            0 <= i < n && serves(net, route, marked[i]) implies #[trigger] covers(
            net,
            after,
            route,
            marked[i],
        ) by {
            if i < n - 1 {
                assert(covers(net, before, route, marked[i]));
            } else {
                let j = choose|j: int| 0 <= j < routes.len() && routes[j] == route;
                assert(covers(net, after, routes[j], stop));
            }
        }
    }
}

/// The stop `stop` or the target `pt` is reached by `at`.
pub open spec fn bound(state: State, pt: Stop, stop: Stop, at: Tau) -> bool {
    label(state.labels, stop) <= at || label(state.labels, pt) <= at
}

/// What is reached by `at` stays so as the arrival times get no later.
proof fn lemma_bound_stays(before: State, after: State, k: K, pt: Stop, stop: Stop, at: Tau)
    requires
        advances(before, after, k),
        bound(before, pt, stop, at),
    ensures
        bound(after, pt, stop, at),
{
    assert(label(after.labels, stop) <= label(before.labels, stop));
    assert(label(after.labels, pt) <= label(before.labels, pt));
}

/// The rider sits in a trip of the route that leaves `stop` no later than
/// `other` does.
pub open spec fn ahead(net: Network, route: Route, ride: Ride, other: Trip, stop: Stop) -> bool {
    ride.trip matches Some(trip) && runs_on(net, route, trip) && (net.departure_time)(trip, stop)
        <= (net.departure_time)(other, stop)
}

/// The trip at hand on a ride is one of the route.
proof fn lemma_trip_at_hand(
    net: Network,
    earlier: Map<Stop, Tau>,
    k: K,
    pt: Stop,
    route: Route,
    start: Stop,
    state: State,
    stops: Seq<Stop>,
    n: nat,
)
    ensures
        ride_route(net, earlier, k, pt, route, start, state, stops, n).trip matches Some(trip)
            ==> runs_on(net, route, trip),
    decreases n,
{
    if n > 0 {
        lemma_trip_at_hand(net, earlier, k, pt, route, start, state, stops, (n - 1) as nat);
        let ride = ride_route(net, earlier, k, pt, route, start, state, stops, (n - 1) as nat);
        let next = visit(net, earlier, k, pt, route, ride, stops[n - 1]);
        if next.trip is Some && next.trip != ride.trip {
            assert((net.earliest_trip)(route, label(earlier, stops[n - 1]), stops[n - 1])
                == next.trip);
        }
    }
}

/// A rider who could catch the trip `other` at `board` sits, from there on,
/// in a trip that is ahead of it.
proof fn lemma_ride_ahead(
    net: Network,
    earlier: Map<Stop, Tau>,
    k: K,
    pt: Stop,
    route: Route,
    start: Stop,
    state: State,
    other: Trip,
    board: Stop,
    stop: Stop,
    i: int,
    j: int,
    n: nat,
)
    requires
        regular(net),
        passes(net, route, start, i, j, board, stop),
        runs_on(net, route, other),
        label(earlier, board) <= (net.departure_time)(other, board),
        (net.arrival_time)(other, stop) < usize::MAX,
        i < n <= j,
    ensures
        ahead(
            net,
            route,
            ride_route(
                net,
                earlier,
                k,
                pt,
                route,
                start,
                state,
                (net.stops_after)(route, start),
                n,
            ),
            other,
            (net.stops_after)(route, start)[n - 1],
        ),
    decreases n,
{
    let stops = (net.stops_after)(route, start);
    let ride = ride_route(net, earlier, k, pt, route, start, state, stops, (n - 1) as nat);
    let at = stops[n - 1];
    let next = visit(net, earlier, k, pt, route, ride, at);
    let reached = label(earlier, at);
    lemma_trip_at_hand(net, earlier, k, pt, route, start, state, stops, (n - 1) as nat);
    assert(passes(net, route, start, n - 1, j, at, stop));
    assert(rides_on(net, route, at, stop));
    assert(runs_forward(net, route, other, at, stop));
    assert((net.departure_time)(other, at) < usize::MAX);
    if n - 1 == i {
        match ride.trip {
            Some(held) => {
                if reached <= (net.departure_time)(held, at) {
                    assert(can_catch(net, route, reached, at, other));
                    let caught = (net.earliest_trip)(route, reached, at)->0;
                    assert(next.trip == Some(caught));
                    assert(first_catch(net, route, reached, at, caught, other));
                    assert(runs_on(net, route, caught));
                } else {
                    assert(next.trip == Some(held));
                }
            },
            None => {
                assert(can_catch(net, route, reached, at, other));
                let caught = (net.earliest_trip)(route, reached, at)->0;
                assert(next.trip == Some(caught));
                assert(first_catch(net, route, reached, at, caught, other));
                assert(runs_on(net, route, caught));
            },
        }
    } else {
        lemma_ride_ahead(
            net,
            earlier,
            k,
            pt,
            route,
            start,
            state,
            other,
            board,
            stop,
            i,
            j,
            (n - 1) as nat,
        );
        let held = ride.trip->0;
        assert(passes(net, route, start, n - 2, n - 1, stops[n - 2], at));
        assert(rides_on(net, route, stops[n - 2], at));
        assert(keeps_order(net, route, held, other, stops[n - 2], at));
        if reached <= (net.departure_time)(held, at) {
            assert(can_catch(net, route, reached, at, held));
            let caught = (net.earliest_trip)(route, reached, at)->0;
            assert(next.trip == Some(caught));
            assert(first_catch(net, route, reached, at, caught, held));
            assert(runs_on(net, route, caught));
        } else {
            assert(next.trip == Some(held));
        }
    }
}

/// A ride along a route brings what the trip `other` would bring: a rider
/// who could catch it at `board` reaches `stop`, or the target, no later
/// than it does.
proof fn lemma_ride_brings(
    net: Network,
    earlier: Map<Stop, Tau>,
    k: K,
    pt: Stop,
    route: Route,
    start: Stop,
    state: State,
    other: Trip,
    board: Stop,
    stop: Stop,
    i: int,
    j: int,
    n: nat,
)
    requires
        regular(net),
        tidy(state),
        passes(net, route, start, i, j, board, stop),
        runs_on(net, route, other),
        label(earlier, board) <= (net.departure_time)(other, board),
        (net.arrival_time)(other, stop) < usize::MAX,
        j < n <= (net.stops_after)(route, start).len(),
    ensures
        bound(
            ride_route(
                net,
                earlier,
                k,
                pt,
                route,
                start,
                state,
                (net.stops_after)(route, start),
                n,
            ).state,
            pt,
            stop,
            (net.arrival_time)(other, stop),
        ),
    decreases n,
{
    let stops = (net.stops_after)(route, start);
    let ride = ride_route(net, earlier, k, pt, route, start, state, stops, (n - 1) as nat);
    let next = visit(net, earlier, k, pt, route, ride, stops[n - 1]);
    lemma_ride_route(net, earlier, k, pt, route, start, state, stops, (n - 1) as nat);
    if n - 1 == j {
        lemma_ride_ahead(
            net,
            earlier,
            k,
            pt,
            route,
            start,
            state,
            other,
            board,
            stop,
            i,
            j,
            j as nat,
        );
        let held = ride.trip->0;
        assert(passes(net, route, start, j - 1, j, stops[j - 1], stop));
        assert(rides_on(net, route, stops[j - 1], stop));
        assert(keeps_order(net, route, held, other, stops[j - 1], stop));
        assert(label(ride.state.best, stop) == label(ride.state.labels, stop));
        assert(label(ride.state.best, pt) == label(ride.state.labels, pt));
    } else {
        lemma_ride_brings(
            net,
            earlier,
            k,
            pt,
            route,
            start,
            state,
            other,
            board,
            stop,
            i,
            j,
            (n - 1) as nat,
        );
        lemma_visit(net, earlier, k, pt, route, ride, stops[n - 1]);
        lemma_bound_stays(ride.state, next.state, k, pt, stop, (net.arrival_time)(other, stop));
    }
}

/// Stage two brings what the trip `other` would bring, where its route is
/// in the queue from a stop from which the ride passes `board` and `stop`.
proof fn lemma_ride_routes_bring(
    net: Network,
    earlier: Map<Stop, Tau>,
    k: K,
    pt: Stop,
    queue: Seq<(Route, Stop)>,
    state: State,
    other: Trip,
    board: Stop,
    stop: Stop,
    q: int,
    i: int,
    j: int,
    n: nat,
)
    requires
        regular(net),
        tidy(state),
        0 <= q < n <= queue.len(),
        passes(net, queue[q].0, queue[q].1, i, j, board, stop),
        runs_on(net, queue[q].0, other),
        label(earlier, board) <= (net.departure_time)(other, board),
        (net.arrival_time)(other, stop) < usize::MAX,
    ensures
        bound(
            ride_routes(net, earlier, k, pt, queue, state, n),
            pt,
            stop,
            (net.arrival_time)(other, stop),
        ),
    decreases n,
{
    let before = ride_routes(net, earlier, k, pt, queue, state, (n - 1) as nat);
    let (route, start) = queue[n - 1];
    let stops = (net.stops_after)(route, start);
    lemma_ride_routes(net, earlier, k, pt, queue, state, (n - 1) as nat);
    if n - 1 == q {
        lemma_ride_brings(
            net,
            earlier,
            k,
            pt,
            route,
            start,
            before,
            other,
            board,
            stop,
            i,
            j,
            stops.len(),
        );
    } else {
        lemma_ride_routes_bring(
            net,
            earlier,
            k,
            pt,
            queue,
            state,
            other,
            board,
            stop,
            q,
            i,
            j,
            (n - 1) as nat,
        );
        lemma_ride_route(net, earlier, k, pt, route, start, before, stops, stops.len());
        lemma_bound_stays(
            before,
            ride_routes(net, earlier, k, pt, queue, state, n),
            k,
            pt,
            stop,
            (net.arrival_time)(other, stop),
        );
    }
}

/// Noting routes keeps the queue finite.
proof fn lemma_note_routes_finite(
    net: Network,
    queue: Map<Route, Stop>,
    stop: Stop,
    routes: Seq<Route>,
    n: nat,
)
    requires
        queue.dom().finite(),
    ensures
        note_routes(net, queue, stop, routes, n).dom().finite(),
    decreases n,
{
    if n > 0 {
        lemma_note_routes_finite(net, queue, stop, routes, (n - 1) as nat);
    }
}

/// The queue of a round holds finitely many routes.
proof fn lemma_collect_routes_finite(net: Network, marked: Seq<Stop>, n: nat)
    ensures
        collect_routes(net, marked, n).dom().finite(),
    decreases n,
{
    if n > 0 {
        lemma_collect_routes_finite(net, marked, (n - 1) as nat);
        let routes = (net.routes_serving_stop)(marked[n - 1]);
        lemma_note_routes_finite(
            net,
            collect_routes(net, marked, (n - 1) as nat),
            marked[n - 1],
            routes,
            routes.len(),
        );
    }
}

/// Each entry of a finite map is among its entries by increasing key.
proof fn lemma_entries(map: Map<usize, usize>, key: usize) -> (at: int)
    requires
        map.dom().finite(),
        map.contains_key(key),
    ensures
        0 <= at < entries(map).len(),
        entries(map)[at] == (key, map[key]),
{
    lemma_ascending(map.dom());
    let keys = ascending(map.dom());
    assert(keys.to_set().contains(key));
    let at = choose|at: int| 0 <= at < keys.len() && keys[at] == key;
    at
}

/// A round brings what a trip would bring: where a marked stop is reached
/// in time to catch a trip there, the round reaches every later stop of the
/// route, or the target, no later than that trip does.
proof fn lemma_round_brings(
    net: Network,
    k: K,
    pt: Stop,
    before: State,
    route: Route,
    other: Trip,
    board: Stop,
    stop: Stop,
)
    requires
        regular(net),
        tidy(before),
        before.marked.finite(),
        before.marked.contains(board),
        runs_on(net, route, other),
        rides_on(net, route, board, stop),
        label(before.labels, board) <= (net.departure_time)(other, board),
        (net.arrival_time)(other, stop) < usize::MAX,
    ensures
        bound(round(net, k, pt, before), pt, stop, (net.arrival_time)(other, stop)),
{
    let marked = ascending(before.marked);
    lemma_ascending(before.marked);
    assert(marked.to_set().contains(board));
    let m = choose|m: int| 0 <= m < marked.len() && marked[m] == board;
    assert(stops_served(net, route, board, stop));
    let routes = collect_routes(net, marked, marked.len());
    lemma_collect_routes(net, marked, marked.len());
    assert(covers(net, routes, route, marked[m]));
    let start = routes[route];
    assert(in_order(net, route, start, board, stop));
    let (i, j) = choose|i: int, j: int| #[trigger] passes(net, route, start, i, j, board, stop);
    lemma_collect_routes_finite(net, marked, marked.len());
    let q = lemma_entries(routes, route);
    let queue = entries(routes);
    assert(tidy(cleared(before)));
    lemma_ride_routes_bring(
        net,
        before.labels,
        k,
        pt,
        queue,
        cleared(before),
        other,
        board,
        stop,
        q,
        i,
        j,
        queue.len(),
    );
    let ridden = ride_routes(net, before.labels, k, pt, queue, cleared(before), queue.len());
    lemma_ride_routes(net, before.labels, k, pt, queue, cleared(before), queue.len());
    let improved = ascending(ridden.marked);
    lemma_walk_all(net, ridden, improved, improved.len(), k);
    lemma_bound_stays(
        ridden,
        walk_all(net, ridden, improved, improved.len()),
        k,
        pt,
        stop,
        (net.arrival_time)(other, stop),
    );
}

/// A stop that is reached was marked when its label was last made earlier.
proof fn lemma_last_marked(net: Network, tau: Tau, ps: Stop, pt: Stop, m: nat, stop: Stop) -> (j:
    nat)
    requires
        m <= usize::MAX,
        label(state_after(net, tau, ps, pt, m).labels, stop) < usize::MAX,
    ensures
        j <= m,
        state_after(net, tau, ps, pt, j).marked.contains(stop),
        label(state_after(net, tau, ps, pt, j).labels, stop) == label(
            state_after(net, tau, ps, pt, m).labels,
            stop,
        ),
    decreases m,
{
    if m == 0 {
        let targets = (net.footpaths_from)(ps);
        lemma_walk_from(net, departure(tau, ps), ps, targets, targets.len(), 0);
        0
    } else {
        let before = state_after(net, tau, ps, pt, (m - 1) as nat);
        let after = state_after(net, tau, ps, pt, m);
        lemma_state_after(net, tau, ps, pt, (m - 1) as nat);
        lemma_round(net, m as usize, pt, before);
        assert(label(after.labels, stop) <= label(cleared(before).labels, stop));
        if label(after.labels, stop) < label(before.labels, stop) {
            assert(after.marked.contains(stop));
            m
        } else {
            lemma_last_marked(net, tau, ps, pt, (m - 1) as nat, stop)
        }
    }
}

/// What is reached by some time after a round is reached by that time after
/// every later round.
proof fn lemma_bound_rounds(
    net: Network,
    tau: Tau,
    ps: Stop,
    pt: Stop,
    j: nat,
    k: nat,
    stop: Stop,
    at: Tau,
)
    requires
        j <= k <= usize::MAX,
        bound(state_after(net, tau, ps, pt, j), pt, stop, at),
    ensures
        bound(state_after(net, tau, ps, pt, k), pt, stop, at),
    decreases k,
{
    if j < k {
        lemma_bound_rounds(net, tau, ps, pt, j, (k - 1) as nat, stop, at);
        law_labels_never_later(net, tau, ps, pt, k, stop);
        law_labels_never_later(net, tau, ps, pt, k, pt);
    }
}

/// One ride of a journey: the trip of a route that is boarded at one stop
/// and left at a later one.
pub struct Leg {
    pub route: Route,
    pub trip: Trip,
    pub board: Stop,
    pub alight: Stop,
}

/// Where and when the first `n` legs of a journey end that leaves `ps` at
/// `tau`, if the timetable allows them: each leg is boarded where the one
/// before was left, no earlier than that stop was reached, in a trip of its
/// route, and left at a stop that lies after the boarding stop.
pub open spec fn follows(net: Network, tau: Tau, ps: Stop, legs: Seq<Leg>, n: nat) -> Option<
    (Stop, Tau),
>
    decreases n,
{
    if n == 0 {
        Some((ps, tau))
    } else {
        match follows(net, tau, ps, legs, (n - 1) as nat) {
            Some((stop, at)) => {
                let leg = legs[n - 1];
                if leg.board == stop && runs_on(net, leg.route, leg.trip) && rides_on(
                    net,
                    leg.route,
                    leg.board,
                    leg.alight,
                ) && at <= (net.departure_time)(leg.trip, leg.board) {
                    Some((leg.alight, (net.arrival_time)(leg.trip, leg.alight)))
                } else {
                    None
                }
            },
            None => None,
        }
    }
}

/// The rounds keep up with every journey: after `n` rounds the stop where
/// its first `n` legs end, or the target, is reached no later than the legs
/// reach that stop.
proof fn lemma_keeps_up(net: Network, tau: Tau, ps: Stop, pt: Stop, legs: Seq<Leg>, n: nat)
    requires
        regular(net),
        n <= legs.len(),
        n <= usize::MAX,
        follows(net, tau, ps, legs, n) is Some,
    ensures
        ({
            let (stop, at) = follows(net, tau, ps, legs, n)->0;
            bound(state_after(net, tau, ps, pt, n), pt, stop, at)
        }),
    decreases n,
{
    if n == 0 {
        let targets = (net.footpaths_from)(ps);
        lemma_walk_from(net, departure(tau, ps), ps, targets, targets.len(), 0);
        assert(label(departure(tau, ps).labels, ps) == tau);
    } else {
        let (board, reached) = follows(net, tau, ps, legs, (n - 1) as nat)->0;
        let leg = legs[n - 1];
        let at = (net.arrival_time)(leg.trip, leg.alight);
        lemma_keeps_up(net, tau, ps, pt, legs, (n - 1) as nat);
        assert(runs_forward(net, leg.route, leg.trip, leg.board, leg.alight));
        let before = state_after(net, tau, ps, pt, (n - 1) as nat);
        if at < usize::MAX {
            if label(before.labels, pt) <= reached {
                law_labels_never_later(net, tau, ps, pt, n, pt);
            } else {
                let j = lemma_last_marked(net, tau, ps, pt, (n - 1) as nat, board);
                lemma_state_after(net, tau, ps, pt, j);
                lemma_round_brings(
                    net,
                    (j + 1) as usize,
                    pt,
                    state_after(net, tau, ps, pt, j),
                    leg.route,
                    leg.trip,
                    leg.board,
                    leg.alight,
                );
                lemma_bound_rounds(net, tau, ps, pt, j + 1, n, leg.alight, at);
            }
        }
    }
}

/// The journey of `legs` is one that the timetable allows, from `ps` at
/// `tau` to `pt`, and reaches `pt` at `at`.
pub open spec fn arrives(
    net: Network,
    tau: Tau,
    ps: Stop,
    pt: Stop,
    legs: Seq<Leg>,
    at: Tau,
) -> bool {
    follows(net, tau, ps, legs, legs.len()) == Some((pt, at))
}

/// After `k` rounds the target is reached no later than any journey of at
/// most `k` legs reaches it.
pub proof fn lemma_no_journey_beats_the_label(
    net: Network,
    tau: Tau,
    ps: Stop,
    pt: Stop,
    legs: Seq<Leg>,
    at: Tau,
    k: nat,
)
    requires
        regular(net),
        legs.len() <= k <= usize::MAX,
        arrives(net, tau, ps, pt, legs, at),
    ensures
        label(state_after(net, tau, ps, pt, k).labels, pt) <= at,
{
    lemma_keeps_up(net, tau, ps, pt, legs, legs.len());
    lemma_bound_rounds(net, tau, ps, pt, legs.len(), k, pt, at);
}

} // verus!
