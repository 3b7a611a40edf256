//! What one query computes, round by round.
//!
//! The search keeps four tables. Round `k` rebuilds them from those of round
//! `k - 1` in three stages: it collects the routes that pass a marked stop,
//! rides each of them once, and then walks the footpaths that leave the stops
//! it has just improved. Each stage is a function on the tables, given here.
use crate::journey::{plans, Itinerary};
use crate::ordered::{ascending, entries};
use crate::timetable::{Network, Route, Stop, Tau, Trip, K, UNREACHED};
use vstd::prelude::*;

verus! {

/// The tables of a query.
#[verifier::ext_equal]
pub struct State {
    /// The earliest known arrival at each stop with the trips taken so far.
    pub labels: Map<Stop, Tau>,
    /// The earliest known arrival at each stop over all rounds.
    pub best: Map<Stop, Tau>,
    /// For a round and a stop improved in it: where the trip that reached the
    /// stop was boarded, and on which route.
    pub tree: Map<(K, Stop), (Stop, Route)>,
    /// The stops improved since the routes were last collected.
    pub marked: Set<Stop>,
}

/// The arrival time that a table holds for `stop`; never, where it holds none.
pub open spec fn label(labels: Map<Stop, Tau>, stop: Stop) -> Tau {
    if labels.contains_key(stop) {
        labels[stop]
    } else {
        UNREACHED
    }
}

/// The smaller of two times.
pub open spec fn sooner(a: Tau, b: Tau) -> Tau {
    if a <= b {
        a
    } else {
        b
    }
}

/// Notes that `route` passes the marked stop `stop`: the route is to be ridden
/// from `stop`, or from the stop noted before if that one comes earlier.
pub open spec fn note_route(
    net: Network,
    queue: Map<Route, Stop>,
    stop: Stop,
    route: Route,
) -> Map<Route, Stop> {
    let held = if queue.contains_key(route) {
        queue[route]
    } else {
        stop
    };
    queue.insert(route, (net.earlier_stop)(route, stop, held))
}

/// Notes the first `n` of the routes that serve the marked stop `stop`.
pub open spec fn note_routes(
    net: Network,
    queue: Map<Route, Stop>,
    stop: Stop,
    routes: Seq<Route>,
    n: nat,
) -> Map<Route, Stop>
    decreases n,
{
    if n == 0 {
        queue
    } else {
        note_route(net, note_routes(net, queue, stop, routes, (n - 1) as nat), stop, routes[n - 1])
    }
}

/// Stage one, for the first `n` marked stops: each route that serves one of
/// them, with the earliest of them along it.
pub open spec fn collect_routes(net: Network, marked: Seq<Stop>, n: nat) -> Map<
    Route,
    Stop,
>
    decreases n,
{
    if n == 0 {
        Map::empty()
    } else {
        let stop = marked[n - 1];
        let routes = (net.routes_serving_stop)(stop);
        note_routes(net, collect_routes(net, marked, (n - 1) as nat), stop, routes, routes.len())
    }
}

/// A ride along one route: the tables, the trip the rider sits in, and the
/// stop where that trip was boarded.
#[verifier::ext_equal]
pub struct Ride {
    pub state: State,
    pub trip: Option<Trip>,
    pub board: Stop,
}

/// The tables after a trip that was boarded at `board` on `route` has reached
/// `stop` at `arrival`: where that is before every arrival known at `stop`
/// and at the target `pt`, the stop takes the new time, is marked, and
/// remembers where the trip was boarded.
pub open spec fn improve(
    state: State,
    k: K,
    pt: Stop,
    route: Route,
    board: Stop,
    stop: Stop,
    arrival: Tau,
) -> State {
    if arrival < label(state.best, stop) && arrival < label(state.best, pt) {
        State {
            labels: state.labels.insert(stop, arrival),
            best: state.best.insert(stop, arrival),
            tree: state.tree.insert((k, stop), (board, route)),
            marked: state.marked.insert(stop),
        }
    } else {
        state
    }
}

/// The tables after the trip of `ride`, if there is one, has reached `stop`.
pub open spec fn alight(
    net: Network,
    k: K,
    pt: Stop,
    route: Route,
    ride: Ride,
    stop: Stop,
) -> State {
    match ride.trip {
        Some(trip) => improve(
            ride.state,
            k,
            pt,
            route,
            ride.board,
            stop,
            (net.arrival_time)(trip, stop),
        ),
        None => ride.state,
    }
}

/// One stop of a ride. The rider first alights, then looks for a trip to
/// board: where the stop was reached in the round before, `earlier`, no later
/// than the trip at hand leaves it, the rider changes to the earliest trip
/// that can be caught there.
pub open spec fn visit(
    net: Network,
    earlier: Map<Stop, Tau>,
    k: K,
    pt: Stop,
    route: Route,
    ride: Ride,
    stop: Stop,
) -> Ride {
    let state = alight(net, k, pt, route, ride, stop);
    let reached = label(earlier, stop);
    let leaves = match ride.trip {
        Some(trip) => (net.departure_time)(trip, stop),
        None => UNREACHED,
    };
    if reached <= leaves {
        Ride { state, trip: (net.earliest_trip)(route, reached, stop), board: stop }
    } else {
        Ride { state, trip: ride.trip, board: ride.board }
    }
}

/// A ride along `route` over the first `n` of `stops`, begun at `start` with
/// no trip at hand.
pub open spec fn ride_route(
    net: Network,
    earlier: Map<Stop, Tau>,
    k: K,
    pt: Stop,
    route: Route,
    start: Stop,
    state: State,
    stops: Seq<Stop>,
    n: nat,
) -> Ride
    decreases n,
{
    if n == 0 {
        Ride { state, trip: None, board: start }
    } else {
        visit(
            net,
            earlier,
            k,
            pt,
            route,
            ride_route(net, earlier, k, pt, route, start, state, stops, (n - 1) as nat),
            stops[n - 1],
        )
    }
}

/// Stage two, for the first `n` of the collected routes: each is ridden from
/// its starting stop to its end.
pub open spec fn ride_routes(
    net: Network,
    earlier: Map<Stop, Tau>,
    k: K,
    pt: Stop,
    queue: Seq<(Route, Stop)>,
    state: State,
    n: nat,
) -> State
    decreases n,
{
    if n == 0 {
        state
    } else {
        let (route, start) = queue[n - 1];
        let stops = (net.stops_after)(route, start);
        ride_route(
            net,
            earlier,
            k,
            pt,
            route,
            start,
            ride_routes(net, earlier, k, pt, queue, state, (n - 1) as nat),
            stops,
            stops.len(),
        ).state
    }
}

/// The tables after a walk has reached `to` at `candidate`: where that is
/// before the time the tables hold for it, `to` takes the new time and is
/// marked.
pub open spec fn stroll(state: State, to: Stop, candidate: Tau) -> State {
    if candidate < label(state.labels, to) {
        State {
            labels: state.labels.insert(to, candidate),
            best: state.best.insert(to, sooner(label(state.best, to), candidate)),
            tree: state.tree,
            marked: state.marked.insert(to),
        }
    } else {
        state
    }
}

/// A walk from `from` to `to`. The walking time is added to the label of
/// `from`; a sum beyond the largest time stays at it.
pub open spec fn walk(net: Network, state: State, from: Stop, to: Stop) -> State {
    stroll(state, to, label(state.labels, from).saturating_add((net.transfer_time)(from, to)))
}

/// The walks from `from` to the first `n` of `targets`.
pub open spec fn walk_from(
    net: Network,
    state: State,
    from: Stop,
    targets: Seq<Stop>,
    n: nat,
) -> State
    decreases n,
{
    if n == 0 {
        state
    } else {
        walk(net, walk_from(net, state, from, targets, (n - 1) as nat), from, targets[n - 1])
    }
}

/// Stage three, for the first `n` of `sources`: every footpath that leaves
/// one of them is walked.
pub open spec fn walk_all(
    net: Network,
    state: State,
    sources: Seq<Stop>,
    n: nat,
) -> State
    decreases n,
{
    if n == 0 {
        state
    } else {
        let from = sources[n - 1];
        let targets = (net.footpaths_from)(from);
        walk_from(
            net,
            walk_all(net, state, sources, (n - 1) as nat),
            from,
            targets,
            targets.len(),
        )
    }
}

/// Tables in which only the source `ps` is reached, at `tau`, and marked.
pub open spec fn departure(tau: Tau, ps: Stop) -> State {
    State {
        labels: Map::empty().insert(ps, tau),
        best: Map::empty().insert(ps, tau),
        tree: Map::empty(),
        marked: Set::empty().insert(ps),
    }
}

/// The tables before the first round: the source `ps` is reached at `tau` and
/// marked, and so is every stop that a footpath from it reaches.
pub open spec fn initial(net: Network, tau: Tau, ps: Stop) -> State {
    let targets = (net.footpaths_from)(ps);
    walk_from(net, departure(tau, ps), ps, targets, targets.len())
}

/// The tables with no stop marked.
pub open spec fn cleared(state: State) -> State {
    State { labels: state.labels, best: state.best, tree: state.tree, marked: Set::empty() }
}

/// Round `k`: the tables that it makes of those of the round before.
///
/// The labels start out as those of the round before, so that a label of
/// round `k` is the best arrival with at most `k` trips.
pub open spec fn round(net: Network, k: K, pt: Stop, before: State) -> State {
    let marked = ascending(before.marked);
    let queue = entries(collect_routes(net, marked, marked.len()));
    let ridden = ride_routes(net, before.labels, k, pt, queue, cleared(before), queue.len());
    let improved = ascending(ridden.marked);
    walk_all(net, ridden, improved, improved.len())
}

/// The tables after `k` rounds of the query that leaves `ps` at `tau` for
/// `pt`.
pub open spec fn state_after(
    net: Network,
    tau: Tau,
    ps: Stop,
    pt: Stop,
    k: nat,
) -> State
    decreases k,
{
    if k == 0 {
        initial(net, tau, ps)
    } else {
        round(net, k as usize, pt, state_after(net, tau, ps, pt, (k - 1) as nat))
    }
}

/// The journeys of a query: the plans read back from the boarding tree that
/// `transfers` rounds leave, each with the arrival at the target `pt` that
/// the round of its last hop holds.
pub open spec fn journeys(
    net: Network,
    transfers: K,
    tau: Tau,
    ps: Stop,
    pt: Stop,
) -> Seq<Itinerary<Route, Stop>> {
    let tree = state_after(net, tau, ps, pt, transfers as nat).tree;
    plans(tree, ps, pt, transfers).map_values(
        |plan: Seq<(Route, Stop)>|
            Itinerary {
                plan,
                arrival: label(state_after(net, tau, ps, pt, plan.len()).labels, pt),
            },
    )
}

} // verus!
