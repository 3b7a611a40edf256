//! What the rounds keep.
//!
//! No step of a round makes an arrival time later, every stop that a round
//! reaches earlier is marked, and every entry of the boarding tree stands for
//! a trip that was boarded.
use crate::ordered::{ascending, entries};
use crate::rounds::{
    alight, cleared, collect_routes, departure, label, ride_route, ride_routes, round,
    state_after, visit, walk, walk_all, walk_from, Ride, State,
};
use crate::timetable::{Network, Route, Stop, Tau, Trip, K};
use vstd::prelude::*;

verus! {

/// The best arrival known at a stop is its label: the labels of a round
/// begin as those of the round before, so none of them lags behind.
pub open spec fn tidy(state: State) -> bool {
    forall|stop: Stop| #[trigger] label(state.best, stop) == label(state.labels, stop)
}

/// From `before` to `after` no arrival time gets later, every stop that is
/// reached earlier is marked, no mark is taken away, and the boarding tree
/// gains entries of round `k` only.
pub open spec fn advances(before: State, after: State, k: K) -> bool {
    &&& forall|stop: Stop| #[trigger] label(after.labels, stop) <= label(before.labels, stop)
    &&& forall|stop: Stop| #[trigger] label(after.best, stop) <= label(before.best, stop)
    &&& forall|key: (K, Stop)| #[trigger]
        after.tree.contains_key(key) ==> before.tree.contains_key(key) || key.0 == k
    &&& forall|stop: Stop|
        before.marked.contains(stop) || label(after.labels, stop) < label(before.labels, stop)
            ==> #[trigger] after.marked.contains(stop)
    &&& before.marked.finite() ==> after.marked.finite()
}

/// Two advances in a row are one.
pub proof fn lemma_advances_on(a: State, b: State, c: State, k: K)
    requires
        advances(a, b, k),
        advances(b, c, k),
    ensures
        advances(a, c, k),
{
    assert forall|stop: Stop| #[trigger] label(c.labels, stop) <= label(a.labels, stop) by {
        assert(label(b.labels, stop) <= label(a.labels, stop));
    }
    assert forall|stop: Stop| #[trigger] label(c.best, stop) <= label(a.best, stop) by {
        assert(label(b.best, stop) <= label(a.best, stop));
    }
    assert forall|key: (K, Stop)| #[trigger] c.tree.contains_key(key) implies a.tree.contains_key(
        key,
    ) || key.0 == k by {
        if b.tree.contains_key(key) {
        }
    }
    assert forall|stop: Stop|
        a.marked.contains(stop) || label(c.labels, stop) < label(
            a.labels,
            stop,
        ) implies #[trigger] c.marked.contains(stop) by {
        assert(label(c.labels, stop) <= label(b.labels, stop));
        assert(label(b.labels, stop) <= label(a.labels, stop));
        if b.marked.contains(stop) {
        }
    }
}

/// A visit keeps the tables tidy and advances them.
pub proof fn lemma_visit(
    net: Network,
    earlier: Map<Stop, Tau>,
    k: K,
    pt: Stop,
    route: Route,
    ride: Ride,
    stop: Stop,
)
    requires
        tidy(ride.state),
    ensures
        tidy(visit(net, earlier, k, pt, route, ride, stop).state),
        advances(ride.state, visit(net, earlier, k, pt, route, ride, stop).state, k),
{
    let after = alight(net, k, pt, route, ride, stop);
    assert(visit(net, earlier, k, pt, route, ride, stop).state == after);
    assert(label(ride.state.best, stop) == label(ride.state.labels, stop));
    assert forall|other: Stop| #[trigger]
        label(after.best, other) == label(after.labels, other) by {
        assert(label(ride.state.best, other) == label(ride.state.labels, other));
    }
    assert forall|other: Stop| #[trigger]
        label(after.labels, other) <= label(ride.state.labels, other) by {
        assert(label(ride.state.best, other) == label(ride.state.labels, other));
    }
}

/// A ride keeps the tables tidy and advances them.
pub proof fn lemma_ride_route(
    net: Network,
    earlier: Map<Stop, Tau>,
    k: K,
    pt: Stop,
    route: Route,
    start: Stop,
    state: State,
    stops: Seq<Stop>,
    n: nat,
)
    requires
        tidy(state),
    ensures
        tidy(ride_route(net, earlier, k, pt, route, start, state, stops, n).state),
        advances(state, ride_route(net, earlier, k, pt, route, start, state, stops, n).state, k),
    decreases n,
{
    if n > 0 {
        let ride = ride_route(net, earlier, k, pt, route, start, state, stops, (n - 1) as nat);
        lemma_ride_route(net, earlier, k, pt, route, start, state, stops, (n - 1) as nat);
        lemma_visit(net, earlier, k, pt, route, ride, stops[n - 1]);
        lemma_advances_on(
            state,
            ride.state,
            visit(net, earlier, k, pt, route, ride, stops[n - 1]).state,
            k,
        );
    }
}

/// Stage two keeps the tables tidy and advances them.
pub proof fn lemma_ride_routes(
    net: Network,
    earlier: Map<Stop, Tau>,
    k: K,
    pt: Stop,
    queue: Seq<(Route, Stop)>,
    state: State,
    n: nat,
)
    requires
        tidy(state),
    ensures
        tidy(ride_routes(net, earlier, k, pt, queue, state, n)),
        advances(state, ride_routes(net, earlier, k, pt, queue, state, n), k),
    decreases n,
{
    if n > 0 {
        let before = ride_routes(net, earlier, k, pt, queue, state, (n - 1) as nat);
        lemma_ride_routes(net, earlier, k, pt, queue, state, (n - 1) as nat);
        let (route, start) = queue[n - 1];
        let stops = (net.stops_after)(route, start);
        lemma_ride_route(net, earlier, k, pt, route, start, before, stops, stops.len());
        lemma_advances_on(
            state,
            before,
            ride_route(net, earlier, k, pt, route, start, before, stops, stops.len()).state,
            k,
        );
    }
}

/// A walk keeps the tables tidy, advances them, and leaves the boarding tree
/// as it is.
pub proof fn lemma_walk(net: Network, state: State, from: Stop, to: Stop, k: K)
    requires
        tidy(state),
    ensures
        tidy(walk(net, state, from, to)),
        advances(state, walk(net, state, from, to), k),
        walk(net, state, from, to).tree == state.tree,
{
    let after = walk(net, state, from, to);
    assert forall|other: Stop| #[trigger]
        label(after.best, other) == label(after.labels, other) by {
        assert(label(state.best, other) == label(state.labels, other));
    }
    assert forall|other: Stop| #[trigger]
        label(after.best, other) <= label(state.best, other) by {
        assert(label(state.best, other) == label(state.labels, other));
    }
}

/// The walks from a stop keep the tables tidy, advance them, and leave the
/// boarding tree as it is.
pub proof fn lemma_walk_from(
    net: Network,
    state: State,
    from: Stop,
    targets: Seq<Stop>,
    n: nat,
    k: K,
)
    requires
        tidy(state),
    ensures
        tidy(walk_from(net, state, from, targets, n)),
        advances(state, walk_from(net, state, from, targets, n), k),
        walk_from(net, state, from, targets, n).tree == state.tree,
    decreases n,
{
    if n > 0 {
        let before = walk_from(net, state, from, targets, (n - 1) as nat);
        lemma_walk_from(net, state, from, targets, (n - 1) as nat, k);
        lemma_walk(net, before, from, targets[n - 1], k);
        lemma_advances_on(state, before, walk(net, before, from, targets[n - 1]), k);
    }
}

/// Stage three keeps the tables tidy, advances them, and leaves the boarding
/// tree as it is.
pub proof fn lemma_walk_all(
    net: Network,
    state: State,
    sources: Seq<Stop>,
    n: nat,
    k: K,
)
    requires
        tidy(state),
    ensures
        tidy(walk_all(net, state, sources, n)),
        advances(state, walk_all(net, state, sources, n), k),
        walk_all(net, state, sources, n).tree == state.tree,
    decreases n,
{
    if n > 0 {
        let before = walk_all(net, state, sources, (n - 1) as nat);
        lemma_walk_all(net, state, sources, (n - 1) as nat, k);
        let from = sources[n - 1];
        let targets = (net.footpaths_from)(from);
        lemma_walk_from(net, before, from, targets, targets.len(), k);
        lemma_advances_on(state, before, walk_from(net, before, from, targets, targets.len()), k);
    }
}

/// A round makes no arrival time later, marks the stops that it reaches
/// earlier, and adds to the boarding tree under its own number only.
pub proof fn lemma_round(net: Network, k: K, pt: Stop, before: State)
    requires
        tidy(before),
    ensures
        tidy(round(net, k, pt, before)),
        advances(cleared(before), round(net, k, pt, before), k),
        round(net, k, pt, before).marked.finite(),
{
    let marked = ascending(before.marked);
    let queue = entries(collect_routes(net, marked, marked.len()));
    let ridden = ride_routes(net, before.labels, k, pt, queue, cleared(before), queue.len());
    let improved = ascending(ridden.marked);
    lemma_ride_routes(net, before.labels, k, pt, queue, cleared(before), queue.len());
    lemma_walk_all(net, ridden, improved, improved.len(), k);
    lemma_advances_on(cleared(before), ridden, walk_all(net, ridden, improved, improved.len()), k);
}

/// After any number of rounds the best arrival known at a stop is its
/// label, the marked stops are finitely many, and the boarding tree holds
/// entries of rounds `1` to `k` only.
pub proof fn lemma_state_after(
    net: Network,
    tau: Tau,
    ps: Stop,
    pt: Stop,
    k: nat,
)
    requires
        k <= usize::MAX,
    ensures
        tidy(state_after(net, tau, ps, pt, k)),
        state_after(net, tau, ps, pt, k).marked.finite(),
        forall|key: (K, Stop)| #[trigger]
            state_after(net, tau, ps, pt, k).tree.contains_key(key) ==> 1 <= key.0 <= k,
    decreases k,
{
    if k == 0 {
        let start = departure(tau, ps);
        let targets = (net.footpaths_from)(ps);
        assert(tidy(start));
        lemma_walk_from(net, start, ps, targets, targets.len(), 0);
    } else {
        let before = state_after(net, tau, ps, pt, (k - 1) as nat);
        let after = state_after(net, tau, ps, pt, k);
        lemma_state_after(net, tau, ps, pt, (k - 1) as nat);
        lemma_round(net, k as usize, pt, before);
        assert forall|key: (K, Stop)| #[trigger] after.tree.contains_key(key) implies 1 <= key.0
            <= k by {
            if before.tree.contains_key(key) {
            }
        }
    }
}

/// On the ride along `route` that begins at `start`, `board` is the stop
/// number `i` and `stop` the stop number `j`, further on.
pub open spec fn passes(
    net: Network,
    route: Route,
    start: Stop,
    i: int,
    j: int,
    board: Stop,
    stop: Stop,
) -> bool {
    let stops = (net.stops_after)(route, start);
    0 <= i < j < stops.len() && stops[i] == board && stops[j] == stop
}

/// `stop` lies on `route` after `board`: some ride along the route passes
/// `board` first and `stop` later.
pub open spec fn rides_on(net: Network, route: Route, board: Stop, stop: Stop) -> bool {
    exists|start: Stop, i: int, j: int| #[trigger] passes(net, route, start, i, j, board, stop)
}

/// What an entry of the boarding tree stands for, where the round that wrote
/// it began with the labels `earlier`: `stop` lies on `route` after `board`,
/// and a trip of the route can be caught at `board` from the time at which
/// `board` was reached.
pub open spec fn boarded(
    net: Network,
    earlier: Map<Stop, Tau>,
    route: Route,
    board: Stop,
    stop: Stop,
) -> bool {
    &&& rides_on(net, route, board, stop)
    &&& (net.earliest_trip)(route, label(earlier, board), board) is Some
}

/// From `before` to `after` the boarding tree keeps its entries or takes
/// entries of round `k` that stand for a boarding.
pub open spec fn extends(
    net: Network,
    earlier: Map<Stop, Tau>,
    k: K,
    before: Map<(K, Stop), (Stop, Route)>,
    after: Map<(K, Stop), (Stop, Route)>,
) -> bool {
    forall|key: (K, Stop)| #[trigger]
        after.contains_key(key) ==> (before.contains_key(key) && after[key] == before[key]) || (
        key.0 == k && boarded(net, earlier, after[key].1, after[key].0, key.1))
}

/// Two extensions of the boarding tree in a row are one.
proof fn lemma_extends_on(
    net: Network,
    earlier: Map<Stop, Tau>,
    k: K,
    a: Map<(K, Stop), (Stop, Route)>,
    b: Map<(K, Stop), (Stop, Route)>,
    c: Map<(K, Stop), (Stop, Route)>,
)
    requires
        extends(net, earlier, k, a, b),
        extends(net, earlier, k, b, c),
    ensures
        extends(net, earlier, k, a, c),
{
    assert forall|key: (K, Stop)| #[trigger] c.contains_key(key) implies (a.contains_key(key)
        && c[key] == a[key]) || (key.0 == k && boarded(net, earlier, c[key].1, c[key].0, key.1)) by {
        if b.contains_key(key) && c[key] == b[key] {
        }
    }
}

/// The trip at hand on a ride is the one caught at the boarding stop, and
/// that stop is among the first `n` of the ride.
pub open spec fn seated(
    net: Network,
    earlier: Map<Stop, Tau>,
    route: Route,
    stops: Seq<Stop>,
    ride: Ride,
    n: nat,
    i: int,
) -> bool {
    &&& 0 <= i < n
    &&& stops[i] == ride.board
    &&& ride.trip == (net.earliest_trip)(route, label(earlier, ride.board), ride.board)
}

/// A ride extends the boarding tree by boardings only, and the trip at hand
/// was caught at a stop that the ride has passed.
proof fn lemma_ride_route_boards(
    net: Network,
    earlier: Map<Stop, Tau>,
    k: K,
    pt: Stop,
    route: Route,
    start: Stop,
    state: State,
    n: nat,
)
    requires
        n <= (net.stops_after)(route, start).len(),
    ensures
        ({
            let stops = (net.stops_after)(route, start);
            let ride = ride_route(net, earlier, k, pt, route, start, state, stops, n);
            &&& extends(net, earlier, k, state.tree, ride.state.tree)
            &&& ride.trip is Some ==> exists|i: int| #[trigger]
                seated(net, earlier, route, stops, ride, n, i)
        }),
    decreases n,
{
    let stops = (net.stops_after)(route, start);
    if n > 0 {
        let ride = ride_route(net, earlier, k, pt, route, start, state, stops, (n - 1) as nat);
        let stop = stops[n - 1];
        let next = visit(net, earlier, k, pt, route, ride, stop);
        lemma_ride_route_boards(net, earlier, k, pt, route, start, state, (n - 1) as nat);
        if ride.trip is Some {
            let i = choose|i: int| #[trigger]
                seated(net, earlier, route, stops, ride, (n - 1) as nat, i);
            assert(passes(net, route, start, i, n - 1, ride.board, stop));
            assert(boarded(net, earlier, route, ride.board, stop));
        }
        assert forall|key: (K, Stop)| #[trigger] next.state.tree.contains_key(key) implies (
        state.tree.contains_key(key) && next.state.tree[key] == state.tree[key]) || (key.0 == k
            && boarded(net, earlier, next.state.tree[key].1, next.state.tree[key].0, key.1)) by {
            if key == (k, stop) && next.state.tree != ride.state.tree {
            } else {
                assert(ride.state.tree.contains_key(key));
                assert(next.state.tree[key] == ride.state.tree[key]);
            }
        }
        if next.trip is Some {
            if label(earlier, stop) <= (match ride.trip {
                Some(trip) => (net.departure_time)(trip, stop),
                None => usize::MAX,
            }) {
                assert(seated(net, earlier, route, stops, next, n, n - 1));
            } else {
                let i = choose|i: int| #[trigger]
                    seated(net, earlier, route, stops, ride, (n - 1) as nat, i);
                assert(seated(net, earlier, route, stops, next, n, i));
            }
        }
    }
}

/// Stage two extends the boarding tree by boardings only.
proof fn lemma_ride_routes_boards(
    net: Network,
    earlier: Map<Stop, Tau>,
    k: K,
    pt: Stop,
    queue: Seq<(Route, Stop)>,
    state: State,
    n: nat,
)
    ensures
        extends(net, earlier, k, state.tree, ride_routes(net, earlier, k, pt, queue, state, n).tree),
    decreases n,
{
    if n > 0 {
        let before = ride_routes(net, earlier, k, pt, queue, state, (n - 1) as nat);
        lemma_ride_routes_boards(net, earlier, k, pt, queue, state, (n - 1) as nat);
        let (route, start) = queue[n - 1];
        let stops = (net.stops_after)(route, start);
        lemma_ride_route_boards(net, earlier, k, pt, route, start, before, stops.len());
        lemma_extends_on(
            net,
            earlier,
            k,
            state.tree,
            before.tree,
            ride_route(net, earlier, k, pt, route, start, before, stops, stops.len()).state.tree,
        );
    }
}

/// Every entry of the boarding tree stands for a boarding in the round that
/// wrote it.
pub open spec fn sound(
    net: Network,
    tau: Tau,
    ps: Stop,
    pt: Stop,
    tree: Map<(K, Stop), (Stop, Route)>,
) -> bool {
    forall|key: (K, Stop)| #[trigger]
        tree.contains_key(key) ==> key.0 >= 1 && boarded(
            net,
            state_after(net, tau, ps, pt, (key.0 - 1) as nat).labels,
            tree[key].1,
            tree[key].0,
            key.1,
        )
}

/// The boarding tree of a query is sound after any number of rounds.
pub proof fn lemma_sound_tree(net: Network, tau: Tau, ps: Stop, pt: Stop, k: nat)
    requires
        k <= usize::MAX,
    ensures
        sound(net, tau, ps, pt, state_after(net, tau, ps, pt, k).tree),
    decreases k,
{
    lemma_state_after(net, tau, ps, pt, k);
    if k > 0 {
        let before = state_after(net, tau, ps, pt, (k - 1) as nat);
        let after = state_after(net, tau, ps, pt, k);
        lemma_sound_tree(net, tau, ps, pt, (k - 1) as nat);
        lemma_state_after(net, tau, ps, pt, (k - 1) as nat);
        let marked = ascending(before.marked);
        let queue = entries(collect_routes(net, marked, marked.len()));
        let ridden = ride_routes(
            net,
            before.labels,
            k as usize,
            pt,
            queue,
            cleared(before),
            queue.len(),
        );
        let improved = ascending(ridden.marked);
        lemma_ride_routes_boards(
            net,
            before.labels,
            k as usize,
            pt,
            queue,
            cleared(before),
            queue.len(),
        );
        lemma_ride_routes(net, before.labels, k as usize, pt, queue, cleared(before), queue.len());
        lemma_walk_all(net, ridden, improved, improved.len(), k as usize);
        assert(after.tree == ridden.tree);
        assert forall|key: (K, Stop)| #[trigger] after.tree.contains_key(key) implies key.0 >= 1
            && boarded(
            net,
            state_after(net, tau, ps, pt, (key.0 - 1) as nat).labels,
            after.tree[key].1,
            after.tree[key].0,
            key.1,
        ) by {
            if before.tree.contains_key(key) && after.tree[key] == before.tree[key] {
            } else {
                assert(key.0 == k);
            }
        }
    }
}

/// The timetable knows no footpaths.
pub open spec fn no_footpaths(net: Network) -> bool {
    forall|stop: Stop| (#[trigger] (net.footpaths_from)(stop)).len() == 0
}

/// The trip of `route` that is caught at `board` in a round that began with
/// the labels `earlier`.
pub open spec fn caught(net: Network, earlier: Map<Stop, Tau>, route: Route, board: Stop) -> Option<
    Trip,
> {
    (net.earliest_trip)(route, label(earlier, board), board)
}

/// The trip at hand on a ride is the one that was caught at the boarding
/// stop.
pub open spec fn on_board(net: Network, earlier: Map<Stop, Tau>, route: Route, ride: Ride) -> bool {
    ride.trip is Some ==> ride.trip == caught(net, earlier, route, ride.board)
}

/// Where the tree holds an entry of round `k` for `stop`, the label of the
/// stop is the arrival there of the trip that the entry stands for.
pub open spec fn recorded_at(
    net: Network,
    earlier: Map<Stop, Tau>,
    k: K,
    tree: Map<(K, Stop), (Stop, Route)>,
    labels: Map<Stop, Tau>,
    stop: Stop,
) -> bool {
    tree.contains_key((k, stop)) ==> {
        let (board, route) = tree[(k, stop)];
        &&& caught(net, earlier, route, board) is Some
        &&& label(labels, stop) == (net.arrival_time)(
            caught(net, earlier, route, board)->0,
            stop,
        )
    }
}

/// The labels of the stops that round `k` has an entry for are the
/// arrivals of the trips that the entries stand for.
pub open spec fn recorded(net: Network, earlier: Map<Stop, Tau>, k: K, state: State) -> bool {
    forall|stop: Stop| #[trigger] recorded_at(net, earlier, k, state.tree, state.labels, stop)
}

/// A visit keeps the labels of the stops of the round in line with its
/// entries.
proof fn lemma_visit_records(
    net: Network,
    earlier: Map<Stop, Tau>,
    k: K,
    pt: Stop,
    route: Route,
    ride: Ride,
    stop: Stop,
)
    requires
        on_board(net, earlier, route, ride),
        recorded(net, earlier, k, ride.state),
    ensures
        on_board(net, earlier, route, visit(net, earlier, k, pt, route, ride, stop)),
        recorded(net, earlier, k, visit(net, earlier, k, pt, route, ride, stop).state),
{
    let after = visit(net, earlier, k, pt, route, ride, stop).state;
    assert forall|other: Stop| #[trigger]
        recorded_at(net, earlier, k, after.tree, after.labels, other) by {
        assert(recorded_at(net, earlier, k, ride.state.tree, ride.state.labels, other));
    }
}

/// A ride keeps the labels of the stops of the round in line with its
/// entries.
proof fn lemma_ride_route_records(
    net: Network,
    earlier: Map<Stop, Tau>,
    k: K,
    pt: Stop,
    route: Route,
    start: Stop,
    state: State,
    stops: Seq<Stop>,
    n: nat,
)
    requires
        recorded(net, earlier, k, state),
    ensures
        on_board(
            net,
            earlier,
            route,
            ride_route(net, earlier, k, pt, route, start, state, stops, n),
        ),
        recorded(
            net,
            earlier,
            k,
            ride_route(net, earlier, k, pt, route, start, state, stops, n).state,
        ),
    decreases n,
{
    if n > 0 {
        lemma_ride_route_records(net, earlier, k, pt, route, start, state, stops, (n - 1) as nat);
        lemma_visit_records(
            net,
            earlier,
            k,
            pt,
            route,
            ride_route(net, earlier, k, pt, route, start, state, stops, (n - 1) as nat),
            stops[n - 1],
        );
    }
}

/// Stage two keeps the labels of the stops of the round in line with its
/// entries.
proof fn lemma_ride_routes_records(
    net: Network,
    earlier: Map<Stop, Tau>,
    k: K,
    pt: Stop,
    queue: Seq<(Route, Stop)>,
    state: State,
    n: nat,
)
    requires
        recorded(net, earlier, k, state),
    ensures
        recorded(net, earlier, k, ride_routes(net, earlier, k, pt, queue, state, n)),
    decreases n,
{
    if n > 0 {
        lemma_ride_routes_records(net, earlier, k, pt, queue, state, (n - 1) as nat);
        let (route, start) = queue[n - 1];
        let stops = (net.stops_after)(route, start);
        lemma_ride_route_records(
            net,
            earlier,
            k,
            pt,
            route,
            start,
            ride_routes(net, earlier, k, pt, queue, state, (n - 1) as nat),
            stops,
            stops.len(),
        );
    }
}

/// Where there are no footpaths, walking changes nothing.
pub proof fn lemma_no_walks(net: Network, state: State, sources: Seq<Stop>, n: nat)
    requires
        no_footpaths(net),
    ensures
        walk_all(net, state, sources, n) == state,
    decreases n,
{
    if n > 0 {
        lemma_no_walks(net, state, sources, (n - 1) as nat);
        assert((net.footpaths_from)(sources[n - 1]).len() == 0);
    }
}

/// Where there are no footpaths, the labels of the stops that a round has an
/// entry for are, after that round and in every tree after it, the arrivals
/// of the trips that the entries stand for.
pub proof fn lemma_recorded(
    net: Network,
    tau: Tau,
    ps: Stop,
    pt: Stop,
    k: nat,
    n: nat,
    stop: Stop,
)
    requires
        no_footpaths(net),
        1 <= k <= n <= usize::MAX,
    ensures
        recorded_at(
            net,
            state_after(net, tau, ps, pt, (k - 1) as nat).labels,
            k as usize,
            state_after(net, tau, ps, pt, n).tree,
            state_after(net, tau, ps, pt, k).labels,
            stop,
        ),
    decreases n,
{
    let before = state_after(net, tau, ps, pt, (n - 1) as nat);
    let after = state_after(net, tau, ps, pt, n);
    let marked = ascending(before.marked);
    let queue = entries(collect_routes(net, marked, marked.len()));
    let ridden = ride_routes(net, before.labels, n as usize, pt, queue, cleared(before), queue.len());
    let improved = ascending(ridden.marked);
    lemma_no_walks(net, ridden, improved, improved.len());
    lemma_state_after(net, tau, ps, pt, (n - 1) as nat);
    if k == n {
        assert forall|other: Stop| #[trigger]
            recorded_at(
                net,
                before.labels,
                n as usize,
                cleared(before).tree,
                cleared(before).labels,
                other,
            ) by {
            if before.tree.contains_key((n as usize, other)) {
            }
        }
        lemma_ride_routes_records(
            net,
            before.labels,
            n as usize,
            pt,
            queue,
            cleared(before),
            queue.len(),
        );
        assert(recorded_at(net, before.labels, n as usize, ridden.tree, ridden.labels, stop));
    } else {
        lemma_recorded(net, tau, ps, pt, k, (n - 1) as nat, stop);
        lemma_ride_routes_boards(
            net,
            before.labels,
            n as usize,
            pt,
            queue,
            cleared(before),
            queue.len(),
        );
        if after.tree.contains_key((k as usize, stop)) {
            assert(before.tree.contains_key((k as usize, stop)));
        }
    }
}

} // verus!
