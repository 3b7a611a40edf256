//! What holds of every query.
use crate::journey::{
    lemma_plan_rounds, lemma_plans_len, lemma_trace_end, lemma_trace_entries, left_at, plan_of,
    trace,
};
use crate::feed::{network_of, Schedule};
use crate::optimal::{arrives, lemma_no_journey_beats_the_label, regular, Leg};
use crate::orderly::{lemma_orderly_is_regular, orderly};
use crate::ordered::{entries, lemma_ascending_is};
use crate::progress::{
    caught, lemma_recorded, lemma_round, lemma_sound_tree, lemma_state_after, no_footpaths,
    rides_on,
};
use crate::rounds::{cleared, collect_routes, journeys, label, round, state_after, State};
use crate::timetable::{Network, Route, Stop, Tau, Trip, K};
use vstd::prelude::*;

verus! {

/// With one more trip no stop is reached later: the label of a stop after a
/// round is no later than its label after the round before.
pub proof fn law_labels_never_later(
    net: Network,
    tau: Tau,
    ps: Stop,
    pt: Stop,
    k: nat,
    stop: Stop,
)
    requires
        1 <= k <= usize::MAX,
    ensures
        label(state_after(net, tau, ps, pt, k).labels, stop) <= label(
            state_after(net, tau, ps, pt, (k - 1) as nat).labels,
            stop,
        ),
{
    lemma_state_after(net, tau, ps, pt, (k - 1) as nat);
    lemma_round(net, k as usize, pt, state_after(net, tau, ps, pt, (k - 1) as nat));
}

/// Each trip can be caught: it leaves a stop no earlier than the time from
/// which it was asked for.
pub open spec fn leaves_in_time(net: Network) -> bool {
    forall|route: Route, at: Tau, stop: Stop|
        (#[trigger] (net.earliest_trip)(route, at, stop)) matches Some(trip) ==> (
        net.departure_time)(trip, stop) >= at
}

/// The round in which hop `i` of a plan of `n` hops is taken, where the plan
/// was read back from round `k`.
pub open spec fn round_of(k: K, n: nat, i: int) -> int {
    k - (n - 1 - i)
}

/// The hop `i` of `plan`, the plan of round `k`, is boarded in time: the
/// trip of its route that is the earliest from the moment its boarding stop
/// was reached, in the round before the hop, leaves that stop no earlier.
pub open spec fn boards_in_time(
    net: Network,
    transfers: K,
    tau: Tau,
    ps: Stop,
    pt: Stop,
    k: K,
    plan: Seq<(Route, Stop)>,
    i: int,
) -> bool {
    let round = round_of(k, plan.len(), i);
    let reached = label(state_after(net, tau, ps, pt, (round - 1) as nat).labels, plan[i].1);
    &&& 1 <= k <= transfers
    &&& plan_of(state_after(net, tau, ps, pt, transfers as nat).tree, ps, pt, k) == Some(plan)
    &&& 1 <= round <= k
    &&& (net.earliest_trip)(plan[i].0, reached, plan[i].1) matches Some(trip)
    &&& reached <= (net.departure_time)(trip, plan[i].1)
}

/// No trip is boarded before its stop is reached: each journey is the plan
/// of a round, and at each of its boarding stops the trip that is boarded
/// leaves no earlier than the stop was reached in the round before.
pub proof fn law_no_time_travel(
    net: Network,
    transfers: K,
    tau: Tau,
    ps: Stop,
    pt: Stop,
    x: int,
    i: int,
)
    requires
        leaves_in_time(net),
        0 <= x < journeys(net, transfers, tau, ps, pt).len(),
        0 <= i < journeys(net, transfers, tau, ps, pt)[x].plan.len(),
    ensures
        exists|k: K| #[trigger]
            boards_in_time(
                net,
                transfers,
                tau,
                ps,
                pt,
                k,
                journeys(net, transfers, tau, ps, pt)[x].plan,
                i,
            ),
{
    let tree = state_after(net, tau, ps, pt, transfers as nat).tree;
    let plan = journeys(net, transfers, tau, ps, pt)[x].plan;
    let k = lemma_plan_rounds(tree, ps, pt, transfers, x);
    let back = trace(tree, ps, k, pt);
    let j = back.len() - 1 - i;
    lemma_trace_entries(tree, ps, k, pt, j);
    lemma_sound_tree(net, tau, ps, pt, transfers as nat);
    assert(tree.contains_key(((k - j) as usize, left_at(back, pt, j))));
    assert(boards_in_time(net, transfers, tau, ps, pt, k, plan, i));
}

/// The trip that is boarded with hop `i` of `plan`, the plan of round `k`:
/// the earliest trip of the route of the hop from the moment its boarding
/// stop was reached.
pub open spec fn trip_of(
    net: Network,
    tau: Tau,
    ps: Stop,
    pt: Stop,
    k: K,
    plan: Seq<(Route, Stop)>,
    i: int,
) -> Trip {
    let round = round_of(k, plan.len(), i);
    caught(
        net,
        state_after(net, tau, ps, pt, (round - 1) as nat).labels,
        plan[i].0,
        plan[i].1,
    )->0
}

/// The hops `i - 1` and `i` of `plan`, the plan of round `k`, connect: the
/// trip of the first reaches the stop where the second is boarded no later
/// than the trip of the second leaves it.
pub open spec fn connects(
    net: Network,
    transfers: K,
    tau: Tau,
    ps: Stop,
    pt: Stop,
    k: K,
    plan: Seq<(Route, Stop)>,
    i: int,
) -> bool {
    &&& 1 <= k <= transfers
    &&& plan_of(state_after(net, tau, ps, pt, transfers as nat).tree, ps, pt, k) == Some(plan)
    &&& (net.arrival_time)(trip_of(net, tau, ps, pt, k, plan, i - 1), plan[i].1) <= (
    net.departure_time)(trip_of(net, tau, ps, pt, k, plan, i), plan[i].1)
}

/// The trips of a journey connect: where the timetable knows no footpaths,
/// the trip of each hop reaches the stop where the next hop is boarded no
/// later than the trip of that hop leaves it.
pub proof fn law_trips_connect(
    net: Network,
    transfers: K,
    tau: Tau,
    ps: Stop,
    pt: Stop,
    x: int,
    i: int,
)
    requires
        leaves_in_time(net),
        no_footpaths(net),
        0 <= x < journeys(net, transfers, tau, ps, pt).len(),
        1 <= i < journeys(net, transfers, tau, ps, pt)[x].plan.len(),
    ensures
        exists|k: K| #[trigger]
            connects(
                net,
                transfers,
                tau,
                ps,
                pt,
                k,
                journeys(net, transfers, tau, ps, pt)[x].plan,
                i,
            ),
{
    let tree = state_after(net, tau, ps, pt, transfers as nat).tree;
    let plan = journeys(net, transfers, tau, ps, pt)[x].plan;
    let k = lemma_plan_rounds(tree, ps, pt, transfers, x);
    let back = trace(tree, ps, k, pt);
    let n = back.len();
    lemma_trace_entries(tree, ps, k, pt, n - i);
    lemma_trace_entries(tree, ps, k, pt, n - 1 - i);
    lemma_sound_tree(net, tau, ps, pt, transfers as nat);
    let round = round_of(k, n, i);
    assert(left_at(back, pt, n - i) == plan[i].1);
    assert(tree.contains_key(((round - 1) as usize, plan[i].1)));
    assert(tree.contains_key((round as usize, left_at(back, pt, n - 1 - i))));
    lemma_recorded(net, tau, ps, pt, (round - 1) as nat, transfers as nat, plan[i].1);
    assert(connects(net, transfers, tau, ps, pt, k, plan, i));
}

/// The stop at which hop `i` of a plan for `pt` is left: where the next hop
/// is boarded, or the target after the last hop.
pub open spec fn alights(plan: Seq<(Route, Stop)>, pt: Stop, i: int) -> Stop {
    if i + 1 < plan.len() {
        plan[i + 1].1
    } else {
        pt
    }
}

/// The hops of the plan of a round hang together: the plan begins at the
/// source, and each hop is left at a stop that lies on its route after the
/// stop where it was boarded.
pub proof fn lemma_plan_hangs_together(
    net: Network,
    transfers: K,
    tau: Tau,
    ps: Stop,
    pt: Stop,
    k: K,
    i: int,
)
    requires
        1 <= k <= transfers,
        plan_of(state_after(net, tau, ps, pt, transfers as nat).tree, ps, pt, k) is Some,
        0 <= i < plan_of(state_after(net, tau, ps, pt, transfers as nat).tree, ps, pt, k)->0.len(),
    ensures
        ({
            let plan = plan_of(state_after(net, tau, ps, pt, transfers as nat).tree, ps, pt, k)->0;
            &&& plan[0].1 == ps
            &&& rides_on(net, plan[i].0, plan[i].1, alights(plan, pt, i))
        }),
{
    let tree = state_after(net, tau, ps, pt, transfers as nat).tree;
    let back = trace(tree, ps, k, pt);
    let plan = back.reverse();
    let j = back.len() - 1 - i;
    lemma_trace_end(tree, ps, k, pt);
    lemma_trace_entries(tree, ps, k, pt, j);
    lemma_sound_tree(net, tau, ps, pt, transfers as nat);
    assert(left_at(back, pt, j) == alights(plan, pt, i));
    assert(tree.contains_key(((k - j) as usize, left_at(back, pt, j))));
}

/// The hops of a journey hang together: the plan begins at the source, and
/// each of its hops is left at a stop that lies on the route of the hop
/// after the stop where it was boarded. A hop is left where the next one is
/// boarded, and the last one at the target.
pub proof fn law_hop_continuity(
    net: Network,
    transfers: K,
    tau: Tau,
    ps: Stop,
    pt: Stop,
    x: int,
    i: int,
)
    requires
        0 <= x < journeys(net, transfers, tau, ps, pt).len(),
        0 <= i < journeys(net, transfers, tau, ps, pt)[x].plan.len(),
    ensures
        ({
            let plan = journeys(net, transfers, tau, ps, pt)[x].plan;
            &&& plan[0].1 == ps
            &&& rides_on(net, plan[i].0, plan[i].1, alights(plan, pt, i))
        }),
{
    let tree = state_after(net, tau, ps, pt, transfers as nat).tree;
    let k = lemma_plan_rounds(tree, ps, pt, transfers, x);
    lemma_plan_hangs_together(net, transfers, tau, ps, pt, k, i);
}

/// No journey beats the result: where the timetable is regular, no journey
/// that it allows has at most as many legs as a journey of the result has
/// hops and reaches the target before that one does.
pub proof fn law_pareto(
    net: Network,
    transfers: K,
    tau: Tau,
    ps: Stop,
    pt: Stop,
    x: int,
    legs: Seq<Leg>,
    at: Tau,
)
    requires
        regular(net),
        0 <= x < journeys(net, transfers, tau, ps, pt).len(),
        legs.len() <= journeys(net, transfers, tau, ps, pt)[x].plan.len(),
        arrives(net, tau, ps, pt, legs, at),
    ensures
        journeys(net, transfers, tau, ps, pt)[x].arrival <= at,
{
    let tree = state_after(net, tau, ps, pt, transfers as nat).tree;
    lemma_plans_len(tree, ps, pt, transfers);
    let hops = journeys(net, transfers, tau, ps, pt)[x].plan.len();
    lemma_no_journey_beats_the_label(net, tau, ps, pt, legs, at, hops);
}

/// No journey beats the result over a feed: over the timetable of an
/// orderly schedule no journey that the timetable allows has at most as
/// many legs as a journey of the result has hops and reaches the target
/// before that one does.
pub proof fn law_pareto_of_feeds(
    schedule: Schedule,
    transfers: K,
    tau: Tau,
    ps: Stop,
    pt: Stop,
    x: int,
    legs: Seq<Leg>,
    at: Tau,
)
    requires
        orderly(schedule),
        0 <= x < journeys(network_of(schedule), transfers, tau, ps, pt).len(),
        legs.len() <= journeys(network_of(schedule), transfers, tau, ps, pt)[x].plan.len(),
        arrives(network_of(schedule), tau, ps, pt, legs, at),
    ensures
        journeys(network_of(schedule), transfers, tau, ps, pt)[x].arrival <= at,
{
    lemma_orderly_is_regular(schedule);
    law_pareto(network_of(schedule), transfers, tau, ps, pt, x, legs, at);
}

/// A round that begins with no stop marked changes nothing.
pub proof fn lemma_idle_round(net: Network, k: K, pt: Stop, before: State)
    requires
        before.marked == Set::<Stop>::empty(),
    ensures
        round(net, k, pt, before) == before,
{
    let none = Seq::<Stop>::empty();
    assert(none.to_set() =~= Set::<Stop>::empty());
    lemma_ascending_is(none, Set::empty());
    let routes = collect_routes(net, none, 0);
    assert(routes.dom() =~= Set::<Stop>::empty());
    assert(entries(routes) =~= Seq::<(Route, Stop)>::empty());
    assert(cleared(before) == before);
}

/// Once a round has left no stop marked, the rounds that follow leave the
/// tables as they are: to end the search there changes nothing.
pub proof fn law_early_exit(
    net: Network,
    tau: Tau,
    ps: Stop,
    pt: Stop,
    k: nat,
    n: nat,
)
    requires
        k <= n,
        state_after(net, tau, ps, pt, k).marked == Set::<Stop>::empty(),
    ensures
        state_after(net, tau, ps, pt, n) == state_after(net, tau, ps, pt, k),
    decreases n,
{
    if n > k {
        law_early_exit(net, tau, ps, pt, k, (n - 1) as nat);
        lemma_idle_round(net, n as usize, pt, state_after(net, tau, ps, pt, k));
    }
}

} // verus!
