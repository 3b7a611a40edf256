//! Journeys, and how they are read back from the boarding tree.
use crate::timetable::{Route, Stop, Tau, K};
use std::collections::BTreeMap;
use vstd::prelude::*;

verus! {

broadcast use vstd::laws_cmp::group_laws_cmp;

/// A way from the source to the target: the routes to take, each with the
/// stop to board it at, and the time of arrival at the target.
#[derive(Debug, Clone)]
pub struct Journey<Route, Stop> {
    pub plan: Vec<(Route, Stop)>,
    pub arrival: Tau,
}

/// A journey as contracts speak of it.
pub struct Itinerary<Route, Stop> {
    pub plan: Seq<(Route, Stop)>,
    pub arrival: Tau,
}

impl<Route, Stop> View for Journey<Route, Stop> {
    type V = Itinerary<Route, Stop>;

    open spec fn view(&self) -> Itinerary<Route, Stop> {
        Itinerary { plan: self.plan@, arrival: self.arrival }
    }
}

/// The journeys of a list as contracts speak of them.
pub open spec fn itineraries(journeys: Seq<Journey<Route, Stop>>) -> Seq<Itinerary<Route, Stop>> {
    journeys.map_values(|journey: Journey<Route, Stop>| journey@)
}

/// The plans of a list as contracts speak of them.
pub open spec fn hops(plans: Seq<Vec<(Route, Stop)>>) -> Seq<Seq<(Route, Stop)>> {
    plans.map_values(|plan: Vec<(Route, Stop)>| plan@)
}

/// The hops met on the way back from `from`, reached in round `k`, nearest
/// to the target first. The way back ends at the source `ps`, in round zero,
/// or where the tree holds nothing for the stop at hand.
pub open spec fn trace(
    tree: Map<(K, Stop), (Stop, Route)>,
    ps: Stop,
    k: K,
    from: Stop,
) -> Seq<(Route, Stop)>
    decreases k,
{
    if k == 0 || from == ps || !tree.contains_key((k, from)) {
        Seq::empty()
    } else {
        let (board, route) = tree[(k, from)];
        seq![(route, board)] + trace(tree, ps, (k - 1) as usize, board)
    }
}

/// The stop at which the way back from `from` ends.
pub open spec fn trace_end(tree: Map<(K, Stop), (Stop, Route)>, ps: Stop, k: K, from: Stop) -> Stop
    decreases k,
{
    if k == 0 || from == ps || !tree.contains_key((k, from)) {
        from
    } else {
        trace_end(tree, ps, (k - 1) as usize, tree[(k, from)].0)
    }
}

/// The plan that round `k` gives for the target `pt`: the hops of the way
/// back, source first, where there is at least one and the way ends at the
/// source.
pub open spec fn plan_of(
    tree: Map<(K, Stop), (Stop, Route)>,
    ps: Stop,
    pt: Stop,
    k: K,
) -> Option<Seq<(Route, Stop)>> {
    let back = trace(tree, ps, k, pt);
    if back.len() > 0 && trace_end(tree, ps, k, pt) == ps {
        Some(back.reverse())
    } else {
        None
    }
}

/// The plans of rounds `1` to `n`, by round.
pub open spec fn plans(
    tree: Map<(K, Stop), (Stop, Route)>,
    ps: Stop,
    pt: Stop,
    n: K,
) -> Seq<Seq<(Route, Stop)>>
    decreases n,
{
    if n == 0 {
        Seq::empty()
    } else {
        let before = plans(tree, ps, pt, (n - 1) as usize);
        match plan_of(tree, ps, pt, n) {
            Some(plan) => before.push(plan),
            None => before,
        }
    }
}

/// The hops of `back` in the opposite order.
fn reversed(back: &Vec<(Route, Stop)>) -> (plan: Vec<(Route, Stop)>)
    ensures
        plan@ == back@.reverse(),
{
    let mut plan: Vec<(Route, Stop)> = Vec::new();
    let mut i: usize = back.len();
    while i > 0
        invariant
            i <= back.len(),
            plan.len() == back.len() - i,
            forall|j: int| 0 <= j < plan.len() ==> plan@[j] == back@[back.len() - 1 - j],
        decreases i,
    {
        i = i - 1;
        plan.push(back[i]);
    }
    assert(plan@ =~= back@.reverse());
    plan
}

/// Reads the plans for the target `pt` back from the boarding tree: one for
/// each round from `1` to `transfers` whose way back ends at the source `ps`.
pub fn reconstruct_journey(
    tree: &BTreeMap<(K, Stop), (Stop, Route)>,
    ps: Stop,
    pt: Stop,
    transfers: K,
) -> (found: Vec<Vec<(Route, Stop)>>)
    ensures
        hops(found@) == plans(tree@, ps, pt, transfers),
{
    let mut found: Vec<Vec<(Route, Stop)>> = Vec::new();
    let mut k: usize = 0;
    assert(hops(found@) =~= plans(tree@, ps, pt, 0));
    while k < transfers
        invariant
            k <= transfers,
            hops(found@) == plans(tree@, ps, pt, k),
        decreases transfers - k,
    {
        k = k + 1;
        let mut back: Vec<(Route, Stop)> = Vec::new();
        let mut parent = pt;
        let mut round = k;
        assert(back@ + trace(tree@, ps, round, parent) =~= trace(tree@, ps, k, pt));
        while round > 0
            invariant
                back@ + trace(tree@, ps, round, parent) == trace(tree@, ps, k, pt),
                trace_end(tree@, ps, round, parent) == trace_end(tree@, ps, k, pt),
            ensures
                back@ == trace(tree@, ps, k, pt),
                parent == trace_end(tree@, ps, k, pt),
            decreases round,
        {
            if parent == ps {
                assert(back@ + Seq::<(Route, Stop)>::empty() =~= back@);
                break ;
            }
            match tree.get(&(round, parent)) {
                None => {
                    assert(back@ + Seq::<(Route, Stop)>::empty() =~= back@);
                    break ;
                },
                Some(entry) => {
                    let (board, route) = *entry;
                    let ghost rest = trace(tree@, ps, (round - 1) as usize, board);
                    assert(back@.push((route, board)) + rest =~= back@ + (seq![(route, board)]
                        + rest));
                    back.push((route, board));
                    parent = board;
                },
            }
            round = round - 1;
            if round == 0 {
                assert(back@ + Seq::<(Route, Stop)>::empty() =~= back@);
            }
        }
        let ghost before = found@;
        if back.len() > 0 && parent == ps {
            let plan = reversed(&back);
            found.push(plan);
            assert(hops(found@) =~= hops(before).push(plan@));
        }
    }
    found
}

/// A way back of round `k` has at most `k` hops.
pub proof fn lemma_trace_len(tree: Map<(K, Stop), (Stop, Route)>, ps: Stop, k: K, from: Stop)
    ensures
        trace(tree, ps, k, from).len() <= k,
    decreases k,
{
    if k == 0 || from == ps || !tree.contains_key((k, from)) {
    } else {
        lemma_trace_len(tree, ps, (k - 1) as usize, tree[(k, from)].0);
    }
}

/// Every plan of rounds `1` to `n` has between one and `n` hops.
pub proof fn lemma_plans_len(tree: Map<(K, Stop), (Stop, Route)>, ps: Stop, pt: Stop, n: K)
    ensures
        forall|i: int|
            0 <= i < plans(tree, ps, pt, n).len() ==> 1 <= (#[trigger] plans(
                tree,
                ps,
                pt,
                n,
            )[i]).len() <= n,
    decreases n,
{
    if n > 0 {
        let before = plans(tree, ps, pt, (n - 1) as usize);
        let all = plans(tree, ps, pt, n);
        lemma_plans_len(tree, ps, pt, (n - 1) as usize);
        lemma_trace_len(tree, ps, n, pt);
        assert forall|i: int| 0 <= i < all.len() implies 1 <= (#[trigger] all[i]).len() <= n by {
            if i < before.len() {
                assert(all[i] == before[i]);
            } else {
                assert(all[i] == trace(tree, ps, n, pt).reverse());
            }
        }
    }
}

/// Rounds of which the tree holds nothing give no plan.
pub proof fn lemma_plans_beyond(
    tree: Map<(K, Stop), (Stop, Route)>,
    ps: Stop,
    pt: Stop,
    k: K,
    n: K,
)
    requires
        k <= n,
        forall|key: (K, Stop)| #[trigger] tree.contains_key(key) ==> key.0 <= k,
    ensures
        plans(tree, ps, pt, n) == plans(tree, ps, pt, k),
    decreases n,
{
    if n > k {
        lemma_plans_beyond(tree, ps, pt, k, (n - 1) as usize);
        assert(!tree.contains_key((n, pt)));
    }
}

/// Every journey of a query is the plan of one of its rounds.
pub proof fn lemma_plan_rounds(
    tree: Map<(K, Stop), (Stop, Route)>,
    ps: Stop,
    pt: Stop,
    n: K,
    x: int,
) -> (k: K)
    requires
        0 <= x < plans(tree, ps, pt, n).len(),
    ensures
        1 <= k <= n,
        plan_of(tree, ps, pt, k) == Some(plans(tree, ps, pt, n)[x]),
    decreases n,
{
    let before = plans(tree, ps, pt, (n - 1) as usize);
    if x < before.len() {
        lemma_plan_rounds(tree, ps, pt, (n - 1) as usize, x)
    } else {
        n
    }
}

/// The stop at which hop `j` of a way back is left: the stop the way back
/// began at, or the boarding stop of the hop before.
pub open spec fn left_at(back: Seq<(Route, Stop)>, from: Stop, j: int) -> Stop {
    if j == 0 {
        from
    } else {
        back[j - 1].1
    }
}

/// Each hop of a way back is the entry that the tree holds, one round
/// earlier for each hop, for the stop at which the hop is left.
pub proof fn lemma_trace_entries(
    tree: Map<(K, Stop), (Stop, Route)>,
    ps: Stop,
    k: K,
    from: Stop,
    j: int,
)
    requires
        0 <= j < trace(tree, ps, k, from).len(),
    ensures
        j < k,
        tree.contains_key(((k - j) as usize, left_at(trace(tree, ps, k, from), from, j))),
        tree[((k - j) as usize, left_at(trace(tree, ps, k, from), from, j))] == (
            trace(tree, ps, k, from)[j].1,
            trace(tree, ps, k, from)[j].0,
        ),
    decreases k,
{
    let back = trace(tree, ps, k, from);
    if j > 0 {
        let (board, route) = tree[(k, from)];
        let rest = trace(tree, ps, (k - 1) as usize, board);
        assert(back[j] == rest[j - 1]);
        assert(left_at(back, from, j) == left_at(rest, board, j - 1));
        lemma_trace_entries(tree, ps, (k - 1) as usize, board, j - 1);
    }
}

/// A way back with a hop ends at the boarding stop of its last hop.
pub proof fn lemma_trace_end(tree: Map<(K, Stop), (Stop, Route)>, ps: Stop, k: K, from: Stop)
    requires
        trace(tree, ps, k, from).len() > 0,
    ensures
        trace_end(tree, ps, k, from) == trace(tree, ps, k, from).last().1,
    decreases k,
{
    let (board, route) = tree[(k, from)];
    let rest = trace(tree, ps, (k - 1) as usize, board);
    if rest.len() > 0 {
        lemma_trace_end(tree, ps, (k - 1) as usize, board);
        assert(trace(tree, ps, k, from).last() == rest.last());
    } else {
        assert(trace(tree, ps, k, from) =~= seq![(route, board)]);
        assert(trace_end(tree, ps, (k - 1) as usize, board) == board);
    }
}

} // verus!
