//! The timetable: what the router asks of a transit network.
use crate::engine::{depart, improve, lookup, stroll};
use crate::journey::{
    hops, itineraries, lemma_plans_beyond, lemma_plans_len, reconstruct_journey, Itinerary,
    Journey,
};
use crate::laws::law_early_exit;
use crate::ordered::{elements, sorted_entries};
use crate::progress::lemma_state_after;
use crate::rounds::{
    collect_routes, journeys, label, note_routes, ride_route, ride_routes, state_after, walk_all,
    walk_from, Ride,
};
use std::collections::{BTreeMap, BTreeSet};
use vstd::prelude::*;

verus! {

/// A round of the search: the number of trips taken so far.
pub type K = usize;

/// A time of day, in seconds since midnight.
pub type Tau = usize;

/// A stop of the network.
pub type Stop = usize;

/// A route: an ordered list of stops that all its trips serve in that order.
pub type Route = usize;

/// One vehicle run along a route.
pub type Trip = usize;

/// The time that stands for "never": the label of a stop that was not reached.
pub const UNREACHED: Tau = usize::MAX;

/// The walking time to assume between two stops where none is known.
pub const DEFAULT_TRANSFER_TIME: Tau = 1;

/// What a timetable answers, as functions of the questions.
pub struct Network {
    /// The routes that serve a stop, in the order in which they are handed
    /// out.
    pub routes_serving_stop: spec_fn(Stop) -> Seq<Route>,
    /// Of two stops of a route, the one that comes first along it.
    pub earlier_stop: spec_fn(Route, Stop, Stop) -> Stop,
    /// The stops of a route from a stop on, that stop included, in route
    /// order.
    pub stops_after: spec_fn(Route, Stop) -> Seq<Stop>,
    /// The first trip of a route that leaves a stop at a given time or later.
    pub earliest_trip: spec_fn(Route, Tau, Stop) -> Option<Trip>,
    /// When a trip arrives at a stop.
    pub arrival_time: spec_fn(Trip, Stop) -> Tau,
    /// When a trip leaves a stop.
    pub departure_time: spec_fn(Trip, Stop) -> Tau,
    /// The stops that can be walked to from a stop.
    pub footpaths_from: spec_fn(Stop) -> Seq<Stop>,
    /// The time it takes to walk from one stop to another.
    pub transfer_time: spec_fn(Stop, Stop) -> Tau,
}

/// A route based network, such as the timetable of a metro system.
///
/// Every look-up is a function of the timetable and of its arguments alone:
/// `network` names these functions, and each method answers by them.
pub trait Timetable {
    /// The answers of this timetable. An implementation that is to be
    /// verified says here what its methods return; one that does not is held
    /// to answer by some network that it leaves unnamed.
    open spec fn network(&self) -> Network {
        arbitrary()
    }

    /// The routes that serve `stop`, in any order; none where no route does.
    fn get_routes_serving_stop(&self, stop: Stop) -> (routes: Vec<Route>)
        ensures
            routes@ == (self.network().routes_serving_stop)(stop),
    ;

    /// Of the two stops `left` and `right` of `route`, the one that comes
    /// first along the route.
    fn get_earlier_stop(&self, route: Route, left: Stop, right: Stop) -> (first: Stop)
        ensures
            first == (self.network().earlier_stop)(route, left, right),
    ;

    /// The stops of `route` from `stop` on, `stop` included, in the order of
    /// the route.
    fn get_stops_after(&self, route: Route, stop: Stop) -> (stops: Vec<Stop>)
        ensures
            stops@ == (self.network().stops_after)(route, stop),
    ;

    /// The trip of `route` that leaves `stop` first among those that leave
    /// it at `at` or later; none where no trip does.
    fn get_earliest_trip(&self, route: Route, at: Tau, stop: Stop) -> (trip: Option<Trip>)
        ensures
            trip == (self.network().earliest_trip)(route, at, stop),
    ;

    /// When `trip` arrives at `stop`; never, where it does not call there.
    fn get_arrival_time(&self, trip: Trip, stop: Stop) -> (at: Tau)
        ensures
            at == (self.network().arrival_time)(trip, stop),
    ;

    /// When `trip` leaves `stop`; never, where it does not call there.
    fn get_departure_time(&self, trip: Trip, stop: Stop) -> (at: Tau)
        ensures
            at == (self.network().departure_time)(trip, stop),
    ;

    /// The stops that can be walked to from `stop`.
    fn get_footpaths_from(&self, stop: Stop) -> (stops: Vec<Stop>)
        ensures
            stops@ == (self.network().footpaths_from)(stop),
    ;

    /// The time it takes to walk from `from` to `to`. Where none is known,
    /// `DEFAULT_TRANSFER_TIME` is a fair answer.
    fn get_transfer_time(&self, from: Stop, to: Stop) -> (walk: Tau)
        ensures
            walk == (self.network().transfer_time)(from, to),
    ;

    /// The journeys that leave `ps` at `tau` for `pt` with at most
    /// `transfers` trips, by increasing number of trips.
    ///
    /// The search runs one round for each further trip and ends early once
    /// a round reaches no stop earlier than before. Each round in which a
    /// trip reaches the target earlier than all trips before gives a
    /// journey: the plan is read back from the boarding tree, and the
    /// arrival is the label of the target after as many rounds as the plan
    /// has hops. Footpaths enter the arrival times and are left out of the
    /// plans. A target that no trip reaches gives no journey.
    fn raptor(&self, transfers: usize, tau: usize, ps: Stop, pt: Stop) -> (found: Vec<
        Journey<Route, Stop>,
    >)
        ensures
            itineraries(found@) == journeys(self.network(), transfers, tau, ps, pt),
    {
        let ghost net = self.network();
        let mut search = depart(tau, ps);
        let targets = self.get_footpaths_from(ps);
        let ghost begun = search@;
        let mut j: usize = 0;
        while j < targets.len()
            invariant
                net == self.network(),
                j <= targets.len(),
                search@ == walk_from(net, begun, ps, targets@, j as nat),
            decreases targets.len() - j,
        {
            let to = targets[j];
            let walk = self.get_transfer_time(ps, to);
            let candidate = lookup(&search.labels, ps).saturating_add(walk);
            stroll(&mut search, to, candidate);
            j = j + 1;
        }
        let mut arrivals: Vec<Tau> = Vec::new();
        arrivals.push(lookup(&search.labels, pt));
        let mut k: usize = 0;
        while k < transfers && !search.marked.is_empty()
            invariant
                net == self.network(),
                k <= transfers,
                search@ == state_after(net, tau, ps, pt, k as nat),
                arrivals.len() == k + 1,
                forall|r: int|
                    0 <= r <= k ==> #[trigger] arrivals@[r] == label(
                        state_after(net, tau, ps, pt, r as nat).labels,
                        pt,
                    ),
            decreases transfers - k,
        {
            k = k + 1;
            // Stage one: the routes that pass a marked stop.
            let marked = elements(&search.marked);
            let mut routes: BTreeMap<Route, Stop> = BTreeMap::new();
            let mut i: usize = 0;
            while i < marked.len()
                invariant
                    net == self.network(),
                    i <= marked.len(),
                    routes@ == collect_routes(net, marked@, i as nat),
                decreases marked.len() - i,
            {
                let stop = marked[i];
                let serving = self.get_routes_serving_stop(stop);
                let ghost noted = routes@;
                let mut j: usize = 0;
                while j < serving.len()
                    invariant
                        net == self.network(),
                        j <= serving.len(),
                        routes@ == note_routes(net, noted, stop, serving@, j as nat),
                    decreases serving.len() - j,
                {
                    let route = serving[j];
                    let held = match routes.get(&route) {
                        Some(held) => *held,
                        None => stop,
                    };
                    let first = self.get_earlier_stop(route, stop, held);
                    routes.insert(route, first);
                    j = j + 1;
                }
                i = i + 1;
            }
            let queue = sorted_entries(&routes);
            let earlier = search.labels.clone();
            search.marked = BTreeSet::new();
            // Stage two: a ride along each of them.
            let ghost cleared = search@;
            let mut i: usize = 0;
            while i < queue.len()
                invariant
                    net == self.network(),
                    i <= queue.len(),
                    search@ == ride_routes(net, earlier@, k, pt, queue@, cleared, i as nat),
                decreases queue.len() - i,
            {
                let (route, start) = queue[i];
                let stops = self.get_stops_after(route, start);
                let ghost entered = search@;
                let mut trip: Option<Trip> = None;
                let mut board = start;
                let mut j: usize = 0;
                while j < stops.len()
                    invariant
                        net == self.network(),
                        j <= stops.len(),
                        (Ride { state: search@, trip, board }) == ride_route(
                            net,
                            earlier@,
                            k,
                            pt,
                            route,
                            start,
                            entered,
                            stops@,
                            j as nat,
                        ),
                    decreases stops.len() - j,
                {
                    let stop = stops[j];
                    let mut leaves = UNREACHED;
                    if let Some(held) = trip {
                        let arrival = self.get_arrival_time(held, stop);
                        improve(&mut search, k, pt, route, board, stop, arrival);
                        leaves = self.get_departure_time(held, stop);
                    }
                    let reached = lookup(&earlier, stop);
                    if reached <= leaves {
                        trip = self.get_earliest_trip(route, reached, stop);
                        board = stop;
                    }
                    j = j + 1;
                }
                i = i + 1;
            }
            // Stage three: the footpaths that leave an improved stop.
            let improved = elements(&search.marked);
            let ghost ridden = search@;
            let mut i: usize = 0;
            while i < improved.len()
                invariant
                    net == self.network(),
                    i <= improved.len(),
                    search@ == walk_all(net, ridden, improved@, i as nat),
                decreases improved.len() - i,
            {
                let from = improved[i];
                let targets = self.get_footpaths_from(from);
                let ghost begun = search@;
                let mut j: usize = 0;
                while j < targets.len()
                    invariant
                        net == self.network(),
                        j <= targets.len(),
                        search@ == walk_from(net, begun, from, targets@, j as nat),
                    decreases targets.len() - j,
                {
                    let to = targets[j];
                    let walk = self.get_transfer_time(from, to);
                    let candidate = lookup(&search.labels, from).saturating_add(walk);
                    stroll(&mut search, to, candidate);
                    j = j + 1;
                }
                i = i + 1;
            }
            arrivals.push(lookup(&search.labels, pt));
        }
        let plans = reconstruct_journey(&search.tree, ps, pt, k);
        let ghost all = plans@;
        proof {
            if k < transfers {
                assert(search.marked@ =~= Set::<Stop>::empty());
                law_early_exit(net, tau, ps, pt, k as nat, transfers as nat);
            }
            lemma_state_after(net, tau, ps, pt, k as nat);
            assert(search.tree@ == search@.tree);
            lemma_plans_beyond(search.tree@, ps, pt, k, transfers);
            lemma_plans_len(search.tree@, ps, pt, k);
            assert forall|i: int| 0 <= i < all.len() implies (#[trigger] all[i]).len() <= k by {
                assert(hops(all)[i] == all[i]@);
            }
        }
        let mut found: Vec<Journey<Route, Stop>> = Vec::new();
        for plan in it: plans
            invariant
                it.seq() == all,
                found.len() == it.index(),
                arrivals.len() == k + 1,
                forall|i: int| 0 <= i < all.len() ==> (#[trigger] all[i]).len() <= k,
                forall|i: int|
                    0 <= i < found.len() ==> (#[trigger] found@[i])@ == (Itinerary {
                        plan: all[i]@,
                        arrival: arrivals@[all[i].len() as int],
                    }),
        {
            let arrival = arrivals[plan.len()];
            found.push(Journey { plan, arrival });
        }
        proof {
            let wanted = journeys(net, transfers, tau, ps, pt);
            assert(wanted.len() == all.len());
            assert forall|i: int| 0 <= i < all.len() implies itineraries(found@)[i]
                == wanted[i] by {
                assert(hops(all)[i] == all[i]@);
                assert(all[i].len() <= k);
            }
            assert(itineraries(found@) =~= wanted);
        }
        found
    }
}

} // verus!
