use raptor::{Journey, Route, Stop, Tau, Timetable, Trip};
use std::cell::RefCell;

// A single route over the stops 0 to 9, with one trip that reaches stop `s`
// at `10 s` and leaves it five seconds later.
struct SingleRoute;

impl Timetable for SingleRoute {
    fn get_routes_serving_stop(&self, _stop: Stop) -> Vec<Route> {
        vec![0]
    }

    fn get_earlier_stop(&self, _route: Route, left: Stop, right: Stop) -> Stop {
        left.min(right)
    }

    fn get_stops_after(&self, _route: Route, stop: Stop) -> Vec<Stop> {
        if stop == 9 {
            return vec![];
        }
        (stop..10).collect()
    }

    fn get_earliest_trip(&self, _route: Route, at: Tau, stop: Stop) -> Option<Trip> {
        if at < self.get_departure_time(0, stop) {
            Some(0)
        } else {
            None
        }
    }

    fn get_arrival_time(&self, _trip: Trip, stop: Stop) -> Tau {
        stop * 10
    }

    fn get_departure_time(&self, _trip: Trip, stop: Stop) -> Tau {
        (stop * 10) + 5
    }

    fn get_footpaths_from(&self, _stop: Stop) -> Vec<Stop> {
        vec![]
    }

    fn get_transfer_time(&self, _from: Stop, _to: Stop) -> Tau {
        1
    }
}

const R1_STOPS: [Stop; 4] = [2, 10, 11, 9];

fn place_on_r1(stop: Stop) -> usize {
    R1_STOPS.iter().position(|&s| s == stop).unwrap()
}

// Route 0 over the stops 0 to 9 and route 1 over 2, 10, 11, 9, each with one
// trip; the trip of route 1 is the faster one between 2 and 9.
struct TwoRoutes;

impl Timetable for TwoRoutes {
    fn get_routes_serving_stop(&self, stop: Stop) -> Vec<Route> {
        let mut routes = vec![];
        if (0..10).contains(&stop) {
            routes.push(0);
        }
        if R1_STOPS.contains(&stop) {
            routes.push(1);
        }
        routes
    }

    fn get_earlier_stop(&self, route: Route, left: Stop, right: Stop) -> Stop {
        if route == 0 {
            left.min(right)
        } else {
            R1_STOPS[place_on_r1(left).min(place_on_r1(right))]
        }
    }

    fn get_stops_after(&self, route: Route, stop: Stop) -> Vec<Stop> {
        if route == 0 {
            if stop == 9 {
                return vec![];
            }
            (stop..10).collect()
        } else {
            R1_STOPS[place_on_r1(stop)..].to_vec()
        }
    }

    fn get_earliest_trip(&self, route: Route, at: Tau, stop: Stop) -> Option<Trip> {
        if at < self.get_departure_time(route, stop) {
            Some(route)
        } else {
            None
        }
    }

    fn get_arrival_time(&self, trip: Trip, stop: Stop) -> Tau {
        if trip == 0 {
            stop * 10
        } else {
            (place_on_r1(stop) + 2) * 10
        }
    }

    fn get_departure_time(&self, trip: Trip, stop: Stop) -> Tau {
        self.get_arrival_time(trip, stop) + 5
    }

    fn get_footpaths_from(&self, stop: Stop) -> Vec<Stop> {
        if stop == 2 {
            vec![2]
        } else {
            vec![]
        }
    }

    fn get_transfer_time(&self, _from: Stop, _to: Stop) -> Tau {
        1
    }
}

const S: Stop = 0;
const A: Stop = 1;
const B: Stop = 2;
const C: Stop = 3;
const D: Stop = 4;
const R1: Route = 1;
const R2: Route = 2;
const R3: Route = 3;
const MAX: Tau = usize::MAX;

fn line(route: Route) -> Vec<Stop> {
    match route {
        R1 => vec![S, A],
        R2 => vec![S, B],
        R3 => vec![A, B, C, D],
        _ => vec![],
    }
}

// R1 runs slowly from S to A, R2 fast from S to B, and R3 from A over B and
// C to D with a late trip 31 and an early trip 32. The early trip can only be
// caught at B.
struct ThreeRoutes;

impl Timetable for ThreeRoutes {
    fn get_routes_serving_stop(&self, stop: Stop) -> Vec<Route> {
        match stop {
            S => vec![R1, R2],
            A => vec![R1, R3],
            B => vec![R2, R3],
            C | D => vec![R3],
            _ => vec![],
        }
    }

    fn get_earlier_stop(&self, route: Route, left: Stop, right: Stop) -> Stop {
        let order = line(route);
        let l = order.iter().position(|&s| s == left);
        let r = order.iter().position(|&s| s == right);
        match (l, r) {
            (Some(l), Some(r)) => order[l.min(r)],
            (None, Some(r)) => order[r],
            _ => left,
        }
    }

    fn get_stops_after(&self, route: Route, stop: Stop) -> Vec<Stop> {
        let order = line(route);
        let from = order.iter().position(|&s| s == stop).unwrap_or(0);
        order[from..].to_vec()
    }

    fn get_earliest_trip(&self, route: Route, at: Tau, stop: Stop) -> Option<Trip> {
        let candidates: Vec<Trip> = match route {
            R1 => vec![10],
            R2 => vec![20],
            R3 => vec![32, 31],
            _ => vec![],
        };
        candidates.into_iter().find(|&trip| {
            let leaves = self.get_departure_time(trip, stop);
            leaves != MAX && at <= leaves
        })
    }

    fn get_arrival_time(&self, trip: Trip, stop: Stop) -> Tau {
        match (trip, stop) {
            (10, A) => 100,
            (20, B) => 30,
            (31, B) => 110,
            (31, C) => 120,
            (31, D) => 130,
            (32, B) => 30,
            (32, C) => 40,
            (32, D) => 50,
            _ => MAX,
        }
    }

    fn get_departure_time(&self, trip: Trip, stop: Stop) -> Tau {
        match (trip, stop) {
            (10, S) => 0,
            (20, S) => 0,
            (31, A) => 105,
            (31, B) => 110,
            (31, C) => 120,
            (32, A) => 25,
            (32, B) => 30,
            (32, C) => 40,
            _ => MAX,
        }
    }

    fn get_footpaths_from(&self, _stop: Stop) -> Vec<Stop> {
        vec![]
    }

    fn get_transfer_time(&self, _from: Stop, _to: Stop) -> Tau {
        1
    }
}

// Two routes that share no stop: 0 over the stops 0, 1, 2 and 1 over 5, 6.
struct Disjoint;

impl Timetable for Disjoint {
    fn get_routes_serving_stop(&self, stop: Stop) -> Vec<Route> {
        match stop {
            0..=2 => vec![0],
            5 | 6 => vec![1],
            _ => vec![],
        }
    }

    fn get_earlier_stop(&self, _route: Route, left: Stop, right: Stop) -> Stop {
        left.min(right)
    }

    fn get_stops_after(&self, route: Route, stop: Stop) -> Vec<Stop> {
        if route == 0 {
            (stop..3).collect()
        } else {
            (stop..7).collect()
        }
    }

    fn get_earliest_trip(&self, route: Route, at: Tau, stop: Stop) -> Option<Trip> {
        if at <= self.get_departure_time(route, stop) {
            Some(route)
        } else {
            None
        }
    }

    fn get_arrival_time(&self, _trip: Trip, stop: Stop) -> Tau {
        stop * 10
    }

    fn get_departure_time(&self, _trip: Trip, stop: Stop) -> Tau {
        stop * 10
    }

    fn get_footpaths_from(&self, _stop: Stop) -> Vec<Stop> {
        vec![]
    }

    fn get_transfer_time(&self, _from: Stop, _to: Stop) -> Tau {
        1
    }
}

// Route 0 runs from 0 to the target 1 in ten seconds. Route 1 runs from 0
// over 2 to 3 and reaches both after that, and route 2 leaves from 2.
// What the search asks is written down.
struct Watched {
    asked_for_routes: RefCell<Vec<Stop>>,
    rides: RefCell<usize>,
}

impl Watched {
    fn new() -> Self {
        Watched { asked_for_routes: RefCell::new(vec![]), rides: RefCell::new(0) }
    }
}

impl Timetable for Watched {
    fn get_routes_serving_stop(&self, stop: Stop) -> Vec<Route> {
        self.asked_for_routes.borrow_mut().push(stop);
        match stop {
            0 => vec![0, 1],
            1 => vec![0],
            2 => vec![1, 2],
            3 => vec![1],
            4 => vec![2],
            _ => vec![],
        }
    }

    fn get_earlier_stop(&self, route: Route, left: Stop, right: Stop) -> Stop {
        let order = self.get_stops_after(route, usize::MAX);
        let l = order.iter().position(|&s| s == left).unwrap();
        let r = order.iter().position(|&s| s == right).unwrap();
        order[l.min(r)]
    }

    fn get_stops_after(&self, route: Route, stop: Stop) -> Vec<Stop> {
        let order: Vec<Stop> = match route {
            0 => vec![0, 1],
            1 => vec![0, 2, 3],
            _ => vec![2, 4],
        };
        if stop == usize::MAX {
            return order;
        }
        *self.rides.borrow_mut() += 1;
        let from = order.iter().position(|&s| s == stop).unwrap();
        order[from..].to_vec()
    }

    fn get_earliest_trip(&self, route: Route, at: Tau, stop: Stop) -> Option<Trip> {
        if at <= self.get_departure_time(route, stop) {
            Some(route)
        } else {
            None
        }
    }

    fn get_arrival_time(&self, _trip: Trip, stop: Stop) -> Tau {
        match stop {
            1 => 10,
            2 => 50,
            3 => 60,
            4 => 70,
            _ => 0,
        }
    }

    fn get_departure_time(&self, trip: Trip, stop: Stop) -> Tau {
        self.get_arrival_time(trip, stop)
    }

    fn get_footpaths_from(&self, _stop: Stop) -> Vec<Stop> {
        vec![]
    }

    fn get_transfer_time(&self, _from: Stop, _to: Stop) -> Tau {
        1
    }
}

// One route from 0 to 1, and footpaths from 0 to 5 and from 1 to 6 and 7.
struct Walks {
    slow: Tau,
}

impl Timetable for Walks {
    fn get_routes_serving_stop(&self, stop: Stop) -> Vec<Route> {
        if stop <= 1 {
            vec![0]
        } else {
            vec![]
        }
    }

    fn get_earlier_stop(&self, _route: Route, left: Stop, right: Stop) -> Stop {
        left.min(right)
    }

    fn get_stops_after(&self, _route: Route, stop: Stop) -> Vec<Stop> {
        (stop..2).collect()
    }

    fn get_earliest_trip(&self, _route: Route, at: Tau, stop: Stop) -> Option<Trip> {
        if at <= self.get_departure_time(0, stop) {
            Some(0)
        } else {
            None
        }
    }

    fn get_arrival_time(&self, _trip: Trip, stop: Stop) -> Tau {
        100 * stop
    }

    fn get_departure_time(&self, _trip: Trip, stop: Stop) -> Tau {
        100 * stop + 50
    }

    fn get_footpaths_from(&self, stop: Stop) -> Vec<Stop> {
        match stop {
            0 => vec![5],
            1 => vec![6, 7],
            _ => vec![],
        }
    }

    fn get_transfer_time(&self, _from: Stop, to: Stop) -> Tau {
        if to == 7 {
            self.slow
        } else {
            20
        }
    }
}

fn plans(journeys: &[Journey<Route, Stop>]) -> Vec<Vec<(Route, Stop)>> {
    journeys.iter().map(|journey| journey.plan.clone()).collect()
}

fn arrivals(journeys: &[Journey<Route, Stop>]) -> Vec<Tau> {
    journeys.iter().map(|journey| journey.arrival).collect()
}

#[test]
fn single_route_gives_one_direct_journey() {
    let journeys = SingleRoute.raptor(10, 0, 0, 9);
    assert_eq!(plans(&journeys), vec![vec![(0, 0)]]);
    assert_eq!(arrivals(&journeys), vec![90]);
}

#[test]
fn single_route_from_a_later_stop() {
    let journeys = SingleRoute.raptor(10, 0, 3, 7);
    assert_eq!(plans(&journeys), vec![vec![(0, 3)]]);
    assert_eq!(arrivals(&journeys), vec![70]);
}

#[test]
fn single_route_missed_trip_gives_nothing() {
    assert!(SingleRoute.raptor(10, 36, 3, 7).is_empty());
}

#[test]
fn no_transfers_allowed_gives_nothing() {
    assert!(SingleRoute.raptor(0, 0, 0, 9).is_empty());
}

#[test]
fn source_equal_to_target_gives_nothing() {
    assert!(SingleRoute.raptor(10, 0, 4, 4).is_empty());
}

#[test]
fn two_routes_give_the_direct_journey_and_the_transfer() {
    let journeys = TwoRoutes.raptor(10, 0, 1, 9);
    assert_eq!(plans(&journeys), vec![vec![(0, 1)], vec![(0, 1), (1, 2)]]);
    assert_eq!(arrivals(&journeys), vec![90, 50]);
}

#[test]
fn two_routes_with_one_trip_allowed_give_only_the_direct_journey() {
    let journeys = TwoRoutes.raptor(1, 0, 1, 9);
    assert_eq!(plans(&journeys), vec![vec![(0, 1)]]);
    assert_eq!(arrivals(&journeys), vec![90]);
}

#[test]
fn disjoint_routes_give_nothing() {
    assert!(Disjoint.raptor(10, 0, 0, 6).is_empty());
    assert!(Disjoint.raptor(10, 0, 5, 2).is_empty());
}

#[test]
fn the_true_boarding_stop_is_kept() {
    let journeys = ThreeRoutes.raptor(3, 0, S, D);
    assert_eq!(plans(&journeys), vec![vec![(R2, S), (R3, B)]]);
    assert_eq!(arrivals(&journeys), vec![50]);
    assert!(!plans(&journeys).contains(&vec![(R1, S), (R3, A)]));
}

#[test]
fn stops_reached_after_the_target_are_not_extended() {
    let watched = Watched::new();
    let journeys = watched.raptor(5, 0, 0, 1);
    assert_eq!(plans(&journeys), vec![vec![(0, 0)]]);
    assert_eq!(arrivals(&journeys), vec![10]);
    let asked = watched.asked_for_routes.borrow();
    assert!(asked.contains(&0));
    assert!(!asked.contains(&2));
    assert!(!asked.contains(&3));
    assert!(!asked.contains(&4));
}

#[test]
fn the_search_ends_with_the_first_round_that_improves_nothing() {
    let few = Watched::new();
    let found_few = few.raptor(2, 0, 0, 1);
    let many = Watched::new();
    let found_many = many.raptor(1_000_000, 0, 0, 1);
    assert_eq!(plans(&found_few), plans(&found_many));
    assert_eq!(arrivals(&found_few), arrivals(&found_many));
    assert_eq!(*few.asked_for_routes.borrow(), *many.asked_for_routes.borrow());
    assert_eq!(*few.rides.borrow(), *many.rides.borrow());
    assert_eq!(*few.rides.borrow(), 3);
}

#[test]
fn more_rounds_than_needed_change_nothing() {
    assert_eq!(
        plans(&TwoRoutes.raptor(2, 0, 1, 9)),
        plans(&TwoRoutes.raptor(usize::MAX, 0, 1, 9))
    );
    assert_eq!(
        arrivals(&ThreeRoutes.raptor(2, 0, S, D)),
        arrivals(&ThreeRoutes.raptor(usize::MAX, 0, S, D))
    );
}

#[test]
fn the_same_query_gives_the_same_journeys() {
    let first = TwoRoutes.raptor(10, 0, 1, 9);
    let second = TwoRoutes.raptor(10, 0, 1, 9);
    assert_eq!(plans(&first), plans(&second));
    assert_eq!(arrivals(&first), arrivals(&second));
}

#[test]
fn more_trips_never_arrive_later() {
    let found = arrivals(&TwoRoutes.raptor(10, 0, 1, 9));
    for pair in found.windows(2) {
        assert!(pair[1] <= pair[0]);
    }
}

#[test]
fn plans_begin_at_the_source_and_hang_together() {
    for (timetable_plans, ps, pt) in [
        (plans(&TwoRoutes.raptor(10, 0, 1, 9)), 1, 9),
        (plans(&SingleRoute.raptor(10, 0, 0, 9)), 0, 9),
    ] {
        for plan in timetable_plans {
            assert_eq!(plan[0].1, ps);
            for i in 0..plan.len() {
                let (route, board) = plan[i];
                let left = if i + 1 < plan.len() { plan[i + 1].1 } else { pt };
                assert!(TwoRoutes.get_stops_after(route, board).contains(&left));
            }
        }
    }
    let plan = &plans(&ThreeRoutes.raptor(3, 0, S, D))[0];
    assert_eq!(plan[0].1, S);
    assert!(ThreeRoutes.get_stops_after(plan[0].0, plan[0].1).contains(&plan[1].1));
    assert!(ThreeRoutes.get_stops_after(plan[1].0, plan[1].1).contains(&D));
}

#[test]
fn no_trip_is_boarded_before_its_stop_is_reached() {
    // The transfer at B: B is reached at 30 with R2, and the trip of R3
    // that is caught there leaves at 30.
    let journeys = ThreeRoutes.raptor(3, 0, S, D);
    let plan = &journeys[0].plan;
    let reached = ThreeRoutes.get_arrival_time(20, plan[1].1);
    let caught = ThreeRoutes.get_earliest_trip(plan[1].0, reached, plan[1].1).unwrap();
    assert_eq!(caught, 32);
    assert!(reached <= ThreeRoutes.get_departure_time(caught, plan[1].1));
}

#[test]
fn a_walk_to_the_target_is_left_out_of_the_plans() {
    // Stop 6 is reached on foot only, so no plan ends there.
    assert!(Walks { slow: 20 }.raptor(3, 0, 0, 6).is_empty());
    let journeys = Walks { slow: 20 }.raptor(3, 0, 0, 1);
    assert_eq!(plans(&journeys), vec![vec![(0, 0)]]);
    assert_eq!(arrivals(&journeys), vec![100]);
}

#[test]
fn a_walk_from_a_stop_never_reached_stays_unreached() {
    // With the largest walking time the sum stays at the largest time, and
    // the search goes on as if the stop had not been reached.
    let journeys = Walks { slow: usize::MAX }.raptor(3, 0, 0, 1);
    assert_eq!(arrivals(&journeys), vec![100]);
}

#[test]
fn no_other_way_with_as_many_trips_arrives_earlier() {
    let journeys = ThreeRoutes.raptor(3, 0, S, D);
    let found = journeys[0].arrival;
    // The other way with two trips: R1 to A, then the late trip of R3.
    let at_a = ThreeRoutes.get_arrival_time(10, A);
    let late = ThreeRoutes.get_earliest_trip(R3, at_a, A).unwrap();
    assert!(found <= ThreeRoutes.get_arrival_time(late, D));
    // With one trip the target is not reached at all.
    assert_eq!(ThreeRoutes.get_earliest_trip(R1, 0, S), Some(10));
    assert_eq!(ThreeRoutes.get_arrival_time(10, D), MAX);
    assert_eq!(ThreeRoutes.get_arrival_time(20, D), MAX);
}
