use gtfs_structures::Gtfs;
use raptor::{FeedStopTime, FeedTrip, GtfsTimetable, Route, Stop, Tau, Timetable};
use std::sync::Arc;

fn call(stop: &str, sequence: u32, arrival: u32, departure: u32) -> FeedStopTime {
    FeedStopTime {
        stop_id: stop.to_string(),
        stop_sequence: sequence,
        arrival_time: Some(arrival),
        departure_time: Some(departure),
    }
}

fn trip(calls: Vec<FeedStopTime>) -> FeedTrip {
    FeedTrip { stop_times: calls }
}

fn names(stops: &[&str]) -> Vec<String> {
    stops.iter().map(|stop| stop.to_string()).collect()
}

// Ten stops in a row and one trip that reaches stop `s` at `10 s` and leaves
// it five seconds later.
fn linear() -> GtfsTimetable {
    let stops: Vec<String> = (0..10).map(|s| format!("s{s}")).collect();
    let calls = (0..10u32).map(|s| call(&format!("s{s}"), s, 10 * s, 10 * s + 5)).collect();
    GtfsTimetable::from_feed(stops, vec![trip(calls)])
}

// The stops S, A, B, C, D. One trip runs from S to A and one from S to B;
// two run from A over B and C to D, the late one listed first.
fn three_lines() -> GtfsTimetable {
    let late = trip(vec![
        call("A", 1, 105, 105),
        call("B", 2, 110, 110),
        call("C", 3, 120, 120),
        call("D", 4, 130, 130),
    ]);
    let early = trip(vec![
        call("A", 1, 25, 25),
        call("B", 2, 30, 30),
        call("C", 3, 40, 40),
        call("D", 4, 50, 50),
    ]);
    GtfsTimetable::from_feed(
        names(&["S", "A", "B", "C", "D"]),
        vec![
            trip(vec![call("S", 1, 0, 0), call("A", 2, 100, 100)]),
            trip(vec![call("S", 1, 0, 0), call("B", 2, 30, 30)]),
            late,
            early,
        ],
    )
}

const S: Stop = 0;
const A: Stop = 1;
const B: Stop = 2;
const C: Stop = 3;
const D: Stop = 4;
const NEVER: Tau = usize::MAX;

#[test]
fn stops_are_numbered_by_their_place() {
    let timetable = three_lines();
    assert_eq!(timetable.get_stop_idx("S"), Some(0));
    assert_eq!(timetable.get_stop_idx("D"), Some(4));
    assert_eq!(timetable.get_stop_idx("E"), None);
    assert_eq!(timetable.get_stop_idx(""), None);
    assert_eq!(timetable.get_stop_id(0), Some("S"));
    assert_eq!(timetable.get_stop_id(4), Some("D"));
    assert_eq!(timetable.get_stop_id(5), None);
    assert_eq!(timetable.get_stop_id(usize::MAX), None);
}

#[test]
fn a_name_given_twice_means_the_later_stop() {
    let timetable = GtfsTimetable::from_feed(names(&["x", "y", "x"]), vec![]);
    assert_eq!(timetable.get_stop_idx("x"), Some(2));
    assert_eq!(timetable.get_stop_idx("y"), Some(1));
    assert_eq!(timetable.get_stop_id(0), Some("x"));
}

#[test]
fn an_empty_feed_gives_an_empty_timetable() {
    let timetable = GtfsTimetable::from_feed(vec![], vec![]);
    assert_eq!(timetable.get_stop_idx("S"), None);
    assert_eq!(timetable.get_stop_id(0), None);
    assert!(timetable.get_routes_serving_stop(0).is_empty());
    assert!(timetable.get_stops_after(0, 0).is_empty());
    assert_eq!(timetable.get_earliest_trip(0, 0, 0), None);
    assert_eq!(timetable.get_arrival_time(0, 0), NEVER);
    assert!(timetable.raptor(5, 0, 0, 1).is_empty());
}

#[test]
fn trips_with_the_same_stops_share_a_line() {
    let timetable = three_lines();
    assert_eq!(timetable.get_routes_serving_stop(S), vec![0, 1]);
    assert_eq!(timetable.get_routes_serving_stop(A), vec![0, 2]);
    assert_eq!(timetable.get_routes_serving_stop(B), vec![1, 2]);
    assert_eq!(timetable.get_routes_serving_stop(C), vec![2]);
    assert_eq!(timetable.get_routes_serving_stop(D), vec![2]);
    assert!(timetable.get_routes_serving_stop(5).is_empty());
}

#[test]
fn the_stops_of_a_line_come_in_the_order_of_the_calls() {
    let timetable = three_lines();
    assert_eq!(timetable.get_stops_after(2, A), vec![A, B, C, D]);
    assert_eq!(timetable.get_stops_after(2, C), vec![C, D]);
    assert_eq!(timetable.get_stops_after(2, D), vec![D]);
    assert!(timetable.get_stops_after(2, S).is_empty());
    assert!(timetable.get_stops_after(3, A).is_empty());
    assert_eq!(timetable.get_earlier_stop(2, C, B), B);
    assert_eq!(timetable.get_earlier_stop(2, B, C), B);
    assert_eq!(timetable.get_earlier_stop(2, D, D), D);
    assert_eq!(timetable.get_earlier_stop(2, S, C), C);
    assert_eq!(timetable.get_earlier_stop(2, C, S), C);
    assert_eq!(timetable.get_earlier_stop(2, S, 9), S);
    assert_eq!(timetable.get_earlier_stop(7, C, B), C);
}

#[test]
fn calls_are_taken_by_sequence_number() {
    let shuffled = trip(vec![call("C", 30, 40, 41), call("A", 10, 20, 21), call("B", 20, 30, 31)]);
    let timetable = GtfsTimetable::from_feed(names(&["A", "B", "C"]), vec![shuffled]);
    assert_eq!(timetable.get_stops_after(0, 0), vec![0, 1, 2]);
    assert_eq!(timetable.get_arrival_time(0, 0), 20);
    assert_eq!(timetable.get_departure_time(0, 1), 31);
    assert_eq!(timetable.get_arrival_time(0, 2), 40);
}

#[test]
fn calls_at_stops_without_a_name_are_left_out() {
    let timetable = GtfsTimetable::from_feed(
        names(&["A", "B"]),
        vec![
            trip(vec![call("A", 1, 10, 11), call("nowhere", 2, 20, 21), call("B", 3, 30, 31)]),
            trip(vec![call("nowhere", 1, 5, 6)]),
            trip(vec![]),
        ],
    );
    assert_eq!(timetable.get_stops_after(0, 0), vec![0, 1]);
    assert_eq!(timetable.get_arrival_time(0, 1), 30);
    assert_eq!(timetable.get_arrival_time(1, 0), NEVER);
    assert!(timetable.get_stops_after(1, 0).is_empty());
}

#[test]
fn a_time_left_out_counts_as_zero() {
    let open = FeedStopTime {
        stop_id: "B".to_string(),
        stop_sequence: 2,
        arrival_time: None,
        departure_time: None,
    };
    let timetable =
        GtfsTimetable::from_feed(names(&["A", "B"]), vec![trip(vec![call("A", 1, 10, 11), open])]);
    assert_eq!(timetable.get_arrival_time(0, 1), 0);
    assert_eq!(timetable.get_departure_time(0, 1), 0);
}

#[test]
fn the_trips_of_a_line_are_numbered_by_first_departure() {
    let timetable = three_lines();
    // The early trip of the third line is listed last and numbered first.
    assert_eq!(timetable.get_departure_time(2, A), 25);
    assert_eq!(timetable.get_departure_time(3, A), 105);
    assert_eq!(timetable.get_arrival_time(2, D), 50);
    assert_eq!(timetable.get_arrival_time(3, D), 130);
    assert_eq!(timetable.get_arrival_time(0, A), 100);
    assert_eq!(timetable.get_arrival_time(1, B), 30);
}

#[test]
fn trips_that_leave_together_keep_the_order_of_the_feed() {
    let timetable = GtfsTimetable::from_feed(
        names(&["A", "B"]),
        vec![
            trip(vec![call("A", 1, 0, 10), call("B", 2, 70, 70)]),
            trip(vec![call("A", 1, 0, 10), call("B", 2, 60, 60)]),
            trip(vec![call("A", 1, 0, 5), call("B", 2, 90, 90)]),
        ],
    );
    assert_eq!(timetable.get_arrival_time(0, 1), 90);
    assert_eq!(timetable.get_arrival_time(1, 1), 70);
    assert_eq!(timetable.get_arrival_time(2, 1), 60);
    assert_eq!(timetable.get_arrival_time(3, 1), NEVER);
}

#[test]
fn times_are_unknown_where_a_trip_does_not_call() {
    let timetable = three_lines();
    assert_eq!(timetable.get_arrival_time(0, B), NEVER);
    assert_eq!(timetable.get_departure_time(0, D), NEVER);
    assert_eq!(timetable.get_arrival_time(4, A), NEVER);
    assert_eq!(timetable.get_departure_time(usize::MAX, A), NEVER);
    assert_eq!(timetable.get_arrival_time(2, 17), NEVER);
}

#[test]
fn the_earliest_trip_is_the_first_that_can_still_be_caught() {
    let timetable = three_lines();
    assert_eq!(timetable.get_earliest_trip(2, 0, A), Some(2));
    assert_eq!(timetable.get_earliest_trip(2, 25, A), Some(2));
    assert_eq!(timetable.get_earliest_trip(2, 26, A), Some(3));
    assert_eq!(timetable.get_earliest_trip(2, 105, A), Some(3));
    assert_eq!(timetable.get_earliest_trip(2, 106, A), None);
    assert_eq!(timetable.get_earliest_trip(2, 30, B), Some(2));
    assert_eq!(timetable.get_earliest_trip(2, usize::MAX, B), None);
    assert_eq!(timetable.get_earliest_trip(2, 0, S), None);
    assert_eq!(timetable.get_earliest_trip(3, 0, A), None);
    // A time beyond 32 bits is later than every departure.
    assert_eq!(timetable.get_earliest_trip(2, 1 << 32, A), None);
}

#[test]
fn where_trips_overtake_the_earliest_departure_at_the_stop_counts() {
    let timetable = GtfsTimetable::from_feed(
        names(&["A", "B", "C"]),
        vec![
            trip(vec![call("A", 1, 0, 0), call("B", 2, 50, 50), call("C", 3, 60, 60)]),
            trip(vec![call("A", 1, 10, 10), call("B", 2, 20, 20), call("C", 3, 30, 30)]),
        ],
    );
    assert_eq!(timetable.get_earliest_trip(0, 0, 0), Some(0));
    assert_eq!(timetable.get_earliest_trip(0, 0, 1), Some(1));
    assert_eq!(timetable.get_earliest_trip(0, 21, 1), Some(0));
}

#[test]
fn a_stop_called_at_twice_counts_at_its_last_call() {
    let timetable = GtfsTimetable::from_feed(
        names(&["A", "B"]),
        vec![trip(vec![call("A", 1, 0, 1), call("B", 2, 10, 11), call("A", 3, 20, 21)])],
    );
    assert_eq!(timetable.get_routes_serving_stop(0), vec![0, 0]);
    assert_eq!(timetable.get_stops_after(0, 0), vec![0]);
    assert_eq!(timetable.get_stops_after(0, 1), vec![1, 0]);
    assert_eq!(timetable.get_arrival_time(0, 0), 20);
    assert_eq!(timetable.get_earlier_stop(0, 0, 1), 1);
}

#[test]
fn a_feed_timetable_knows_no_footpaths() {
    let timetable = three_lines();
    assert!(timetable.get_footpaths_from(S).is_empty());
    assert_eq!(timetable.get_transfer_time(S, A), 1);
}

#[test]
fn the_linear_feed_gives_one_direct_journey() {
    let timetable = linear();
    let from = timetable.get_stop_idx("s0").unwrap();
    let to = timetable.get_stop_idx("s9").unwrap();
    let journeys = timetable.raptor(10, 0, from, to);
    assert_eq!(journeys.len(), 1);
    assert_eq!(journeys[0].plan, vec![(0, 0)]);
    assert_eq!(journeys[0].arrival, 90);
}

#[test]
fn the_feed_with_three_lines_gives_the_journey_over_b() {
    let timetable = three_lines();
    let journeys = timetable.raptor(3, 0, S, D);
    assert_eq!(journeys.len(), 1);
    let plan: Vec<(Route, Stop)> = vec![(1, S), (2, B)];
    assert_eq!(journeys[0].plan, plan);
    assert_eq!(journeys[0].arrival, 50);
}

#[test]
fn a_departure_at_a_quarter_past_seven_in_the_evening() {
    let stops = names(&["here", "there"]);
    let evening = trip(vec![call("here", 1, 69_000, 69_400), call("there", 2, 70_000, 70_000)]);
    let morning = trip(vec![call("here", 1, 30_000, 30_000), call("there", 2, 31_000, 31_000)]);
    let timetable = GtfsTimetable::from_feed(stops, vec![morning, evening]);
    let journeys = timetable.raptor(10, 19 * 3600 + 15 * 60, 0, 1);
    assert_eq!(journeys.len(), 1);
    assert_eq!(journeys[0].arrival, 70_000);
    assert!(timetable.raptor(10, 69_401, 0, 1).is_empty());
}

fn stop_time(
    stop: &Arc<gtfs_structures::Stop>,
    sequence: u32,
    at: u32,
) -> gtfs_structures::StopTime {
    gtfs_structures::StopTime {
        arrival_time: Some(at),
        departure_time: Some(at + 1),
        stop: Arc::clone(stop),
        stop_sequence: sequence,
        ..Default::default()
    }
}

fn feed() -> Gtfs {
    let mut gtfs = Gtfs::default();
    let mut stops = vec![];
    for id in ["north", "mid", "south"] {
        let stop = Arc::new(gtfs_structures::Stop { id: id.to_string(), ..Default::default() });
        gtfs.stops.insert(id.to_string(), Arc::clone(&stop));
        stops.push(stop);
    }
    let down = gtfs_structures::Trip {
        id: "down".to_string(),
        stop_times: vec![
            stop_time(&stops[0], 1, 100),
            stop_time(&stops[1], 2, 200),
            stop_time(&stops[2], 3, 300),
        ],
        ..Default::default()
    };
    let idle = gtfs_structures::Trip { id: "idle".to_string(), ..Default::default() };
    gtfs.trips.insert("down".to_string(), down);
    gtfs.trips.insert("idle".to_string(), idle);
    gtfs
}

#[test]
fn a_feed_read_by_the_feed_crate_gives_its_stops() {
    let timetable = GtfsTimetable::from_gtfs(&feed());
    let mut found = vec![];
    for id in ["north", "mid", "south"] {
        let idx = timetable.get_stop_idx(id).unwrap();
        assert!(idx < 3);
        assert_eq!(timetable.get_stop_id(idx), Some(id));
        found.push(idx);
    }
    found.sort();
    assert_eq!(found, vec![0, 1, 2]);
    assert_eq!(timetable.get_stop_idx("east"), None);
    assert_eq!(timetable.get_stop_id(3), None);
}

#[test]
fn a_feed_read_by_the_feed_crate_gives_its_trips() {
    let timetable = GtfsTimetable::from_gtfs(&feed());
    let north = timetable.get_stop_idx("north").unwrap();
    let mid = timetable.get_stop_idx("mid").unwrap();
    let south = timetable.get_stop_idx("south").unwrap();
    assert_eq!(timetable.get_stops_after(0, north), vec![north, mid, south]);
    assert_eq!(timetable.get_arrival_time(0, mid), 200);
    assert_eq!(timetable.get_departure_time(0, mid), 201);
    assert_eq!(timetable.get_arrival_time(1, mid), NEVER);
    let journeys = timetable.raptor(10, 0, north, south);
    assert_eq!(journeys.len(), 1);
    assert_eq!(journeys[0].plan, vec![(0, north)]);
    assert_eq!(journeys[0].arrival, 300);
    assert!(timetable.raptor(10, 0, south, north).is_empty());
}

#[test]
fn an_empty_feed_of_the_feed_crate_gives_an_empty_timetable() {
    let timetable = GtfsTimetable::from_gtfs(&Gtfs::default());
    assert_eq!(timetable.get_stop_id(0), None);
    assert!(timetable.get_routes_serving_stop(0).is_empty());
}

#[test]
fn many_stops_and_lines_are_found_by_name_and_by_stops() {
    let stops: Vec<String> = (0..200).map(|s| format!("stop-{s}")).collect();
    // Line `l` runs from stop `l` to stop `l + 1`; every line has two trips.
    let mut trips = vec![];
    for round in 0..2u32 {
        for l in 0..199u32 {
            trips.push(trip(vec![
                call(&format!("stop-{l}"), 1, 100 * round, 100 * round),
                call(&format!("stop-{}", l + 1), 2, 100 * round + 50, 100 * round + 50),
            ]));
        }
    }
    let timetable = GtfsTimetable::from_feed(stops, trips);
    for s in [0usize, 1, 57, 199] {
        assert_eq!(timetable.get_stop_idx(&format!("stop-{s}")), Some(s));
        assert_eq!(timetable.get_stop_id(s), Some(format!("stop-{s}").as_str()));
    }
    assert_eq!(timetable.get_stop_idx("stop-200"), None);
    assert_eq!(timetable.get_routes_serving_stop(57), vec![56, 57]);
    assert_eq!(timetable.get_stops_after(198, 198), vec![198, 199]);
    assert!(timetable.get_stops_after(199, 199).is_empty());
    // The trips of line 57 are the numbers 114 and 115.
    assert_eq!(timetable.get_departure_time(114, 57), 0);
    assert_eq!(timetable.get_departure_time(115, 57), 100);
    assert_eq!(timetable.get_earliest_trip(57, 1, 57), Some(115));
}

// A small generator of numbers that repeats itself from run to run.
struct Numbers(u64);

impl Numbers {
    fn next(&mut self, below: u64) -> u64 {
        self.0 = self.0.wrapping_mul(6364136223846793005).wrapping_add(1442695040888963407);
        (self.0 >> 33) % below
    }
}

struct Line {
    stops: Vec<Stop>,
    // For each trip the time at which it reaches and leaves each stop.
    trips: Vec<Vec<u32>>,
}

// Lines over ten stops. The trips of a line take the same time from stop to
// stop and leave at different times, so that none overtakes another.
fn lines(numbers: &mut Numbers) -> Vec<Line> {
    let mut lines = vec![];
    for _ in 0..5 {
        let mut stops: Vec<Stop> = vec![];
        let length = 2 + numbers.next(4) as usize;
        while stops.len() < length {
            let stop = numbers.next(10) as usize;
            if !stops.contains(&stop) {
                stops.push(stop);
            }
        }
        let hops: Vec<u32> = (0..length).map(|_| 1 + numbers.next(20) as u32).collect();
        let mut trips = vec![];
        for _ in 0..3 {
            let mut at = numbers.next(100) as u32;
            let mut times = vec![];
            for hop in &hops {
                at += hop;
                times.push(at);
            }
            trips.push(times);
        }
        lines.push(Line { stops, trips });
    }
    lines
}

// The earliest arrival at each stop with at most `trips` trips, found by
// trying every trip from every stop in every round.
fn earliest(lines: &[Line], from: Stop, at: Tau, trips: usize) -> Vec<Vec<Tau>> {
    let mut rounds = vec![vec![NEVER; 10]];
    rounds[0][from] = at;
    for _ in 0..trips {
        let before = rounds.last().unwrap().clone();
        let mut after = before.clone();
        for line in lines {
            for times in &line.trips {
                for board in 0..line.stops.len() {
                    if before[line.stops[board]] <= times[board] as usize {
                        for left in board + 1..line.stops.len() {
                            let reached = times[left] as usize;
                            if reached < after[line.stops[left]] {
                                after[line.stops[left]] = reached;
                            }
                        }
                    }
                }
            }
        }
        rounds.push(after);
    }
    rounds
}

#[test]
fn the_journeys_are_the_earliest_there_are() {
    let mut numbers = Numbers(2024);
    for _ in 0..40 {
        let lines = lines(&mut numbers);
        let mut trips = vec![];
        for line in &lines {
            for times in &line.trips {
                let calls = (0..line.stops.len())
                    .map(|i| call(&format!("s{}", line.stops[i]), i as u32, times[i], times[i]))
                    .collect();
                trips.push(trip(calls));
            }
        }
        let stops: Vec<String> = (0..10).map(|s| format!("s{s}")).collect();
        let timetable = GtfsTimetable::from_feed(stops, trips);
        for _ in 0..10 {
            let from = numbers.next(10) as usize;
            let to = numbers.next(10) as usize;
            let at = numbers.next(120) as usize;
            if from == to {
                continue;
            }
            let best = earliest(&lines, from, at, 4);
            let journeys = timetable.raptor(4, at, from, to);
            // Each journey arrives as early as its number of trips allows.
            for journey in &journeys {
                assert!(!journey.plan.is_empty() && journey.plan.len() <= 4);
                assert_eq!(journey.arrival, best[journey.plan.len()][to]);
                assert_eq!(journey.plan[0].1, from);
            }
            // Each number of trips that arrives earlier than fewer trips
            // gives a journey.
            for k in 1..=4 {
                if best[k][to] < best[k - 1][to] {
                    assert!(journeys.iter().any(|journey| journey.plan.len() == k));
                }
            }
            // More trips arrive earlier.
            for pair in journeys.windows(2) {
                assert!(pair[0].plan.len() < pair[1].plan.len());
                assert!(pair[1].arrival < pair[0].arrival);
            }
        }
    }
}
