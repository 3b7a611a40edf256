//! A timetable over a transit feed.
use crate::buckets::Buckets;
use crate::feed::{
    calling, calls, calls_at, catch, departures, first_trip, lemma_catch, lemma_last_index,
    lemma_locate, lemma_locate_none, lines_of, members, named, names, network_of, offset, position,
    routes_in, running, schedule_of, serving, slot, time_at, Booking, Call, FeedStopTime, FeedTrip,
    Line, PatternIdx, Schedule, StopIdx, StopTime, TripIdx,
};
use crate::sorting::{is_ordered, lemma_sorted_by_key};
use crate::tables::{
    bookings, build_patterns, build_stop_times, build_stop_to_patterns, find_stop, fresh,
    index_stops, indexed, kept, lemma_positions, listed, located, name_keys, numbered, positions,
    routes, settled, sort_and_index_trips, stored, timed, within, Pattern,
};
use crate::timetable::{
    Network, Route, Stop, Tau, Timetable, Trip, DEFAULT_TRANSFER_TIME, UNREACHED,
};
use gtfs_structures::Gtfs;
use vstd::multiset::Multiset;
use vstd::prelude::*;

verus! {

/// A feed as `gtfs_structures` reads it. Nothing of it is seen here but
/// through `feed_stops` and `feed_trips`.
#[verifier::external_type_specification]
#[verifier::external_body]
pub struct ExGtfs(gtfs_structures::Gtfs);

/// The names under which a feed holds its stops: the keys of `Gtfs::stops`.
pub uninterp spec fn feed_stops(gtfs: Gtfs) -> Set<Seq<char>>;

/// The trips that a feed holds, each as its calls in the order in which
/// `Trip::stop_times` lists them: the values of `Gtfs::trips`.
pub uninterp spec fn feed_trips(gtfs: Gtfs) -> Multiset<Seq<Call>>;

/// Lists the values of `Gtfs::trips`, a `HashMap`, in the order in which the
/// map hands them out, and copies from each `StopTime` the name of its stop,
/// its sequence number and its two times. Assumed without proof: the list
/// holds each trip of the feed, once.
#[verifier::external_body]
fn trip_list(gtfs: &Gtfs) -> (trips: Vec<FeedTrip>)
    ensures
        calls(trips@).to_multiset() == feed_trips(*gtfs),
{
    let copy = |call: &gtfs_structures::StopTime| FeedStopTime {
        stop_id: call.stop.id.clone(),
        stop_sequence: call.stop_sequence,
        arrival_time: call.arrival_time,
        departure_time: call.departure_time,
    };
    let list = |trip: &gtfs_structures::Trip| FeedTrip {
        stop_times: trip.stop_times.iter().map(copy).collect(),
    };
    gtfs.trips.values().map(list).collect()
}

/// The lists `stops` and `trips` hold the stops and the trips of the feed,
/// each once.
pub open spec fn lists(gtfs: Gtfs, stops: Seq<Seq<char>>, trips: Seq<Seq<Call>>) -> bool {
    &&& stops.no_duplicates()
    &&& stops.to_set() == feed_stops(gtfs)
    &&& trips.to_multiset() == feed_trips(gtfs)
}

/// Each of the first `n` bookings that run on a line is listed among its
/// members under its own place.
proof fn lemma_members(booked: Seq<Booking>, line: PatternIdx, n: nat)
    requires
        n <= booked.len() <= usize::MAX,
    ensures
        forall|at: int|
            0 <= at < members(booked, line, n).len() ==> member_of(
                booked,
                line,
                n,
                #[trigger] members(booked, line, n)[at],
            ),
    decreases n,
{
    if n > 0 {
        lemma_members(booked, line, (n - 1) as nat);
        let before = members(booked, line, (n - 1) as nat);
        assert forall|at: int| 0 <= at < members(booked, line, n).len() implies member_of(
            booked,
            line,
            n,
            #[trigger] members(booked, line, n)[at],
        ) by {
            if at < before.len() {
                assert(member_of(booked, line, (n - 1) as nat, before[at]));
            }
        }
    }
}

/// The member stands for one of the first `n` bookings, which runs on `line`.
spec fn member_of(booked: Seq<Booking>, line: PatternIdx, n: nat, member: (u32, usize)) -> bool {
    member.1 < n && booked[member.1 as int].line == line
}

/// A stop that no route passes has no calls.
proof fn lemma_calling_none(lines: Seq<Seq<StopIdx>>, stop: StopIdx, p: nat, known: nat)
    requires
        p <= lines.len(),
        stop >= known,
        forall|q: int| 0 <= q < lines.len() ==> within(#[trigger] lines[q], known),
    ensures
        calling(lines, stop, p) == Seq::<(PatternIdx, usize)>::empty(),
    decreases p,
{
    if p > 0 {
        lemma_calling_none(lines, stop, (p - 1) as nat, known);
        assert(within(lines[p - 1], known));
        lemma_calls_at_none(lines[p - 1], stop, (p - 1) as usize, lines[p - 1].len());
        assert(calling(lines, stop, (p - 1) as nat) + calls_at(
            lines[p - 1],
            stop,
            (p - 1) as usize,
            lines[p - 1].len(),
        ) =~= Seq::<(PatternIdx, usize)>::empty());
    }
}

/// A line that does not pass a stop has no calls there.
proof fn lemma_calls_at_none(stops: Seq<StopIdx>, stop: StopIdx, line: PatternIdx, n: nat)
    requires
        n <= stops.len(),
        forall|at: int| 0 <= at < stops.len() ==> #[trigger] stops[at] != stop,
    ensures
        calls_at(stops, stop, line, n) == Seq::<(PatternIdx, usize)>::empty(),
    decreases n,
{
    if n > 0 {
        lemma_calls_at_none(stops, stop, line, (n - 1) as nat);
    }
}

/// The line `pattern` is line `p` of `lines`, over stops below `known`.
spec fn lined(pattern: Pattern, lines: Seq<Line>, p: int, known: nat) -> bool {
    &&& pattern.stops@ == lines[p].stops
    &&& pattern.stop_positions@ == positions(pattern.stops@, pattern.stops@.len())
    &&& pattern.trips@.len() == lines[p].trips.len()
    &&& within(pattern.stops@, known)
    &&& timed(pattern, lines, p)
    &&& forall|j: int|
        0 <= j < lines[p].trips.len() ==> (#[trigger] lines[p].trips[j]).len()
            == lines[p].stops.len()
}

/// A timetable over a transit feed.
///
/// The trips of the feed that call at the same stops in the same order form
/// a line, and the lines are the routes of the timetable. Stops, lines and
/// trips are known by their numbers.
pub struct GtfsTimetable {
    patterns: Vec<Pattern>,
    stop_to_patterns: Vec<Vec<(PatternIdx, usize)>>,
    trip_stop_times: Vec<StopTime>,
    pattern_offsets: Vec<usize>,
    trip_info: Vec<(PatternIdx, usize)>,
    stop_id_to_idx: Buckets,
    idx_to_stop_id: Vec<String>,
    schedule: Ghost<Schedule>,
}

impl View for GtfsTimetable {
    type V = Schedule;

    closed spec fn view(&self) -> Schedule {
        self.schedule@
    }
}

impl GtfsTimetable {
    /// The tables agree with the schedule they were built for.
    #[verifier::type_invariant]
    spec fn wf(self) -> bool {
        let lines = self.schedule@.lines;
        &&& names(self.idx_to_stop_id@) == self.schedule@.stops
        &&& self.stop_id_to_idx.wf()
        &&& self.stop_id_to_idx.keys() == name_keys(names(self.idx_to_stop_id@))
        &&& self.patterns@.len() == lines.len()
        &&& self.pattern_offsets@.len() == lines.len()
        &&& self.stop_to_patterns@.len() == self.idx_to_stop_id@.len()
        &&& self.trip_info@.len() == first_trip(lines, lines.len())
        &&& forall|p: int|
            0 <= p < lines.len() ==> lined(
                #[trigger] self.patterns@[p],
                lines,
                p,
                self.idx_to_stop_id@.len(),
            )
        &&& forall|p: int|
            0 <= p < lines.len() ==> #[trigger] self.pattern_offsets@[p] == offset(lines, p as nat)
        &&& forall|trip: int|
            0 <= trip < self.trip_info@.len() ==> #[trigger] located(self.trip_info@, lines, trip)
        &&& forall|p: int, j: int, at: int|
            0 <= p < lines.len() && 0 <= j < lines[p].trips.len() && 0 <= at
                < lines[p].stops.len() ==> #[trigger] stored(
                self.trip_stop_times@,
                lines,
                p,
                j,
                at,
            )
        &&& forall|stop: int|
            0 <= stop < self.stop_to_patterns@.len() ==> (#[trigger] self.stop_to_patterns@[stop])@
                == calling(routes_in(lines), stop as usize, lines.len())
    }

    /// The timetable of a feed. The stops and the trips are taken in the
    /// order in which the feed hands them out, which it does not fix: the
    /// timetable is that of some list of its stops and some list of its
    /// trips.
    pub fn from_gtfs(gtfs: &Gtfs) -> (timetable: Self)
        ensures
            exists|stops: Seq<Seq<char>>, trips: Seq<Seq<Call>>|
                #[trigger] lists(*gtfs, stops, trips) && timetable@ == schedule_of(stops, trips),
    {
        let stops = Self::build_stop_mapping(gtfs);
        let trips = trip_list(gtfs);
        proof {
            assert(lists(*gtfs, names(stops@), calls(trips@)));
        }
        Self::from_feed(stops, trips)
    }

    /// The names of the stops of a feed; a stop is numbered by its place in
    /// this list.
    ///
    /// Lists the keys of `Gtfs::stops`, a `HashMap`, in the order in which
    /// the map hands them out. Assumed without proof: the list holds each
    /// name under which the feed holds a stop, once.
    #[verifier::external_body]
    fn build_stop_mapping(gtfs: &Gtfs) -> (ids: Vec<String>)
        ensures
            names(ids@).no_duplicates(),
            names(ids@).to_set() == feed_stops(*gtfs),
    {
        gtfs.stops.keys().cloned().collect()
    }

    /// The timetable of the feed with the stops `stops` and the trips
    /// `trips`. A stop is numbered by its place in `stops`.
    pub fn from_feed(stops: Vec<String>, trips: Vec<FeedTrip>) -> (timetable: Self)
        ensures
            timetable@ == schedule_of(names(stops@), calls(trips@)),
    {
        let stop_id_to_idx = index_stops(&stops);
        let (mut patterns, trip_data) = build_patterns(&trips, &stops, &stop_id_to_idx);
        let ghost booked = bookings(trip_data@);
        let ghost lines = lines_of(routes(patterns@), booked);
        let ghost built = patterns@;
        let (trip_info, order) = sort_and_index_trips(&mut patterns, &trip_data);
        let ghost sorted = patterns@;
        proof {
            assert(booked.len() == trip_data.len());
            assert(lines.len() == patterns.len());
            assert forall|p: int| 0 <= p < lines.len() implies lines[p].stops == (
            #[trigger] sorted[p]).stops@ by {
                assert(kept(built[p], sorted[p]));
                assert(routes(built)[p] == built[p].stops@);
            }
            assert forall|p: int, j: int|
                0 <= p < lines.len() && 0 <= j < lines[p].trips.len() implies #[trigger] listed(
                order@,
                trip_data@,
                lines,
                p,
                j,
            ) by {
                assert(indexed(trip_info@, order@, lines, booked, p, j));
                let all = members(booked, p as usize, booked.len());
                let member = running(booked, p as usize)[j];
                lemma_sorted_by_key(all);
                lemma_members(booked, p as usize, booked.len());
                assert(all.contains(member));
                let from = choose|from: int| 0 <= from < all.len() && all[from] == member;
                assert(member_of(booked, p as usize, booked.len(), all[from]));
                assert(member.1 < booked.len());
                assert(booked[member.1 as int] == trip_data@[member.1 as int]@);
                assert(routes(built)[p] == built[p].stops@);
            }
        }
        let stop_to_patterns = build_stop_to_patterns(&patterns, stops.len());
        let (trip_stop_times, pattern_offsets) = build_stop_times(
            &mut patterns,
            &trip_data,
            &order,
            Ghost(lines),
        );
        let ghost schedule = Schedule { stops: names(stops@), lines };
        proof {
            assert(names(stops@).len() == stops.len());
            assert(routes(sorted) =~= routes_in(lines)) by {
                assert forall|p: int| 0 <= p < lines.len() implies routes(sorted)[p] == routes_in(
                    lines,
                )[p] by {
                    assert(lines[p].stops == sorted[p].stops@);
                }
            }
            assert forall|p: int| 0 <= p < lines.len() implies lined(
                #[trigger] patterns@[p],
                lines,
                p,
                stops@.len(),
            ) by {
                assert(settled(sorted[p], patterns@[p]));
                assert(kept(built[p], sorted[p]));
                assert(fresh(built[p]));
                assert(within(built[p].stops@, stops@.len()));
                assert(timed(patterns@[p], lines, p));
                assert(numbered(
                    sorted[p].trips@,
                    first_trip(lines, p as nat),
                    lines[p].trips.len(),
                ));
                assert forall|j: int| 0 <= j < lines[p].trips.len() implies (
                #[trigger] lines[p].trips[j]).len() == lines[p].stops.len() by {
                    assert(listed(order@, trip_data@, lines, p, j));
                }
            }
        }
        GtfsTimetable {
            patterns,
            stop_to_patterns,
            trip_stop_times,
            pattern_offsets,
            trip_info,
            stop_id_to_idx,
            idx_to_stop_id: stops,
            schedule: Ghost(schedule),
        }
    }

    /// The number of the stop that the feed names `stop_id`.
    pub fn get_stop_idx(&self, stop_id: &str) -> (idx: Option<StopIdx>)
        ensures
            idx == named(self@.stops, stop_id@),
    {
        proof {
            use_type_invariant(self);
        }
        let wanted = stop_id.to_owned();
        find_stop(&self.idx_to_stop_id, &self.stop_id_to_idx, &wanted)
    }

    /// The name that the feed gives to the stop number `idx`.
    pub fn get_stop_id(&self, idx: StopIdx) -> (id: Option<&str>)
        ensures
            match id {
                Some(id) => idx < self@.stops.len() && id@ == self@.stops[idx as int],
                None => idx >= self@.stops.len(),
            },
    {
        proof {
            use_type_invariant(self);
            assert(names(self.idx_to_stop_id@).len() == self.idx_to_stop_id@.len());
        }
        if idx < self.idx_to_stop_id.len() {
            Some(self.idx_to_stop_id[idx].as_str())
        } else {
            None
        }
    }
}

/// The place of `stop` along the line.
fn place(pattern: &Pattern, stop: StopIdx) -> (at: Option<usize>)
    requires
        pattern.stop_positions@ == positions(pattern.stops@, pattern.stops@.len()),
    ensures
        at == position(pattern.stops@, stop),
        at matches Some(i) ==> i < pattern.stops@.len() && pattern.stops@[i as int] == stop,
{
    proof {
        assert(pattern.stops@.len() == pattern.stops.len());
        lemma_positions(pattern.stops@, stop, pattern.stops@.len());
        lemma_last_index(pattern.stops@, stop, pattern.stops@.len());
    }
    match pattern.stop_positions.get(&stop) {
        Some(at) => Some(*at),
        None => None,
    }
}

/// The first departure at `at` or later, in a list ordered by time.
fn first_from(leaving: &Vec<(u32, TripIdx)>, at: Tau) -> (trip: Option<TripIdx>)
    requires
        is_ordered(leaving@),
    ensures
        trip == catch(leaving@, at, 0),
{
    let mut low: usize = 0;
    let mut high: usize = leaving.len();
    while low < high
        invariant
            low <= high <= leaving.len(),
            is_ordered(leaving@),
            forall|i: int| 0 <= i < low ==> (#[trigger] leaving@[i]).0 < at,
            forall|i: int| high <= i < leaving.len() ==> (#[trigger] leaving@[i]).0 >= at,
        decreases high - low,
    {
        let mid = low + (high - low) / 2;
        if (leaving[mid].0 as usize) < at {
            low = mid + 1;
        } else {
            high = mid;
        }
    }
    proof {
        lemma_catch(leaving@, at, 0, low as nat);
    }
    if low < leaving.len() {
        Some(leaving[low].1)
    } else {
        None
    }
}

impl GtfsTimetable {
    /// The times of `trip` at `stop`, where the trip exists and calls there.
    fn time(&self, trip: TripIdx, stop: StopIdx) -> (time: Option<StopTime>)
        ensures
            time == time_at(self@.lines, trip, stop),
    {
        proof {
            use_type_invariant(self);
        }
        let ghost lines = self@.lines;
        if trip >= self.trip_info.len() {
            proof {
                lemma_locate_none(lines, trip, lines.len());
            }
            return None;
        }
        let (p, j) = self.trip_info[trip];
        proof {
            assert(located(self.trip_info@, lines, trip as int));
            lemma_locate(lines, p as int, j as int, lines.len());
            assert(lined(self.patterns@[p as int], lines, p as int, self.idx_to_stop_id@.len()));
        }
        let pattern = &self.patterns[p];
        match place(pattern, stop) {
            Some(at) => {
                let base = self.pattern_offsets[p];
                let stops = pattern.stops.len();
                proof {
                    assert(stored(self.trip_stop_times@, lines, p as int, j as int, at as int));
                    assert(stops == lines[p as int].stops.len());
                    assert(base == offset(lines, p as nat));
                    assert(0 <= j * stops) by (nonlinear_arith)
                        requires
                            0 <= j,
                            0 <= stops,
                    ;
                    assert(slot(lines, p as int, j as int, at as int) == base + j * stops + at);
                    assert(self.trip_stop_times@.len() == self.trip_stop_times.len());
                }
                Some(self.trip_stop_times[base + j * stops + at])
            },
            None => None,
        }
    }
}

impl Timetable for GtfsTimetable {
    open spec fn network(&self) -> Network {
        network_of(self@)
    }

    fn get_routes_serving_stop(&self, stop: Stop) -> (routes: Vec<Route>) {
        proof {
            use_type_invariant(self);
        }
        let ghost lines = self@.lines;
        let mut routes: Vec<Route> = Vec::new();
        if stop < self.stop_to_patterns.len() {
            let calls = &self.stop_to_patterns[stop];
            let mut i: usize = 0;
            while i < calls.len()
                invariant
                    i <= calls.len(),
                    routes.len() == i,
                    forall|j: int| 0 <= j < i ==> #[trigger] routes@[j] == calls@[j].0,
                decreases calls.len() - i,
            {
                routes.push(calls[i].0);
                i = i + 1;
            }
            assert(routes@ =~= serving(lines, stop));
        } else {
            proof {
                assert forall|q: int| 0 <= q < routes_in(lines).len() implies within(
                    #[trigger] routes_in(lines)[q],
                    self.idx_to_stop_id@.len(),
                ) by {
                    assert(lined(self.patterns@[q], lines, q, self.idx_to_stop_id@.len()));
                }
                lemma_calling_none(routes_in(lines), stop, lines.len(), self.idx_to_stop_id@.len());
                assert(routes@ =~= serving(lines, stop));
            }
        }
        routes
    }

    fn get_earlier_stop(&self, route: Route, left: Stop, right: Stop) -> (first: Stop) {
        proof {
            use_type_invariant(self);
        }
        if route >= self.patterns.len() {
            return left;
        }
        let pattern = &self.patterns[route];
        proof {
            assert(lined(
                self.patterns@[route as int],
                self@.lines,
                route as int,
                self.idx_to_stop_id@.len(),
            ));
        }
        match (place(pattern, left), place(pattern, right)) {
            (Some(l), Some(r)) => if l <= r {
                pattern.stops[l]
            } else {
                pattern.stops[r]
            },
            (Some(_), None) => left,
            (None, Some(_)) => right,
            (None, None) => left,
        }
    }

    fn get_stops_after(&self, route: Route, stop: Stop) -> (stops: Vec<Stop>) {
        proof {
            use_type_invariant(self);
        }
        let mut stops: Vec<Stop> = Vec::new();
        if route >= self.patterns.len() {
            return stops;
        }
        let pattern = &self.patterns[route];
        proof {
            assert(lined(
                self.patterns@[route as int],
                self@.lines,
                route as int,
                self.idx_to_stop_id@.len(),
            ));
        }
        match place(pattern, stop) {
            Some(from) => {
                let mut at: usize = from;
                while at < pattern.stops.len()
                    invariant
                        from <= at <= pattern.stops.len(),
                        stops.len() == at - from,
                        forall|j: int|
                            0 <= j < stops.len() ==> #[trigger] stops@[j] == pattern.stops@[from
                                + j],
                    decreases pattern.stops.len() - at,
                {
                    stops.push(pattern.stops[at]);
                    at = at + 1;
                }
                assert(stops@ =~= pattern.stops@.subrange(
                    from as int,
                    pattern.stops@.len() as int,
                ));
            },
            None => {},
        }
        stops
    }

    fn get_earliest_trip(&self, route: Route, at: Tau, stop: Stop) -> (trip: Option<Trip>) {
        proof {
            use_type_invariant(self);
        }
        if route >= self.patterns.len() {
            return None;
        }
        let pattern = &self.patterns[route];
        proof {
            assert(lined(
                self.patterns@[route as int],
                self@.lines,
                route as int,
                self.idx_to_stop_id@.len(),
            ));
        }
        match place(pattern, stop) {
            Some(from) => {
                proof {
                    let lines = self@.lines;
                    assert(pattern.departures_by_stop@[from as int]@ == departures(
                        lines,
                        route as int,
                        from as int,
                    ));
                    lemma_sorted_by_key(
                        Seq::new(
                            lines[route as int].trips.len(),
                            |j: int|
                                (
                                    lines[route as int].trips[j][from as int].departure,
                                    (first_trip(lines, route as nat) + j) as usize,
                                ),
                        ),
                    );
                }
                first_from(&pattern.departures_by_stop[from], at)
            },
            None => None,
        }
    }

    fn get_arrival_time(&self, trip: Trip, stop: Stop) -> (at: Tau) {
        match self.time(trip, stop) {
            Some(time) => time.arrival as usize,
            None => UNREACHED,
        }
    }

    fn get_departure_time(&self, trip: Trip, stop: Stop) -> (at: Tau) {
        match self.time(trip, stop) {
            Some(time) => time.departure as usize,
            None => UNREACHED,
        }
    }

    fn get_footpaths_from(&self, stop: Stop) -> (stops: Vec<Stop>) {
        Vec::new()
    }

    fn get_transfer_time(&self, from: Stop, to: Stop) -> (walk: Tau) {
        DEFAULT_TRANSFER_TIME
    }
}

} // verus!
