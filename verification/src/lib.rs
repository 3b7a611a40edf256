//! Earliest arrival journeys on public transit timetables.
//!
//! A query names a stop to leave from, a time to leave at, a stop to reach
//! and the largest number of trips to take. The search works in rounds, one
//! for each further trip: round `k` finds for every stop the earliest arrival
//! with at most `k` trips. The answer holds, for each number of trips that
//! reaches the target earlier than fewer trips do, the way that was found.
//!
//! The search asks its questions of a `Timetable`. `GtfsTimetable` is the
//! timetable of a transit feed.

pub mod buckets;
mod engine;
pub mod feed;
pub mod gtfs;
pub mod journey;
pub mod laws;
pub mod optimal;
pub mod ordered;
pub mod orderly;
pub mod progress;
pub mod rounds;
pub mod sorting;
mod tables;
pub mod timetable;

pub use feed::{FeedStopTime, FeedTrip, StopTime};
pub use gtfs::GtfsTimetable;
pub use journey::{reconstruct_journey, Journey};
pub use timetable::{
    Network, Route, Stop, Tau, Timetable, Trip, DEFAULT_TRANSFER_TIME, K, UNREACHED,
};
