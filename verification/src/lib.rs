use vstd::prelude::*;

pub mod buffer;
pub(crate) mod clock;
pub mod group;
pub mod heartbeat;
pub mod store;
pub mod tree;

verus! {

/// Event times and the ingestion clock are plain signed timestamps.
pub type Time = i64;

/// External configuration: the two thresholds that mark a buffer ready
/// for eviction.
pub struct Config {
    /// Event-count threshold.
    pub max_length: usize,
    /// Duration threshold, in the same unit as `Time`.
    pub max_time: Time,
}

impl Config {
    pub fn new(max_length: usize, max_time: Time) -> (c: Config)
        ensures
            c.max_length == max_length,
            c.max_time == max_time,
    {
        Config { max_length, max_time }
    }
}

} // verus!
