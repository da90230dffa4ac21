//! What can be set when a cache is made.

use vstd::prelude::*;

verus! {

/// How many lanes there are unless something else is asked for.
pub const DEFAULT_LANE_COUNT: usize = 16;

/// What can be set when a cache is made.
#[derive(Debug, Clone, Copy, PartialEq, Eq, Structural)]
pub struct CacheConfig {
    /// How many lanes open spans are spread over. Brought into the range from
    /// 1 to 256 and up to the next power of two.
    pub lane_count: usize,
    /// How many closed spans, or events, of a thread wait before they are
    /// sent.
    pub pending_batch: usize,
    /// How many spans the driver collects before it hands them on.
    pub driver_batch: usize,
    /// How long the driver waits for that many, in nanoseconds.
    pub driver_interval: u64,
    /// How many spans, or events, the channels to the driver hold.
    pub channel_capacity: usize,
}

impl CacheConfig {
    /// Whether the driver hands on what it has collected: there are enough
    /// spans, or it has waited long enough for them.
    pub fn flush_due(&self, collected: usize, waited: u64) -> (r: bool)
        ensures
            r == (collected > 0 && (collected >= self.driver_batch || waited
                >= self.driver_interval)),
    {
        collected > 0 && (collected >= self.driver_batch || waited >= self.driver_interval)
    }
}

impl Default for CacheConfig {
    fn default() -> (r: Self)
        ensures
            r == (CacheConfig {
                lane_count: DEFAULT_LANE_COUNT,
                pending_batch: 32,
                driver_batch: 600,
                driver_interval: 1_000_000_000,
                channel_capacity: 65_536,
            }),
    {
        CacheConfig {
            lane_count: DEFAULT_LANE_COUNT,
            pending_batch: 32,
            driver_batch: 600,
            driver_interval: 1_000_000_000,
            channel_capacity: 65_536,
        }
    }
}

} // verus!
