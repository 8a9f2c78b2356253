//! Reference cadence and timeout settings of the dispatch system.

use vstd::prelude::*;

verus! {

/// Seconds an assigned task may go without a heartbeat before the reaper
/// demotes it back to pending.
pub const HEART_BEAT_TIMEOUT: u64 = 15;

/// Worker-side cadence of heartbeats, in seconds.  Kept at less than half of
/// [`HEART_BEAT_TIMEOUT`] so one lost heartbeat does not cost the lease.
pub const HEARTBEAT_INTERVAL: u64 = 5;

/// Seconds between two runs of the reaper.
pub const REAPER_PERIOD: u64 = 1;

/// Seconds between two generated problems.
pub const GENERATOR_PERIOD: u64 = 30;

} // verus!
