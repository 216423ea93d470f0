//! A decaying-counter (leaky-bucket) rate-limiting engine.
//!
//! Hits on named counters are recorded immediately; their decay is scheduled
//! for a later instant. Decays that fall on the same instant are batched into
//! one `Pocket`, so the number of pending timers is bounded by the number of
//! distinct expiry instants, not by the number of hits.

use vstd::prelude::*;

pub mod engine;
pub mod errors;
pub mod keys;
pub mod laws;
pub mod pocket;
pub mod table;

verus! {

/// If a pocket is due to drain at instant `t`, its backing record is given a
/// defensive expiry of `t + GRACE_OFFSET` so a missed timer delivery cannot
/// leave the record alive forever.
pub const GRACE_OFFSET: u64 = 30;

/// The instant (in whole seconds since the epoch) at which a hit recorded at
/// `now` with decay window `duration` must decay. Rounding to one-second
/// granularity is inherent in the integer-second clock.
pub fn target_instant(now: u64, duration: u64) -> (r: u64)
    requires
        now + duration <= u64::MAX,
    ensures
        r == now + duration,
{
    now + duration
}

} // verus!

