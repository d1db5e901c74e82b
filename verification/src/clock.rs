//! The wall clock, behind a single trusted wrapper.

use vstd::prelude::*;

verus! {

/// Relies on `web_time::SystemTime` (a re-export of `std::time::SystemTime`
/// off the web): the wall-clock time as whole nanoseconds since the Unix
/// epoch, truncated to 64 bits; zero when the clock reads before the epoch.
/// Nothing is promised of the value: it depends on the machine's clock.
#[verifier::external_body]
pub fn now_nanos_since_epoch() -> u64 {
    web_time::SystemTime::UNIX_EPOCH
        .elapsed()
        .map(|d| d.as_nanos() as u64)
        .unwrap_or(0)
}

} // verus!
