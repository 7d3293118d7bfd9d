//! Wall-clock access for admission timestamps.

use vstd::prelude::*;

verus! {

/// Relies on chrono::Utc::now and chrono::DateTime::timestamp: the number of
/// non-leap seconds since the Unix epoch, by the system clock.  Nothing is
/// assumed of the value: the clock may move arbitrarily between calls.
#[verifier::external_body]
fn unix_timestamp() -> i64 {
    chrono::Utc::now().timestamp()
}

/// The current wall-clock time in whole seconds since the Unix epoch,
/// clamped to zero for clocks set before the epoch.
pub fn now_seconds() -> u64 {
    let t = unix_timestamp();
    if t < 0 {
        0
    } else {
        t as u64
    }
}

} // verus!
