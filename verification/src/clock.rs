//! Wall-clock time, for timestamps the daemon reports.

use vstd::prelude::*;

verus! {

#[verifier::external_type_specification]
#[verifier::external_body]
pub struct ExSystemTime(std::time::SystemTime);

/// `SystemTime::now`; nothing is promised of the value.
#[verifier::external_body]
fn system_now() -> std::time::SystemTime {
    std::time::SystemTime::now()
}

/// Whole seconds from the Unix epoch to `t` (`SystemTime::duration_since`),
/// 0 when `t` is before the epoch.
#[verifier::external_body]
fn secs_since_epoch(t: std::time::SystemTime) -> u64 {
    t.duration_since(std::time::UNIX_EPOCH).map(|d| d.as_secs()).unwrap_or(0)
}

/// Seconds since the Unix epoch, now.
pub fn now_unix() -> u64 {
    secs_since_epoch(system_now())
}

} // verus!
