//! When the automatic list update runs: every `interval_hours` (1 to 168),
//! plus up to half an hour of jitter, measured on the wall clock.

use vstd::prelude::*;

verus! {

/// Longest sleep between wall-clock checks. The monotonic timer stops while a
/// laptop sleeps, so a long sleep is taken in short steps against the wall clock.
pub const TICK_MS: u64 = 60_000;

/// Upper bound of the jitter, in seconds.
pub const MAX_JITTER_SECS: u64 = 1800;

/// A number in `[min, max_inclusive]` drawn from the random `r`; `min` when
/// the range is empty.
pub open spec fn spread_spec(r: u64, min: u64, max_inclusive: u64) -> u64 {
    if max_inclusive <= min {
        min
    } else {
        (min + r % ((max_inclusive - min + 1) as u64)) as u64
    }
}

pub fn spread(r: u64, min: u64, max_inclusive: u64) -> (x: u64)
    requires
        max_inclusive - min < u64::MAX,
    ensures
        x == spread_spec(r, min, max_inclusive),
        max_inclusive > min ==> min <= x <= max_inclusive,
{
    if max_inclusive <= min {
        return min;
    }
    let span = max_inclusive - min + 1;
    let off = r % span;
    assert(off < span);
    min + off
}

/// `h` within `[1, 168]`.
pub open spec fn interval_hours_spec(h: u64) -> u64 {
    if h < 1 {
        1
    } else if h > 168 {
        168
    } else {
        h
    }
}

/// Seconds until the next automatic update: the interval plus `jitter`;
/// `None` while automatic updates are off (check again in a minute).
pub fn next_update_delay_secs(auto_update: bool, interval_hours: u64, jitter: u64) -> (r: Option<u64>)
    requires
        jitter <= MAX_JITTER_SECS,
    ensures
        !auto_update ==> r is None,
        auto_update ==> r == Some((interval_hours_spec(interval_hours) * 3600 + jitter) as u64),
{
    if !auto_update {
        return None;
    }
    let h = if interval_hours < 1 {
        1
    } else if interval_hours > 168 {
        168
    } else {
        interval_hours
    };
    Some(h * 3600 + jitter)
}

/// How long to sleep before looking at the wall clock again, until the
/// deadline (in milliseconds since the epoch); `None` once it has passed.
pub fn wall_clock_sleep_ms(deadline_ms: u64, now_ms: u64) -> (r: Option<u64>)
    ensures
        now_ms >= deadline_ms ==> r is None,
        now_ms < deadline_ms ==> r == Some(if deadline_ms - now_ms < TICK_MS {
            (deadline_ms - now_ms) as u64
        } else {
            TICK_MS
        }),
{
    if now_ms >= deadline_ms {
        return None;
    }
    let remaining = deadline_ms - now_ms;
    Some(
        if remaining < TICK_MS {
            remaining
        } else {
            TICK_MS
        },
    )
}

} // verus!
