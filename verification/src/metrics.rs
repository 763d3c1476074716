//! Query counters and the snapshot the control socket reports.

use vstd::prelude::*;
use crate::clock::now_unix;

verus! {

/// A counter after one more event: it wraps at the top, as an atomic add does.
pub open spec fn inc(x: u64) -> u64 {
    if x == u64::MAX {
        0
    } else {
        (x + 1) as u64
    }
}

/// Adds one event to a counter.
pub fn bump(x: u64) -> (r: u64)
    ensures
        r == inc(x),
{
    if x == u64::MAX {
        0
    } else {
        x + 1
    }
}

/// `a - b`, or 0 when `b` is larger.
pub open spec fn sat_sub(a: u64, b: u64) -> u64 {
    if a >= b {
        (a - b) as u64
    } else {
        0
    }
}

#[derive(Debug)]
pub struct Metrics {
    pub queries: u64,
    pub blocked: u64,
    pub cache_hit: u64,
    pub cache_miss: u64,
    pub upstream_ok: u64,
    pub upstream_errors: u64,
    /// Upstream failures since the last answer.
    pub consecutive_upstream_failures: u64,
    pub started_at_unix: u64,
    pub filtering: bool,
}

#[derive(Debug, Clone)]
pub struct MetricsSnapshot {
    pub queries: u64,
    pub blocked: u64,
    pub cache_hit: u64,
    pub cache_miss: u64,
    pub upstream_ok: u64,
    pub upstream_errors: u64,
    pub uptime_secs: u64,
    pub filtering: bool,
}

impl Metrics {
    /// All counters zero.
    pub open spec fn zeroed(&self) -> bool {
        &&& self.queries == 0
        &&& self.blocked == 0
        &&& self.cache_hit == 0
        &&& self.cache_miss == 0
        &&& self.upstream_ok == 0
        &&& self.upstream_errors == 0
        &&& self.consecutive_upstream_failures == 0
    }

    /// Counters at zero, started at `now`.
    pub fn new_at(filtering: bool, now: u64) -> (r: Self)
        ensures
            r.zeroed(),
            r.started_at_unix == now,
            r.filtering == filtering,
    {
        Metrics {
            queries: 0,
            blocked: 0,
            cache_hit: 0,
            cache_miss: 0,
            upstream_ok: 0,
            upstream_errors: 0,
            consecutive_upstream_failures: 0,
            started_at_unix: now,
            filtering,
        }
    }

    /// Counters at zero, started now.
    pub fn new(filtering: bool) -> (r: Self)
        ensures
            r.zeroed(),
            r.filtering == filtering,
    {
        Self::new_at(filtering, now_unix())
    }

    /// The counters as they stand, with the uptime at `now`.
    pub fn snapshot_at(&self, now: u64) -> (r: MetricsSnapshot)
        ensures
            r.queries == self.queries,
            r.blocked == self.blocked,
            r.cache_hit == self.cache_hit,
            r.cache_miss == self.cache_miss,
            r.upstream_ok == self.upstream_ok,
            r.upstream_errors == self.upstream_errors,
            r.uptime_secs == sat_sub(now, self.started_at_unix),
            r.filtering == self.filtering,
    {
        MetricsSnapshot {
            queries: self.queries,
            blocked: self.blocked,
            cache_hit: self.cache_hit,
            cache_miss: self.cache_miss,
            upstream_ok: self.upstream_ok,
            upstream_errors: self.upstream_errors,
            uptime_secs: if now >= self.started_at_unix {
                now - self.started_at_unix
            } else {
                0
            },
            filtering: self.filtering,
        }
    }

    /// The counters as they stand, with the uptime now.
    pub fn snapshot(&self) -> (r: MetricsSnapshot)
        ensures
            r.queries == self.queries,
            r.blocked == self.blocked,
            r.cache_hit == self.cache_hit,
            r.cache_miss == self.cache_miss,
            r.upstream_ok == self.upstream_ok,
            r.upstream_errors == self.upstream_errors,
            exists|now: u64| r.uptime_secs == #[trigger] sat_sub(now, self.started_at_unix),
            r.filtering == self.filtering,
    {
        self.snapshot_at(now_unix())
    }
}

impl Default for Metrics {
    fn default() -> (r: Self)
        ensures
            r.zeroed(),
            r.started_at_unix == 0,
            !r.filtering,
    {
        Self::new_at(false, 0)
    }
}

} // verus!
