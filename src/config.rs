use vstd::prelude::*;

use core::ops::Range;
use std::time::Duration;

verus! {

/// Bounds of the randomised election timeout, in milliseconds.
#[derive(Debug, Clone, Copy)]
pub struct TimeoutConfig {
    pub min: u64,
    pub max: u64,
}

impl Default for TimeoutConfig {
    fn default() -> (r: Self)
        ensures
            r.min == 150 && r.max == 300,
    {
        TimeoutConfig { min: 150, max: 300 }
    }
}

/// Node timing: the election window and the heartbeat interval (milliseconds).
#[derive(Debug, Clone, Copy)]
pub struct Config {
    pub timeout: TimeoutConfig,
    pub heartbeat_interval: Option<u64>,
}

impl Default for Config {
    fn default() -> (r: Self)
        ensures
            r.timeout.min == 150 && r.timeout.max == 300,
            r.heartbeat_interval is None,
    {
        Config { timeout: TimeoutConfig::default(), heartbeat_interval: None }
    }
}

/// The heartbeat interval a configuration gives: the configured one, else
/// half the minimum election timeout.
pub open spec fn heartbeat_millis(c: Config) -> u64 {
    match c.heartbeat_interval {
        Some(h) => h,
        None => c.timeout.min / 2,
    }
}

/// Relies on `Duration::from_millis`: a duration of that many milliseconds.
#[verifier::external_body]
fn duration_from_millis(ms: u64) -> (r: Duration) {
    Duration::from_millis(ms)
}

/// Relies on `fastrand::u64` over `lo..hi`: a value drawn from that range;
/// it panics on an empty range, which `requires` leaves out.
#[verifier::external_body]
pub(crate) fn random_between(lo: u64, hi: u64) -> (r: u64)
    requires
        lo < hi,
    ensures
        lo <= r < hi,
{
    fastrand::u64(lo..hi)
}

impl Config {
    /// The election window `min..max`.
    pub fn timeout(&self) -> (r: Range<u64>)
        ensures
            r.start == self.timeout.min,
            r.end == self.timeout.max,
    {
        Range { start: self.timeout.min, end: self.timeout.max }
    }

    /// The heartbeat interval in milliseconds.
    pub fn heartbeat_interval_millis(&self) -> (r: u64)
        ensures
            r == heartbeat_millis(*self),
    {
        match self.heartbeat_interval {
            Some(h) => h,
            None => self.timeout.min / 2,
        }
    }

    /// The heartbeat interval.
    pub fn heartbeat_interval(&self) -> Duration {
        duration_from_millis(self.heartbeat_interval_millis())
    }

    /// A fresh election timeout in milliseconds, drawn from the window; the
    /// lower bound when the window is empty.
    pub fn election_timeout_millis(&self) -> (r: u64)
        ensures
            self.timeout.min < self.timeout.max ==> self.timeout.min <= r < self.timeout.max,
            self.timeout.min >= self.timeout.max ==> r == self.timeout.min,
    {
        if self.timeout.min < self.timeout.max {
            random_between(self.timeout.min, self.timeout.max)
        } else {
            self.timeout.min
        }
    }
}

} // verus!
