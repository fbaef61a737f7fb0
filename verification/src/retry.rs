//! Retry and backoff policy, consumed by network operations.
//!
//! Waits are carried as whole milliseconds and the exponential base is
//! two: each failed attempt doubles the wait, clipped to the configured
//! maximum.

use vstd::prelude::*;

verus! {

/// Exponential backoff between retries.
#[derive(Debug, Clone, Copy, PartialEq, Eq, Structural)]
pub struct BackoffConfig {
    /// The wait before the first retry, in milliseconds.
    pub init_backoff_ms: u64,
    /// The longest wait between retries, in milliseconds.
    pub max_backoff_ms: u64,
}

impl Default for BackoffConfig {
    /// A tenth of a second to begin with, fifteen seconds at most.
    fn default() -> (r: BackoffConfig)
        ensures
            r.init_backoff_ms == 100,
            r.max_backoff_ms == 15000,
    {
        BackoffConfig { init_backoff_ms: 100, max_backoff_ms: 15000 }
    }
}

/// The retry policy of one store.
#[derive(Debug, Clone, Copy, PartialEq, Eq, Structural)]
pub struct RetryConfig {
    /// The backoff between attempts.
    pub backoff: BackoffConfig,
    /// How many times a request is retried before giving up.
    pub max_retries: usize,
    /// The bound on the total time spent on one request and its retries,
    /// in milliseconds.
    pub retry_timeout_ms: u64,
}

impl Default for RetryConfig {
    /// Ten retries within three minutes.
    fn default() -> (r: RetryConfig)
        ensures
            r.backoff.init_backoff_ms == 100,
            r.backoff.max_backoff_ms == 15000,
            r.max_retries == 10,
            r.retry_timeout_ms == 180000,
    {
        RetryConfig {
            backoff: BackoffConfig { init_backoff_ms: 100, max_backoff_ms: 15000 },
            max_retries: 10,
            retry_timeout_ms: 180000,
        }
    }
}

/// The wait after one more failure: double the current wait, clipped to
/// the configured maximum.
pub open spec fn spec_next_backoff(cfg: BackoffConfig, current_ms: u64) -> u64 {
    let doubled: u64 = if current_ms <= u64::MAX / 2 {
        (2 * current_ms) as u64
    } else {
        u64::MAX
    };
    if doubled <= cfg.max_backoff_ms {
        doubled
    } else {
        cfg.max_backoff_ms
    }
}

/// Compute the wait after one more failure.
pub fn next_backoff_ms(cfg: &BackoffConfig, current_ms: u64) -> (r: u64)
    ensures
        r == spec_next_backoff(*cfg, current_ms),
        r <= cfg.max_backoff_ms,
{
    let doubled: u64 = if current_ms <= u64::MAX / 2 {
        2 * current_ms
    } else {
        u64::MAX
    };
    if doubled <= cfg.max_backoff_ms {
        doubled
    } else {
        cfg.max_backoff_ms
    }
}

/// Whether another retry is allowed after `attempts` failed attempts.
pub fn should_retry(cfg: &RetryConfig, attempts: usize) -> (r: bool)
    ensures
        r == (attempts < cfg.max_retries),
{
    attempts < cfg.max_retries
}

} // verus!
