//! Fixed-window rate limiting of the background jobs: one counter per
//! operation and second, kept in the cache; an operation is allowed while
//! its counter has not passed the configured limit.

use vstd::prelude::*;
use crate::text::{concat_str, u64_to_decimal, nat_decimal};

verus! {

/// The limits, per second.
#[derive(Clone, Copy, Debug)]
pub struct RateLimitConfig {
    /// Electricity inserts per second.
    pub insert_per_second: u32,
    /// Notification queries per second.
    pub query_per_second: u32,
}

/// A rate-limited operation.
#[derive(Clone, Copy, PartialEq, Eq, Structural, Debug)]
pub enum RateLimitOperation {
    /// Inserting electricity readings.
    Insert,
    /// Querying rooms to notify.
    Query,
}

/// The key prefix of an operation's counters.
pub open spec fn spec_key_prefix(op: RateLimitOperation) -> Seq<char> {
    match op {
        RateLimitOperation::Insert => "ratelimit:insert"@,
        RateLimitOperation::Query => "ratelimit:query"@,
    }
}

impl RateLimitOperation {
    /// `ratelimit:insert` or `ratelimit:query`.
    pub fn key_prefix(&self) -> (r: &'static str)
        ensures
            r@ == spec_key_prefix(*self),
    {
        match self {
            RateLimitOperation::Insert => "ratelimit:insert",
            RateLimitOperation::Query => "ratelimit:query",
        }
    }
}

/// The rate limiter's rules; the counters live in the cache.
#[derive(Debug)]
pub struct RateLimiter {
    pub config: RateLimitConfig,
}

impl RateLimiter {
    /// A limiter with the given limits.
    pub fn new(config: RateLimitConfig) -> (r: RateLimiter)
        ensures
            r.config == config,
    {
        RateLimiter { config }
    }

    /// The limit of `op` per second.
    pub fn limit_for(&self, op: RateLimitOperation) -> (r: u32)
        ensures
            r == (match op {
                RateLimitOperation::Insert => self.config.insert_per_second,
                RateLimitOperation::Query => self.config.query_per_second,
            }),
    {
        match op {
            RateLimitOperation::Insert => self.config.insert_per_second,
            RateLimitOperation::Query => self.config.query_per_second,
        }
    }

    /// The counter key of `op` in the second `now_secs`:
    /// `<prefix>:<second>`.
    pub fn counter_key(op: RateLimitOperation, now_secs: u64) -> (r: String)
        ensures
            r@ == spec_key_prefix(op) + ":"@ + nat_decimal(now_secs as nat),
    {
        let head = concat_str(op.key_prefix(), ":");
        let n = u64_to_decimal(now_secs);
        concat_str(head.as_str(), n.as_str())
    }

    /// The operation is allowed when its counter, after counting it, has not
    /// passed the limit.
    pub fn allows(&self, op: RateLimitOperation, count: u32) -> (r: bool)
        ensures
            r == (count <= (match op {
                RateLimitOperation::Insert => self.config.insert_per_second,
                RateLimitOperation::Query => self.config.query_per_second,
            })),
    {
        count <= self.limit_for(op)
    }

    /// The counter was created by this call and gets its one-second expiry.
    pub fn needs_expiry(count: u32) -> (r: bool)
        ensures
            r == (count == 1),
    {
        count == 1
    }

    /// The operations of `op` still allowed in this second, given the
    /// counter read from the cache (absent means none used).
    pub fn remaining_quota(&self, op: RateLimitOperation, used: Option<u32>) -> (r: u32)
        ensures
            ({
                let limit = match op {
                    RateLimitOperation::Insert => self.config.insert_per_second,
                    RateLimitOperation::Query => self.config.query_per_second,
                };
                let u: u32 = match used {
                    Some(n) => n,
                    None => 0,
                };
                r == spec_remaining(limit, u)
            }),
    {
        let limit = self.limit_for(op);
        let u: u32 = match used {
            Some(n) => n,
            None => 0,
        };
        limit.saturating_sub(u)
    }
}

/// The quota left in a window after `used` operations.
pub open spec fn spec_remaining(limit: u32, used: u32) -> int {
    if used <= limit {
        limit - used
    } else {
        0
    }
}

/// An operation counted as number `used + 1` of its window is allowed
/// exactly when quota was left before it.
pub proof fn law_allowed_iff_quota_left(limit: u32, used: u32)
    requires
        used < u32::MAX,
    ensures
        ((used + 1) as u32 <= limit) == (spec_remaining(limit, used) > 0),
{
}

} // verus!
