//! The retry policy of the room-tree client: how many times a request is
//! tried, how long it waits between tries, and the form body of the first
//! level of the tree.

use vstd::prelude::*;
use vstd::arithmetic::power2::{pow2, lemma_pow2_unfold, lemma_pow2_strictly_increases, lemma2_to64_rest};

verus! {

/// The form body that asks for the first level of the room tree, the
/// campuses.
pub fn campus_level_params() -> (r: &'static str)
    ensures
        r@ == "yzm=123&Id=000&level=1"@,
{
    "yzm=123&Id=000&level=1"
}

/// The wait, in seconds, after the failed try number `attempt` (counted
/// from 1): it doubles with each try, starting at one second.
pub fn retry_delay_secs(attempt: u32) -> (d: u64)
    requires
        1 <= attempt <= 64,
    ensures
        d == pow2((attempt - 1) as nat),
{
    let mut d: u64 = 1;
    let mut k: u32 = 0;
    proof {
        lemma2_to64_rest();
        assert(pow2(0) == 1) by {
            vstd::arithmetic::power2::lemma2_to64();
        }
    }
    while k < attempt - 1
        invariant
            k <= attempt - 1,
            attempt <= 64,
            d == pow2(k as nat),
            pow2(63) == 0x8000000000000000u64,
        decreases attempt - 1 - k,
    {
        proof {
            lemma_pow2_unfold((k + 1) as nat);
            if k + 1 < 63 {
                lemma_pow2_strictly_increases((k + 1) as nat, 63);
            }
        }
        d = d * 2;
        k = k + 1;
    }
    d
}

/// What the client does after a failed try.
#[derive(Debug)]
pub enum RetryStep {
    /// Wait this many seconds, then try again.
    Wait(u64),
    /// No tries are left: the last error is the answer.
    GiveUp,
}

/// After the failed try number `attempt` of `max_retries`: wait and try
/// again while tries are left, give up after the last one.
pub fn after_failure(attempt: u32, max_retries: u32) -> (r: RetryStep)
    requires
        1 <= attempt <= max_retries,
        attempt <= 64,
    ensures
        attempt < max_retries ==> r == RetryStep::Wait(pow2((attempt - 1) as nat) as u64),
        attempt == max_retries ==> r == RetryStep::GiveUp,
{
    if attempt < max_retries {
        RetryStep::Wait(retry_delay_secs(attempt))
    } else {
        RetryStep::GiveUp
    }
}

} // verus!
