//! The retry decision shared by name scouting and translation: after a failed
//! attempt, wait `2^attempt` seconds and try again, until the budget is spent.
use vstd::prelude::*;

verus! {

/// Two to the power `n`.
pub open spec fn pow2(n: nat) -> nat
    decreases n,
{
    if n == 0 {
        1
    } else {
        2 * pow2((n - 1) as nat)
    }
}

/// The wait before attempt number `attempt + 1`, in seconds: `2^attempt`,
/// capped at the largest `u64`.
pub open spec fn backoff(attempt: nat) -> u64 {
    if pow2(attempt) <= u64::MAX {
        pow2(attempt) as u64
    } else {
        u64::MAX
    }
}

proof fn lemma_pow2_grows(n: nat)
    ensures
        pow2(n) >= 1,
        pow2(n + 1) == 2 * pow2(n),
    decreases n,
{
    if n > 0 {
        lemma_pow2_grows((n - 1) as nat);
    }
}

/// `2^attempt` seconds, capped at the largest `u64`.
pub fn backoff_secs(attempt: u32) -> (r: u64)
    ensures
        r == backoff(attempt as nat),
{
    let mut r: u64 = 1;
    let mut i: u32 = 0;
    let mut capped = false;
    while i < attempt
        invariant
            i <= attempt,
            capped ==> pow2(i as nat) > u64::MAX && r == u64::MAX,
            !capped ==> r == pow2(i as nat),
        decreases attempt - i,
    {
        proof {
            lemma_pow2_grows(i as nat);
        }
        if !capped {
            if r > u64::MAX / 2 {
                capped = true;
                r = u64::MAX;
            } else {
                r = r * 2;
            }
        }
        i = i + 1;
    }
    r
}

/// What to do after a failed attempt.
#[derive(Clone, Copy, Debug, PartialEq, Eq, Structural)]
pub enum RetryDecision {
    /// Wait `wait_secs` seconds, then make attempt number `attempt + 1`.
    Retry { attempt: u32, wait_secs: u64 },
    /// The budget of attempts is spent.
    GiveUp,
}

/// The decision after attempt number `attempt + 1` of at most `max_attempts`
/// failed: one more attempt is counted; while some are left, wait `2^n`
/// seconds where `n` attempts have failed, else give up.
pub open spec fn decide_after_failure(attempt: u32, max_attempts: u32) -> RetryDecision {
    let n = attempt + 1;
    if n < max_attempts {
        RetryDecision::Retry { attempt: n as u32, wait_secs: backoff(n as nat) }
    } else {
        RetryDecision::GiveUp
    }
}

/// The decision after attempt number `attempt + 1` failed.
pub fn after_failure(attempt: u32, max_attempts: u32) -> (r: RetryDecision)
    requires
        attempt < max_attempts,
    ensures
        r == decide_after_failure(attempt, max_attempts),
{
    let n = attempt + 1;
    if n < max_attempts {
        RetryDecision::Retry { attempt: n, wait_secs: backoff_secs(n) }
    } else {
        RetryDecision::GiveUp
    }
}

} // verus!
