//! The retry schedule shared by every fetch: exponential backoff starting
//! at 300 ms, doubling after each failed attempt, bounded by a maximum
//! number of attempts.
//!
//! The policy is a state machine over plain values; the surrounding
//! program performs the fetch and the sleep, and feeds each failure back
//! through `on_failure`.

use vstd::prelude::*;

verus! {

/// The delay before the very first retry, in milliseconds.
pub const INITIAL_DELAY_MS: u64 = 300;

/// Two to the power `k`.
pub open spec fn pow2(k: nat) -> nat
    decreases k,
{
    if k == 0 {
        1
    } else {
        2 * pow2((k - 1) as nat)
    }
}

/// The backoff delay after `k` recorded failures: `300 * 2^k`
/// milliseconds, saturating at the largest `u64` value.
pub open spec fn spec_delay(k: nat) -> nat {
    if 300 * pow2(k) <= u64::MAX as nat {
        300 * pow2(k)
    } else {
        u64::MAX as nat
    }
}

/// What to do after a failed attempt: wait this many milliseconds and try
/// again, or stop retrying.
pub enum RetryDecision {
    RetryAfter(u64),
    GiveUp,
}

/// The backoff state: how many attempts have failed, out of how many are
/// allowed, and the delay the next retry will wait.
pub struct RetryPolicy {
    pub max_attempts: usize,
    pub attempts: usize,
    pub delay_ms: u64,
}

impl RetryPolicy {
    /// The failure count never passes the bound, and the pending delay is
    /// exactly the doubling schedule's value for it.
    pub open spec fn wf(&self) -> bool {
        &&& self.attempts <= self.max_attempts
        &&& self.delay_ms as nat == spec_delay(self.attempts as nat)
    }

    /// A fresh policy that allows `max_attempts` tries.
    pub fn new(max_attempts: usize) -> (p: RetryPolicy)
        ensures
            p.wf(),
            p.max_attempts == max_attempts,
            p.attempts == 0,
            p.delay_ms == INITIAL_DELAY_MS,
    {
        proof {
            assert(pow2(0) == 1);
        }
        RetryPolicy { max_attempts, attempts: 0, delay_ms: INITIAL_DELAY_MS }
    }

    /// Records one failed attempt. While tries remain it asks for a retry
    /// after the current delay and doubles the delay; the final failure
    /// gives up.
    pub fn on_failure(&mut self) -> (d: RetryDecision)
        requires
            old(self).wf(),
            old(self).attempts < old(self).max_attempts,
        ensures
            final(self).wf(),
            final(self).max_attempts == old(self).max_attempts,
            final(self).attempts == old(self).attempts + 1,
            final(self).attempts < final(self).max_attempts ==> d == RetryDecision::RetryAfter(
                old(self).delay_ms,
            ) && final(self).delay_ms as nat == spec_delay(final(self).attempts as nat),
            final(self).attempts == final(self).max_attempts ==> d is GiveUp,
    {
        self.attempts = self.attempts + 1;
        if self.attempts < self.max_attempts {
            let wait = self.delay_ms;
            proof {
                assert(pow2(self.attempts as nat) == 2 * pow2((self.attempts - 1) as nat));
            }
            if self.delay_ms <= u64::MAX / 2 {
                self.delay_ms = self.delay_ms * 2;
            } else {
                self.delay_ms = u64::MAX;
            }
            RetryDecision::RetryAfter(wait)
        } else {
            proof {
                assert(pow2(self.attempts as nat) == 2 * pow2((self.attempts - 1) as nat));
            }
            if self.delay_ms <= u64::MAX / 2 {
                self.delay_ms = self.delay_ms * 2;
            } else {
                self.delay_ms = u64::MAX;
            }
            RetryDecision::GiveUp
        }
    }

    /// Whether another attempt may be made at all.
    pub fn exhausted(&self) -> (r: bool)
        ensures
            r == (self.attempts >= self.max_attempts),
    {
        self.attempts >= self.max_attempts
    }
}

/// The retry bound: a fetch that fails on every attempt is retried with
/// delays `300, 600, 1200, ...` milliseconds - after `k` failures the
/// pending delay is exactly `300 * 2^k` while that fits in the machine
/// word - and the policy gives up exactly when the failure count reaches
/// `max_attempts`, never before.
pub proof fn lemma_retry_schedule(p: RetryPolicy, k: nat)
    requires
        p.wf(),
        p.attempts == k,
        300 * pow2(k) <= u64::MAX as nat,
    ensures
        p.delay_ms == 300 * pow2(k),
        p.attempts <= p.max_attempts,
{
}

} // verus!
