//! Retry schedules: how many times a failing operation is tried, and how
//! long to wait before each retry, with a fixed or a doubling delay. The
//! caller runs the operation and waits; the schedule decides.
use vstd::prelude::*;

use vstd::arithmetic::power2::{pow2, lemma_pow2_unfold};

verus! {

/// A retry schedule: tries left, the next wait in milliseconds, and whether
/// the wait doubles after each failure.
#[derive(Clone, Copy, Debug)]
pub struct RetrySchedule {
    pub remaining: u32,
    pub delay: u64,
    pub doubling: bool,
}

/// `min(x, u64::MAX)`.
pub open spec fn cap_u64(x: int) -> u64 {
    if x <= u64::MAX {
        x as u64
    } else {
        u64::MAX
    }
}

/// The schedule after one failure, and the wait before the retry (`None`:
/// give up and report the failure).
pub open spec fn after_failure(s: RetrySchedule) -> (RetrySchedule, Option<u64>) {
    let remaining: u32 = if s.remaining == 0 {
        0
    } else {
        (s.remaining - 1) as u32
    };
    if remaining == 0 {
        (RetrySchedule { remaining, ..s }, None)
    } else {
        let next = if s.doubling {
            cap_u64(2 * s.delay)
        } else {
            s.delay
        };
        (RetrySchedule { remaining, delay: next, doubling: s.doubling }, Some(s.delay))
    }
}

/// The schedule after `k` failures.
pub open spec fn after_failures(s: RetrySchedule, k: nat) -> RetrySchedule
    decreases k,
{
    if k == 0 {
        s
    } else {
        after_failure(after_failures(s, (k - 1) as nat)).0
    }
}

impl RetrySchedule {
    /// `attempts` tries in all, waiting `delay_ms` before each retry.
    pub fn fixed(attempts: u32, delay_ms: u64) -> (r: Self)
        ensures
            r == (RetrySchedule { remaining: attempts, delay: delay_ms, doubling: false }),
    {
        RetrySchedule { remaining: attempts, delay: delay_ms, doubling: false }
    }

    /// `attempts` tries in all, waiting `base_delay_ms` before the first
    /// retry and twice as long before each later one (saturating).
    pub fn backoff(attempts: u32, base_delay_ms: u64) -> (r: Self)
        ensures
            r == (RetrySchedule { remaining: attempts, delay: base_delay_ms, doubling: true }),
    {
        RetrySchedule { remaining: attempts, delay: base_delay_ms, doubling: true }
    }

    /// Record a failure: returns the wait before the next try, or `None`
    /// when no try is left.
    pub fn on_failure(&mut self) -> (r: Option<u64>)
        ensures
            (*final(self), r) == after_failure(*old(self)),
    {
        self.remaining = self.remaining.saturating_sub(1);
        if self.remaining == 0 {
            None
        } else {
            let d = self.delay;
            if self.doubling {
                self.delay = match self.delay.checked_mul(2) {
                    Some(x) => x,
                    None => u64::MAX,
                };
            }
            Some(d)
        }
    }
}

/// With `n >= 1` attempts, each of the first `n - 1` failures leads to a
/// retry and the `n`-th gives up: an operation that fails `k < n` times and
/// then succeeds runs `k + 1` times, and one that always fails runs `n`
/// times.
pub proof fn lemma_attempts(s: RetrySchedule, k: nat)
    requires
        s.remaining >= 1,
        k < s.remaining,
    ensures
        after_failures(s, k).remaining == s.remaining - k,
        after_failure(after_failures(s, k)).1 is Some <==> k + 1 < s.remaining,
    decreases k,
{
    if k > 0 {
        lemma_attempts(s, (k - 1) as nat);
    }
}

/// With a doubling schedule, the wait before the `i`-th retry is
/// `base * 2^(i-1)`, saturating at `u64::MAX`.
pub proof fn lemma_backoff_delay(s: RetrySchedule, k: nat)
    requires
        s.doubling,
        k < s.remaining,
    ensures
        after_failures(s, k).delay == cap_u64(s.delay * pow2(k)),
        after_failures(s, k).doubling,
        after_failures(s, k).remaining == s.remaining - k,
        k + 1 < s.remaining ==> after_failure(after_failures(s, k)).1 == Some(
            cap_u64(s.delay * pow2(k)),
        ),
    decreases k,
{
    if k == 0 {
        assert(pow2(0) == 1) by {
            vstd::arithmetic::power2::lemma2_to64();
        }
    } else {
        lemma_backoff_delay(s, (k - 1) as nat);
        lemma_pow2_unfold(k);
        let prev = after_failures(s, (k - 1) as nat);
        let x = s.delay * pow2((k - 1) as nat);
        assert(x >= 0) by (nonlinear_arith)
            requires
                x == s.delay * pow2((k - 1) as nat),
                s.delay >= 0,
                pow2((k - 1) as nat) >= 0,
        ;
        assert(s.delay * pow2(k) == 2 * x) by (nonlinear_arith)
            requires
                pow2(k) == 2 * pow2((k - 1) as nat),
                x == s.delay * pow2((k - 1) as nat),
        ;
    }
}

} // verus!
