//! Circuit breaker: counts consecutive failures of an operation, opens after
//! a threshold, and lets one probe through once the cooldown has passed.
use vstd::prelude::*;

use crate::clock::{instant_now, millis_since};

verus! {

/// Circuit breaker state.
#[derive(Clone, Copy, Debug, PartialEq, Eq, Structural)]
pub enum BreakerState {
    /// Calls pass through and failures are counted.
    Closed,
    /// Calls are rejected until the cooldown has elapsed.
    Open,
    /// A probe is allowed; success closes, failure reopens.
    HalfOpen,
}

/// Error returned by `CircuitBreaker::call`.
#[derive(Debug)]
pub enum CircuitBreakerError<E> {
    /// The circuit is open and the operation was not run.
    Open,
    /// The operation ran and returned this error.
    OperationError(E),
}

impl<E> CircuitBreakerError<E> {
    /// A short description of the error.
    pub fn message(&self) -> (r: String)
        ensures
            (self is Open) ==> r@ == "circuit open"@,
            (self is OperationError) ==> r@ == "operation error"@,
    {
        match self {
            CircuitBreakerError::Open => "circuit open".to_string(),
            CircuitBreakerError::OperationError(_) => "operation error".to_string(),
        }
    }
}

/// Circuit breaker with a failure threshold and a cooldown, in milliseconds.
pub struct CircuitBreaker {
    state: BreakerState,
    failures: u32,
    threshold: u32,
    open_until: Option<u64>,
    cooldown: u64,
    origin: std::time::Instant,
}

/// `a + b`, or `u64::MAX` where the sum does not fit.
pub open spec fn sat_add(a: u64, b: u64) -> u64 {
    if a + b <= u64::MAX {
        (a + b) as u64
    } else {
        u64::MAX
    }
}

impl CircuitBreaker {
    pub closed spec fn spec_state(&self) -> BreakerState {
        self.state
    }

    pub closed spec fn spec_failures(&self) -> u32 {
        self.failures
    }

    pub closed spec fn spec_threshold(&self) -> u32 {
        self.threshold
    }

    pub closed spec fn spec_open_until(&self) -> Option<u64> {
        self.open_until
    }

    pub closed spec fn spec_cooldown(&self) -> u64 {
        self.cooldown
    }

    /// An open breaker knows until when, and has reached its threshold.
    pub open spec fn wf(&self) -> bool {
        self.spec_state() == BreakerState::Open ==> {
            &&& self.spec_open_until() is Some
            &&& self.spec_failures() >= self.spec_threshold()
        }
    }

    /// The state in which a call at time `now` finds the breaker: an open
    /// breaker whose cooldown has run out is half-open.
    pub open spec fn state_at(&self, now: u64) -> BreakerState {
        match self.spec_open_until() {
            Some(until) => if self.spec_state() == BreakerState::Open && now >= until {
                BreakerState::HalfOpen
            } else {
                self.spec_state()
            },
            None => self.spec_state(),
        }
    }

    /// The breaker keeps its settings and holds the given counters.
    pub open spec fn same_settings(&self, other: &Self) -> bool {
        &&& self.spec_threshold() == other.spec_threshold()
        &&& self.spec_cooldown() == other.spec_cooldown()
    }

    /// What a success in state `st` leaves behind.
    pub open spec fn after_success(&self, other: &Self, st: BreakerState) -> bool {
        &&& self.same_settings(other)
        &&& self.spec_failures() == 0
        &&& self.spec_state() == (if st == BreakerState::HalfOpen {
            BreakerState::Closed
        } else {
            st
        })
        &&& self.spec_open_until() == other.spec_open_until()
    }

    /// What a failure in state `st` at time `now` leaves behind: one more
    /// failure (saturating), and an open breaker once the count reaches the
    /// threshold.
    pub open spec fn after_failure(&self, other: &Self, st: BreakerState, now: u64) -> bool {
        let f: u32 = if other.spec_failures() == u32::MAX {
            u32::MAX
        } else {
            (other.spec_failures() + 1) as u32
        };
        &&& self.same_settings(other)
        &&& self.spec_failures() == f
        &&& if f >= other.spec_threshold() {
            &&& self.spec_state() == BreakerState::Open
            &&& self.spec_open_until() == Some(sat_add(now, other.spec_cooldown()))
        } else {
            &&& self.spec_state() == st
            &&& self.spec_open_until() == other.spec_open_until()
        }
    }

    /// Create a closed breaker that opens after `threshold` consecutive
    /// failures and stays open for `cooldown_ms` milliseconds.
    pub fn new(threshold: u32, cooldown_ms: u64) -> (r: Self)
        ensures
            r.wf(),
            r.spec_state() == BreakerState::Closed,
            r.spec_failures() == 0,
            r.spec_threshold() == threshold,
            r.spec_cooldown() == cooldown_ms,
            r.spec_open_until() == None::<u64>,
    {
        CircuitBreaker {
            state: BreakerState::Closed,
            failures: 0,
            threshold,
            open_until: None,
            cooldown: cooldown_ms,
            origin: instant_now(),
        }
    }

    /// The state at time `now` on the breaker's clock: an open breaker
    /// whose cooldown has run out is half-open.
    pub fn state_at_ms(&self, now: u64) -> (r: BreakerState)
        ensures
            r == self.state_at(now),
    {
        match (self.state, self.open_until) {
            (BreakerState::Open, Some(until)) => if now >= until {
                BreakerState::HalfOpen
            } else {
                BreakerState::Open
            },
            (st, _) => st,
        }
    }

    /// The state now. Only an open breaker depends on the clock: it reads
    /// half-open once its cooldown has run out.
    pub fn state(&self) -> (r: BreakerState)
        ensures
            self.spec_state() != BreakerState::Open ==> r == self.spec_state(),
            exists|now: u64| r == self.state_at(now),
    {
        let now = millis_since(&self.origin);
        self.state_at_ms(now)
    }

    fn maybe_transition(&mut self, now: u64)
        ensures
            final(self).spec_state() == old(self).state_at(now),
            final(self).spec_failures() == old(self).spec_failures(),
            final(self).spec_open_until() == old(self).spec_open_until(),
            final(self).same_settings(old(self)),
    {
        if self.state == BreakerState::Open {
            if let Some(until) = self.open_until {
                if now >= until {
                    self.state = BreakerState::HalfOpen;
                }
            }
        }
    }

    fn record_success(&mut self)
        ensures
            final(self).after_success(old(self), old(self).spec_state()),
    {
        self.failures = 0;
        if self.state == BreakerState::HalfOpen {
            self.state = BreakerState::Closed;
        }
    }

    fn record_failure(&mut self, now: u64)
        ensures
            final(self).after_failure(old(self), old(self).spec_state(), now),
    {
        self.failures = self.failures.saturating_add(1);
        if self.failures >= self.threshold {
            self.state = BreakerState::Open;
            self.open_until = Some(now.saturating_add(self.cooldown));
        }
    }

    /// Run `op` through the breaker at time `now` (milliseconds on the
    /// breaker's clock). An open breaker rejects the call without running
    /// `op`; otherwise `op` runs once and its outcome is recorded.
    pub fn call_at<T, E, F: FnOnce() -> Result<T, E>>(&mut self, now: u64, op: F) -> (r: Result<
        T,
        CircuitBreakerError<E>,
    >)
        requires
            old(self).wf(),
            op.requires(()),
        ensures
            final(self).wf(),
            old(self).state_at(now) == BreakerState::Open ==> {
                &&& r is Err && r->Err_0 is Open
                &&& final(self).spec_state() == BreakerState::Open
                &&& final(self).spec_failures() == old(self).spec_failures()
                &&& final(self).spec_open_until() == old(self).spec_open_until()
                &&& final(self).same_settings(old(self))
            },
            old(self).state_at(now) != BreakerState::Open ==> exists|o: Result<T, E>|
                {
                    &&& #[trigger] op.ensures((), o)
                    &&& match o {
                        Ok(v) => {
                            &&& r == Ok::<T, CircuitBreakerError<E>>(v)
                            &&& final(self).after_success(old(self), old(self).state_at(now))
                        },
                        Err(e) => {
                            &&& r == Err::<T, CircuitBreakerError<E>>(
                                CircuitBreakerError::OperationError(e),
                            )
                            &&& final(self).after_failure(old(self), old(self).state_at(now), now)
                        },
                    }
                },
    {
        self.maybe_transition(now);
        match self.state {
            BreakerState::Open => Err(CircuitBreakerError::Open),
            _ => {
                let o = op();
                match o {
                    Ok(v) => {
                        self.record_success();
                        Ok(v)
                    },
                    Err(e) => {
                        self.record_failure(now);
                        Err(CircuitBreakerError::OperationError(e))
                    },
                }
            },
        }
    }

    /// Run `op` through the breaker at the current time on its clock.
    pub fn call<T, E, F: FnOnce() -> Result<T, E>>(&mut self, op: F) -> (r: Result<
        T,
        CircuitBreakerError<E>,
    >)
        requires
            old(self).wf(),
            op.requires(()),
        ensures
            final(self).wf(),
            final(self).same_settings(old(self)),
            old(self).spec_state() != BreakerState::Open ==> exists|o: Result<T, E>|
                {
                    &&& #[trigger] op.ensures((), o)
                    &&& match o {
                        Ok(v) => {
                            &&& r == Ok::<T, CircuitBreakerError<E>>(v)
                            &&& final(self).after_success(old(self), old(self).spec_state())
                        },
                        Err(e) => {
                            &&& r == Err::<T, CircuitBreakerError<E>>(
                                CircuitBreakerError::OperationError(e),
                            )
                            &&& exists|now: u64|
                                final(self).after_failure(old(self), old(self).spec_state(), now)
                        },
                    }
                },
            exists|now: u64|
                {
                    &&& old(self).state_at(now) == BreakerState::Open ==> {
                        &&& r is Err && r->Err_0 is Open
                        &&& final(self).spec_state() == BreakerState::Open
                        &&& final(self).spec_failures() == old(self).spec_failures()
                        &&& final(self).spec_open_until() == old(self).spec_open_until()
                    }
                    &&& old(self).state_at(now) != BreakerState::Open ==> exists|o: Result<T, E>|
                        {
                            &&& #[trigger] op.ensures((), o)
                            &&& match o {
                                Ok(v) => {
                                    &&& r == Ok::<T, CircuitBreakerError<E>>(v)
                                    &&& final(self).after_success(old(self), old(self).state_at(now))
                                },
                                Err(e) => {
                                    &&& r == Err::<T, CircuitBreakerError<E>>(
                                        CircuitBreakerError::OperationError(e),
                                    )
                                    &&& final(self).after_failure(
                                        old(self),
                                        old(self).state_at(now),
                                        now,
                                    )
                                },
                            }
                        }
                },
    {
        let now = millis_since(&self.origin);
        self.call_at(now, op)
    }
}

/// From a closed breaker with no failures, each of `threshold` consecutive
/// failed calls (made at `times`) is counted, the breaker stays closed
/// until the last of them, and that one opens it until `cooldown` after
/// it.
pub proof fn lemma_consecutive_failures_open(bs: Seq<CircuitBreaker>, times: Seq<u64>)
    requires
        bs.len() == times.len() + 1,
        bs[0].spec_state() == BreakerState::Closed,
        bs[0].spec_failures() == 0,
        bs[0].spec_threshold() >= 1,
        times.len() == bs[0].spec_threshold(),
        forall|i: int|
            0 <= i < times.len() ==> #[trigger] bs[i + 1].after_failure(
                &bs[i],
                bs[i].state_at(times[i]),
                times[i],
            ),
    ensures
        forall|i: int|
            0 <= i < times.len() ==> (#[trigger] bs[i]).spec_state() == BreakerState::Closed
                && bs[i].spec_failures() == i,
        bs.last().spec_state() == BreakerState::Open,
        bs.last().spec_open_until() == Some(sat_add(times.last(), bs[0].spec_cooldown())),
{
    let n = times.len() as int;
    assert forall|i: int| 0 <= i <= n implies (#[trigger] bs[i]).same_settings(&bs[0]) && (i < n
        ==> bs[i].spec_state() == BreakerState::Closed && bs[i].spec_failures() == i) by {
        lemma_failure_prefix(bs, times, i);
    }
    lemma_failure_prefix(bs, times, n - 1);
    assert(bs[n - 1 + 1].after_failure(&bs[n - 1], bs[n - 1].state_at(times[n - 1]), times[n - 1]));
}

proof fn lemma_failure_prefix(bs: Seq<CircuitBreaker>, times: Seq<u64>, i: int)
    requires
        bs.len() == times.len() + 1,
        bs[0].spec_state() == BreakerState::Closed,
        bs[0].spec_failures() == 0,
        times.len() == bs[0].spec_threshold(),
        forall|i: int|
            0 <= i < times.len() ==> #[trigger] bs[i + 1].after_failure(
                &bs[i],
                bs[i].state_at(times[i]),
                times[i],
            ),
        0 <= i <= times.len(),
    ensures
        bs[i].same_settings(&bs[0]),
        i < times.len() ==> bs[i].spec_state() == BreakerState::Closed && bs[i].spec_failures()
            == i,
    decreases i,
{
    if i > 0 {
        lemma_failure_prefix(bs, times, i - 1);
        assert(bs[(i - 1) + 1].after_failure(&bs[i - 1], bs[i - 1].state_at(times[i - 1]), times[i - 1]));
    }
}

/// An open breaker rejects every call before its cooldown ends. Once it has
/// ended the next call is a probe: its success closes the breaker, and its
/// failure opens it again for another cooldown.
pub proof fn lemma_open_then_probe(b: CircuitBreaker, after: CircuitBreaker, now: u64)
    requires
        b.wf(),
        b.spec_state() == BreakerState::Open,
    ensures
        now < b.spec_open_until()->Some_0 ==> b.state_at(now) == BreakerState::Open,
        now >= b.spec_open_until()->Some_0 ==> b.state_at(now) == BreakerState::HalfOpen,
        now >= b.spec_open_until()->Some_0 && after.after_success(&b, b.state_at(now))
            ==> after.spec_state() == BreakerState::Closed && after.spec_failures() == 0,
        now >= b.spec_open_until()->Some_0 && after.after_failure(&b, b.state_at(now), now)
            ==> after.spec_state() == BreakerState::Open && after.spec_open_until() == Some(
            sat_add(now, b.spec_cooldown()),
        ),
{
}

} // verus!
