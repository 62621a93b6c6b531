use std::cell::Cell;
use toolchest::functions::circuit_breaker::{BreakerState, CircuitBreaker, CircuitBreakerError};
use toolchest::functions::compose::{compose, constant, flip, identity, negate, partial, pipe, tap, times};
use toolchest::functions::debounce::{DebounceAction, DebounceState};
use toolchest::functions::memo::memo_fn;
use toolchest::functions::once::once;
use toolchest::functions::rate_limiter::RateLimiter;
use toolchest::functions::retry::RetrySchedule;
use toolchest::functions::throttle::throttle;

#[test]
fn test_circuit_breaker_opens() {
    let mut cb = CircuitBreaker::new(1, 10);
    let _: Result<(), CircuitBreakerError<()>> = cb.call::<(), (), _>(|| Err(()));
    // Next call returns Open because circuit is open
    let res: Result<(), CircuitBreakerError<()>> = cb.call::<(), (), _>(|| Ok(()));
    match res {
        Err(CircuitBreakerError::Open) => {}
        _ => panic!("expected CircuitBreakerError::Open"),
    }
}

#[test]
fn breaker_probes_after_cooldown() {
    let mut cb = CircuitBreaker::new(2, 10);
    let ran = Cell::new(0);
    let fail = || -> Result<u32, &str> {
        ran.set(ran.get() + 1);
        Err("boom")
    };
    assert!(matches!(cb.call_at(0, fail), Err(CircuitBreakerError::OperationError("boom"))));
    assert_eq!(cb.state_at_ms(0), BreakerState::Closed);
    assert!(matches!(cb.call_at(1, fail), Err(CircuitBreakerError::OperationError("boom"))));
    assert_eq!(cb.state_at_ms(1), BreakerState::Open);
    assert_eq!(cb.state_at_ms(10), BreakerState::Open);
    assert_eq!(cb.state_at_ms(11), BreakerState::HalfOpen);
    assert!(matches!(cb.call_at(5, fail), Err(CircuitBreakerError::Open)));
    assert_eq!(ran.get(), 2);
    // cooldown over: one probe runs; a failure reopens
    assert!(matches!(cb.call_at(11, fail), Err(CircuitBreakerError::OperationError("boom"))));
    assert_eq!(cb.state_at_ms(11), BreakerState::Open);
    assert_eq!(ran.get(), 3);
    // after the next cooldown a success closes
    assert_eq!(cb.call_at(30, || Ok::<u32, &str>(7)).ok(), Some(7));
    assert_eq!(cb.state_at_ms(30), BreakerState::Closed);
    assert_eq!(cb.state(), BreakerState::Closed);
    assert_eq!(CircuitBreakerError::<()>::Open.message(), "circuit open");
}

#[test]
fn rate_limiter_burst_and_refill() {
    let mut rl = RateLimiter::new(2, 10);
    assert!(rl.allow_at(0));
    assert!(rl.allow_at(0));
    assert!(!rl.allow_at(0));
    // 10 tokens per second: 100 ms brings one token back
    assert!(!rl.allow_at(50));
    assert!(rl.allow_at(100));
    assert!(!rl.allow_at(100));
    // a long wait refills to capacity only
    assert!(rl.allow_at(10_000));
    assert!(rl.allow_at(10_000));
    assert!(!rl.allow_at(10_000));
}

#[test]
fn test_rate_limiter() {
    let mut rl = RateLimiter::new(2, 10);
    assert!(rl.allow());
    assert!(rl.allow());
    assert!(!rl.allow());
}

#[test]
fn throttle_drops_calls_within_delay() {
    let count = Cell::new(0);
    let mut t = throttle(|| count.set(count.get() + 1), 50);
    assert!(t.call_at(0));
    assert!(!t.call_at(10));
    assert!(!t.call_at(49));
    assert!(t.call_at(50));
    assert!(!t.call_at(60));
    assert_eq!(count.get(), 2);
    t.call();
}

#[test]
fn debounce_fires_once_per_burst() {
    let mut d = DebounceState::new(20);
    assert_eq!(d.poll(0), DebounceAction::Idle);
    d.schedule(0);
    d.schedule(2);
    d.schedule(5);
    assert_eq!(d.poll(10), DebounceAction::WaitUntil(25));
    assert_eq!(d.poll(24), DebounceAction::WaitUntil(25));
    assert_eq!(d.poll(25), DebounceAction::Fire);
    assert_eq!(d.poll(26), DebounceAction::Idle);
    d.schedule(100);
    d.cancel();
    assert_eq!(d.poll(500), DebounceAction::Idle);
}

#[test]
fn test_memoize_basic() {
    let calls = Cell::new(0u32);
    let mut f = memo_fn(|x: u64| {
        calls.set(calls.get() + 1);
        x * 2
    });
    assert_eq!(f.call(2), 4);
    assert_eq!(f.call(2), 4);
    assert_eq!(calls.get(), 1);
    assert_eq!(f.computations(), 1);
    assert_eq!(f.call(3), 6);
    assert_eq!(calls.get(), 2);
}

#[test]
fn test_compose_pipe_tap() {
    let f = |x: i32| x + 1;
    let g = |y: i32| y * 2;
    let h = compose(g, f);
    assert_eq!(h.call(3), 8);
    let v = pipe(3, f, g);
    assert_eq!(v, 8);
    let seen = Cell::new(0);
    let v = tap(5, |r| {
        seen.set(*r);
    });
    assert_eq!(v, 5);
    assert_eq!(seen.get(), 5);
}

#[test]
fn small_combinators() {
    assert_eq!(identity(4), 4);
    assert_eq!(constant(9).call(), 9);
    assert!(negate(|x: i32| x > 3).call(1));
    assert_eq!(flip(|a: i32, b: i32| a - b).call(1, 10), 9);
    assert_eq!(partial(|a: i32| a * 3, 4).call(), 12);
    let total = Cell::new(0);
    times(4, |i| total.set(total.get() + i));
    assert_eq!(total.get(), 6);
    let runs = Cell::new(0);
    let mut o = once(|| runs.set(runs.get() + 1));
    assert!(o.call());
    assert!(!o.call());
    assert_eq!(runs.get(), 1);
}

#[test]
fn retry_schedule_fixed_delay() {
    // three attempts: two failures are retried, the third gives up
    let mut s = RetrySchedule::fixed(3, 5);
    assert_eq!(s.on_failure(), Some(5));
    assert_eq!(s.on_failure(), Some(5));
    assert_eq!(s.on_failure(), None);
    let mut one = RetrySchedule::fixed(1, 5);
    assert_eq!(one.on_failure(), None);
}

#[test]
fn retry_schedule_backoff_doubles_and_saturates() {
    let mut s = RetrySchedule::backoff(5, 1);
    assert_eq!(s.on_failure(), Some(1));
    assert_eq!(s.on_failure(), Some(2));
    assert_eq!(s.on_failure(), Some(4));
    assert_eq!(s.on_failure(), Some(8));
    assert_eq!(s.on_failure(), None);
    let mut big = RetrySchedule::backoff(4, u64::MAX / 2 + 1);
    assert_eq!(big.on_failure(), Some(u64::MAX / 2 + 1));
    assert_eq!(big.on_failure(), Some(u64::MAX));
    assert_eq!(big.on_failure(), Some(u64::MAX));
}

#[test]
fn test_throttle_basic() {
    let counter = Cell::new(0u32);
    let mut t = throttle(|| counter.set(counter.get() + 1), 50);
    t.call_at(0);
    t.call_at(0);
    assert_eq!(counter.get(), 1);
    t.call_at(60);
    assert_eq!(counter.get(), 2);
}
