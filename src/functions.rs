//! Gating combinators. Each keeps its state as plain values, with time as
//! milliseconds read from a monotonic clock, so that every decision is a
//! verified function of the state and the current reading.
pub mod circuit_breaker;
pub mod rate_limiter;
pub mod throttle;
pub mod debounce;
pub mod memo;
pub mod retry;
pub mod compose;
pub mod once;
