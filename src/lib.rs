//! Small verified utilities: gating combinators (circuit breaker, token
//! bucket, throttle, debounce, memoizer, retry schedules), collection and
//! numeric helpers, encodings, hashes and validators.

pub mod chars;
pub mod clock;
pub mod collections;
pub mod deep;
pub mod encoding;
pub mod functions;
pub mod hash;
pub mod json_path;
pub mod math;
pub mod random;
pub mod strings;
pub mod time;
pub mod types;
pub mod validation;
