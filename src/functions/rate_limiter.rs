//! Token-bucket rate limiting.
//!
//! Tokens are counted in thousandths, and time in milliseconds, so a refill
//! of `rate` tokens per second over `ms` milliseconds adds exactly
//! `ms * rate` thousandths: the fractional refill is exact.
use vstd::prelude::*;

use crate::clock::{instant_now, millis_since};

verus! {

/// One token, in thousandths.
pub const TOKEN: u64 = 1000;

/// Thousandths of a token held after refilling a bucket that held `tokens`
/// at `last` up to time `now`, clamped to the capacity.
pub open spec fn refilled(tokens: int, last: int, capacity: int, rate: int, now: int) -> int {
    if now > last {
        let t = tokens + (now - last) * rate;
        if t < capacity * TOKEN {
            t
        } else {
            capacity * TOKEN
        }
    } else {
        tokens
    }
}

/// Number of `allow` calls that succeed among `k` calls made at one instant
/// on a bucket holding `tokens` thousandths after its refill.
pub open spec fn burst_admitted(tokens: int, k: nat) -> nat
    decreases k,
{
    if k == 0 {
        0
    } else if tokens >= TOKEN {
        1 + burst_admitted(tokens - TOKEN, (k - 1) as nat)
    } else {
        burst_admitted(tokens, (k - 1) as nat)
    }
}

/// Token-bucket rate limiter: `capacity` tokens at most, refilled at
/// `refill_per_sec` tokens per second.
pub struct RateLimiter {
    capacity: u32,
    tokens: u64,
    refill_per_sec: u32,
    last_refill: u64,
    origin: std::time::Instant,
}

impl RateLimiter {
    pub closed spec fn spec_capacity(&self) -> u32 {
        self.capacity
    }

    /// Tokens held, in thousandths.
    pub closed spec fn spec_tokens(&self) -> u64 {
        self.tokens
    }

    pub closed spec fn spec_rate(&self) -> u32 {
        self.refill_per_sec
    }

    /// Clock reading of the last refill.
    pub closed spec fn spec_last_refill(&self) -> u64 {
        self.last_refill
    }

    /// The bucket never holds more than its capacity.
    pub open spec fn wf(&self) -> bool {
        self.spec_tokens() <= self.spec_capacity() * TOKEN
    }

    /// Thousandths of a token available at time `now`, after the refill.
    pub open spec fn available_at(&self, now: u64) -> int {
        refilled(
            self.spec_tokens() as int,
            self.spec_last_refill() as int,
            self.spec_capacity() as int,
            self.spec_rate() as int,
            now as int,
        )
    }

    /// A full bucket of `capacity` tokens, refilled at `refill_per_second`
    /// tokens per second; its clock starts at 0.
    pub fn new(capacity: u32, refill_per_second: u32) -> (r: Self)
        ensures
            r.wf(),
            r.spec_capacity() == capacity,
            r.spec_rate() == refill_per_second,
            r.spec_tokens() == capacity * TOKEN,
            r.spec_last_refill() == 0,
    {
        RateLimiter {
            capacity,
            tokens: capacity as u64 * TOKEN,
            refill_per_sec: refill_per_second,
            last_refill: 0,
            origin: instant_now(),
        }
    }

    fn refill(&mut self, now: u64)
        requires
            old(self).wf(),
        ensures
            final(self).wf(),
            final(self).spec_tokens() == old(self).available_at(now),
            final(self).spec_last_refill() == (if now > old(self).spec_last_refill() {
                now
            } else {
                old(self).spec_last_refill()
            }),
            final(self).spec_capacity() == old(self).spec_capacity(),
            final(self).spec_rate() == old(self).spec_rate(),
    {
        if now > self.last_refill {
            let cap = self.capacity as u64 * TOKEN;
            let elapsed = now - self.last_refill;
            let gained = match elapsed.checked_mul(self.refill_per_sec as u64) {
                Some(g) => g,
                None => u64::MAX,
            };
            let t = self.tokens.saturating_add(gained);
            proof {
                assert(elapsed * self.refill_per_sec >= 0) by (nonlinear_arith)
                    requires
                        elapsed >= 0,
                        self.refill_per_sec >= 0,
                ;
            }
            self.tokens = if t < cap {
                t
            } else {
                cap
            };
            self.last_refill = now;
        }
    }

    /// Try to take one token at time `now` (milliseconds on the limiter's
    /// clock), after refilling for the time elapsed since the last refill.
    pub fn allow_at(&mut self, now: u64) -> (r: bool)
        requires
            old(self).wf(),
        ensures
            final(self).wf(),
            r == (old(self).available_at(now) >= TOKEN),
            final(self).spec_tokens() == old(self).available_at(now) - (if r {
                TOKEN
            } else {
                0
            }),
            final(self).spec_last_refill() == (if now > old(self).spec_last_refill() {
                now
            } else {
                old(self).spec_last_refill()
            }),
            final(self).spec_capacity() == old(self).spec_capacity(),
            final(self).spec_rate() == old(self).spec_rate(),
    {
        self.refill(now);
        if self.tokens >= TOKEN {
            self.tokens = self.tokens - TOKEN;
            true
        } else {
            false
        }
    }

    /// Try to take one token now. A bucket that already holds a whole
    /// token admits the call whatever the clock reads; otherwise the call
    /// is decided as `allow_at` decides it at the clock's reading.
    pub fn allow(&mut self) -> (r: bool)
        requires
            old(self).wf(),
        ensures
            final(self).wf(),
            final(self).spec_capacity() == old(self).spec_capacity(),
            final(self).spec_rate() == old(self).spec_rate(),
            old(self).spec_tokens() >= TOKEN ==> r,
            exists|now: u64|
                {
                    &&& r == (old(self).available_at(now) >= TOKEN)
                    &&& final(self).spec_tokens() == old(self).available_at(now) - (if r {
                        TOKEN
                    } else {
                        0
                    })
                    &&& final(self).spec_last_refill() == (if now > old(self).spec_last_refill() {
                        now
                    } else {
                        old(self).spec_last_refill()
                    })
                },
    {
        let now = millis_since(&self.origin);
        proof {
            lemma_refill_keeps(self.spec_tokens() as int, self.spec_last_refill() as int,
                self.spec_capacity() as int, self.spec_rate() as int, now as int);
        }
        self.allow_at(now)
    }
}

/// A refill never loses what a well-formed bucket holds.
proof fn lemma_refill_keeps(tokens: int, last: int, capacity: int, rate: int, now: int)
    requires
        0 <= tokens <= capacity * TOKEN,
        rate >= 0,
    ensures
        refilled(tokens, last, capacity, rate, now) >= tokens,
{
    if now > last {
        assert((now - last) * rate >= 0) by (nonlinear_arith)
            requires
                now > last,
                rate >= 0,
        ;
    }
}

/// Among `k` calls at one instant, as many succeed as there are whole
/// tokens, and no more than `k`.
pub proof fn lemma_burst_admitted(tokens: int, k: nat)
    requires
        tokens >= 0,
    ensures
        burst_admitted(tokens, k) == (if k < tokens / (TOKEN as int) {
            k
        } else {
            (tokens / (TOKEN as int)) as nat
        }),
    decreases k,
{
    if k > 0 {
        if tokens >= TOKEN {
            lemma_burst_admitted(tokens - TOKEN, (k - 1) as nat);
            assert((tokens - TOKEN) / (TOKEN as int) == tokens / (TOKEN as int) - 1);
        } else {
            lemma_burst_admitted(tokens, (k - 1) as nat);
        }
    }
}

/// A fresh bucket of capacity `c` admits exactly `c` calls in a burst at
/// any instant, whatever the refill rate: of `c + 1` calls, `c` succeed.
pub proof fn lemma_fresh_bucket_admits_capacity(c: u32, rate: u32, now: u64)
    ensures
        refilled(c * TOKEN, 0, c as int, rate as int, now as int) == c * TOKEN,
        burst_admitted(c * TOKEN, c as nat) == c,
        burst_admitted(c * TOKEN, (c + 1) as nat) == c,
{
    let r = refilled(c * TOKEN, 0, c as int, rate as int, now as int);
    assert(now > 0 ==> now * rate >= 0) by (nonlinear_arith);
    lemma_burst_admitted(c * TOKEN, c as nat);
    lemma_burst_admitted(c * TOKEN, (c + 1) as nat);
    assert((c * TOKEN) / (TOKEN as int) == c);
}

/// After `t` milliseconds, a bucket admits in a burst of `k` calls at most
/// `k`, at most its capacity, and at most what it held plus what
/// `t * rate` thousandths add; from an empty bucket, the added part alone.
pub proof fn lemma_refill_bound(tokens: int, last: int, c: int, rate: int, t: int, k: nat)
    requires
        0 <= tokens < TOKEN,
        tokens <= c * TOKEN,
        c >= 0,
        rate >= 0,
        t >= 0,
    ensures
        burst_admitted(refilled(tokens, last, c, rate, last + t), k) <= k,
        burst_admitted(refilled(tokens, last, c, rate, last + t), k) <= c,
        burst_admitted(refilled(tokens, last, c, rate, last + t), k) <= (t * rate + TOKEN - 1)
            / (TOKEN as int),
{
    let avail = refilled(tokens, last, c, rate, last + t);
    assert(t * rate >= 0) by (nonlinear_arith)
        requires
            t >= 0,
            rate >= 0,
    ;
    assert(avail >= 0);
    lemma_burst_admitted(avail, k);
    assert(avail <= c * TOKEN);
    assert(avail / (TOKEN as int) <= c);
    assert(avail <= tokens + t * rate);
    assert(avail / (TOKEN as int) <= (t * rate + TOKEN - 1) / (TOKEN as int));
}

/// A bucket of capacity `c` and rate `rate` that starts full, with no
/// refill since time 0, and then takes `c + 1` `allow_at` calls at
/// nondecreasing `times` spanning less than one token's worth of refill:
/// the first `c` calls succeed and the last one fails. Here `toks[i]` and
/// `lasts[i]` are the tokens and last refill before call `i`, `ok[i]` its
/// result, related as `allow_at` promises.
pub proof fn lemma_first_capacity_calls_succeed(
    c: nat,
    rate: nat,
    times: Seq<u64>,
    toks: Seq<int>,
    lasts: Seq<int>,
    ok: Seq<bool>,
)
    requires
        times.len() == c + 1,
        toks.len() == c + 2,
        lasts.len() == c + 2,
        ok.len() == c + 1,
        toks[0] == c * TOKEN,
        lasts[0] == 0,
        forall|i: int| 0 <= i < c ==> times[i] <= #[trigger] times[i + 1],
        (times[c as int] - times[0]) * rate < TOKEN,
        forall|i: int|
            0 <= i <= c ==> {
                let avail = refilled(toks[i], lasts[i], c as int, rate as int, times[i] as int);
                &&& #[trigger] ok[i] == (avail >= TOKEN)
                &&& toks[i + 1] == avail - (if ok[i] {
                    TOKEN
                } else {
                    0
                })
                &&& lasts[i + 1] == (if times[i] > lasts[i] {
                    times[i] as int
                } else {
                    lasts[i]
                })
            },
    ensures
        forall|i: int| 0 <= i < c ==> #[trigger] ok[i],
        !ok[c as int],
{
    assert forall|i: int| 0 <= i < c implies #[trigger] ok[i] by {
        lemma_bucket_prefix(c, rate, times, toks, lasts, ok, i);
    }
    lemma_bucket_prefix(c, rate, times, toks, lasts, ok, c as int);
    let i = c as int;
    let avail = refilled(toks[i], lasts[i], c as int, rate as int, times[i] as int);
    assert(ok[i] == (avail >= TOKEN));
    if c == 0 {
        assert(avail <= c * TOKEN);
    } else {
        assert(times[i - 1] <= times[(i - 1) + 1]);
        lemma_span(times[i] as int, times[i - 1] as int, times[0] as int, rate as int);
        assert(avail <= toks[i] + (times[i] - times[i - 1]) * rate);
    }
}

/// Spans add up, and a forward span refills a nonnegative amount.
proof fn lemma_span(x: int, y: int, z: int, r: int)
    requires
        x >= y,
        r >= 0,
    ensures
        (x - y) * r + (y - z) * r == (x - z) * r,
        (x - y) * r >= 0,
{
    assert((x - y) * r + (y - z) * r == (x - z) * r) by (nonlinear_arith);
    assert((x - y) * r >= 0) by (nonlinear_arith)
        requires
            x >= y,
            r >= 0,
    ;
}

proof fn lemma_bucket_prefix(
    c: nat,
    rate: nat,
    times: Seq<u64>,
    toks: Seq<int>,
    lasts: Seq<int>,
    ok: Seq<bool>,
    k: int,
)
    requires
        times.len() == c + 1,
        toks.len() == c + 2,
        lasts.len() == c + 2,
        ok.len() == c + 1,
        toks[0] == c * TOKEN,
        lasts[0] == 0,
        forall|i: int| 0 <= i < c ==> times[i] <= #[trigger] times[i + 1],
        forall|i: int|
            0 <= i <= c ==> {
                let avail = refilled(toks[i], lasts[i], c as int, rate as int, times[i] as int);
                &&& #[trigger] ok[i] == (avail >= TOKEN)
                &&& toks[i + 1] == avail - (if ok[i] {
                    TOKEN
                } else {
                    0
                })
                &&& lasts[i + 1] == (if times[i] > lasts[i] {
                    times[i] as int
                } else {
                    lasts[i]
                })
            },
        0 <= k <= c,
    ensures
        (c - k) * TOKEN <= toks[k],
        toks[k] <= (c - k) * TOKEN + (if k == 0 {
            0
        } else {
            (times[k - 1] - times[0]) * rate
        }),
        toks[k] <= c * TOKEN,
        k == 0 ==> lasts[k] == 0,
        k > 0 ==> lasts[k] == times[k - 1],
        k < c ==> ok[k],
    decreases k,
{
    if k > 0 {
        lemma_bucket_prefix(c, rate, times, toks, lasts, ok, k - 1);
        let j = k - 1;
        let avail = refilled(toks[j], lasts[j], c as int, rate as int, times[j] as int);
        assert(ok[j] == (avail >= TOKEN));
        assert((c - j) * TOKEN == (c - k) * TOKEN + TOKEN) by (nonlinear_arith)
            requires
                j == k - 1,
        ;
        lemma_refill_keeps(toks[j], lasts[j], c as int, rate as int, times[j] as int);
        if j == 0 {
            assert(avail <= c * TOKEN);
        } else {
            assert(times[j - 1] <= times[(j - 1) + 1]);
            lemma_span(times[j] as int, times[j - 1] as int, times[0] as int, rate as int);
            assert(avail <= toks[j] + (times[j] - times[j - 1]) * rate);
        }
        if j > 0 {
            assert(times[j - 1] <= times[(j - 1) + 1]);
        }
        assert(times[0] <= times[j]) by {
            if j > 0 {
                lemma_times_monotone(c, times, j);
            }
        }
        assert((times[j] - times[0]) * rate >= 0) by (nonlinear_arith)
            requires
                times[j] >= times[0],
        ;
    }
    if k < c {
        lemma_refill_keeps(toks[k], lasts[k], c as int, rate as int, times[k] as int);
        assert((c - k) * TOKEN >= TOKEN) by (nonlinear_arith)
            requires
                k < c,
        ;
        assert(ok[k] == (refilled(toks[k], lasts[k], c as int, rate as int, times[k] as int)
            >= TOKEN));
    }
}

proof fn lemma_times_monotone(c: nat, times: Seq<u64>, j: int)
    requires
        times.len() == c + 1,
        forall|i: int| 0 <= i < c ==> times[i] <= #[trigger] times[i + 1],
        0 <= j <= c,
    ensures
        times[0] <= times[j],
    decreases j,
{
    if j > 0 {
        lemma_times_monotone(c, times, j - 1);
        assert(times[j - 1] <= times[(j - 1) + 1]);
    }
}

} // verus!
