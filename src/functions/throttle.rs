//! Throttling: the first call runs, and later calls run only once the delay
//! has passed since the last call that ran; the others are dropped.
use vstd::prelude::*;

use crate::clock::{instant_now, millis_since};

verus! {

/// Milliseconds from `last` to `now`; zero when the clock reads earlier.
pub open spec fn elapsed_since(last: u64, now: u64) -> int {
    if now >= last {
        now - last
    } else {
        0
    }
}

/// Whether a call at `now` runs, given the time of the last call that ran.
pub open spec fn throttle_admits(last: Option<u64>, delay: u64, now: u64) -> bool {
    match last {
        None => true,
        Some(t) => elapsed_since(t, now) >= delay,
    }
}

/// The times at which calls made at `times` run, after a last run at `last`.
pub open spec fn throttle_run(last: Option<u64>, delay: u64, times: Seq<u64>) -> Seq<u64>
    decreases times.len(),
{
    if times.len() == 0 {
        Seq::empty()
    } else if throttle_admits(last, delay, times[0]) {
        seq![times[0]] + throttle_run(Some(times[0]), delay, times.drop_first())
    } else {
        throttle_run(last, delay, times.drop_first())
    }
}

/// The sequence never goes back in time.
pub open spec fn nondecreasing(s: Seq<u64>) -> bool {
    forall|i: int, j: int| 0 <= i <= j < s.len() ==> s[i] <= s[j]
}

/// Consecutive entries lie at least `delay` apart.
pub open spec fn spaced(s: Seq<u64>, delay: u64) -> bool {
    forall|i: int| 0 <= i < s.len() - 1 ==> s[i] + delay <= #[trigger] s[i + 1]
}

/// A throttled operation: runs at most once per `delay` milliseconds.
pub struct Throttled<F> {
    func: F,
    delay: u64,
    last_call: Option<u64>,
    origin: std::time::Instant,
}

impl<F: Fn()> Throttled<F> {
    pub closed spec fn spec_func(&self) -> F {
        self.func
    }

    pub closed spec fn spec_delay(&self) -> u64 {
        self.delay
    }

    /// Clock reading of the last call that ran.
    pub closed spec fn spec_last_call(&self) -> Option<u64> {
        self.last_call
    }

    /// Run the operation at time `now` (milliseconds on the wrapper's clock)
    /// if it is due; returns whether it ran.
    pub fn call_at(&mut self, now: u64) -> (r: bool)
        requires
            old(self).spec_func().requires(()),
        ensures
            r == throttle_admits(old(self).spec_last_call(), old(self).spec_delay(), now),
            final(self).spec_last_call() == (if r {
                Some(now)
            } else {
                old(self).spec_last_call()
            }),
            r ==> old(self).spec_func().ensures((), ()),
            final(self).spec_delay() == old(self).spec_delay(),
            final(self).spec_func() == old(self).spec_func(),
    {
        let run = match self.last_call {
            None => true,
            Some(t) => {
                let elapsed = if now >= t {
                    now - t
                } else {
                    0
                };
                elapsed >= self.delay
            },
        };
        if run {
            self.last_call = Some(now);
            (self.func)();
        }
        run
    }

    /// Run the operation now if it is due.
    pub fn call(&mut self)
        requires
            old(self).spec_func().requires(()),
        ensures
            final(self).spec_last_call() is Some,
            exists|now: u64|
                {
                    &&& final(self).spec_last_call() == (if throttle_admits(
                        old(self).spec_last_call(),
                        old(self).spec_delay(),
                        now,
                    ) {
                        Some(now)
                    } else {
                        old(self).spec_last_call()
                    })
                    &&& throttle_admits(old(self).spec_last_call(), old(self).spec_delay(), now)
                        ==> old(self).spec_func().ensures((), ())
                },
            old(self).spec_last_call() is None ==> old(self).spec_func().ensures((), ()),
            final(self).spec_delay() == old(self).spec_delay(),
            final(self).spec_func() == old(self).spec_func(),
    {
        let now = millis_since(&self.origin);
        self.call_at(now);
    }
}

/// Wrap `func` so that it runs at most once per `delay_ms` milliseconds.
pub fn throttle<F: Fn()>(func: F, delay_ms: u64) -> (r: Throttled<F>)
    ensures
        r.spec_func() == func,
        r.spec_delay() == delay_ms,
        r.spec_last_call() == None::<u64>,
{
    Throttled { func, delay: delay_ms, last_call: None, origin: instant_now() }
}

/// Of calls made in time order, those that run lie at least `delay` apart,
/// the first of them comes no earlier than `delay` after a previous run, and
/// each is one of the calls.
pub proof fn lemma_throttle_spacing(last: Option<u64>, delay: u64, times: Seq<u64>)
    requires
        nondecreasing(times),
        last is Some && times.len() > 0 ==> last->Some_0 <= times[0],
    ensures
        spaced(throttle_run(last, delay, times), delay),
        last is Some && throttle_run(last, delay, times).len() > 0 ==> last->Some_0 + delay
            <= throttle_run(last, delay, times)[0],
        forall|k: int|
            0 <= k < throttle_run(last, delay, times).len() ==> times.contains(
                #[trigger] throttle_run(last, delay, times)[k],
            ),
    decreases times.len(),
{
    if times.len() > 0 {
        let rest = times.drop_first();
        assert(nondecreasing(rest));
        if throttle_admits(last, delay, times[0]) {
            lemma_throttle_spacing(Some(times[0]), delay, rest);
            let tail = throttle_run(Some(times[0]), delay, rest);
            let e = seq![times[0]] + tail;
            assert(throttle_run(last, delay, times) == e);
            assert forall|i: int| 0 <= i < e.len() - 1 implies e[i] + delay <= #[trigger] e[i + 1] by {
                if i > 0 {
                    assert(e[i] == tail[i - 1]);
                    assert(e[i + 1] == tail[i]);
                    assert(tail[i - 1] + delay <= tail[(i - 1) + 1]);
                } else {
                    assert(e[1] == tail[0]);
                }
            }
            assert forall|k: int| 0 <= k < e.len() implies times.contains(#[trigger] e[k]) by {
                if k == 0 {
                    assert(times[0] == e[k]);
                } else {
                    assert(e[k] == tail[k - 1]);
                    assert(rest.contains(tail[k - 1]));
                    let j = choose|j: int| 0 <= j < rest.len() && rest[j] == tail[k - 1];
                    assert(times[j + 1] == e[k]);
                }
            }
        } else {
            lemma_throttle_spacing(last, delay, rest);
            let e = throttle_run(last, delay, rest);
            assert forall|k: int| 0 <= k < e.len() implies times.contains(#[trigger] e[k]) by {
                assert(rest.contains(e[k]));
                let j = choose|j: int| 0 <= j < rest.len() && rest[j] == e[k];
                assert(times[j + 1] == e[k]);
            }
        }
    }
}

/// Entries spaced by `delay` spread at least `k * delay` from the first.
proof fn lemma_spread(s: Seq<u64>, delay: u64, k: int)
    requires
        spaced(s, delay),
        0 <= k < s.len(),
    ensures
        s[0] + k * delay <= s[k],
    decreases k,
{
    if k == 0 {
        assert(k * delay == 0);
    } else {
        lemma_spread(s, delay, k - 1);
        assert(s[k - 1] + delay <= s[(k - 1) + 1]);
        assert(k * delay == (k - 1) * delay + delay) by (nonlinear_arith);
        assert(s[0] + (k - 1) * delay <= s[k - 1]);
    }
}

/// In any window of `w` milliseconds a throttled operation with a positive
/// delay runs at most `w / delay + 1` times.
pub proof fn lemma_throttle_window(last: Option<u64>, delay: u64, times: Seq<u64>, a: int, w: int)
    requires
        nondecreasing(times),
        last is Some && times.len() > 0 ==> last->Some_0 <= times[0],
        delay > 0,
        w >= 0,
        forall|k: int|
            0 <= k < throttle_run(last, delay, times).len() ==> a <= #[trigger] throttle_run(
                last,
                delay,
                times,
            )[k] <= a + w,
    ensures
        throttle_run(last, delay, times).len() <= w / (delay as int) + 1,
{
    let e = throttle_run(last, delay, times);
    lemma_throttle_spacing(last, delay, times);
    if e.len() > 0 {
        let n = e.len() - 1;
        lemma_spread(e, delay, n);
        assert(a <= e[0]);
        assert(e[n] <= a + w);
        assert(n * delay <= w);
        assert(n <= w / (delay as int)) by (nonlinear_arith)
            requires
                n * delay <= w,
                delay > 0,
                n >= 0,
        ;
    }
}

/// The times among `times` whose flag in `ran` is set, in order.
pub open spec fn ran_at(times: Seq<u64>, ran: Seq<bool>) -> Seq<u64>
    decreases times.len(),
{
    if times.len() == 0 || ran.len() == 0 {
        Seq::empty()
    } else if ran[0] {
        seq![times[0]] + ran_at(times.drop_first(), ran.drop_first())
    } else {
        ran_at(times.drop_first(), ran.drop_first())
    }
}

/// Successive `call_at`s at `times`, each related to the next state as
/// `call_at` promises (`lasts[i]` the last run before call `i`, `ran[i]`
/// its result), run exactly at the times `throttle_run` lists; so the
/// spacing and window laws above hold of what `call_at` does.
pub proof fn lemma_calls_follow_run(
    lasts: Seq<Option<u64>>,
    ran: Seq<bool>,
    delay: u64,
    times: Seq<u64>,
)
    requires
        lasts.len() == times.len() + 1,
        ran.len() == times.len(),
        forall|i: int|
            0 <= i < times.len() ==> {
                &&& #[trigger] ran[i] == throttle_admits(lasts[i], delay, times[i])
                &&& lasts[i + 1] == (if ran[i] {
                    Some(times[i])
                } else {
                    lasts[i]
                })
            },
    ensures
        ran_at(times, ran) == throttle_run(lasts[0], delay, times),
    decreases times.len(),
{
    if times.len() > 0 {
        let l2 = lasts.drop_first();
        let r2 = ran.drop_first();
        let t2 = times.drop_first();
        assert forall|i: int| 0 <= i < t2.len() implies {
            &&& #[trigger] r2[i] == throttle_admits(l2[i], delay, t2[i])
            &&& l2[i + 1] == (if r2[i] {
                Some(t2[i])
            } else {
                l2[i]
            })
        } by {
            assert(ran[i + 1] == throttle_admits(lasts[i + 1], delay, times[i + 1]));
        }
        lemma_calls_follow_run(l2, r2, delay, t2);
        assert(ran[0] == throttle_admits(lasts[0], delay, times[0]));
    }
}

} // verus!
