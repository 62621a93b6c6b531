//! Debouncing: a burst of calls collapses into one run, `delay`
//! milliseconds after the last call of the burst. The state below holds the
//! decisions; a worker that waits and runs the operation drives it.
use vstd::prelude::*;

use crate::functions::circuit_breaker::sat_add;

verus! {

/// What the worker does next.
#[derive(Clone, Copy, Debug, PartialEq, Eq, Structural)]
pub enum DebounceAction {
    /// Nothing is scheduled: wait for a call.
    Idle,
    /// A run is scheduled at this clock reading: wait until then.
    WaitUntil(u64),
    /// The deadline has passed: run the operation now.
    Fire,
}

/// Debounce state: the quiet period and the pending deadline, if any.
#[derive(Clone, Copy, Debug)]
pub struct DebounceState {
    pub delay: u64,
    pub deadline: Option<u64>,
}

/// The deadline left by calls at `times`, starting from `deadline`.
pub open spec fn schedule_all(deadline: Option<u64>, delay: u64, times: Seq<u64>) -> Option<u64>
    decreases times.len(),
{
    if times.len() == 0 {
        deadline
    } else {
        schedule_all(Some(sat_add(times[0], delay)), delay, times.drop_first())
    }
}

impl DebounceState {
    /// Nothing scheduled.
    pub fn new(delay_ms: u64) -> (r: Self)
        ensures
            r.delay == delay_ms,
            r.deadline == None::<u64>,
    {
        DebounceState { delay: delay_ms, deadline: None }
    }

    /// A call at `now`: the run moves to `delay` after it.
    pub fn schedule(&mut self, now: u64)
        ensures
            final(self).delay == old(self).delay,
            final(self).deadline == Some(sat_add(now, old(self).delay)),
    {
        self.deadline = Some(now.saturating_add(self.delay));
    }

    /// The worker's decision at `now`. Firing clears the deadline, so one
    /// deadline gives one run.
    pub fn poll(&mut self, now: u64) -> (r: DebounceAction)
        ensures
            final(self).delay == old(self).delay,
            match old(self).deadline {
                None => r == DebounceAction::Idle && final(self).deadline == None::<u64>,
                Some(d) => if now >= d {
                    r == DebounceAction::Fire && final(self).deadline == None::<u64>
                } else {
                    r == DebounceAction::WaitUntil(d) && final(self).deadline == Some(d)
                },
            },
    {
        match self.deadline {
            None => DebounceAction::Idle,
            Some(d) => if now >= d {
                self.deadline = None;
                DebounceAction::Fire
            } else {
                DebounceAction::WaitUntil(d)
            },
        }
    }

    /// Drop any pending run.
    pub fn cancel(&mut self)
        ensures
            final(self).delay == old(self).delay,
            final(self).deadline == None::<u64>,
    {
        self.deadline = None;
    }
}

/// Only the last call of a burst sets the deadline: after calls at `times`,
/// the run is due `delay` after the last of them.
pub proof fn lemma_last_call_decides(deadline: Option<u64>, delay: u64, times: Seq<u64>)
    requires
        times.len() > 0,
    ensures
        schedule_all(deadline, delay, times) == Some(sat_add(times.last(), delay)),
    decreases times.len(),
{
    let rest = times.drop_first();
    assert(schedule_all(deadline, delay, times) == schedule_all(
        Some(sat_add(times[0], delay)),
        delay,
        rest,
    ));
    if times.len() > 1 {
        lemma_last_call_decides(Some(sat_add(times[0], delay)), delay, rest);
        assert(rest.last() == times.last());
    } else {
        assert(rest.len() == 0);
        assert(schedule_all(Some(sat_add(times[0], delay)), delay, rest) == Some(
            sat_add(times[0], delay),
        ));
        assert(times.last() == times[0]);
    }
}

/// After a burst whose last call is at `t`, the worker does not fire before
/// `t + delay`, fires once at or after it, and is idle afterwards.
pub proof fn lemma_one_run_per_burst(delay: u64, times: Seq<u64>, early: u64, late: u64)
    requires
        times.len() > 0,
        times.last() + delay <= u64::MAX,
        early < times.last() + delay,
        late >= times.last() + delay,
    ensures
        ({
            let d = schedule_all(None, delay, times);
            &&& d == Some((times.last() + delay) as u64)
            &&& !(early >= d->Some_0)
            &&& late >= d->Some_0
        }),
{
    lemma_last_call_decides(None, delay, times);
}

/// Calls spaced farther apart than `delay` each get their own run: after a
/// call at `t`, whatever was pending before, a poll at any `p` from
/// `t + delay` on fires; firing clears the deadline, so the next call
/// schedules a run of its own.
pub proof fn lemma_spaced_calls_fire(pending: Option<u64>, delay: u64, t: u64, p: u64)
    requires
        t + delay <= u64::MAX,
        t + delay <= p,
    ensures
        schedule_all(pending, delay, seq![t]) == Some((t + delay) as u64),
        p >= schedule_all(pending, delay, seq![t])->Some_0,
{
    lemma_last_call_decides(pending, delay, seq![t]);
    assert(seq![t].last() == t);
}

} // verus!
