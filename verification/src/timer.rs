//! The timer (delay) primitive: a suspension point that becomes ready once
//! the clock reaches an absolute deadline.
//!
//! A timer is a two-state machine. On its first poll it stores the caller's
//! wake token and asks for one dedicated waiting thread to be started; on
//! every later poll it only refreshes the stored token. Readiness is decided
//! purely by comparing the current time against the deadline, on every poll,
//! independently of whether the waiting thread has fired yet: a wake is only
//! a hint to re-poll, never proof of completion.

use vstd::prelude::*;

verus! {

/// A one-shot suspension point with an absolute deadline, in milliseconds.
pub struct Timer {
    /// The absolute instant at which the timer becomes ready.
    pub deadline: u64,
    /// The wake token stored when the waiting thread was requested;
    /// `None` until the first poll.
    pub stored: Option<usize>,
}

/// What one poll of a timer reports.
pub struct TimerPoll {
    /// The deadline has been reached.
    pub ready: bool,
    /// A waiting thread must now be started for this timer's deadline;
    /// true exactly on the first poll of the timer.
    pub start_wait: bool,
}

/// What a poll at time `now` reports for timer `t`.
pub open spec fn timer_poll_spec(t: Timer, now: u64) -> TimerPoll {
    TimerPoll { ready: now >= t.deadline, start_wait: t.stored is None }
}

/// The timer as it stands after a poll that supplied wake token `token`.
pub open spec fn timer_after_poll(t: Timer, token: usize) -> Timer {
    Timer { deadline: t.deadline, stored: Some(token) }
}

/// The absolute deadline `duration` ms after `now`, capped at the largest
/// representable instant.
pub open spec fn deadline_after(now: u64, duration: u64) -> u64 {
    if now + duration <= u64::MAX {
        (now + duration) as u64
    } else {
        u64::MAX
    }
}

/// How long is left until `deadline`, seen from `now`: zero once the
/// deadline has passed. This is how long a waiting thread must still sleep.
pub open spec fn spec_remaining(now: u64, deadline: u64) -> u64 {
    if now < deadline {
        (deadline - now) as u64
    } else {
        0
    }
}

impl Timer {
    /// A fresh, unarmed timer that becomes ready at the absolute instant
    /// `deadline`.
    pub fn at(deadline: u64) -> (t: Timer)
        ensures
            t == (Timer { deadline, stored: None }),
    {
        Timer { deadline, stored: None }
    }

    /// Poll the timer at time `now` with wake token `token`.
    ///
    /// The first poll asks for the one waiting thread; a re-poll never does.
    /// The stored token always ends up being the one just supplied, so the
    /// wake at deadline time reaches whichever token is current. Readiness
    /// is the plain clock comparison `now >= deadline`.
    pub fn poll(&mut self, now: u64, token: usize) -> (r: TimerPoll)
        ensures
            r == timer_poll_spec(*old(self), now),
            *final(self) == timer_after_poll(*old(self), token),
    {
        let start_wait = match self.stored {
            Some(stored) => {
                if stored != token {
                    self.stored = Some(token);
                }
                false
            }
            None => {
                self.stored = Some(token);
                true
            }
        };
        TimerPoll { ready: now >= self.deadline, start_wait }
    }
}

/// The absolute deadline `duration` ms after `now`, capped at the largest
/// representable instant.
pub fn compute_deadline(now: u64, duration: u64) -> (d: u64)
    ensures
        d == deadline_after(now, duration),
{
    if duration <= u64::MAX - now {
        now + duration
    } else {
        u64::MAX
    }
}

/// How long a waiting thread must still sleep at `now` before `deadline`
/// passes; zero exactly when the deadline has already been reached.
pub fn remaining_millis(now: u64, deadline: u64) -> (r: u64)
    ensures
        r == spec_remaining(now, deadline),
        (r == 0) <==> (now >= deadline),
{
    if now < deadline {
        deadline - now
    } else {
        0
    }
}

/// Law: a timer with deadline `start + d` reports ready on a poll performed
/// at time `now` if and only if `now >= start + d` — never strictly before
/// the deadline, always from the deadline on — regardless of whether the
/// timer is already armed.
pub proof fn lemma_timer_ready_iff_deadline_reached(start: u64, d: u64, t: Timer, now: u64)
    requires
        start + d <= u64::MAX,
        t.deadline == start + d,
    ensures
        timer_poll_spec(t, now).ready <==> now >= start + d,
{
}

/// How many of the polls in `polls` (each a pair of poll time and wake
/// token) ask for a waiting thread to be started, when applied to `t` in
/// order.
pub open spec fn polls_wait_starts(t: Timer, polls: Seq<(u64, usize)>) -> nat
    decreases polls.len(),
{
    if polls.len() == 0 {
        0
    } else {
        (if timer_poll_spec(t, polls[0].0).start_wait {
            1nat
        } else {
            0nat
        }) + polls_wait_starts(timer_after_poll(t, polls[0].1), polls.drop_first())
    }
}

proof fn lemma_armed_timer_never_starts_wait(t: Timer, polls: Seq<(u64, usize)>)
    requires
        t.stored is Some,
    ensures
        polls_wait_starts(t, polls) == 0,
    decreases polls.len(),
{
    if polls.len() > 0 {
        lemma_armed_timer_never_starts_wait(timer_after_poll(t, polls[0].1), polls.drop_first());
    }
}

/// Law: however often a fresh timer is re-polled — at whatever times, with
/// whatever wake tokens — exactly one waiting thread is ever requested: the
/// one asked for by the first poll.
pub proof fn lemma_exactly_one_waiting_thread(t: Timer, polls: Seq<(u64, usize)>)
    requires
        t.stored is None,
        polls.len() >= 1,
    ensures
        polls_wait_starts(t, polls) == 1,
{
    lemma_armed_timer_never_starts_wait(timer_after_poll(t, polls[0].1), polls.drop_first());
}

} // verus!
