//! Tasks and their computations.
//!
//! A computation is the suspendable unit of work a task owns, written as an
//! explicit state machine: it either finishes on its first poll, or suspends
//! on a [`Timer`] until a deadline and finishes once the clock has reached
//! it. A spawning computation additionally hands out child delays on its
//! first poll, which the executor turns into sibling tasks — this is how
//! nested work schedules new tasks while a scheduler is running.

use vstd::prelude::*;

use crate::timer::{compute_deadline, deadline_after, Timer};

verus! {

/// One suspendable computation, as an explicit state machine.
pub enum Computation {
    /// Completes on its first poll, without ever suspending.
    Immediate,
    /// Suspends on a timer for `duration` ms, then completes.
    /// The timer is `None` until the first poll arms it.
    Delay { duration: u64, timer: Option<Timer> },
    /// On its first poll hands each duration in `children` out as a child
    /// delay task, then behaves as a delay of `duration` ms itself.
    SpawnThenDelay { children: Vec<u64>, duration: u64, timer: Option<Timer> },
}

/// One task of the executor: it owns its computation while the computation
/// is still running, and drops it on completion.
pub struct Task {
    /// The computation; `None` once the task has completed.
    pub computation: Option<Computation>,
}

/// What one poll of a computation reports back to the executor.
pub struct CompPoll {
    /// The computation has finished.
    pub ready: bool,
    /// A waiting thread must be started for this deadline: the poll armed
    /// the computation's timer. At most one per computation, ever.
    pub start_wait: Option<u64>,
    /// Durations of child delay tasks this poll hands out to be spawned,
    /// in order.
    pub spawn: Vec<u64>,
}

/// The computation's timer slot.
pub open spec fn comp_timer(c: Computation) -> Option<Timer> {
    match c {
        Computation::Immediate => None,
        Computation::Delay { timer, .. } => timer,
        Computation::SpawnThenDelay { timer, .. } => timer,
    }
}

/// The delay the computation suspends for (zero for an immediate one).
pub open spec fn comp_duration(c: Computation) -> u64 {
    match c {
        Computation::Immediate => 0,
        Computation::Delay { duration, .. } => duration,
        Computation::SpawnThenDelay { duration, .. } => duration,
    }
}

/// The absolute deadline governing `c` on a poll at time `now`: the armed
/// timer's deadline, or the deadline that this first poll will arm.
pub open spec fn comp_deadline(c: Computation, now: u64) -> u64 {
    match comp_timer(c) {
        Some(t) => t.deadline,
        None => deadline_after(now, comp_duration(c)),
    }
}

/// Whether a poll of `c` at time `now` reports the computation finished:
/// an immediate computation always is; a suspending one exactly when the
/// clock has reached its deadline.
pub open spec fn comp_ready(c: Computation, now: u64) -> bool {
    c is Immediate || now >= comp_deadline(c, now)
}

/// The children a poll of `c` hands out: a spawning computation releases
/// them on its first poll (the one that arms its timer), and never again.
pub open spec fn comp_spawn(c: Computation) -> Seq<u64> {
    match c {
        Computation::SpawnThenDelay { children, timer, .. } => if timer is None {
            children@
        } else {
            Seq::empty()
        },
        _ => Seq::empty(),
    }
}

/// The waiting thread a poll of `c` at time `now` asks for: the first poll
/// of a suspending computation requests one for its deadline; no other poll
/// requests any.
pub open spec fn comp_start_wait(c: Computation, now: u64) -> Option<u64> {
    match c {
        Computation::Immediate => None,
        _ => if comp_timer(c) is None {
            Some(comp_deadline(c, now))
        } else {
            None
        },
    }
}

/// The computation as it stands after a poll at time `now` that supplied
/// wake token `token`: its timer is armed (first poll) or re-stamped with
/// the current token (re-poll); nothing else changes.
pub open spec fn comp_after_poll(c: Computation, now: u64, token: usize) -> Computation {
    match c {
        Computation::Immediate => Computation::Immediate,
        Computation::Delay { duration, timer } => (Computation::Delay {
            duration,
            timer: Some(Timer { deadline: comp_deadline(c, now), stored: Some(token) }),
        }),
        Computation::SpawnThenDelay { children, duration, timer } => (
        Computation::SpawnThenDelay {
            children,
            duration,
            timer: Some(Timer { deadline: comp_deadline(c, now), stored: Some(token) }),
        }),
    }
}

/// Law: once a computation has been polled, no later poll of it ever asks
/// for another waiting thread — whatever times and tokens the polls carry,
/// the one request comes from the first poll alone.
pub proof fn lemma_at_most_one_wait_request(c: Computation, now1: u64, token: usize, now2: u64)
    ensures
        comp_start_wait(comp_after_poll(c, now1, token), now2) is None,
{
}

/// Poll the timer slot of a suspending computation: arm it on the first
/// poll (requesting the waiting thread), re-stamp the stored token on a
/// re-poll, and report readiness by clock comparison.
fn poll_timer_slot(slot: &mut Option<Timer>, duration: u64, now: u64, token: usize) -> (r: (
    bool,
    Option<u64>,
))
    ensures
        *final(slot) matches Some(t) && t == (Timer {
            deadline: match *old(slot) {
                Some(t0) => t0.deadline,
                None => deadline_after(now, duration),
            },
            stored: Some(token),
        }),
        r.0 == (now >= (match *old(slot) {
            Some(t0) => t0.deadline,
            None => deadline_after(now, duration),
        })),
        r.1 == (match *old(slot) {
            Some(_) => None::<u64>,
            None => Some(deadline_after(now, duration)),
        }),
{
    match slot {
        Some(t) => {
            let tp = t.poll(now, token);
            (tp.ready, None)
        }
        None => {
            let mut t = Timer::at(compute_deadline(now, duration));
            let tp = t.poll(now, token);
            let dl = t.deadline;
            *slot = Some(t);
            (tp.ready, Some(dl))
        }
    }
}

impl Computation {
    /// Poll the computation once at time `now`, handing it the wake token
    /// that will re-enqueue its task. The report and the new state are
    /// exactly those of the specification-level step functions.
    pub fn poll(&mut self, now: u64, token: usize) -> (r: CompPoll)
        ensures
            r.ready == comp_ready(*old(self), now),
            r.start_wait == comp_start_wait(*old(self), now),
            r.spawn@ == comp_spawn(*old(self)),
            *final(self) == comp_after_poll(*old(self), now, token),
    {
        match self {
            Computation::Immediate => CompPoll { ready: true, start_wait: None, spawn: Vec::new() },
            Computation::Delay { duration, timer } => {
                let (ready, start_wait) = poll_timer_slot(timer, *duration, now, token);
                CompPoll { ready, start_wait, spawn: Vec::new() }
            }
            Computation::SpawnThenDelay { children, duration, timer } => {
                let mut spawn: Vec<u64> = Vec::new();
                if timer.is_none() {
                    let n = children.len();
                    let mut i: usize = 0;
                    while i < n
                        invariant
                            n == children@.len(),
                            i <= n,
                            spawn@ == children@.take(i as int),
                        decreases n - i,
                    {
                        spawn.push(children[i]);
                        assert(spawn@ =~= children@.take(i + 1 as int));
                        i += 1;
                    }
                    assert(spawn@ =~= children@);
                }
                let (ready, start_wait) = poll_timer_slot(timer, *duration, now, token);
                CompPoll { ready, start_wait, spawn }
            }
        }
    }
}

} // verus!
