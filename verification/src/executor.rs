//! The executor: an arena of tasks, a FIFO ready-queue of task identifiers,
//! the registered waiting threads, and a completion log.
//!
//! Tasks live in an arena and are named by their index, so a wake token is
//! just that identifier; the ready-queue holds identifiers and the executor
//! resolves identifier to task on each pop. One step pops the oldest ready
//! identifier and polls that task's computation once: a finished computation
//! is dropped and its completion logged; a suspended one stays, and the
//! waiting thread its first poll asked for is registered. Waking a task —
//! also one whose computation has long completed and been dropped — only
//! pushes its identifier back onto the queue; a stale wake is absorbed as a
//! no-op at the next pop, so redundant wakes coalesce silently instead of
//! failing. Because the executor owns every task exclusively and polls from
//! a single loop, at most one poll of a given computation is ever in flight:
//! the re-entrancy hazard cannot arise by construction.
//!
//! The executor never blocks and never reads a clock of its own: the caller
//! advances the logical time, and [`MiniTokio::advance_to`] then delivers
//! the wakes of every waiting thread whose deadline has passed.

use vstd::prelude::*;

use crate::ready_queue::{queue_ids, ReadyQueue};
use crate::task::{
    comp_after_poll, comp_deadline, comp_ready, comp_spawn, comp_start_wait, Computation, Task,
};

verus! {

/// One registered waiting thread: it sleeps until `deadline` and then wakes
/// the task named `task`.
#[derive(Clone, Copy, Debug, PartialEq, Eq)]
pub struct Wait {
    pub deadline: u64,
    pub task: usize,
}

/// One completion: task `task` finished at time `at`.
#[derive(Clone, Copy, Debug, PartialEq, Eq)]
pub struct Completion {
    pub task: usize,
    pub at: u64,
}

/// The executor's whole state, as the contracts speak of it.
#[verifier::ext_equal]
pub struct SchedView {
    /// The task arena; a task's identifier is its index here.
    pub tasks: Seq<Task>,
    /// Identifiers of ready tasks, oldest first.
    pub queue: Seq<usize>,
    /// Registered waiting threads, in order of registration.
    pub waits: Seq<Wait>,
    /// Completions, in the order they were observed.
    pub completed: Seq<Completion>,
    /// The current logical time, in milliseconds.
    pub now: u64,
}

/// The cooperative scheduler.
pub struct MiniTokio {
    tasks: Vec<Task>,
    queue: ReadyQueue,
    waits: Vec<Wait>,
    completed: Vec<Completion>,
    now: u64,
}

impl View for MiniTokio {
    type V = SchedView;

    closed spec fn view(&self) -> SchedView {
        SchedView {
            tasks: self.tasks@,
            queue: queue_ids(self.queue),
            waits: self.waits@,
            completed: self.completed@,
            now: self.now,
        }
    }
}

/// Well-formedness: every queued, waiting or completed identifier names an
/// arena slot; a completed task's computation has been dropped; and no task
/// completes twice.
pub open spec fn wf(s: SchedView) -> bool {
    &&& forall|i: int| 0 <= i < s.queue.len() ==> (#[trigger] s.queue[i]) < s.tasks.len()
    &&& forall|i: int|
        0 <= i < s.waits.len() ==> (#[trigger] s.waits[i]).task < s.tasks.len()
    &&& forall|i: int|
        0 <= i < s.completed.len() ==> (#[trigger] s.completed[i]).task < s.tasks.len()
            && s.tasks[s.completed[i].task as int].computation is None
    &&& forall|i: int, j: int|
        0 <= i < j < s.completed.len() ==> (#[trigger] s.completed[i]).task != (
        #[trigger] s.completed[j]).task
}

/// The state after spawning computation `c`: a new task at the end of the
/// arena, immediately made ready.
pub open spec fn spawn_of(s: SchedView, c: Computation) -> SchedView {
    SchedView {
        tasks: s.tasks.push(Task { computation: Some(c) }),
        queue: s.queue.push(s.tasks.len() as usize),
        ..s
    }
}

/// The state after waking task `id`: its identifier is pushed onto the
/// ready-queue, and nothing else happens — also when the task has already
/// completed.
pub open spec fn wake_of(s: SchedView, id: usize) -> SchedView {
    SchedView { queue: s.queue.push(id), ..s }
}

/// The child tasks a poll hands out: one fresh delay task per duration.
pub open spec fn child_tasks(spawned: Seq<u64>) -> Seq<Task> {
    Seq::new(
        spawned.len(),
        |i: int|
            Task {
                computation: Some(Computation::Delay { duration: spawned[i], timer: None }),
            },
    )
}

/// The identifiers of `count` child tasks appended to an arena that held
/// `base` tasks.
pub open spec fn child_ids(base: int, count: int) -> Seq<usize> {
    Seq::new(count as nat, |i: int| (base + i) as usize)
}

/// One scheduler step: pop the oldest ready identifier and poll that task.
/// An empty queue changes nothing; a popped identifier whose task has
/// already completed is dropped (a stale wake); otherwise the computation
/// is polled once at the current time, with its own identifier as the wake
/// token: children it hands out become fresh ready tasks, the waiting
/// thread its first poll asks for is registered, and if it finished it is
/// dropped and its completion logged.
pub open spec fn step_of(s: SchedView) -> SchedView {
    if s.queue.len() == 0 {
        s
    } else {
        let id = s.queue[0];
        if id >= s.tasks.len() || s.tasks[id as int].computation is None {
            SchedView { queue: s.queue.drop_first(), ..s }
        } else {
            let c = s.tasks[id as int].computation.unwrap();
            let done = comp_ready(c, s.now);
            let polled = Task {
                computation: if done {
                    None
                } else {
                    Some(comp_after_poll(c, s.now, id))
                },
            };
            SchedView {
                tasks: s.tasks.update(id as int, polled) + child_tasks(comp_spawn(c)),
                queue: s.queue.drop_first() + child_ids(
                    s.tasks.len() as int,
                    comp_spawn(c).len() as int,
                ),
                waits: match comp_start_wait(c, s.now) {
                    Some(d) => s.waits.push(Wait { deadline: d, task: id }),
                    None => s.waits,
                },
                completed: if done {
                    s.completed.push(Completion { task: id, at: s.now })
                } else {
                    s.completed
                },
                now: s.now,
            }
        }
    }
}

/// What one scheduler step reports.
#[derive(Clone, Copy, Debug, PartialEq, Eq)]
pub enum StepReport {
    /// The ready-queue was empty: nothing to poll.
    Idle,
    /// The popped identifier named a task that had already completed and
    /// been dropped — a stale wake, absorbed as a no-op.
    Stale { id: usize },
    /// The task was polled and its computation finished. `start_wait`
    /// carries the deadline a waiting thread must still be started for,
    /// when the finishing poll was also the one that armed the timer.
    Completed { id: usize, start_wait: Option<u64> },
    /// The task was polled and suspended; `start_wait` carries the deadline
    /// a waiting thread must be started for, on a suspension's first poll.
    Suspended { id: usize, start_wait: Option<u64> },
}

/// The report of one scheduler step from state `s`.
pub open spec fn report_of(s: SchedView) -> StepReport {
    if s.queue.len() == 0 {
        StepReport::Idle
    } else {
        let id = s.queue[0];
        if id >= s.tasks.len() || s.tasks[id as int].computation is None {
            StepReport::Stale { id }
        } else {
            let c = s.tasks[id as int].computation.unwrap();
            if comp_ready(c, s.now) {
                StepReport::Completed { id, start_wait: comp_start_wait(c, s.now) }
            } else {
                StepReport::Suspended { id, start_wait: comp_start_wait(c, s.now) }
            }
        }
    }
}

/// The tasks woken by the waits due at time `t`, in registration order.
pub open spec fn due_tasks(waits: Seq<Wait>, t: u64) -> Seq<usize>
    decreases waits.len(),
{
    if waits.len() == 0 {
        Seq::empty()
    } else if waits[0].deadline <= t {
        seq![waits[0].task] + due_tasks(waits.drop_first(), t)
    } else {
        due_tasks(waits.drop_first(), t)
    }
}

/// The waits still outstanding at time `t`, in registration order.
pub open spec fn pending_waits(waits: Seq<Wait>, t: u64) -> Seq<Wait>
    decreases waits.len(),
{
    if waits.len() == 0 {
        Seq::empty()
    } else if waits[0].deadline > t {
        seq![waits[0]] + pending_waits(waits.drop_first(), t)
    } else {
        pending_waits(waits.drop_first(), t)
    }
}

/// The state after advancing the clock to `t`: every wake whose deadline
/// has passed is delivered — its task pushed onto the ready-queue, in
/// registration order — and those waits are retired.
pub open spec fn advance_of(s: SchedView, t: u64) -> SchedView {
    SchedView {
        queue: s.queue + due_tasks(s.waits, t),
        waits: pending_waits(s.waits, t),
        now: t,
        ..s
    }
}

proof fn lemma_due_pending_push(waits: Seq<Wait>, w: Wait, t: u64)
    ensures
        due_tasks(waits.push(w), t) == due_tasks(waits, t) + (if w.deadline <= t {
            seq![w.task]
        } else {
            Seq::<usize>::empty()
        }),
        pending_waits(waits.push(w), t) == pending_waits(waits, t) + (if w.deadline > t {
            seq![w]
        } else {
            Seq::<Wait>::empty()
        }),
    decreases waits.len(),
{
    let dtail: Seq<usize> = if w.deadline <= t {
        seq![w.task]
    } else {
        Seq::<usize>::empty()
    };
    let ptail: Seq<Wait> = if w.deadline > t {
        seq![w]
    } else {
        Seq::<Wait>::empty()
    };
    if waits.len() == 0 {
        let e = Seq::<Wait>::empty();
        assert(due_tasks(e, t) == Seq::<usize>::empty());
        assert(pending_waits(e, t) == e);
        assert(waits.push(w).drop_first() =~= e);
        assert(waits.push(w)[0] == w);
        assert(due_tasks(waits.push(w), t) =~= dtail);
        assert(pending_waits(waits.push(w), t) =~= ptail);
        assert(due_tasks(waits, t) + dtail =~= dtail);
        assert(pending_waits(waits, t) + ptail =~= ptail);
    } else {
        lemma_due_pending_push(waits.drop_first(), w, t);
        assert(waits.push(w).drop_first() =~= waits.drop_first().push(w));
        assert(waits.push(w)[0] == waits[0]);
        assert(due_tasks(waits.push(w).drop_first(), t) == due_tasks(waits.drop_first(), t)
            + dtail);
        assert(pending_waits(waits.push(w).drop_first(), t) == pending_waits(
            waits.drop_first(),
            t,
        ) + ptail);
        if waits[0].deadline <= t {
            assert(due_tasks(waits.push(w), t) == seq![waits[0].task] + (due_tasks(
                waits.drop_first(),
                t,
            ) + dtail));
            assert(due_tasks(waits, t) == seq![waits[0].task] + due_tasks(waits.drop_first(), t));
            assert(seq![waits[0].task] + (due_tasks(waits.drop_first(), t) + dtail) =~= (seq![
                waits[0].task,
            ] + due_tasks(waits.drop_first(), t)) + dtail);
            assert(pending_waits(waits.push(w), t) == pending_waits(waits, t) + ptail);
        } else {
            assert(pending_waits(waits.push(w), t) == seq![waits[0]] + (pending_waits(
                waits.drop_first(),
                t,
            ) + ptail));
            assert(pending_waits(waits, t) == seq![waits[0]] + pending_waits(
                waits.drop_first(),
                t,
            ));
            assert(seq![waits[0]] + (pending_waits(waits.drop_first(), t) + ptail) =~= (seq![
                waits[0],
            ] + pending_waits(waits.drop_first(), t)) + ptail);
            assert(due_tasks(waits.push(w), t) == due_tasks(waits, t) + dtail);
        }
    }
}

proof fn lemma_delivery_bounded(waits: Seq<Wait>, t: u64, n: int)
    requires
        forall|i: int| 0 <= i < waits.len() ==> (#[trigger] waits[i]).task < n,
    ensures
        forall|i: int|
            0 <= i < due_tasks(waits, t).len() ==> (#[trigger] due_tasks(waits, t)[i]) < n,
        forall|i: int|
            0 <= i < pending_waits(waits, t).len() ==> (#[trigger] pending_waits(waits, t)[i]).task < n,
    decreases waits.len(),
{
    if waits.len() > 0 {
        lemma_delivery_bounded(waits.drop_first(), t, n);
        assert forall|i: int| 0 <= i < due_tasks(waits, t).len() implies (#[trigger] due_tasks(
            waits,
            t,
        )[i]) < n by {
            if waits[0].deadline <= t {
                if i > 0 {
                    assert(due_tasks(waits, t)[i] == due_tasks(waits.drop_first(), t)[i - 1]);
                }
            } else {
                assert(due_tasks(waits, t)[i] == due_tasks(waits.drop_first(), t)[i]);
            }
        }
        assert forall|i: int| 0 <= i < pending_waits(waits, t).len() implies (
        #[trigger] pending_waits(waits, t)[i]).task < n by {
            if waits[0].deadline > t {
                if i > 0 {
                    assert(pending_waits(waits, t)[i] == pending_waits(waits.drop_first(), t)[i
                        - 1]);
                }
            } else {
                assert(pending_waits(waits, t)[i] == pending_waits(waits.drop_first(), t)[i]);
            }
        }
    }
}

proof fn lemma_delivery_avoids(waits: Seq<Wait>, t: u64, id: usize)
    requires
        forall|i: int| 0 <= i < waits.len() ==> (#[trigger] waits[i]).task != id,
    ensures
        forall|i: int|
            0 <= i < due_tasks(waits, t).len() ==> (#[trigger] due_tasks(waits, t)[i]) != id,
        forall|i: int|
            0 <= i < pending_waits(waits, t).len() ==> (#[trigger] pending_waits(waits, t)[i]).task != id,
    decreases waits.len(),
{
    if waits.len() > 0 {
        lemma_delivery_avoids(waits.drop_first(), t, id);
        assert forall|i: int| 0 <= i < due_tasks(waits, t).len() implies (#[trigger] due_tasks(
            waits,
            t,
        )[i]) != id by {
            if waits[0].deadline <= t {
                if i > 0 {
                    assert(due_tasks(waits, t)[i] == due_tasks(waits.drop_first(), t)[i - 1]);
                }
            } else {
                assert(due_tasks(waits, t)[i] == due_tasks(waits.drop_first(), t)[i]);
            }
        }
        assert forall|i: int| 0 <= i < pending_waits(waits, t).len() implies (
        #[trigger] pending_waits(waits, t)[i]).task != id by {
            if waits[0].deadline > t {
                if i > 0 {
                    assert(pending_waits(waits, t)[i] == pending_waits(waits.drop_first(), t)[i
                        - 1]);
                }
            } else {
                assert(pending_waits(waits, t)[i] == pending_waits(waits.drop_first(), t)[i]);
            }
        }
    }
}

/// A step keeps the executor well-formed.
pub proof fn lemma_step_preserves_wf(s: SchedView)
    requires
        wf(s),
    ensures
        wf(step_of(s)),
{
    if s.queue.len() == 0 {
    } else {
        let id = s.queue[0];
        if id >= s.tasks.len() || s.tasks[id as int].computation is None {
            assert forall|i: int| 0 <= i < step_of(s).queue.len() implies (
            #[trigger] step_of(s).queue[i]) < step_of(s).tasks.len() by {
                assert(step_of(s).queue[i] == s.queue[i + 1]);
            }
        } else {
            let c = s.tasks[id as int].computation.unwrap();
            let t = step_of(s);
            let base = s.tasks.len() as int;
            let k = comp_spawn(c).len() as int;
            assert forall|i: int| 0 <= i < t.queue.len() implies (#[trigger] t.queue[i])
                < t.tasks.len() by {
                if i < s.queue.len() - 1 {
                    assert(t.queue[i] == s.queue[i + 1]);
                } else {
                    assert(t.queue[i] == child_ids(base, k)[i - (s.queue.len() - 1)]);
                }
            }
            assert forall|i: int|
                0 <= i < t.completed.len() implies (#[trigger] t.completed[i]).task
                < t.tasks.len() && t.tasks[t.completed[i].task as int].computation is None by {
                if i < s.completed.len() {
                    assert(s.completed[i].task != id) by {
                        assert(s.tasks[s.completed[i].task as int].computation is None);
                    }
                    assert(t.tasks[t.completed[i].task as int] == s.tasks[t.completed[i].task
                        as int]);
                }
            }
            assert forall|i: int, j: int|
                0 <= i < j < t.completed.len() implies (#[trigger] t.completed[i]).task != (
            #[trigger] t.completed[j]).task by {
                if j == s.completed.len() {
                    assert(s.tasks[s.completed[i].task as int].computation is None);
                }
            }
        }
    }
}

/// The earliest deadline among the given waits.
pub open spec fn min_deadline(waits: Seq<Wait>) -> u64
    recommends
        waits.len() > 0,
    decreases waits.len(),
{
    if waits.len() <= 1 {
        waits[0].deadline
    } else {
        let m = min_deadline(waits.drop_first());
        if waits[0].deadline <= m {
            waits[0].deadline
        } else {
            m
        }
    }
}

/// The earliest deadline is attained and bounds every deadline from below.
proof fn lemma_min_deadline_props(waits: Seq<Wait>)
    requires
        waits.len() > 0,
    ensures
        forall|i: int|
            0 <= i < waits.len() ==> (#[trigger] waits[i]).deadline >= min_deadline(waits),
        exists|i: int|
            0 <= i < waits.len() && (#[trigger] waits[i]).deadline == min_deadline(waits),
    decreases waits.len(),
{
    if waits.len() == 1 {
        assert(waits[0].deadline == min_deadline(waits));
    } else {
        lemma_min_deadline_props(waits.drop_first());
        assert forall|i: int|
            0 <= i < waits.len() implies (#[trigger] waits[i]).deadline >= min_deadline(
            waits,
        ) by {
            if i > 0 {
                assert(waits[i].deadline == waits.drop_first()[i - 1].deadline);
            }
        }
        if waits[0].deadline <= min_deadline(waits.drop_first()) {
            assert(waits[0].deadline == min_deadline(waits));
        } else {
            assert(min_deadline(waits) == min_deadline(waits.drop_first()));
            let j = choose|i: int|
                0 <= i < waits.drop_first().len() && (#[trigger] waits.drop_first()[i]).deadline
                    == min_deadline(waits.drop_first());
            assert(waits.drop_first()[j] == waits[j + 1]);
            assert(waits[j + 1].deadline == min_deadline(waits));
        }
    }
}

/// How [`MiniTokio::run`] proceeds from state `s` with `fuel` iterations
/// left: step while anything is ready; once the queue is empty, stop
/// cleanly if nothing waits, else advance the clock to the earliest
/// pending deadline — never backwards — and go on. Yields the final state
/// and whether quiescence was reached.
pub open spec fn run_of(s: SchedView, fuel: nat) -> (SchedView, bool)
    decreases fuel,
{
    if fuel == 0 {
        (s, false)
    } else if s.queue.len() > 0 {
        run_of(step_of(s), (fuel - 1) as nat)
    } else if s.waits.len() == 0 {
        (s, true)
    } else {
        let d = min_deadline(s.waits);
        let t = if d > s.now {
            d
        } else {
            s.now
        };
        run_of(advance_of(s, t), (fuel - 1) as nat)
    }
}

/// The executor state after `k` consecutive steps.
pub open spec fn steps_of(s: SchedView, k: nat) -> SchedView
    decreases k,
{
    if k == 0 {
        s
    } else {
        steps_of(step_of(s), (k - 1) as nat)
    }
}

/// One completion per identifier, in the given order, all at instant `at`.
pub open spec fn fifo_completions(ids: Seq<usize>, at: u64) -> Seq<Completion> {
    ids.map_values(|id: usize| Completion { task: id, at })
}

/// Law: an immediately-ready computation completes on its very first poll —
/// the step drops its computation and logs its completion — and it spawns
/// nothing and never asks for a waiting thread, so nothing ever wakes or
/// re-enqueues it afterwards.
pub proof fn lemma_immediate_completes_on_first_poll(s: SchedView)
    requires
        wf(s),
        s.queue.len() >= 1,
        s.tasks[s.queue[0] as int].computation == Some(Computation::Immediate),
    ensures
        step_of(s).tasks == s.tasks.update(s.queue[0] as int, Task { computation: None }),
        step_of(s).queue == s.queue.drop_first(),
        step_of(s).waits == s.waits,
        step_of(s).completed == s.completed.push(Completion { task: s.queue[0], at: s.now }),
        step_of(s).now == s.now,
        report_of(s) == (StepReport::Completed { id: s.queue[0], start_wait: None }),
{
    let id = s.queue[0];
    assert(comp_spawn(Computation::Immediate) =~= Seq::<u64>::empty());
    assert(child_tasks(Seq::<u64>::empty()) =~= Seq::<Task>::empty());
    assert(child_ids(s.tasks.len() as int, 0) =~= Seq::<usize>::empty());
    assert(step_of(s).tasks =~= s.tasks.update(id as int, Task { computation: None }));
    assert(step_of(s).queue =~= s.queue.drop_first());
}

/// Law: a stale wake is harmless. When the oldest ready identifier names a
/// task whose computation has already completed and been dropped, the step
/// that pops it only removes it from the queue: no task, wait, completion
/// or clock change, and nothing is polled.
pub proof fn lemma_stale_wake_is_noop(s: SchedView)
    requires
        wf(s),
        s.queue.len() >= 1,
        s.tasks[s.queue[0] as int].computation is None,
    ensures
        step_of(s) == (SchedView { queue: s.queue.drop_first(), ..s }),
        report_of(s) == (StepReport::Stale { id: s.queue[0] }),
{
}

/// How many children the task at the head of the ready-queue would hand
/// out if it were polled: zero unless a live spawning computation stands
/// there before its first poll.
pub open spec fn head_spawn_count(s: SchedView) -> nat {
    if s.queue.len() > 0 && s.queue[0] < s.tasks.len() && s.tasks[s.queue[0]
        as int].computation is Some {
        comp_spawn(s.tasks[s.queue[0] as int].computation.unwrap()).len()
    } else {
        0
    }
}

/// Law: a task that has completed — its computation dropped — and has no
/// registered wait is retired for good: no scheduler step and no clock
/// advance re-enqueues it, re-polls it, or completes it a second time.
pub proof fn lemma_completed_task_stays_retired(s: SchedView, id: usize, t: u64)
    requires
        wf(s),
        s.tasks.len() + head_spawn_count(s) <= usize::MAX,
        id < s.tasks.len(),
        s.tasks[id as int].computation is None,
        forall|i: int| 0 <= i < s.queue.len() ==> (#[trigger] s.queue[i]) != id,
        forall|i: int| 0 <= i < s.waits.len() ==> (#[trigger] s.waits[i]).task != id,
    ensures
        step_of(s).tasks[id as int].computation is None,
        forall|i: int|
            0 <= i < step_of(s).queue.len() ==> (#[trigger] step_of(s).queue[i]) != id,
        forall|i: int|
            0 <= i < step_of(s).waits.len() ==> (#[trigger] step_of(s).waits[i]).task != id,
        forall|i: int|
            s.completed.len() <= i < step_of(s).completed.len() ==> step_of(s).completed[i].task != id,
        advance_of(s, t).tasks[id as int].computation is None,
        forall|i: int|
            0 <= i < advance_of(s, t).queue.len() ==> (#[trigger] advance_of(s, t).queue[i])
                != id,
        forall|i: int|
            0 <= i < advance_of(s, t).waits.len() ==> (#[trigger] advance_of(s, t).waits[i]).task != id,
        advance_of(s, t).completed == s.completed,
{
    lemma_delivery_avoids(s.waits, t, id);
    if s.queue.len() > 0 {
        let h = s.queue[0];
        if h < s.tasks.len() && s.tasks[h as int].computation is Some {
            let c = s.tasks[h as int].computation.unwrap();
            assert(step_of(s).tasks[id as int] == s.tasks.update(
                h as int,
                Task {
                    computation: if comp_ready(c, s.now) {
                        None
                    } else {
                        Some(comp_after_poll(c, s.now, h))
                    },
                },
            )[id as int]);
            assert forall|i: int| 0 <= i < step_of(s).queue.len() implies (
            #[trigger] step_of(s).queue[i]) != id by {
                if i < s.queue.len() - 1 {
                    assert(step_of(s).queue[i] == s.queue[i + 1]);
                } else {
                    let j = i - (s.queue.len() - 1);
                    assert(step_of(s).queue[i] == child_ids(
                        s.tasks.len() as int,
                        comp_spawn(c).len() as int,
                    )[j]);
                    assert(head_spawn_count(s) == comp_spawn(c).len());
                    assert(s.tasks.len() + j < s.tasks.len() + comp_spawn(c).len()
                        <= usize::MAX);
                    assert(step_of(s).queue[i] == (s.tasks.len() + j) as usize);
                    assert(step_of(s).queue[i] >= s.tasks.len());
                }
            }
        } else {
            assert forall|i: int| 0 <= i < step_of(s).queue.len() implies (
            #[trigger] step_of(s).queue[i]) != id by {
                assert(step_of(s).queue[i] == s.queue[i + 1]);
            }
        }
    }
    assert forall|i: int| 0 <= i < advance_of(s, t).queue.len() implies (
    #[trigger] advance_of(s, t).queue[i]) != id by {
        if i >= s.queue.len() {
            assert(advance_of(s, t).queue[i] == due_tasks(s.waits, t)[i - s.queue.len()]);
        }
    }
}

/// Law: a suspending task is completed by a poll exactly when the clock
/// has reached its deadline. A step that polls it strictly before the
/// deadline logs no completion and keeps the task alive; a step at or
/// after the deadline drops the computation and logs the completion, at
/// the current instant.
pub proof fn lemma_completion_exactly_at_deadline(s: SchedView)
    requires
        wf(s),
        s.queue.len() >= 1,
        s.tasks[s.queue[0] as int].computation is Some,
        !(s.tasks[s.queue[0] as int].computation.unwrap() is Immediate),
    ensures
        s.now < comp_deadline(s.tasks[s.queue[0] as int].computation.unwrap(), s.now)
            ==> step_of(s).completed == s.completed && step_of(s).tasks[s.queue[0]
            as int].computation is Some,
        s.now >= comp_deadline(s.tasks[s.queue[0] as int].computation.unwrap(), s.now)
            ==> step_of(s).completed == s.completed.push(
            Completion { task: s.queue[0], at: s.now },
        ) && step_of(s).tasks[s.queue[0] as int].computation is None,
{
    let id = s.queue[0];
    let c = s.tasks[id as int].computation.unwrap();
    let polled = Task {
        computation: if comp_ready(c, s.now) {
            None
        } else {
            Some(comp_after_poll(c, s.now, id))
        },
    };
    assert(step_of(s).tasks[id as int] == s.tasks.update(id as int, polled)[id as int]);
}

/// Law: when every ready identifier names a distinct, live, immediately-
/// ready computation, one step per queued task completes them all, in
/// arrival (FIFO) order, at the current instant, without touching the
/// waits or the clock — and every task already completed stays completed.
pub proof fn lemma_fifo_completion_of_immediate_tasks(s: SchedView)
    requires
        wf(s),
        forall|i: int|
            0 <= i < s.queue.len() ==> s.tasks[(#[trigger] s.queue[i]) as int].computation
                == Some(Computation::Immediate),
        forall|i: int, j: int| 0 <= i < j < s.queue.len() ==> s.queue[i] != s.queue[j],
    ensures
        steps_of(s, s.queue.len()).queue.len() == 0,
        steps_of(s, s.queue.len()).completed == s.completed + fifo_completions(s.queue, s.now),
        steps_of(s, s.queue.len()).tasks.len() == s.tasks.len(),
        steps_of(s, s.queue.len()).waits == s.waits,
        steps_of(s, s.queue.len()).now == s.now,
        forall|k: int|
            0 <= k < s.tasks.len() && s.tasks[k].computation is None ==> steps_of(
                s,
                s.queue.len(),
            ).tasks[k].computation is None,
        forall|i: int|
            0 <= i < s.queue.len() ==> steps_of(s, s.queue.len()).tasks[(#[trigger] s.queue[i])
                as int].computation is None,
    decreases s.queue.len(),
{
    if s.queue.len() == 0 {
        assert(fifo_completions(s.queue, s.now).len() == 0);
        assert(s.completed + fifo_completions(s.queue, s.now) =~= s.completed);
    } else {
        let id = s.queue[0];
        lemma_immediate_completes_on_first_poll(s);
        lemma_step_preserves_wf(s);
        let s1 = step_of(s);
        assert forall|i: int|
            0 <= i < s1.queue.len() implies s1.tasks[(#[trigger] s1.queue[i])
            as int].computation == Some(Computation::Immediate) by {
            assert(s1.queue[i] == s.queue[i + 1]);
            assert(s.queue[i + 1] != id);
        }
        assert forall|i: int, j: int| 0 <= i < j < s1.queue.len() implies s1.queue[i]
            != s1.queue[j] by {
            assert(s1.queue[i] == s.queue[i + 1]);
            assert(s1.queue[j] == s.queue[j + 1]);
        }
        lemma_fifo_completion_of_immediate_tasks(s1);
        assert(steps_of(s, s.queue.len()) == steps_of(s1, s1.queue.len()));
        assert(s.completed + fifo_completions(s.queue, s.now) =~= s1.completed
            + fifo_completions(s1.queue, s1.now));
        assert forall|k: int|
            0 <= k < s.tasks.len() && s.tasks[k].computation is None implies steps_of(
            s,
            s.queue.len(),
        ).tasks[k].computation is None by {
            assert(s1.tasks[k].computation is None);
        }
        assert forall|i: int|
            0 <= i < s.queue.len() implies steps_of(s, s.queue.len()).tasks[(
        #[trigger] s.queue[i]) as int].computation is None by {
            if i == 0 {
                assert(s1.tasks[id as int].computation is None);
            } else {
                assert(s1.queue[i - 1] == s.queue[i]);
            }
        }
    }
}

impl MiniTokio {
    /// A fresh executor: no tasks, nothing ready, nothing waiting, nothing
    /// completed, at time zero.
    pub fn new() -> (s: MiniTokio)
        ensures
            s@ == (SchedView {
                tasks: Seq::<Task>::empty(),
                queue: Seq::<usize>::empty(),
                waits: Seq::<Wait>::empty(),
                completed: Seq::<Completion>::empty(),
                now: 0u64,
            }),
            wf(s@),
    {
        let s = MiniTokio {
            tasks: Vec::new(),
            queue: ReadyQueue::new(),
            waits: Vec::new(),
            completed: Vec::new(),
            now: 0,
        };
        proof {
            assert(s@ =~= (SchedView {
                tasks: Seq::<Task>::empty(),
                queue: Seq::<usize>::empty(),
                waits: Seq::<Wait>::empty(),
                completed: Seq::<Completion>::empty(),
                now: 0u64,
            }));
        }
        s
    }

    /// The current logical time, in milliseconds.
    pub fn current_time(&self) -> (t: u64)
        ensures
            t == self@.now,
    {
        self.now
    }

    /// How many tasks the arena holds, completed ones included.
    pub fn task_count(&self) -> (n: usize)
        ensures
            n == self@.tasks.len(),
    {
        self.tasks.len()
    }

    /// The completion log: which task finished, when, in observed order.
    pub fn completions(&self) -> (r: &Vec<Completion>)
        ensures
            r@ == self@.completed,
    {
        &self.completed
    }

    /// Spawn a computation: a new task appears at the end of the arena and
    /// becomes immediately ready. Returns the new task's identifier.
    pub fn spawn(&mut self, computation: Computation) -> (id: usize)
        requires
            wf(old(self)@),
        ensures
            wf(final(self)@),
            final(self)@ == spawn_of(old(self)@, computation),
            id == old(self)@.tasks.len(),
    {
        let id = self.tasks.len();
        self.tasks.push(Task { computation: Some(computation) });
        self.queue.push(id);
        proof {
            assert(self@ =~= spawn_of(old(self)@, computation));
            assert forall|i: int|
                0 <= i < self@.completed.len() implies (#[trigger] self@.completed[i]).task
                < self@.tasks.len() && self@.tasks[self@.completed[i].task
                as int].computation is None by {
                assert(self@.tasks[self@.completed[i].task as int] == old(
                    self,
                )@.tasks[self@.completed[i].task as int]);
            }
        }
        id
    }

    /// Invoke a wake token: push the task's identifier back onto the
    /// ready-queue. Waking a task whose computation has already completed
    /// and been dropped is safe: the push succeeds and the stale entry is
    /// absorbed as a no-op when it is next popped.
    pub fn wake(&mut self, id: usize)
        requires
            wf(old(self)@),
            id < old(self)@.tasks.len(),
        ensures
            wf(final(self)@),
            final(self)@ == wake_of(old(self)@, id),
    {
        self.queue.push(id);
        proof {
            assert(self@ =~= wake_of(old(self)@, id));
        }
    }

    /// One scheduler step: pop the oldest ready identifier, if any, and
    /// poll that task once at the current time. State and report are
    /// exactly [`step_of`] and [`report_of`].
    pub fn try_step(&mut self) -> (r: StepReport)
        requires
            wf(old(self)@),
        ensures
            wf(final(self)@),
            final(self)@ == step_of(old(self)@),
            r == report_of(old(self)@),
    {
        proof {
            lemma_step_preserves_wf(old(self)@);
        }
        let ghost s0 = self@;
        let popped = self.queue.try_pop();
        let id = match popped {
            None => {
                proof {
                    assert(self@ =~= step_of(s0));
                }
                return StepReport::Idle;
            }
            Some(id) => id,
        };
        assert(id < self.tasks@.len());
        let slot = &mut self.tasks[id];
        let taken = slot.computation.take();
        let mut comp = match taken {
            None => {
                proof {
                    assert(self@.tasks =~= s0.tasks);
                    assert(self@ =~= step_of(s0));
                }
                return StepReport::Stale { id };
            }
            Some(c) => c,
        };
        let ghost c0 = comp;
        let pr = comp.poll(self.now, id);
        if pr.ready {
            self.completed.push(Completion { task: id, at: self.now });
        } else {
            let slot = &mut self.tasks[id];
            slot.computation = Some(comp);
        }
        if let Some(d) = pr.start_wait {
            self.waits.push(Wait { deadline: d, task: id });
        }
        let ghost mid = self@;
        proof {
            assert(mid.tasks =~= step_of(s0).tasks.take(s0.tasks.len() as int));
            assert(mid.queue =~= s0.queue.drop_first());
            assert(mid.waits =~= step_of(s0).waits);
            assert(mid.completed =~= step_of(s0).completed);
        }
        let n = pr.spawn.len();
        let mut j: usize = 0;
        while j < n
            invariant
                n == pr.spawn@.len(),
                j <= n,
                wf(s0),
                s0.queue.len() > 0,
                s0.queue[0] == id,
                id < s0.tasks.len(),
                s0.tasks[id as int].computation == Some(c0),
                pr.spawn@ == comp_spawn(c0),
                self@.tasks =~= mid.tasks + child_tasks(pr.spawn@.take(j as int)),
                self@.queue =~= mid.queue + child_ids(s0.tasks.len() as int, j as int),
                self@.waits == mid.waits,
                self@.completed == mid.completed,
                self@.now == mid.now,
                mid.tasks.len() == s0.tasks.len(),
                mid.now == s0.now,
            decreases n - j,
        {
            let dur = pr.spawn[j];
            let cid = self.tasks.len();
            self.tasks.push(
                Task { computation: Some(Computation::Delay { duration: dur, timer: None }) },
            );
            self.queue.push(cid);
            proof {
                assert(self@.tasks =~= mid.tasks + child_tasks(pr.spawn@.take(j + 1 as int)));
                assert(self@.queue =~= mid.queue + child_ids(s0.tasks.len() as int, j + 1 as int));
            }
            j += 1;
        }
        proof {
            assert(pr.spawn@.take(n as int) =~= pr.spawn@);
            assert(self@.tasks =~= step_of(s0).tasks);
            assert(self@.queue =~= step_of(s0).queue);
            assert(self@ =~= step_of(s0));
        }
        if pr.ready {
            StepReport::Completed { id, start_wait: pr.start_wait }
        } else {
            StepReport::Suspended { id, start_wait: pr.start_wait }
        }
    }

    /// Advance the logical clock to `t` and deliver every wake whose
    /// deadline has passed: each due wait's task identifier is pushed onto
    /// the ready-queue, in the order the waits were registered, and those
    /// waits are retired. The clock never moves backwards.
    pub fn advance_to(&mut self, t: u64)
        requires
            wf(old(self)@),
            t >= old(self)@.now,
        ensures
            wf(final(self)@),
            final(self)@ == advance_of(old(self)@, t),
    {
        let ghost s0 = self@;
        let mut remaining: Vec<Wait> = Vec::new();
        let n = self.waits.len();
        let mut i: usize = 0;
        while i < n
            invariant
                n == self.waits@.len(),
                i <= n,
                self.waits@ == s0.waits,
                self@.tasks == s0.tasks,
                self@.completed == s0.completed,
                self@.now == s0.now,
                self@.queue =~= s0.queue + due_tasks(s0.waits.take(i as int), t),
                remaining@ =~= pending_waits(s0.waits.take(i as int), t),
            decreases n - i,
        {
            let w = self.waits[i];
            if w.deadline <= t {
                self.queue.push(w.task);
            } else {
                remaining.push(w);
            }
            proof {
                assert(s0.waits.take(i + 1 as int) =~= s0.waits.take(i as int).push(
                    s0.waits[i as int],
                ));
                lemma_due_pending_push(s0.waits.take(i as int), s0.waits[i as int], t);
                assert(self@.queue =~= s0.queue + due_tasks(s0.waits.take(i + 1 as int), t));
                assert(remaining@ =~= pending_waits(s0.waits.take(i + 1 as int), t));
            }
            i += 1;
        }
        self.waits = remaining;
        self.now = t;
        proof {
            assert(s0.waits.take(n as int) =~= s0.waits);
            assert(self@ =~= advance_of(s0, t));
            lemma_delivery_bounded(s0.waits, t, s0.tasks.len() as int);
            assert forall|idx: int| 0 <= idx < self@.queue.len() implies (
            #[trigger] self@.queue[idx]) < self@.tasks.len() by {
                if idx >= s0.queue.len() {
                    assert(self@.queue[idx] == due_tasks(s0.waits, t)[idx - s0.queue.len()]);
                }
            }
        }
    }

    /// The earliest deadline among the registered waiting threads, if any.
    pub fn next_deadline(&self) -> (r: Option<u64>)
        ensures
            r == (if self@.waits.len() == 0 {
                None
            } else {
                Some(min_deadline(self@.waits))
            }),
    {
        if self.waits.len() == 0 {
            return None;
        }
        let mut best = self.waits[0].deadline;
        let mut i: usize = 1;
        while i < self.waits.len()
            invariant
                1 <= i <= self.waits@.len(),
                exists|k: int| 0 <= k < i && (#[trigger] self.waits@[k]).deadline == best,
                forall|k: int| 0 <= k < i ==> (#[trigger] self.waits@[k]).deadline >= best,
            decreases self.waits@.len() - i,
        {
            let d = self.waits[i].deadline;
            if d < best {
                best = d;
            }
            i += 1;
        }
        proof {
            lemma_min_deadline_props(self.waits@);
            let k0 = choose|k: int|
                0 <= k < self.waits@.len() && (#[trigger] self.waits@[k]).deadline == best;
            let j = choose|k: int|
                0 <= k < self.waits@.len() && (#[trigger] self.waits@[k]).deadline
                    == min_deadline(self.waits@);
            assert(best <= self.waits@[j].deadline);
            assert(min_deadline(self.waits@) <= self.waits@[k0].deadline);
            assert(best == min_deadline(self@.waits));
        }
        Some(best)
    }

    /// Drive the executor until it is quiescent — nothing ready and nothing
    /// waiting — or `fuel` iterations have been spent. Whenever the ready-
    /// queue empties while waits are pending, the clock advances to the
    /// earliest pending deadline and the due wakes are delivered, so ties
    /// are delivered in deadline order. Returns whether quiescence was
    /// reached: an empty queue with nothing pending is treated as clean
    /// termination. The completion log only ever grows, and the clock never
    /// moves backwards.
    pub fn run(&mut self, fuel: u64) -> (quiescent: bool)
        requires
            wf(old(self)@),
        ensures
            wf(final(self)@),
            final(self)@.now >= old(self)@.now,
            final(self)@.completed.len() >= old(self)@.completed.len(),
            forall|i: int|
                0 <= i < old(self)@.completed.len() ==> final(self)@.completed[i] == old(
                    self,
                )@.completed[i],
            quiescent ==> final(self)@.queue.len() == 0 && final(self)@.waits.len() == 0,
            final(self)@ == run_of(old(self)@, fuel as nat).0,
            quiescent == run_of(old(self)@, fuel as nat).1,
    {
        let ghost pre = self@;
        let mut left = fuel;
        loop
            invariant
                pre == old(self)@,
                wf(self@),
                self@.now >= pre.now,
                self@.completed.len() >= pre.completed.len(),
                forall|i: int| 0 <= i < pre.completed.len() ==> self@.completed[i]
                    == pre.completed[i],
                run_of(pre, fuel as nat) == run_of(self@, left as nat),
            decreases left,
        {
            if left == 0 {
                return false;
            }
            let ghost f = left as nat;
            let ghost s_before = self@;
            left = left - 1;
            let r = self.try_step();
            if let StepReport::Idle = r {
                proof {
                    assert(s_before.queue.len() == 0);
                    assert(self@ == s_before);
                }
                match self.next_deadline() {
                    None => {
                        proof {
                            assert(run_of(s_before, f) == (s_before, true));
                        }
                        return true;
                    }
                    Some(d) => {
                        proof {
                            assert(d == min_deadline(s_before.waits));
                        }
                        let t = if d > self.now {
                            d
                        } else {
                            self.now
                        };
                        self.advance_to(t);
                        proof {
                            assert(run_of(s_before, f) == run_of(self@, (f - 1) as nat));
                        }
                    }
                }
            } else {
                proof {
                    assert(s_before.queue.len() > 0);
                    assert(run_of(s_before, f) == run_of(step_of(s_before), (f - 1) as nat));
                }
            }
        }
    }
}

/// Spawn a computation onto the given executor: nested work passes the
/// executor handle along explicitly, so spawning is only possible while a
/// scheduler is actually at hand — the handle is the spawn context.
pub fn spawn(executor: &mut MiniTokio, computation: Computation) -> (id: usize)
    requires
        wf(old(executor)@),
    ensures
        wf(final(executor)@),
        final(executor)@ == spawn_of(old(executor)@, computation),
        id == old(executor)@.tasks.len(),
{
    executor.spawn(computation)
}

} // verus!
