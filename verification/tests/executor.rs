use mini_tokio::executor::{spawn, Completion, MiniTokio, StepReport};
use mini_tokio::task::Computation;

#[test]
fn immediate_task_completes_on_first_poll() {
    let mut mt = MiniTokio::new();
    let id = spawn(&mut mt, Computation::Immediate);
    assert_eq!(id, 0);
    let r = mt.try_step();
    assert_eq!(r, StepReport::Completed { id: 0, start_wait: None });
    assert_eq!(mt.completions(), &vec![Completion { task: 0, at: 0 }]);
    // nothing re-enqueued it: the queue is empty again
    assert_eq!(mt.try_step(), StepReport::Idle);
}

#[test]
fn immediate_tasks_complete_in_fifo_order() {
    let mut mt = MiniTokio::new();
    for expected in 0..3usize {
        let id = mt.spawn(Computation::Immediate);
        assert_eq!(id, expected);
    }
    let quiescent = mt.run(100);
    assert!(quiescent);
    let done: Vec<usize> = mt.completions().iter().map(|c| c.task).collect();
    assert_eq!(done, vec![0, 1, 2]);
    assert!(mt.completions().iter().all(|c| c.at == 0));
}

#[test]
fn delay_suspends_then_completes_at_deadline() {
    let mut mt = MiniTokio::new();
    let id = mt.spawn(Computation::Delay { duration: 50, timer: None });
    assert_eq!(id, 0);
    // first poll: suspends and asks for exactly one waiting thread
    let r = mt.try_step();
    assert_eq!(r, StepReport::Suspended { id: 0, start_wait: Some(50) });
    // a spurious wake strictly before the deadline: polled again, still not
    // ready, and no second waiting thread is requested
    mt.advance_to(49);
    assert_eq!(mt.try_step(), StepReport::Idle);
    mt.wake(0);
    assert_eq!(mt.try_step(), StepReport::Suspended { id: 0, start_wait: None });
    assert!(mt.completions().is_empty());
    // at the deadline the waiting thread's wake is delivered and the poll
    // observes readiness
    mt.advance_to(50);
    assert_eq!(mt.try_step(), StepReport::Completed { id: 0, start_wait: None });
    assert_eq!(mt.completions(), &vec![Completion { task: 0, at: 50 }]);
}

#[test]
fn zero_delay_completes_on_first_poll_but_still_arms() {
    let mut mt = MiniTokio::new();
    mt.spawn(Computation::Delay { duration: 0, timer: None });
    let r = mt.try_step();
    // ready at once, yet the first poll still asks for its waiting thread
    assert_eq!(r, StepReport::Completed { id: 0, start_wait: Some(0) });
    assert_eq!(mt.completions(), &vec![Completion { task: 0, at: 0 }]);
}

#[test]
fn waking_a_completed_task_is_a_safe_noop() {
    let mut mt = MiniTokio::new();
    mt.spawn(Computation::Immediate);
    assert_eq!(mt.try_step(), StepReport::Completed { id: 0, start_wait: None });
    // the stale wake pushes the identifier, and the next pop absorbs it
    mt.wake(0);
    assert_eq!(mt.try_step(), StepReport::Stale { id: 0 });
    assert_eq!(mt.completions(), &vec![Completion { task: 0, at: 0 }]);
    assert_eq!(mt.try_step(), StepReport::Idle);
}

#[test]
fn staggered_timers_complete_in_deadline_order() {
    // a root task that spawns a 100 ms task and a 200 ms task, then waits
    // 300 ms itself: completions must read task-1, task-2, root, each at
    // its own deadline
    let mut mt = MiniTokio::new();
    let root = spawn(
        &mut mt,
        Computation::SpawnThenDelay { children: vec![100, 200], duration: 300, timer: None },
    );
    assert_eq!(root, 0);
    let quiescent = mt.run(1000);
    assert!(quiescent);
    assert_eq!(mt.task_count(), 3);
    assert_eq!(
        mt.completions(),
        &vec![
            Completion { task: 1, at: 100 },
            Completion { task: 2, at: 200 },
            Completion { task: 0, at: 300 },
        ],
    );
    // no completion before its own duration has elapsed
    assert!(mt.completions().iter().all(|c| c.at >= 100));
    assert_eq!(mt.current_time(), 300);
}

#[test]
fn nested_spawns_run_before_their_parent_finishes() {
    // children are enqueued the moment the parent first suspends
    let mut mt = MiniTokio::new();
    mt.spawn(Computation::SpawnThenDelay { children: vec![0, 0], duration: 10, timer: None });
    assert_eq!(mt.try_step(), StepReport::Suspended { id: 0, start_wait: Some(10) });
    assert_eq!(mt.task_count(), 3);
    assert_eq!(mt.try_step(), StepReport::Completed { id: 1, start_wait: Some(0) });
    assert_eq!(mt.try_step(), StepReport::Completed { id: 2, start_wait: Some(0) });
    let quiescent = mt.run(100);
    assert!(quiescent);
    assert_eq!(
        mt.completions(),
        &vec![
            Completion { task: 1, at: 0 },
            Completion { task: 2, at: 0 },
            Completion { task: 0, at: 10 },
        ],
    );
}

#[test]
fn run_out_of_fuel_reports_no_quiescence() {
    let mut mt = MiniTokio::new();
    mt.spawn(Computation::Delay { duration: 50, timer: None });
    assert!(!mt.run(1));
    // with enough fuel the same executor still finishes cleanly
    assert!(mt.run(100));
    assert_eq!(mt.completions(), &vec![Completion { task: 0, at: 50 }]);
}

#[test]
fn fresh_executor_is_empty_and_idle() {
    let mut mt = MiniTokio::new();
    assert_eq!(mt.task_count(), 0);
    assert_eq!(mt.current_time(), 0);
    assert!(mt.completions().is_empty());
    assert_eq!(mt.try_step(), StepReport::Idle);
    assert!(mt.run(10));
}
