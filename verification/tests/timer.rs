use mini_tokio::timer::{compute_deadline, remaining_millis, Timer};

#[test]
fn timer_never_ready_before_deadline() {
    let mut t = Timer::at(100);
    let p = t.poll(0, 7);
    assert!(!p.ready);
    let p = t.poll(99, 7);
    assert!(!p.ready);
}

#[test]
fn timer_ready_from_deadline_on() {
    let mut t = Timer::at(100);
    let p = t.poll(100, 7);
    assert!(p.ready);
    let p = t.poll(250, 7);
    assert!(p.ready);
}

#[test]
fn timer_zero_duration_ready_at_once() {
    let mut t = Timer::at(compute_deadline(40, 0));
    let p = t.poll(40, 1);
    assert!(p.ready);
    assert!(p.start_wait);
}

#[test]
fn timer_starts_exactly_one_waiting_thread() {
    let mut t = Timer::at(100);
    let first = t.poll(0, 1);
    assert!(first.start_wait);
    let again = t.poll(10, 1);
    assert!(!again.start_wait);
    let with_other_token = t.poll(20, 2);
    assert!(!with_other_token.start_wait);
    let past_deadline = t.poll(150, 2);
    assert!(!past_deadline.start_wait);
}

#[test]
fn timer_stores_the_latest_token() {
    let mut t = Timer::at(100);
    t.poll(0, 1);
    assert_eq!(t.stored, Some(1));
    t.poll(10, 2);
    assert_eq!(t.stored, Some(2));
}

#[test]
fn compute_deadline_adds_and_saturates() {
    assert_eq!(compute_deadline(5, 10), 15);
    assert_eq!(compute_deadline(0, 300), 300);
    assert_eq!(compute_deadline(5, u64::MAX), u64::MAX);
    assert_eq!(compute_deadline(u64::MAX, 1), u64::MAX);
}

#[test]
fn remaining_millis_counts_down_to_zero() {
    assert_eq!(remaining_millis(30, 100), 70);
    assert_eq!(remaining_millis(0, 100), 100);
    assert_eq!(remaining_millis(100, 100), 0);
    assert_eq!(remaining_millis(150, 100), 0);
}
