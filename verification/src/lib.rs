//! A miniature cooperative task executor with a timer primitive.
//!
//! The executor owns an arena of tasks and a FIFO ready-queue of task
//! identifiers; it repeatedly pops an identifier and polls that task's
//! computation once. A computation that cannot finish yet suspends on a
//! [`timer::Timer`], which asks for a single waiting thread to be started;
//! when the deadline passes, the task is woken, i.e. its identifier is
//! pushed back onto the ready-queue. Time is a plain count of milliseconds,
//! so the whole scheduling protocol is stated and proved over it; a host
//! program supplies wall-clock readings and performs the actual waiting.

pub mod executor;
pub mod ready_queue;
pub mod task;
pub mod timer;
