//! The ready-queue: a FIFO queue of task identifiers, backed by a
//! `crossbeam` unbounded channel — the same multi-producer/single-consumer
//! queue the executor hands its ready work through. Both ends of the channel
//! stay inside the one [`ReadyQueue`] value, so every push and pop goes
//! through `&mut self` and the queued contents follow the calls exactly.

use vstd::prelude::*;

verus! {

/// A FIFO queue of ready task identifiers.
#[verifier::external_body]
pub struct ReadyQueue {
    sender: crossbeam::channel::Sender<usize>,
    receiver: crossbeam::channel::Receiver<usize>,
}

/// The identifiers currently queued, oldest first.
pub uninterp spec fn queue_ids(q: ReadyQueue) -> Seq<usize>;

impl ReadyQueue {
    /// Relies on crossbeam_channel::unbounded: a freshly created channel
    /// holds no messages.
    #[verifier::external_body]
    pub(crate) fn new() -> (q: ReadyQueue)
        ensures
            queue_ids(q) == Seq::<usize>::empty(),
    {
        let (sender, receiver) = crossbeam::channel::unbounded();
        ReadyQueue { sender, receiver }
    }

    /// Relies on crossbeam_channel::Sender::send: on an unbounded channel it
    /// appends the message behind all queued ones, and it cannot fail while
    /// the receiver — held in this same value — is alive.
    #[verifier::external_body]
    pub(crate) fn push(&mut self, id: usize)
        ensures
            queue_ids(*final(self)) == queue_ids(*old(self)).push(id),
    {
        let _ = self.sender.send(id);
    }

    /// Relies on crossbeam_channel::Receiver::try_recv: it hands back the
    /// oldest queued message, or reports the channel empty, and never blocks.
    #[verifier::external_body]
    pub(crate) fn try_pop(&mut self) -> (r: Option<usize>)
        ensures
            queue_ids(*old(self)).len() == 0 ==> r is None && queue_ids(*final(self))
                == queue_ids(*old(self)),
            queue_ids(*old(self)).len() > 0 ==> r == Some(queue_ids(*old(self))[0]) && queue_ids(
                *final(self),
            ) == queue_ids(*old(self)).drop_first(),
    {
        self.receiver.try_recv().ok()
    }
}

} // verus!
