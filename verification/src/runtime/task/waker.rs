//! What a waker knows: which task to put back onto which queue.

use crate::runtime::task::QueueKind;
use vstd::prelude::*;

verus! {

/// Data of a task's waker.
#[derive(Debug, Clone, Copy, PartialEq, Eq, Structural)]
pub struct PluvioWaker {
    pub task_id: usize,
    pub queue: QueueKind,
}

/// The waker of task `id` on `queue`.
pub fn new_waker(queue: QueueKind, id: usize) -> (w: PluvioWaker)
    ensures
        w.task_id == id,
        w.queue == queue,
{
    PluvioWaker { task_id: id, queue }
}

} // verus!
