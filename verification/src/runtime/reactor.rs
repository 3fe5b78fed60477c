//! Reactors: what drives I/O and wakes the tasks that wait for it.

use std::rc::Rc;
use vstd::prelude::*;

verus! {

/// Current running state of a reactor.
#[derive(Debug, Clone, Copy, PartialEq, Eq, Structural)]
pub enum ReactorStatus {
    /// Reactor is actively processing.
    Running,
    /// Reactor has no pending work.
    Stopped,
    /// Reactor requires exclusive access: other reactors are not polled.
    Blocking,
}

/// Common interface for reactor implementations.
pub trait Reactor {
    /// Poll the reactor for I/O events.
    fn poll(&self);

    /// The current status.
    fn status(&self) -> ReactorStatus;
}

impl<R: Reactor> Reactor for Rc<R> {
    fn poll(&self) {
        (**self).poll()
    }

    /// The status that the shared reactor reports.
    fn status(&self) -> (status: ReactorStatus)
        ensures
            call_ensures(R::status, (&**self,), status),
    {
        (**self).status()
    }
}

} // verus!
