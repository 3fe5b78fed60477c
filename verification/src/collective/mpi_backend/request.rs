//! The life of a future that drives one MPI request.

use crate::collective::error::CollectiveError;
use crate::runtime::task::Poll;
use vstd::prelude::*;

verus! {

/// MPI's status code of a call that succeeded.
pub const MPI_SUCCESS: i32 = 0;

/// Where the request stands.
#[derive(Debug, Clone, Copy, PartialEq, Eq, Structural)]
pub enum RequestState {
    NotStarted,
    InFlight,
    Done,
}

/// What a poll does first.
#[derive(Debug, Clone, Copy, PartialEq, Eq, Structural)]
pub enum RequestStep {
    /// Start the request and report the status code by `started`.
    Start,
    /// Look at the completion slot and report it by `checked`.
    Check,
    /// The request has completed.
    Ready,
}

/// The future of one request.
#[derive(Debug)]
pub struct RequestFuture {
    state: RequestState,
}

impl RequestFuture {
    pub closed spec fn state_view(&self) -> RequestState {
        self.state
    }

    /// A request that has not been started.
    pub fn new() -> (f: RequestFuture)
        ensures
            f.state_view() == RequestState::NotStarted,
    {
        RequestFuture { state: RequestState::NotStarted }
    }

    /// What a poll does first.
    pub fn next_step(&self) -> (s: RequestStep)
        ensures
            s == match self.state_view() {
                RequestState::NotStarted => RequestStep::Start,
                RequestState::InFlight => RequestStep::Check,
                RequestState::Done => RequestStep::Ready,
            },
    {
        match self.state {
            RequestState::NotStarted => RequestStep::Start,
            RequestState::InFlight => RequestStep::Check,
            RequestState::Done => RequestStep::Ready,
        }
    }

    /// MPI answered the start with this status code. A request that did not
    /// start fails the future; one that did is in flight and is to be
    /// registered with the reactor.
    pub fn started(&mut self, rc: i32) -> (r: Poll<Result<(), CollectiveError>>)
        requires
            old(self).state_view() == RequestState::NotStarted,
        ensures
            if rc != MPI_SUCCESS {
                &&& r matches Poll::Ready(Err(CollectiveError::Mpi(code)))
                &&& code == rc
                &&& final(self).state_view() == RequestState::NotStarted
            } else {
                r is Pending && final(self).state_view() == RequestState::InFlight
            },
            r is Pending <==> rc == 0,
    {
        if rc != MPI_SUCCESS {
            return Poll::Ready(Err(CollectiveError::Mpi(rc)));
        }
        self.state = RequestState::InFlight;
        Poll::Pending
    }

    /// The completion slot says `done`.
    pub fn checked(&mut self, done: bool) -> (r: Poll<Result<(), CollectiveError>>)
        requires
            old(self).state_view() == RequestState::InFlight,
        ensures
            if done {
                r matches Poll::Ready(Ok(())) && final(self).state_view() == RequestState::Done
            } else {
                r is Pending && final(self).state_view() == RequestState::InFlight
            },
    {
        if done {
            self.state = RequestState::Done;
            Poll::Ready(Ok(()))
        } else {
            Poll::Pending
        }
    }
}

/// The low 32 bits of a length as the signed count that MPI takes.
pub open spec fn count_value(len: int) -> int {
    let low = len % 0x1_0000_0000;
    if low < 0x8000_0000 {
        low
    } else {
        low - 0x1_0000_0000
    }
}

/// A length as the signed count that MPI takes.
pub fn count_of(len: usize) -> (c: i32)
    ensures
        c == count_value(len as int),
{
    let low: u64 = (len as u64) % 0x1_0000_0000;
    if low < 0x8000_0000 {
        low as i32
    } else {
        (low as i64 - 0x1_0000_0000) as i32
    }
}


/// A length that the signed count can hold is its own count; any other is
/// brought into its range by whole multiples of `2^32`.
pub proof fn count_is_the_length(len: int)
    requires
        0 <= len,
    ensures
        -0x8000_0000 <= count_value(len) < 0x8000_0000,
        (len - count_value(len)) % 0x1_0000_0000 == 0,
        len < 0x8000_0000 ==> count_value(len) == len,
{
}

} // verus!
