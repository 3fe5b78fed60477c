//! Allgather by one `MPI_Iallgather`.

use crate::collective::error::CollectiveError;
use crate::collective::mpi_backend::request;
use crate::collective::mpi_backend::request::{count_of, RequestFuture};
use vstd::prelude::*;

verus! {

/// An allgather of one contribution per rank.
pub struct AllgatherFuture {
    pub send_count: i32,
    pub recv_count: i32,
    pub request: RequestFuture,
}

impl AllgatherFuture {
    /// An allgather of `send` into `recv` among `size` ranks; the receive
    /// buffer must hold one contribution per rank.
    pub fn new<T>(send: &[T], recv: &[T], size: usize) -> (r: Result<
        AllgatherFuture,
        CollectiveError,
    >)
        requires
            send@.len() * size <= usize::MAX,
        ensures
            match r {
                Ok(f) => {
                    &&& recv@.len() == send@.len() * size
                    &&& f.send_count == request::count_value(send@.len() as int)
                    &&& f.recv_count == request::count_value(send@.len() as int)
                    &&& f.request.state_view() == request::RequestState::NotStarted
                },
                Err(CollectiveError::BadShape) => recv@.len() != send@.len() * size,
                Err(_) => false,
            },
    {
        if recv.len() != send.len() * size {
            return Err(CollectiveError::BadShape);
        }
        Ok(
            AllgatherFuture {
                send_count: count_of(send.len()),
                recv_count: count_of(send.len()),
                request: RequestFuture::new(),
            },
        )
    }
}

} // verus!
