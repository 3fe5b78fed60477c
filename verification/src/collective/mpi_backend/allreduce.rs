//! Allreduce by one `MPI_Iallreduce` in place.

use crate::collective::mpi_backend::request;
use crate::collective::mpi_backend::request::{count_of, RequestFuture};
use vstd::prelude::*;

verus! {

/// An allreduce of a buffer in place.
pub struct AllreduceFuture {
    pub count: i32,
    pub request: RequestFuture,
}

impl AllreduceFuture {
    /// An allreduce of `buf`.
    pub fn new<T>(buf: &[T]) -> (f: AllreduceFuture)
        ensures
            f.count == request::count_value(buf@.len() as int),
            f.request.state_view() == request::RequestState::NotStarted,
    {
        AllreduceFuture { count: count_of(buf.len()), request: RequestFuture::new() }
    }
}

} // verus!
