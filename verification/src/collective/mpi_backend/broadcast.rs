//! Broadcast by one `MPI_Ibcast`.

use crate::collective::mpi_backend::request;
use crate::collective::mpi_backend::request::{count_of, RequestFuture};
use vstd::prelude::*;

verus! {

/// A broadcast of a buffer from `root`.
pub struct BroadcastFuture {
    pub count: i32,
    pub root: i32,
    pub request: RequestFuture,
}

impl BroadcastFuture {
    /// A broadcast of `buf` from `root`.
    pub fn new<T>(buf: &[T], root: usize) -> (f: BroadcastFuture)
        ensures
            f.count == request::count_value(buf@.len() as int),
            f.root == request::count_value(root as int),
            f.request.state_view() == request::RequestState::NotStarted,
    {
        BroadcastFuture {
            count: count_of(buf.len()),
            root: count_of(root),
            request: RequestFuture::new(),
        }
    }
}

} // verus!
