//! Scatter by one `MPI_Iscatter`.

use crate::collective::error::CollectiveError;
use crate::collective::mpi_backend::request;
use crate::collective::mpi_backend::request::{count_of, RequestFuture};
use vstd::prelude::*;

verus! {

/// A scatter from `root`. The root sends `send_count` elements to each rank
/// and needs its send buffer; elsewhere the send buffer is ignored.
pub struct ScatterFuture {
    pub send_count: i32,
    pub recv_count: i32,
    pub root: i32,
    pub uses_send_buffer: bool,
    pub request: RequestFuture,
}

impl ScatterFuture {
    /// A scatter of `send` into `recv` among `size` ranks. The root needs a
    /// send buffer of one chunk per rank.
    pub fn new<T>(
        send: Option<&[T]>,
        recv: &[T],
        root: usize,
        rank: usize,
        size: usize,
    ) -> (r: Result<ScatterFuture, CollectiveError>)
        requires
            rank == root && send is Some ==> recv@.len() * size <= usize::MAX,
        ensures
            match r {
                Ok(f) => {
                    &&& f.recv_count == request::count_value(recv@.len() as int)
                    &&& f.root == request::count_value(root as int)
                    &&& f.uses_send_buffer == (rank == root)
                    &&& f.send_count == if rank == root {
                        f.recv_count
                    } else {
                        0
                    }
                    &&& rank == root ==> (send matches Some(sb) && sb@.len() == recv@.len() * size)
                    &&& f.request.state_view() == request::RequestState::NotStarted
                },
                Err(CollectiveError::Protocol(m)) => {
                    &&& rank == root
                    &&& send is None
                    &&& m@ == "scatter: send_buf required at root"@
                },
                Err(CollectiveError::BadShape) => {
                    &&& rank == root
                    &&& send matches Some(sb)
                    &&& sb@.len() != recv@.len() * size
                },
                Err(_) => false,
            },
    {
        let recv_count: i32 = count_of(recv.len());
        let mut send_count: i32 = 0;
        if rank == root {
            match send {
                None => {
                    return Err(CollectiveError::Protocol("scatter: send_buf required at root"));
                },
                Some(sb) => {
                    if sb.len() != recv.len() * size {
                        return Err(CollectiveError::BadShape);
                    }
                },
            }
            send_count = recv_count;
        }
        Ok(
            ScatterFuture {
                send_count,
                recv_count,
                root: count_of(root),
                uses_send_buffer: rank == root,
                request: RequestFuture::new(),
            },
        )
    }
}

} // verus!
