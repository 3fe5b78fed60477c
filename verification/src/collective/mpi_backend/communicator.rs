//! `MpiCommunicator`: the group of all MPI processes.

use crate::collective::communicator::Communicator;
use crate::collective::error::CollectiveError;
use crate::collective::mpi_backend::request::MPI_SUCCESS;
use std::rc::Rc;
use vstd::prelude::*;

verus! {

/// The group of all MPI processes, with the reactor `R` that completes its
/// requests.
pub struct MpiCommunicator<R> {
    rank: usize,
    size: usize,
    reactor: Rc<R>,
}

impl<R> MpiCommunicator<R> {
    /// The reactor that completes the requests.
    pub closed spec fn reactor_view(&self) -> Rc<R> {
        self.reactor
    }

    /// A communicator from what MPI says of the rank and of the size, each with
    /// its status code. The size is not looked at if the rank failed.
    pub fn world(reactor: Rc<R>, rank: (i32, i32), size: (i32, i32)) -> (r: Result<
        MpiCommunicator<R>,
        CollectiveError,
    >)
        requires
            rank.0 == MPI_SUCCESS && size.0 == MPI_SUCCESS ==> 0 <= rank.1 && 0 <= size.1,
        ensures
            match r {
                Ok(comm) => {
                    &&& rank.0 == MPI_SUCCESS
                    &&& size.0 == MPI_SUCCESS
                    &&& comm.rank_view() == rank.1
                    &&& comm.size_view() == size.1
                    &&& comm.reactor_view() == reactor
                },
                Err(CollectiveError::Mpi(code)) => if rank.0 != MPI_SUCCESS {
                    code == rank.0
                } else {
                    size.0 != MPI_SUCCESS && code == size.0
                },
                Err(_) => false,
            },
            r is Ok <==> rank.0 == 0 && size.0 == 0,
    {
        if rank.0 != MPI_SUCCESS {
            return Err(CollectiveError::Mpi(rank.0));
        }
        if size.0 != MPI_SUCCESS {
            return Err(CollectiveError::Mpi(size.0));
        }
        Ok(MpiCommunicator { rank: rank.1 as usize, size: size.1 as usize, reactor })
    }

    /// The reactor that completes the requests.
    pub fn reactor(&self) -> (r: &Rc<R>)
        ensures
            *r == self.reactor_view(),
    {
        &self.reactor
    }
}

impl<R> Communicator for MpiCommunicator<R> {
    closed spec fn rank_view(&self) -> usize {
        self.rank
    }

    closed spec fn size_view(&self) -> usize {
        self.size
    }

    fn rank(&self) -> usize {
        self.rank
    }

    fn size(&self) -> usize {
        self.size
    }
}

} // verus!
