//! `UcxCommunicator`: a fixed group of connected peers.

use crate::collective::communicator::Communicator;
use std::rc::Rc;
use vstd::prelude::*;

verus! {

/// Active-message id of the collective layer. One id serves all messages; the
/// header (source, step, phase) tells them apart.
pub const COLLECTIVE_AM_ID: u16 = 0xC011;

/// A group of peers: this peer's rank, the group size, one endpoint of type
/// `E` per connected rank, the worker `W` that progresses them, and the router
/// `R` of incoming active messages.
pub struct UcxCommunicator<E, W, R> {
    rank: usize,
    size: usize,
    endpoints: Vec<Option<Rc<E>>>,
    worker: Rc<W>,
    router: Rc<R>,
}

impl<E, W, R> UcxCommunicator<E, W, R> {
    /// The endpoint slots, one per rank.
    pub closed spec fn endpoint_slots(&self) -> Seq<Option<Rc<E>>> {
        self.endpoints@
    }

    /// The worker that progresses the endpoints.
    pub closed spec fn worker_view(&self) -> Rc<W> {
        self.worker
    }

    /// The router of incoming active messages.
    pub closed spec fn router_view(&self) -> Rc<R> {
        self.router
    }

    /// Whether this peer holds an endpoint to `rank`.
    pub open spec fn connected_to(&self, rank: int) -> bool {
        0 <= rank < self.endpoint_slots().len() && self.endpoint_slots()[rank] is Some
    }

    /// Assemble a communicator from its parts.
    pub fn new(
        rank: usize,
        size: usize,
        worker: Rc<W>,
        endpoints: Vec<Option<Rc<E>>>,
        router: Rc<R>,
    ) -> (comm: Self)
        ensures
            comm.rank_view() == rank,
            comm.size_view() == size,
            comm.worker_view() == worker,
            comm.endpoint_slots() == endpoints@,
            comm.router_view() == router,
    {
        UcxCommunicator { rank, size, endpoints, worker, router }
    }

    /// The router of incoming active messages.
    pub fn router(&self) -> (r: &Rc<R>)
        ensures
            *r == self.router_view(),
    {
        &self.router
    }

    /// The endpoint to `rank`, if this peer holds one.
    pub fn endpoint(&self, rank: usize) -> (r: Option<&Rc<E>>)
        ensures
            r is Some <==> self.connected_to(rank as int),
            r is Some <==> rank < self.endpoint_slots().len()
                && self.endpoint_slots()[rank as int] is Some,
            r matches Some(e) ==> self.endpoint_slots()[rank as int] == Some(*e),
    {
        if rank < self.endpoints.len() {
            self.endpoints[rank].as_ref()
        } else {
            None
        }
    }

    /// The worker that progresses the endpoints.
    pub fn worker(&self) -> (r: &Rc<W>)
        ensures
            *r == self.worker_view(),
    {
        &self.worker
    }
}

impl<E, W, R> Communicator for UcxCommunicator<E, W, R> {
    closed spec fn rank_view(&self) -> usize {
        self.rank
    }

    closed spec fn size_view(&self) -> usize {
        self.size
    }

    fn rank(&self) -> usize {
        self.rank
    }

    fn size(&self) -> usize {
        self.size
    }
}


/// A peer is connected to exactly the ranks that it holds an endpoint to.
pub proof fn connected_where_an_endpoint_is<E, W, R>(comm: &UcxCommunicator<E, W, R>, rank: int)
    ensures
        comm.connected_to(rank) == (exists|e: Rc<E>|
            0 <= rank < comm.endpoint_slots().len() && comm.endpoint_slots()[rank] == Some(e)),
{
    if comm.connected_to(rank) {
        assert(comm.endpoint_slots()[rank] == Some(comm.endpoint_slots()[rank]->0));
    }
}

} // verus!
