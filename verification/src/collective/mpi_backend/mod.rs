//! Collectives by non-blocking MPI requests: what is asked of MPI, and how the
//! completion of a request reaches the future that waits for it.

pub mod allgather;
pub mod allreduce;
pub mod broadcast;
pub mod communicator;
pub mod reactor;
pub mod request;
pub mod scatter;
