//! Collective communication: reduction operators, error type, communicators
//! and the algorithms of the two backends.

pub mod communicator;
pub mod error;
pub mod mpi_backend;
pub mod op;
pub mod ucx_backend;
