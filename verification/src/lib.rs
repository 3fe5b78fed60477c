//! A single-threaded asynchronous runtime core and the collective
//! communication algorithms that run on top of it.

pub mod collective;
pub mod runtime;
pub mod text;
pub mod timer;
pub mod ucx;
