//! The state of the fabric's workers and of the reactor that progresses them.

pub mod reactor;
pub mod stats;
pub mod worker;
