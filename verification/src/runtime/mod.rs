//! The single-threaded runtime: tasks, their queues, reactors and the loop
//! that drives them.

pub mod executor;
pub mod reactor;
pub mod select;
pub mod task;
pub mod track;
