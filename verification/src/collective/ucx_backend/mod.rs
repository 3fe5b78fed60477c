//! Collective algorithms over point-to-point messages.

pub mod adaptive;
pub mod am_router;
pub mod bootstrap;
pub mod broadcast;
pub mod bruck;
pub mod communicator;
pub mod model;
pub mod pipelined_ring;
pub mod recursive_doubling;
pub mod rendezvous;
pub mod ring;
pub mod scatter;
pub mod tag;
pub mod tree;
pub mod util;

pub use adaptive::{AdaptiveCommunicator, AdaptivePolicy, AllreduceAlgo};
pub use am_router::AmRouter;
pub use bootstrap::BootstrapConfig;
pub use broadcast::{
    broadcast_typed, BroadcastAction, BroadcastFuture as UcxBroadcastFuture, BroadcastView,
};
pub use bruck::AllgatherFuture as UcxAllgatherFuture;
pub use communicator::UcxCommunicator;
pub use pipelined_ring::{PipelineConfig, PipelinedRingAllreduceFuture};
pub use recursive_doubling::RecursiveDoublingFuture;
pub use scatter::ScatterFuture as UcxScatterFuture;
