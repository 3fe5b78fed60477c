//! Choice of the allreduce algorithm by message size and group size.

use crate::collective::communicator::Communicator;
use crate::collective::error::CollectiveError;
use crate::collective::op;
use crate::collective::op::Op;
use crate::collective::ucx_backend::communicator::UcxCommunicator;
use crate::collective::ucx_backend::model;
use crate::collective::ucx_backend::model::is_power_of_two;
use crate::collective::ucx_backend::pipelined_ring;
use crate::collective::ucx_backend::pipelined_ring::{
    pipelined_ring_allreduce_typed, PipelineConfig, PipelinedRingAllreduceFuture,
};
use crate::collective::ucx_backend::recursive_doubling;
use crate::collective::ucx_backend::recursive_doubling::{
    recursive_doubling_typed, RecursiveDoublingFuture,
};
use crate::collective::ucx_backend::ring;
use crate::collective::ucx_backend::ring::{ring_allreduce_typed, RingAllreduceFuture};
use std::rc::Rc;
use vstd::arithmetic::power2;
use vstd::prelude::*;

verus! {

/// Allreduce algorithm chosen by `AdaptivePolicy`.
#[derive(Copy, Clone, Debug)]
pub enum AllreduceAlgo {
    PlainRing,
    PipelinedRing { config: PipelineConfig },
    RecursiveDoubling,
}

/// Selection policy for adaptive allreduce.
#[derive(Copy, Clone, Debug)]
pub struct AdaptivePolicy {
    /// Below this many message bytes, and in a power-of-two group, use
    /// recursive doubling.
    pub small_threshold: usize,
    /// At or above this many message bytes, use the pipelined ring with
    /// `pipeline_config`. In between the plain ring is used.
    pub large_threshold: usize,
    /// Pipeline parameters of the pipelined ring.
    pub pipeline_config: PipelineConfig,
}

impl Default for AdaptivePolicy {
    fn default() -> (policy: AdaptivePolicy)
        ensures
            policy.small_threshold == 2 * 1024,
            policy.large_threshold == 64 * 1024,
            policy.pipeline_config.micro_chunks == 4,
            policy.pipeline_config.max_in_flight == 8,
            policy.pipeline_config.proto is None,
    {
        AdaptivePolicy {
            small_threshold: 2 * 1024,
            large_threshold: 64 * 1024,
            pipeline_config: PipelineConfig::default(),
        }
    }
}

impl AdaptivePolicy {
    /// The algorithm for a message of `msg_bytes` among `n` ranks.
    pub open spec fn choice(self, msg_bytes: int, n: int) -> AllreduceAlgo {
        if msg_bytes < self.small_threshold && power2::is_pow2(n) && n >= 2 {
            AllreduceAlgo::RecursiveDoubling
        } else if msg_bytes >= self.large_threshold {
            AllreduceAlgo::PipelinedRing { config: self.pipeline_config }
        } else {
            AllreduceAlgo::PlainRing
        }
    }

    /// The algorithm for a message of `msg_bytes` among `n` ranks.
    pub fn choose_allreduce(&self, msg_bytes: usize, n: usize) -> (algo: AllreduceAlgo)
        ensures
            algo == self.choice(msg_bytes as int, n as int),
            (algo is RecursiveDoubling) == (msg_bytes < self.small_threshold && n >= 2
                && power2::is_pow2(n as int)),
    {
        if msg_bytes < self.small_threshold && is_power_of_two(n) && n >= 2 {
            AllreduceAlgo::RecursiveDoubling
        } else if msg_bytes >= self.large_threshold {
            AllreduceAlgo::PipelinedRing { config: self.pipeline_config }
        } else {
            AllreduceAlgo::PlainRing
        }
    }
}

/// An allreduce in progress under the algorithm that was chosen for it.
pub enum AdaptiveAllreduce {
    PlainRing(RingAllreduceFuture),
    PipelinedRing(PipelinedRingAllreduceFuture),
    RecursiveDoubling(RecursiveDoublingFuture),
}

/// `UcxCommunicator` wrapper that picks an allreduce algorithm per call. The
/// other collectives have one implementation each and go to `inner`.
pub struct AdaptiveCommunicator<E, W, R> {
    inner: Rc<UcxCommunicator<E, W, R>>,
    policy: AdaptivePolicy,
}

impl<E, W, R> AdaptiveCommunicator<E, W, R> {
    /// The communicator underneath.
    pub closed spec fn inner_view(&self) -> Rc<UcxCommunicator<E, W, R>> {
        self.inner
    }

    /// The selection policy.
    pub closed spec fn policy_view(&self) -> AdaptivePolicy {
        self.policy
    }

    pub fn new(inner: Rc<UcxCommunicator<E, W, R>>, policy: AdaptivePolicy) -> (comm: Self)
        ensures
            comm.inner_view() == inner,
            comm.policy_view() == policy,
    {
        AdaptiveCommunicator { inner, policy }
    }

    /// The communicator underneath.
    pub fn inner(&self) -> (r: &Rc<UcxCommunicator<E, W, R>>)
        ensures
            *r == self.inner_view(),
    {
        &self.inner
    }

    /// The selection policy.
    pub fn policy(&self) -> (r: &AdaptivePolicy)
        ensures
            *r == self.policy_view(),
    {
        &self.policy
    }

    /// The algorithm that an allreduce of `len` elements would take.
    pub fn chosen_algo<T>(&self, len: usize) -> (algo: AllreduceAlgo)
        requires
            len * vstd::layout::size_of::<T>() <= usize::MAX,
        ensures
            algo == self.policy_view().choice(
                len * vstd::layout::size_of::<T>(),
                self.inner_view().size_view() as int,
            ),
    {
        let bytes: usize = len * core::mem::size_of::<T>();
        self.policy.choose_allreduce(bytes, self.inner.size())
    }

    /// Start an allreduce of `buf` under the algorithm that the policy chooses
    /// for its size.
    pub fn allreduce<T>(&self, buf: &[T]) -> (r: Result<AdaptiveAllreduce, CollectiveError>)
        requires
            self.inner_view().rank_view() + self.inner_view().size_view() < usize::MAX,
        ensures
            ({
                let n = self.inner_view().size_view() as int;
                let algo = self.policy_view().choice(
                    (buf@.len() * vstd::layout::size_of::<T>()) as int,
                    n,
                );
                let ring_shape = n <= 1 || buf@.len() as int % n == 0;
                let connected = n <= 1 || self.inner_view().connected_to(
                    ring::next_rank(self.inner_view().rank_view() as int, n),
                );
                match r {
                    Ok(AdaptiveAllreduce::PlainRing(f)) => {
                        &&& algo is PlainRing
                        &&& f.wf()
                        &&& ring_shape && connected
                        &&& f@.rank == self.inner_view().rank_view() && f@.size == n
                        &&& if n <= 1 {
                            f@.finished()
                        } else {
                            &&& f@.round == 0
                            &&& f@.chunk == buf@.len() as int / n
                            &&& f@.buffer_len() == buf@.len()
                        }
                    },
                    Ok(AdaptiveAllreduce::PipelinedRing(f)) => {
                        &&& algo matches AllreduceAlgo::PipelinedRing { config }
                        &&& f.wf()
                        &&& ring_shape && connected
                        &&& f@.rank == self.inner_view().rank_view() && f@.size == n
                        &&& if n <= 1 {
                            f@.finished()
                        } else {
                            &&& pipelined_ring::config_error(config) is None
                            &&& (buf@.len() as int / n) % (config.micro_chunks as int) == 0
                            &&& !f@.gathering
                            &&& f@.launched == 0
                            &&& f@.steps == Seq::new(
                                config.micro_chunks as nat,
                                |i: int| 0usize,
                            )
                            &&& f@.chunk == buf@.len() as int / n
                            &&& f@.buffer_len() == buf@.len()
                            &&& f@.micro == (buf@.len() as int / n) / (config.micro_chunks as int)
                            &&& f@.max_in_flight == config.max_in_flight
                            &&& f.proto_view() == config.proto
                        }
                    },
                    Ok(AdaptiveAllreduce::RecursiveDoubling(f)) => {
                        &&& algo is RecursiveDoubling
                        &&& f matches RecursiveDoublingFuture::Doubling(d)
                        &&& d.wf()
                        &&& d@ == recursive_doubling::DoublingView {
                            rank: self.inner_view().rank_view() as int,
                            size: n,
                            round: 0,
                        }
                    },
                    Err(CollectiveError::BadShape) => match algo {
                        AllreduceAlgo::PlainRing => !ring_shape,
                        AllreduceAlgo::PipelinedRing { config } => {
                            &&& pipelined_ring::config_error(config) is None
                            &&& n > 1
                            &&& !ring_shape || (buf@.len() as int / n) % (
                            config.micro_chunks as int) != 0
                        },
                        AllreduceAlgo::RecursiveDoubling => false,
                    },
                    Err(CollectiveError::Protocol(m)) => match algo {
                        AllreduceAlgo::PlainRing => ring_shape && !connected && m@
                            == "no endpoint to next rank"@,
                        AllreduceAlgo::PipelinedRing { config } => {
                            match pipelined_ring::config_error(config) {
                                Some(e) => n > 1 && m@ == e,
                                None => {
                                    &&& ring_shape && !connected
                                    &&& (buf@.len() as int / n) % (config.micro_chunks as int)
                                        == 0
                                    &&& m@ == "no endpoint to next rank"@
                                },
                            }
                        },
                        AllreduceAlgo::RecursiveDoubling => false,
                    },
                    Err(_) => false,
                }
            }),
    {
        broadcast use vstd::layout::group_layout_axioms;

        let bytes: usize = core::mem::size_of_val(buf);
        match self.policy.choose_allreduce(bytes, self.inner.size()) {
            AllreduceAlgo::PlainRing => match ring_allreduce_typed(&self.inner, buf) {
                Ok(f) => Ok(AdaptiveAllreduce::PlainRing(f)),
                Err(e) => Err(e),
            },
            AllreduceAlgo::PipelinedRing { config } => match pipelined_ring_allreduce_typed(
                &self.inner,
                buf,
                config,
            ) {
                Ok(f) => Ok(AdaptiveAllreduce::PipelinedRing(f)),
                Err(e) => Err(e),
            },
            AllreduceAlgo::RecursiveDoubling => match recursive_doubling_typed(&self.inner, buf) {
                Ok(f) => Ok(AdaptiveAllreduce::RecursiveDoubling(f)),
                Err(e) => Err(e),
            },
        }
    }
}

impl<E, W, R> Communicator for AdaptiveCommunicator<E, W, R> {
    open spec fn rank_view(&self) -> usize {
        self.inner_view().rank_view()
    }

    open spec fn size_view(&self) -> usize {
        self.inner_view().size_view()
    }

    fn rank(&self) -> usize {
        self.inner.rank()
    }

    fn size(&self) -> usize {
        self.inner.size()
    }
}

/// The policy's choice: recursive doubling for every message below the small
/// threshold in every group of `2^e` ranks, `e` at least 1, and only there; of
/// the rest the pipelined ring, with the policy's own parameters, from the large
/// threshold on, and the plain ring below it.
pub proof fn policy_chooses_by_size(policy: AdaptivePolicy, msg_bytes: int, n: int)
    ensures
        ({
            let algo = policy.choice(msg_bytes, n);
            let doubles = msg_bytes < policy.small_threshold && exists|e: nat|
                0 < e && #[trigger] power2::pow2(e) == n;
            &&& doubles == (algo is RecursiveDoubling)
            &&& !doubles && msg_bytes >= policy.large_threshold ==> algo
                == (AllreduceAlgo::PipelinedRing { config: policy.pipeline_config })
            &&& !doubles && msg_bytes < policy.large_threshold ==> algo
                == AllreduceAlgo::PlainRing
        }),
{
    power2::lemma2_to64();
    if exists|e: nat| 0 < e && #[trigger] power2::pow2(e) == n {
        let e = choose|e: nat| 0 < e && #[trigger] power2::pow2(e) == n;
        power2::lemma_pow2(e);
        power2::is_pow2_equiv(n);
        power2::lemma_pow2_strictly_increases(0, e);
    }
    if power2::is_pow2(n) && n >= 2 {
        power2::is_pow2_equiv(n);
        let e = choose|i: nat| vstd::arithmetic::power::pow(2, i) == n;
        power2::lemma_pow2(e);
        assert(power2::pow2(e) == n);
        assert(0 < e);
    }
}

/// A larger message never takes an algorithm for smaller ones: where recursive
/// doubling is left at one size it is left at every larger one, and where the
/// pipelined ring is taken it is kept.
pub proof fn policy_is_monotone(policy: AdaptivePolicy, small: int, large: int, n: int)
    requires
        small <= large,
    ensures
        policy.choice(large, n) is RecursiveDoubling ==> policy.choice(
            small,
            n,
        ) is RecursiveDoubling,
        policy.choice(small, n) is PipelinedRing ==> policy.choice(large, n) is PipelinedRing,
{
}

/// Whichever algorithm the policy chooses, an associative and commutative
/// operator gets the same result from it: the reduction over all ranks.
pub proof fn algorithms_agree<T: Copy, O: Op<T>>(
    inputs: Seq<Seq<T>>,
    chunk: int,
    chains: int,
    micro: int,
    schedule: Seq<int>,
    e: nat,
    rank: int,
)
    requires
        1 < inputs.len(),
        inputs.len() == power2::pow2(e),
        0 < chains,
        0 <= micro,
        chunk == chains * micro,
        model::same_shape(inputs, inputs.len() * chunk),
        0 <= rank < inputs.len(),
        forall|i: int| 0 <= i < schedule.len() ==> 0 <= #[trigger] schedule[i] < chains,
        forall|m: int|
            0 <= m < chains ==> #[trigger] pipelined_ring::turns(schedule, m) == ring::rounds(
                inputs.len() as int,
            ),
        op::is_associative::<T, O>(),
        op::is_commutative::<T, O>(),
    ensures
        ({
            let all = model::reduced_over_ranks::<T, O>(inputs);
            let rounds = ring::rounds(inputs.len() as int) as nat;
            &&& ring::ring_state::<T, O>(inputs, chunk, rank, rounds) == all
            &&& pipelined_ring::pipeline_state::<T, O>(inputs, chunk, micro, rank, schedule)
                == all
            &&& recursive_doubling::doubling_state::<T, O>(inputs, rank, e) == all
        }),
{
    assert(0 <= chunk) by (nonlinear_arith)
        requires
            chunk == chains * micro,
            0 < chains,
            0 <= micro,
    ;
    ring::ring_allreduce_reduces::<T, O>(inputs, chunk, rank);
    pipelined_ring::pipelined_ring_equals_ring::<T, O>(
        inputs,
        chunk,
        chains,
        micro,
        rank,
        schedule,
    );
    recursive_doubling::recursive_doubling_reduces::<T, O>(
        inputs,
        inputs.len() * chunk,
        e,
        rank,
    );
}


/// An adaptive communicator is the same peer of the same group as the one
/// underneath.
pub proof fn adaptive_peer_is_its_inner<E, W, R>(comm: &AdaptiveCommunicator<E, W, R>)
    ensures
        comm.rank_view() == comm.inner_view().rank_view(),
        comm.size_view() == comm.inner_view().size_view(),
{
}

} // verus!
