//! Pipelined ring allreduce.
//!
//! Each ring chunk is split into `micro_chunks` micro-chunks. Every micro-chunk
//! is a chain of its own that runs through the rounds of the ring in order; up
//! to `max_in_flight` chains run at a time. All chains finish the
//! reduce-scatter phase before the allgather phase starts.

use crate::collective::communicator::Communicator;
use crate::collective::error::CollectiveError;
use crate::collective::op;
use crate::collective::op::Op;
use crate::collective::ucx_backend::am_router::{AmHeader, RecvKey};
use crate::collective::ucx_backend::communicator::UcxCommunicator;
use crate::collective::ucx_backend::model;
use crate::collective::ucx_backend::model::low16;
use crate::collective::ucx_backend::ring;
use crate::collective::ucx_backend::util::{reduce_piece, write_piece};
use vstd::prelude::*;

verus! {

/// Protocol hint for active messages.
#[derive(Copy, Clone, Debug, PartialEq, Eq, Structural)]
pub enum AmProto {
    /// Send the payload at once.
    Eager,
    /// Announce the payload and let the receiver fetch it.
    Rndv,
}

/// Configuration for pipelined ring allreduce.
#[derive(Copy, Clone, Debug)]
pub struct PipelineConfig {
    /// Number of micro-chunks per ring step. Must divide the chunk length and
    /// be in `1..=255`: the header carries the micro-chunk in one byte.
    pub micro_chunks: usize,
    /// How many chains may run at a time.
    pub max_in_flight: usize,
    /// Protocol hint; `None` leaves the choice to the fabric.
    pub proto: Option<AmProto>,
}

impl Default for PipelineConfig {
    fn default() -> (config: PipelineConfig)
        ensures
            config.micro_chunks == 4,
            config.max_in_flight == 8,
            config.proto is None,
    {
        PipelineConfig { micro_chunks: 4, max_in_flight: 8, proto: None }
    }
}

/// How many chains have done all `full` steps of the phase.
pub open spec fn chains_done(steps: Seq<usize>, full: int) -> nat
    decreases steps.len(),
{
    if steps.len() == 0 {
        0
    } else {
        chains_done(steps.drop_last(), full) + if steps.last() == full {
            1nat
        } else {
            0nat
        }
    }
}

/// One chain's step changes the count by that chain alone.
proof fn lemma_chains_done_update(steps: Seq<usize>, i: int, v: usize, full: int)
    requires
        0 <= i < steps.len(),
    ensures
        chains_done(steps.update(i, v), full) == chains_done(steps, full) - (if steps[i] == full {
            1int
        } else {
            0int
        }) + (if v == full {
            1int
        } else {
            0int
        }),
    decreases steps.len(),
{
    let updated = steps.update(i, v);
    if i == steps.len() - 1 {
        assert(updated.drop_last() =~= steps.drop_last());
    } else {
        assert(updated.drop_last() =~= steps.drop_last().update(i, v));
        lemma_chains_done_update(steps.drop_last(), i, v, full);
    }
}

/// Some chain among the first `launched` is not done, as long as fewer than
/// that many are and no other chain is.
proof fn lemma_chain_left(steps: Seq<usize>, launched: int, full: int)
    requires
        0 <= launched <= steps.len(),
        chains_done(steps, full) < launched,
    ensures
        exists|m: int| 0 <= m < launched && #[trigger] steps[m] != full,
    decreases steps.len(),
{
    let last = steps.len() - 1;
    if launched == steps.len() {
        if steps[last] == full {
            lemma_chain_left(steps.drop_last(), last, full);
            let m = choose|m: int| 0 <= m < last && #[trigger] steps.drop_last()[m] != full;
            assert(steps[m] != full);
        }
    } else {
        lemma_chain_left(steps.drop_last(), launched, full);
        let m = choose|m: int| 0 <= m < launched && #[trigger] steps.drop_last()[m] != full;
        assert(steps[m] != full);
    }
}

/// At most all chains are done; if all are counted, each one is done.
proof fn lemma_chains_done_all(steps: Seq<usize>, full: int)
    ensures
        chains_done(steps, full) <= steps.len(),
        chains_done(steps, full) == steps.len() ==> forall|m: int|
            0 <= m < steps.len() ==> #[trigger] steps[m] == full,
        (forall|m: int| 0 <= m < steps.len() ==> #[trigger] steps[m] == full) ==> chains_done(
            steps,
            full,
        ) == steps.len(),
    decreases steps.len(),
{
    if steps.len() > 0 {
        let front = steps.drop_last();
        lemma_chains_done_all(front, full);
        if chains_done(steps, full) == steps.len() {
            assert forall|m: int| 0 <= m < steps.len() implies #[trigger] steps[m] == full by {
                if m < steps.len() - 1 {
                    assert(front[m] == full);
                }
            }
        }
        if forall|m: int| 0 <= m < steps.len() ==> #[trigger] steps[m] == full {
            assert(forall|m: int| 0 <= m < front.len() ==> #[trigger] front[m] == full);
        }
    }
}

/// Before its first step no chain is done.
proof fn lemma_chains_done_none(steps: Seq<usize>, full: int)
    requires
        full > 0,
        forall|m: int| 0 <= m < steps.len() ==> #[trigger] steps[m] == 0,
    ensures
        chains_done(steps, full) == 0,
    decreases steps.len(),
{
    if steps.len() > 0 {
        assert(forall|m: int|
            0 <= m < steps.drop_last().len() ==> #[trigger] steps.drop_last()[m] == 0);
        lemma_chains_done_none(steps.drop_last(), full);
    }
}

/// Where a pipelined ring allreduce stands.
#[verifier::ext_equal]
pub struct PipelineView {
    /// This peer.
    pub rank: int,
    /// The number of peers.
    pub size: int,
    /// Elements per ring chunk.
    pub chunk: int,
    /// Elements per micro-chunk.
    pub micro: int,
    /// How many chains may run at a time.
    pub max_in_flight: int,
    /// Whether the reduce-scatter phase is over.
    pub gathering: bool,
    /// Chains launched in this phase.
    pub launched: int,
    /// Steps that each chain has done in this phase.
    pub steps: Seq<usize>,
}

impl PipelineView {
    /// The number of chains.
    pub open spec fn chains(self) -> int {
        self.steps.len() as int
    }

    /// Ring rounds that chain `m` has done.
    pub open spec fn round(self, m: int) -> int {
        if self.gathering {
            self.size - 1 + self.steps[m]
        } else {
            self.steps[m] as int
        }
    }

    /// Chains launched and not done.
    pub open spec fn in_flight(self) -> int {
        self.launched - chains_done(self.steps, self.size - 1)
    }

    /// Chain `m` may exchange messages.
    pub open spec fn running(self, m: int) -> bool {
        0 <= m < self.launched && self.steps[m] < self.size - 1
    }

    /// Nothing is left to do.
    pub open spec fn finished(self) -> bool {
        self.size <= 1 || (self.gathering && chains_done(self.steps, self.size - 1)
            == self.chains())
    }

    /// The buffer length that the operation was started on.
    pub open spec fn buffer_len(self) -> int {
        self.size * self.chunk
    }

    /// The next chain launched.
    pub open spec fn after_launch(self) -> PipelineView {
        PipelineView { launched: self.launched + 1, ..self }
    }

    /// Chain `m` one step further; with the last chain of the reduce-scatter
    /// phase done, the allgather phase begins.
    pub open spec fn after_step(self, m: int) -> PipelineView {
        let steps = self.steps.update(m, (self.steps[m] + 1) as usize);
        if !self.gathering && chains_done(steps, self.size - 1) == self.chains() {
            PipelineView {
                gathering: true,
                launched: 0,
                steps: Seq::new(steps.len(), |i: int| 0usize),
                ..self
            }
        } else {
            PipelineView { steps, ..self }
        }
    }
}

/// The start of micro-chunk `m` in chunk `c`.
pub open spec fn slot_off(c: int, chunk: int, m: int, micro: int) -> int {
    c * chunk + m * micro
}

/// The header of what `src` sends for chain `m` in round `k`.
pub open spec fn chain_header(src: int, n: int, k: int, m: int) -> AmHeader {
    AmHeader {
        src: (src % 0x1_0000) as u16,
        step: (ring::step_of(n, k) % 0x1_0000) as u16,
        phase: if ring::reducing(n, k) {
            0
        } else {
            1
        },
        micro_chunk: m as u8,
    }
}

/// The buffer of `rank` after round `k` of chain `m`, given what arrived.
pub open spec fn after_chain_round<T: Copy, O: Op<T>>(
    buf: Seq<T>,
    rank: int,
    n: int,
    chunk: int,
    micro: int,
    m: int,
    k: int,
    received: Seq<T>,
) -> Seq<T> {
    let off = slot_off(ring::recv_chunk(rank, n, k), chunk, m, micro);
    model::overwritten(
        buf,
        off,
        if ring::reducing(n, k) {
            op::reduced::<T, O>(model::piece(buf, off, micro), received)
        } else {
            received
        },
    )
}

/// One chain step's messages: send `len` elements from `send_off` to `send_to`
/// under `header`, receive as many from the previous rank under `recv_key`;
/// they belong at `recv_off`.
#[derive(Copy, Clone, Debug)]
pub struct ChainExchange {
    pub send_to: usize,
    pub send_off: usize,
    pub header: AmHeader,
    pub recv_off: usize,
    pub recv_key: RecvKey,
    pub len: usize,
}

impl ChainExchange {
    /// These are the messages of the current round of chain `m`.
    pub open spec fn is_round_of(self, pipe: PipelineView, m: int) -> bool {
        let n = pipe.size;
        let k = pipe.round(m);
        &&& self.send_to == ring::next_rank(pipe.rank, n)
        &&& self.len == pipe.micro
        &&& self.send_off == slot_off(
            ring::send_chunk(pipe.rank, n, k),
            pipe.chunk,
            m,
            pipe.micro,
        )
        &&& self.recv_off == slot_off(
            ring::recv_chunk(pipe.rank, n, k),
            pipe.chunk,
            m,
            pipe.micro,
        )
        &&& self.send_off + self.len <= pipe.buffer_len()
        &&& self.recv_off + self.len <= pipe.buffer_len()
        &&& self.header == chain_header(pipe.rank, n, k, m)
        &&& self.recv_key == <RecvKey as vstd::std_specs::convert::FromSpec<
            AmHeader,
        >>::from_spec(chain_header(ring::prev_rank(pipe.rank, n), n, k, m))
    }
}

/// A pipelined ring allreduce in progress.
pub struct PipelinedRingAllreduceFuture {
    rank: usize,
    size: usize,
    chunk: usize,
    micro: usize,
    config: PipelineConfig,
    gathering: bool,
    launched: usize,
    finished: usize,
    steps: Vec<usize>,
}

impl View for PipelinedRingAllreduceFuture {
    type V = PipelineView;

    closed spec fn view(&self) -> PipelineView {
        PipelineView {
            rank: self.rank as int,
            size: self.size as int,
            chunk: self.chunk as int,
            micro: self.micro as int,
            max_in_flight: self.config.max_in_flight as int,
            gathering: self.gathering,
            launched: self.launched as int,
            steps: self.steps@,
        }
    }
}

/// `count` zeros.
fn zeros(count: usize) -> (v: Vec<usize>)
    ensures
        v@ == Seq::new(count as nat, |i: int| 0usize),
{
    let mut v: Vec<usize> = Vec::new();
    let mut i: usize = 0;
    while i < count
        invariant
            i <= count,
            v@ == Seq::new(i as nat, |j: int| 0usize),
        decreases count - i,
    {
        v.push(0);
        i += 1;
    }
    v
}

/// Micro-chunk `m` of chunk `c` lies inside the buffer.
proof fn lemma_slot_inside(c: int, n: int, chunk: int, m: int, chains: int, micro: int)
    requires
        0 <= c < n,
        0 <= m < chains,
        0 <= micro,
        chunk == chains * micro,
    ensures
        0 <= c * chunk,
        0 <= m * micro,
        c * chunk + chunk <= n * chunk,
        slot_off(c, chunk, m, micro) + micro <= n * chunk,
{
    model::lemma_block_inside(m, chains, micro);
    model::lemma_block_inside(c, n, chunk);
}

/// The configuration is usable.
pub open spec fn config_error(config: PipelineConfig) -> Option<Seq<char>> {
    if config.micro_chunks == 0 || config.max_in_flight == 0 {
        Some("pipelined ring: micro_chunks and max_in_flight must be > 0"@)
    } else if config.micro_chunks > 255 {
        Some("pipelined ring: micro_chunks > 255 (does not fit in AmHeader::micro_chunk)"@)
    } else {
        None
    }
}

/// Start a pipelined ring allreduce of `buf` among the peers of `comm`.
///
/// A group of one has nothing to do. Otherwise the configuration must be
/// usable, the buffer must divide into one chunk per peer and each chunk into
/// the micro-chunks, and the next rank must be connected; the first of these
/// that fails is reported.
pub fn pipelined_ring_allreduce_typed<T, E, W, R>(
    comm: &UcxCommunicator<E, W, R>,
    buf: &[T],
    config: PipelineConfig,
) -> (r: Result<PipelinedRingAllreduceFuture, CollectiveError>)
    requires
        comm.rank_view() + comm.size_view() < usize::MAX,
    ensures
        ({
            let n = comm.size_view() as int;
            let len = buf@.len() as int;
            let next = ring::next_rank(comm.rank_view() as int, n);
            let bad_shape = len % n != 0 || (len / n) % (config.micro_chunks as int) != 0;
            match r {
                Ok(pipe) => {
                    &&& pipe.wf()
                    &&& pipe@.rank == comm.rank_view()
                    &&& pipe@.size == n
                    &&& if n <= 1 {
                        pipe@.finished()
                    } else {
                        &&& config_error(config) is None
                        &&& !bad_shape
                        &&& comm.connected_to(next)
                        &&& pipe@.chunk == len / n
                        &&& pipe@.buffer_len() == len
                        &&& pipe@.micro == (len / n) / (config.micro_chunks as int)
                        &&& pipe@.max_in_flight == config.max_in_flight
                        &&& !pipe@.gathering
                        &&& pipe@.launched == 0
                        &&& pipe@.steps == Seq::new(config.micro_chunks as nat, |i: int| 0usize)
                        &&& pipe.proto_view() == config.proto
                    }
                },
                Err(CollectiveError::BadShape) => {
                    n > 1 && config_error(config) is None && bad_shape
                },
                Err(CollectiveError::Protocol(msg)) => {
                    &&& n > 1
                    &&& match config_error(config) {
                        Some(e) => msg@ == e,
                        None => !bad_shape && !comm.connected_to(next) && msg@
                            == "no endpoint to next rank"@,
                    }
                },
                Err(_) => false,
            }
        }),
{
    let n: usize = comm.size();
    let rank: usize = comm.rank();
    if n <= 1 {
        return Ok(
            PipelinedRingAllreduceFuture {
                rank,
                size: n,
                chunk: 0,
                micro: 0,
                config,
                gathering: true,
                launched: 0,
                finished: 0,
                steps: Vec::new(),
            },
        );
    }
    if config.micro_chunks == 0 || config.max_in_flight == 0 {
        return Err(
            CollectiveError::Protocol("pipelined ring: micro_chunks and max_in_flight must be > 0"),
        );
    }
    if config.micro_chunks > 255 {
        return Err(
            CollectiveError::Protocol(
                "pipelined ring: micro_chunks > 255 (does not fit in AmHeader::micro_chunk)",
            ),
        );
    }
    if buf.len() % n != 0 {
        return Err(CollectiveError::BadShape);
    }
    let chunk: usize = buf.len() / n;
    if chunk % config.micro_chunks != 0 {
        return Err(CollectiveError::BadShape);
    }
    let micro: usize = chunk / config.micro_chunks;
    proof {
        let mc = config.micro_chunks as int;
        vstd::arithmetic::div_mod::lemma_fundamental_div_mod(buf@.len() as int, n as int);
        vstd::arithmetic::div_mod::lemma_fundamental_div_mod(chunk as int, mc);
    }
    let next: usize = (rank + 1) % n;
    if comm.endpoint(next).is_none() {
        return Err(CollectiveError::Protocol("no endpoint to next rank"));
    }
    let steps: Vec<usize> = zeros(config.micro_chunks);
    proof {
        lemma_chains_done_none(steps@, n - 1);
    }
    Ok(
        PipelinedRingAllreduceFuture {
            rank,
            size: n,
            chunk,
            micro,
            config,
            gathering: false,
            launched: 0,
            finished: 0,
            steps,
        },
    )
}

impl PipelinedRingAllreduceFuture {
    /// The state is one that an allreduce can be in.
    pub closed spec fn wf(&self) -> bool {
        &&& self.rank + self.size < usize::MAX
        &&& self.size > 1 ==> {
            &&& self.steps@.len() == self.config.micro_chunks
            &&& 0 < self.config.micro_chunks <= 255
            &&& 0 < self.config.max_in_flight
            &&& self.size * self.chunk <= usize::MAX
            &&& self.chunk == self.config.micro_chunks * self.micro
            &&& self.finished == chains_done(self.steps@, self.size - 1)
            &&& self.finished <= self.launched <= self.config.micro_chunks
            &&& self.launched - self.finished <= self.config.max_in_flight
            &&& forall|m: int|
                0 <= m < self.steps@.len() ==> #[trigger] self.steps@[m] <= self.size - 1
            &&& forall|m: int|
                self.launched <= m < self.steps@.len() ==> #[trigger] self.steps@[m] == 0
            &&& !self.gathering ==> self.finished < self.config.micro_chunks
        }
    }

    /// The protocol hint that the operation was started with.
    pub closed spec fn proto_view(&self) -> Option<AmProto> {
        self.config.proto
    }

    /// The protocol hint for the sends.
    pub fn proto(&self) -> (r: Option<AmProto>)
        ensures
            r == self.proto_view(),
    {
        self.config.proto
    }

    /// Whether the buffer holds the reduced values.
    pub fn is_finished(&self) -> (r: bool)
        requires
            self.wf(),
        ensures
            r == self@.finished(),
    {
        self.size <= 1 || (self.gathering && self.finished == self.config.micro_chunks)
    }

    /// Launch the next chain of the phase, unless all are launched or
    /// `max_in_flight` are running.
    pub fn launch(&mut self) -> (r: Option<usize>)
        requires
            old(self).wf(),
        ensures
            final(self).wf(),
            final(self).proto_view() == old(self).proto_view(),
            old(self)@.size > 1 ==> final(self)@.in_flight() <= final(self)@.max_in_flight,
            match r {
                Some(m) => {
                    &&& old(self)@.size > 1
                    &&& m == old(self)@.launched
                    &&& m < old(self)@.chains()
                    &&& old(self)@.in_flight() < old(self)@.max_in_flight
                    &&& final(self)@ == old(self)@.after_launch()
                    &&& final(self)@.running(m as int)
                },
                None => {
                    &&& *final(self) == *old(self)
                    &&& old(self)@.size <= 1 || old(self)@.launched == old(self)@.chains()
                        || old(self)@.in_flight() == old(self)@.max_in_flight
                },
            },
    {
        if self.size <= 1 || self.launched >= self.config.micro_chunks || self.launched
            - self.finished >= self.config.max_in_flight {
            return None;
        }
        let m: usize = self.launched;
        self.launched = m + 1;
        Some(m)
    }

    /// The messages of the next step of chain `m`, or `None` once the chain has
    /// done all steps of the phase.
    pub fn chain_exchange(&self, m: usize) -> (r: Option<ChainExchange>)
        requires
            self.wf(),
            self@.size > 1,
            m < self@.launched,
        ensures
            r is Some <==> self@.running(m as int),
            r matches Some(x) ==> x.is_round_of(self@, m as int),
    {
        let n: usize = self.size;
        let rank: usize = self.rank;
        let step: usize = self.steps[m];
        if step >= n - 1 {
            return None;
        }
        let (send_idx, recv_idx, phase): (usize, usize, u8) = if self.gathering {
            ((rank + n - step + 1) % n, (rank + n - step) % n, 1u8)
        } else {
            ((rank + n - step) % n, (rank + n - step - 1) % n, 0u8)
        };
        proof {
            let chains = self.config.micro_chunks as int;
            lemma_slot_inside(
                send_idx as int,
                n as int,
                self.chunk as int,
                m as int,
                chains,
                self.micro as int,
            );
            lemma_slot_inside(
                recv_idx as int,
                n as int,
                self.chunk as int,
                m as int,
                chains,
                self.micro as int,
            );
        }
        let prev: usize = (rank + n - 1) % n;
        let header = AmHeader {
            src: low16(rank),
            step: low16(step),
            phase,
            micro_chunk: m as u8,
        };
        let expected = AmHeader {
            src: low16(prev),
            step: low16(step),
            phase,
            micro_chunk: m as u8,
        };
        Some(
            ChainExchange {
                send_to: (rank + 1) % n,
                send_off: send_idx * self.chunk + m * self.micro,
                header,
                recv_off: recv_idx * self.chunk + m * self.micro,
                recv_key: RecvKey::from(expected),
                len: self.micro,
            },
        )
    }

    /// Apply what arrived for the current step of chain `m` to `buf`.
    pub fn complete<T: Copy, O: Op<T>>(&mut self, m: usize, buf: &mut [T], received: &[T])
        requires
            old(self).wf(),
            old(self)@.size > 1,
            old(self)@.running(m as int),
            old(buf)@.len() == old(self)@.buffer_len(),
            received@.len() == old(self)@.micro,
        ensures
            final(self).wf(),
            final(self).proto_view() == old(self).proto_view(),
            final(self)@ == old(self)@.after_step(m as int),
            final(buf)@ == after_chain_round::<T, O>(
                old(buf)@,
                old(self)@.rank,
                old(self)@.size,
                old(self)@.chunk,
                old(self)@.micro,
                m as int,
                old(self)@.round(m as int),
                received@,
            ),
    {
        let n: usize = self.size;
        let rank: usize = self.rank;
        let step: usize = self.steps[m];
        let recv_idx: usize = if self.gathering {
            (rank + n - step) % n
        } else {
            (rank + n - step - 1) % n
        };
        proof {
            lemma_slot_inside(
                recv_idx as int,
                n as int,
                self.chunk as int,
                m as int,
                self.config.micro_chunks as int,
                self.micro as int,
            );
            lemma_chains_done_update(self.steps@, m as int, (step + 1) as usize, n - 1);
        }
        let off: usize = recv_idx * self.chunk + m * self.micro;
        if self.gathering {
            write_piece(buf, off, received);
        } else {
            reduce_piece::<T, O>(buf, off, received);
        }
        self.steps[m] = step + 1;
        proof {
            lemma_chains_done_all(self.steps@, n - 1);
            lemma_unlaunched_not_done(self.steps@, self.launched as int, n - 1);
        }
        if step + 1 == n - 1 {
            self.finished = self.finished + 1;
            if !self.gathering && self.finished == self.config.micro_chunks {
                self.gathering = true;
                self.launched = 0;
                self.finished = 0;
                self.steps = zeros(self.config.micro_chunks);
                proof {
                    lemma_chains_done_none(self.steps@, n - 1);
                }
            }
        }
    }
}

/// Only launched chains can be done.
proof fn lemma_unlaunched_not_done(steps: Seq<usize>, launched: int, full: int)
    requires
        0 <= launched <= steps.len(),
        full > 0,
        forall|m: int| launched <= m < steps.len() ==> #[trigger] steps[m] == 0,
    ensures
        chains_done(steps, full) <= launched,
    decreases steps.len(),
{
    if launched == steps.len() {
        lemma_chains_done_all(steps, full);
    } else {
        let front = steps.drop_last();
        assert(forall|m: int| launched <= m < front.len() ==> #[trigger] front[m] == steps[m]);
        lemma_unlaunched_not_done(front, launched, full);
    }
}

/// As long as the allreduce is not finished, a chain can be launched or one is
/// running: the pipeline never stalls by itself.
pub proof fn pipeline_never_stalls(pipe: PipelineView)
    requires
        pipe.size > 1,
        !pipe.finished(),
        0 < pipe.max_in_flight,
        0 <= pipe.launched <= pipe.chains(),
        !pipe.gathering ==> chains_done(pipe.steps, pipe.size - 1) < pipe.chains(),
        forall|m: int| 0 <= m < pipe.chains() ==> #[trigger] pipe.steps[m] <= pipe.size - 1,
    ensures
        ({
            ||| pipe.launched < pipe.chains() && pipe.in_flight() < pipe.max_in_flight
            ||| exists|m: int| #[trigger] pipe.running(m)
        }),
{
    lemma_chains_done_all(pipe.steps, pipe.size - 1);
    if chains_done(pipe.steps, pipe.size - 1) < pipe.launched {
        lemma_chain_left(pipe.steps, pipe.launched, pipe.size - 1);
        let m = choose|m: int| 0 <= m < pipe.launched && #[trigger] pipe.steps[m] != pipe.size - 1;
        assert(pipe.running(m));
    }
}

/// The chain that position `p` of a buffer belongs to.
pub open spec fn chain_of(p: int, chunk: int, micro: int) -> int {
    (p % chunk) / micro
}

/// A position lies in micro-chunk `m` of chunk `c` exactly when `c` is its
/// chunk and `m` its chain.
proof fn lemma_slot_of(p: int, c: int, m: int, chunk: int, chains: int, micro: int)
    requires
        0 < micro,
        0 <= m < chains,
        chunk == chains * micro,
    ensures
        0 < chunk,
        (slot_off(c, chunk, m, micro) <= p < slot_off(c, chunk, m, micro) + micro) <==> (p / chunk
            == c && chain_of(p, chunk, micro) == m),
{
    model::lemma_block_inside(m, chains, micro);
    assert(0 < chunk) by (nonlinear_arith)
        requires
            chunk == chains * micro,
            0 < micro,
            0 < chains,
    ;
    model::lemma_block_of(p, c, chunk);
    model::lemma_block_of(p % chunk, m, micro);
    vstd::arithmetic::div_mod::lemma_fundamental_div_mod(p, chunk);
    assert(chunk * c == c * chunk) by (nonlinear_arith);
}

/// The buffer of `rank` after chain `m` alone has done `k` rounds: what the
/// predecessor sends is the micro-chunk that it held after as many rounds.
pub open spec fn chain_state<T: Copy, O: Op<T>>(
    inputs: Seq<Seq<T>>,
    chunk: int,
    micro: int,
    m: int,
    rank: int,
    k: nat,
) -> Seq<T>
    decreases k,
{
    let n = inputs.len() as int;
    if k == 0 {
        inputs[rank]
    } else {
        let j = (k - 1) as nat;
        let prev = ring::prev_rank(rank, n);
        let sent = model::piece(
            chain_state::<T, O>(inputs, chunk, micro, m, prev, j),
            slot_off(ring::send_chunk(prev, n, j as int), chunk, m, micro),
            micro,
        );
        after_chain_round::<T, O>(
            chain_state::<T, O>(inputs, chunk, micro, m, rank, j),
            rank,
            n,
            chunk,
            micro,
            m,
            j as int,
            sent,
        )
    }
}

/// What `src` sends for chain `m` in round `k`.
pub open spec fn chain_payload<T: Copy, O: Op<T>>(
    inputs: Seq<Seq<T>>,
    chunk: int,
    micro: int,
    m: int,
    src: int,
    k: nat,
) -> Seq<T> {
    model::piece(
        chain_state::<T, O>(inputs, chunk, micro, m, src, k),
        slot_off(ring::send_chunk(src, inputs.len() as int, k as int), chunk, m, micro),
        micro,
    )
}

/// How often chain `m` appears in `schedule`.
pub open spec fn turns(schedule: Seq<int>, m: int) -> nat
    decreases schedule.len(),
{
    if schedule.len() == 0 {
        0
    } else {
        turns(schedule.drop_last(), m) + if schedule.last() == m {
            1nat
        } else {
            0nat
        }
    }
}

/// The buffer of `rank` after its chains completed steps in the order of
/// `schedule`.
pub open spec fn pipeline_state<T: Copy, O: Op<T>>(
    inputs: Seq<Seq<T>>,
    chunk: int,
    micro: int,
    rank: int,
    schedule: Seq<int>,
) -> Seq<T>
    decreases schedule.len(),
{
    let n = inputs.len() as int;
    if schedule.len() == 0 {
        inputs[rank]
    } else {
        let before = schedule.drop_last();
        let m = schedule.last();
        let k = turns(before, m);
        after_chain_round::<T, O>(
            pipeline_state::<T, O>(inputs, chunk, micro, rank, before),
            rank,
            n,
            chunk,
            micro,
            m,
            k as int,
            chain_payload::<T, O>(inputs, chunk, micro, m, ring::prev_rank(rank, n), k),
        )
    }
}

/// A pipeline among these inputs: buffers of one chunk per rank, each chunk
/// cut into `chains` micro-chunks.
pub open spec fn pipeline_shape<T>(
    inputs: Seq<Seq<T>>,
    chunk: int,
    chains: int,
    micro: int,
) -> bool {
    &&& 1 < inputs.len()
    &&& 0 < chains
    &&& 0 < micro
    &&& chunk == chains * micro
    &&& model::same_shape(inputs, inputs.len() * chunk)
}

/// The positions of chain `m` follow the ring, round by round.
proof fn lemma_chain_state<T: Copy, O: Op<T>>(
    inputs: Seq<Seq<T>>,
    chunk: int,
    chains: int,
    micro: int,
    m: int,
    rank: int,
    k: nat,
)
    requires
        pipeline_shape(inputs, chunk, chains, micro),
        0 <= m < chains,
        0 <= rank < inputs.len(),
        k <= ring::rounds(inputs.len() as int),
    ensures
        chain_state::<T, O>(inputs, chunk, micro, m, rank, k).len() == inputs.len() * chunk,
        forall|p: int|
            0 <= p < inputs.len() * chunk && chain_of(p, chunk, micro) == m
                ==> #[trigger] chain_state::<T, O>(inputs, chunk, micro, m, rank, k)[p]
                == ring::value_after::<T, O>(inputs, p / chunk, rank, k as int, p),
    decreases k,
{
    let n = inputs.len() as int;
    assert(inputs[rank].len() == n * chunk);
    lemma_slot_of(0, 0, m, chunk, chains, micro);
    if k == 0 {
        assert forall|p: int| 0 <= p < n * chunk implies #[trigger] inputs[rank][p]
            == ring::value_after::<T, O>(inputs, p / chunk, rank, 0, p) by {
            model::lemma_block_index(p, n, chunk);
            ring::lemma_round_geometry(rank, p / chunk, n, 0);
            model::lemma_wrap(p / chunk + 0, n);
        }
    } else {
        let j = (k - 1) as nat;
        let prev = ring::prev_rank(rank, n);
        ring::lemma_round_geometry(rank, 0, n, j as int);
        lemma_chain_state::<T, O>(inputs, chunk, chains, micro, m, rank, j);
        lemma_chain_state::<T, O>(inputs, chunk, chains, micro, m, prev, j);
        let rc = ring::recv_chunk(rank, n, j as int);
        lemma_slot_inside(rc, n, chunk, m, chains, micro);
        assert forall|p: int|
            0 <= p < n * chunk && chain_of(p, chunk, micro)
                == m implies #[trigger] chain_state::<T, O>(inputs, chunk, micro, m, rank, k)[p]
            == ring::value_after::<T, O>(inputs, p / chunk, rank, k as int, p) by {
            model::lemma_block_index(p, n, chunk);
            lemma_slot_of(p, rc, m, chunk, chains, micro);
            ring::lemma_value_step::<T, O>(inputs, p / chunk, rank, j as int, p);
        }
    }
}

/// However the chains interleave, each position follows the ring by the turns
/// of its own chain.
proof fn lemma_pipeline_state<T: Copy, O: Op<T>>(
    inputs: Seq<Seq<T>>,
    chunk: int,
    chains: int,
    micro: int,
    rank: int,
    schedule: Seq<int>,
)
    requires
        pipeline_shape(inputs, chunk, chains, micro),
        0 <= rank < inputs.len(),
        forall|i: int| 0 <= i < schedule.len() ==> 0 <= #[trigger] schedule[i] < chains,
        forall|m: int|
            0 <= m < chains ==> #[trigger] turns(schedule, m) <= ring::rounds(
                inputs.len() as int,
            ),
    ensures
        pipeline_state::<T, O>(inputs, chunk, micro, rank, schedule).len() == inputs.len()
            * chunk,
        forall|p: int|
            0 <= p < inputs.len() * chunk ==> #[trigger] pipeline_state::<T, O>(
                inputs,
                chunk,
                micro,
                rank,
                schedule,
            )[p] == ring::value_after::<T, O>(
                inputs,
                p / chunk,
                rank,
                turns(schedule, chain_of(p, chunk, micro)) as int,
                p,
            ),
    decreases schedule.len(),
{
    let n = inputs.len() as int;
    assert(inputs[rank].len() == n * chunk);
    lemma_slot_of(0, 0, 0, chunk, chains, micro);
    if schedule.len() == 0 {
        assert forall|p: int| 0 <= p < n * chunk implies #[trigger] inputs[rank][p]
            == ring::value_after::<T, O>(inputs, p / chunk, rank, 0, p) by {
            model::lemma_block_index(p, n, chunk);
            ring::lemma_round_geometry(rank, p / chunk, n, 0);
            model::lemma_wrap(p / chunk + 0, n);
        }
    } else {
        let before = schedule.drop_last();
        let m = schedule.last();
        let k = turns(before, m);
        let prev = ring::prev_rank(rank, n);
        assert(schedule[schedule.len() - 1] == m);
        assert forall|i: int| 0 <= i < before.len() implies 0 <= #[trigger] before[i]
            < chains by {
            assert(before[i] == schedule[i]);
        }
        assert forall|q: int| 0 <= q < chains implies #[trigger] turns(before, q)
            <= ring::rounds(n) by {
            assert(turns(schedule, q) <= ring::rounds(n));
        }
        assert(turns(schedule, m) <= ring::rounds(n));
        lemma_pipeline_state::<T, O>(inputs, chunk, chains, micro, rank, before);
        ring::lemma_round_geometry(rank, 0, n, k as int);
        lemma_chain_state::<T, O>(inputs, chunk, chains, micro, m, prev, k);
        let rc = ring::recv_chunk(rank, n, k as int);
        lemma_slot_inside(rc, n, chunk, m, chains, micro);
        assert forall|p: int| 0 <= p < n * chunk implies #[trigger] pipeline_state::<T, O>(
            inputs,
            chunk,
            micro,
            rank,
            schedule,
        )[p] == ring::value_after::<T, O>(
            inputs,
            p / chunk,
            rank,
            turns(schedule, chain_of(p, chunk, micro)) as int,
            p,
        ) by {
            model::lemma_block_index(p, n, chunk);
            lemma_slot_of(p, rc, m, chunk, chains, micro);
            if chain_of(p, chunk, micro) == m {
                ring::lemma_value_step::<T, O>(inputs, p / chunk, rank, k as int, p);
            }
        }
    }
}

/// What a chain sends does not depend on how the other chains of its rank are
/// scheduled: it is `chain_payload` whatever schedule gave the chain its `k`
/// rounds.
pub proof fn chain_payload_independent_of_schedule<T: Copy, O: Op<T>>(
    inputs: Seq<Seq<T>>,
    chunk: int,
    chains: int,
    micro: int,
    m: int,
    rank: int,
    schedule: Seq<int>,
)
    requires
        pipeline_shape(inputs, chunk, chains, micro),
        0 <= m < chains,
        0 <= rank < inputs.len(),
        forall|i: int| 0 <= i < schedule.len() ==> 0 <= #[trigger] schedule[i] < chains,
        forall|q: int|
            0 <= q < chains ==> #[trigger] turns(schedule, q) <= ring::rounds(
                inputs.len() as int,
            ),
        turns(schedule, m) < ring::rounds(inputs.len() as int),
    ensures
        model::piece(
            pipeline_state::<T, O>(inputs, chunk, micro, rank, schedule),
            slot_off(
                ring::send_chunk(rank, inputs.len() as int, turns(schedule, m) as int),
                chunk,
                m,
                micro,
            ),
            micro,
        ) == chain_payload::<T, O>(inputs, chunk, micro, m, rank, turns(schedule, m)),
{
    let n = inputs.len() as int;
    let k = turns(schedule, m);
    lemma_pipeline_state::<T, O>(inputs, chunk, chains, micro, rank, schedule);
    lemma_chain_state::<T, O>(inputs, chunk, chains, micro, m, rank, k);
    let next = ring::next_rank(rank, n);
    model::lemma_wrap(rank + 1, n);
    model::lemma_wrap(next + n - 1, n);
    ring::lemma_round_geometry(next, 0, n, k as int);
    let sc = ring::send_chunk(rank, n, k as int);
    let off = slot_off(sc, chunk, m, micro);
    lemma_slot_inside(sc, n, chunk, m, chains, micro);
    let ours = pipeline_state::<T, O>(inputs, chunk, micro, rank, schedule);
    let alone = chain_state::<T, O>(inputs, chunk, micro, m, rank, k);
    assert forall|i: int| 0 <= i < micro implies #[trigger] model::piece(ours, off, micro)[i]
        == model::piece(alone, off, micro)[i] by {
        lemma_slot_of(off + i, sc, m, chunk, chains, micro);
        assert(ours[off + i] == alone[off + i]);
    }
    assert(model::piece(ours, off, micro) =~= model::piece(alone, off, micro));
}

/// A pipelined ring allreduce leaves every rank with what the plain ring
/// leaves, whatever the number of micro-chunks and whatever order its chains
/// complete their steps in.
pub proof fn pipelined_ring_equals_ring<T: Copy, O: Op<T>>(
    inputs: Seq<Seq<T>>,
    chunk: int,
    chains: int,
    micro: int,
    rank: int,
    schedule: Seq<int>,
)
    requires
        1 < inputs.len(),
        0 < chains,
        0 <= micro,
        chunk == chains * micro,
        model::same_shape(inputs, inputs.len() * chunk),
        0 <= rank < inputs.len(),
        forall|i: int| 0 <= i < schedule.len() ==> 0 <= #[trigger] schedule[i] < chains,
        forall|m: int|
            0 <= m < chains ==> #[trigger] turns(schedule, m) == ring::rounds(
                inputs.len() as int,
            ),
    ensures
        pipeline_state::<T, O>(inputs, chunk, micro, rank, schedule) == ring::ring_state::<T, O>(
            inputs,
            chunk,
            rank,
            ring::rounds(inputs.len() as int) as nat,
        ),
{
    let n = inputs.len() as int;
    ring::ring_allreduce_agrees::<T, O>(inputs, chunk, rank);
    assert(inputs[0].len() == n * chunk);
    let ours = pipeline_state::<T, O>(inputs, chunk, micro, rank, schedule);
    let result = ring::ring_result::<T, O>(inputs, chunk);
    if micro == 0 {
        assert(chains * 0 == 0) by (nonlinear_arith);
        assert(n * 0 == 0) by (nonlinear_arith);
        lemma_pipeline_empty::<T, O>(inputs, rank, schedule);
        assert(ours =~= result);
    } else {
        assert(0 < chunk) by (nonlinear_arith)
            requires
                chunk == chains * micro,
                0 < chains,
                0 < micro,
        ;
        lemma_pipeline_state::<T, O>(inputs, chunk, chains, micro, rank, schedule);
        assert forall|p: int| 0 <= p < n * chunk implies #[trigger] ours[p] == result[p] by {
            model::lemma_block_index(p, n, chunk);
            ring::lemma_round_geometry(rank, p / chunk, n, 0);
            model::lemma_block_index(p % chunk, chains, micro);
            assert(turns(schedule, chain_of(p, chunk, micro)) == ring::rounds(n));
        }
        assert(ours =~= result);
    }
}

/// Empty buffers stay empty.
proof fn lemma_pipeline_empty<T: Copy, O: Op<T>>(
    inputs: Seq<Seq<T>>,
    rank: int,
    schedule: Seq<int>,
)
    requires
        model::same_shape(inputs, 0),
        0 <= rank < inputs.len(),
    ensures
        pipeline_state::<T, O>(inputs, 0, 0, rank, schedule).len() == 0,
    decreases schedule.len(),
{
    if schedule.len() == 0 {
        assert(inputs[rank].len() == 0);
    } else {
        lemma_pipeline_empty::<T, O>(inputs, rank, schedule.drop_last());
    }
}

/// In a group of at most `2^16` ranks, no two messages that one rank sends in
/// one allreduce carry the same header.
pub proof fn chain_headers_differ(src: int, n: int, k1: int, m1: int, k2: int, m2: int)
    requires
        1 < n <= 0x1_0000,
        0 <= k1 < ring::rounds(n),
        0 <= k2 < ring::rounds(n),
        0 <= m1 <= 255,
        0 <= m2 <= 255,
        k1 != k2 || m1 != m2,
    ensures
        chain_header(src, n, k1, m1) != chain_header(src, n, k2, m2),
{
}


/// A configuration is usable exactly with 1 to 255 micro-chunks and at least
/// one chain at a time.
pub proof fn usable_config_fits_the_header(config: PipelineConfig)
    ensures
        config_error(config) is None <==> 1 <= config.micro_chunks <= 255 && 1
            <= config.max_in_flight,
        config.max_in_flight == 0 || config.micro_chunks == 0 ==> config_error(config) == Some(
            "pipelined ring: micro_chunks and max_in_flight must be > 0"@,
        ),
        config.max_in_flight > 0 && config.micro_chunks > 255 ==> config_error(config) == Some(
            "pipelined ring: micro_chunks > 255 (does not fit in AmHeader::micro_chunk)"@,
        ),
{
}

/// The chains that are done are those that have done every step.
pub proof fn done_chains_are_counted(steps: Seq<usize>, full: int)
    ensures
        chains_done(steps, full) == steps.filter(|s: usize| s == full).len(),
    decreases steps.len(),
{
    reveal(Seq::filter);
    if steps.len() > 0 {
        done_chains_are_counted(steps.drop_last(), full);
    }
}

/// Of the first `j` chains those that are not done are counted.
proof fn lemma_undone_counted(steps: Seq<usize>, full: int, j: nat)
    requires
        j <= steps.len(),
    ensures
        Seq::new(j, |m: int| m).filter(|m: int| steps[m] != full).len() == j - chains_done(
            steps.take(j as int),
            full,
        ),
    decreases j,
{
    reveal(Seq::filter);
    if j > 0 {
        let i = (j - 1) as nat;
        lemma_undone_counted(steps, full, i);
        assert(Seq::new(j, |m: int| m).drop_last() =~= Seq::new(i, |m: int| m));
        assert(steps.take(j as int).drop_last() =~= steps.take(i as int));
    }
}

/// Chains without a step are not counted as done.
proof fn lemma_done_among_launched(steps: Seq<usize>, launched: int, full: int)
    requires
        0 <= launched <= steps.len(),
        full > 0,
        forall|m: int| launched <= m < steps.len() ==> #[trigger] steps[m] == 0,
    ensures
        chains_done(steps, full) == chains_done(steps.take(launched), full),
    decreases steps.len(),
{
    if launched == steps.len() {
        assert(steps.take(launched) =~= steps);
    } else {
        let front = steps.drop_last();
        assert(forall|m: int| launched <= m < front.len() ==> #[trigger] front[m] == steps[m]);
        assert(front.take(launched) =~= steps.take(launched));
        lemma_done_among_launched(front, launched, full);
    }
}

/// The chains in flight are those that may exchange messages: launched, with
/// steps of the phase left.
pub proof fn in_flight_chains_are_running(pipe: PipelineView)
    requires
        pipe.size > 1,
        0 <= pipe.launched <= pipe.chains(),
        forall|m: int| 0 <= m < pipe.chains() ==> #[trigger] pipe.steps[m] <= pipe.size - 1,
        forall|m: int| pipe.launched <= m < pipe.chains() ==> #[trigger] pipe.steps[m] == 0,
    ensures
        forall|m: int|
            #![trigger pipe.running(m)]
            pipe.running(m) <==> 0 <= m < pipe.launched && pipe.steps[m] < pipe.size - 1,
        pipe.in_flight() == Seq::new(pipe.launched as nat, |m: int| m).filter(
            |m: int| pipe.running(m),
        ).len(),
{
    let ids = Seq::new(pipe.launched as nat, |m: int| m);
    let full = pipe.size - 1;
    lemma_undone_counted(pipe.steps, full, pipe.launched as nat);
    lemma_done_among_launched(pipe.steps, pipe.launched, full);
    lemma_filters_agree(
        ids,
        |m: int| pipe.running(m),
        |m: int| pipe.steps[m] != full,
    );
}

/// Two conditions that agree on a sequence leave the same of it.
proof fn lemma_filters_agree(s: Seq<int>, f: spec_fn(int) -> bool, g: spec_fn(int) -> bool)
    requires
        forall|i: int| 0 <= i < s.len() ==> f(#[trigger] s[i]) == g(s[i]),
    ensures
        s.filter(f) == s.filter(g),
    decreases s.len(),
{
    reveal(Seq::filter);
    if s.len() > 0 {
        let front = s.drop_last();
        assert forall|i: int| 0 <= i < front.len() implies f(#[trigger] front[i]) == g(
            front[i],
        ) by {
            assert(front[i] == s[i]);
        }
        assert(s.last() == s[s.len() - 1]);
        lemma_filters_agree(front, f, g);
    }
}

/// A launch starts one chain more, the first that was not started, and changes
/// nothing else.
pub proof fn launch_starts_the_next_chain(pipe: PipelineView, m: int)
    requires
        pipe.size > 1,
        0 <= pipe.launched < pipe.chains(),
        pipe.steps[pipe.launched] == 0,
    ensures
        pipe.after_launch().running(m) <==> pipe.running(m) || m == pipe.launched,
        pipe.after_launch().launched == pipe.launched + 1,
        pipe.after_launch().in_flight() == pipe.in_flight() + 1,
        pipe.after_launch().steps == pipe.steps,
        pipe.after_launch().gathering == pipe.gathering,
        pipe.after_launch().rank == pipe.rank,
        pipe.after_launch().size == pipe.size,
        pipe.after_launch().chunk == pipe.chunk,
        pipe.after_launch().micro == pipe.micro,
        pipe.after_launch().max_in_flight == pipe.max_in_flight,
{
}

/// A step moves one chain by one round and no other. The allgather phase begins
/// with the step that completes the reduce-scatter phase of the last chain, and
/// not before.
pub proof fn chain_step_moves_one_chain(pipe: PipelineView, m: int)
    requires
        1 < pipe.size <= usize::MAX,
        pipe.running(m),
        pipe.launched <= pipe.chains(),
        forall|q: int| 0 <= q < pipe.chains() ==> #[trigger] pipe.steps[q] <= pipe.size - 1,
    ensures
        ({
            let after = pipe.after_step(m);
            &&& after.rank == pipe.rank
            &&& after.size == pipe.size
            &&& after.chunk == pipe.chunk
            &&& after.micro == pipe.micro
            &&& after.max_in_flight == pipe.max_in_flight
            &&& after.chains() == pipe.chains()
            &&& forall|q: int|
                0 <= q < pipe.chains() ==> #[trigger] after.round(q) == if q == m {
                    pipe.round(q) + 1
                } else {
                    pipe.round(q)
                }
            &&& after.gathering <==> pipe.gathering || (forall|q: int|
                0 <= q < pipe.chains() ==> #[trigger] after.round(q) >= pipe.size - 1)
            &&& after.launched == if after.gathering == pipe.gathering {
                pipe.launched
            } else {
                0
            }
        }),
{
    let full = pipe.size - 1;
    let steps = pipe.steps.update(m, (pipe.steps[m] + 1) as usize);
    let after = pipe.after_step(m);
    lemma_chains_done_all(steps, full);
    if !pipe.gathering {
        if chains_done(steps, full) == pipe.chains() {
            assert forall|q: int| 0 <= q < pipe.chains() implies #[trigger] after.round(q)
                == if q == m {
                pipe.round(q) + 1
            } else {
                pipe.round(q)
            } by {
                assert(steps[q] == full);
            }
        } else {
            let q = choose|q: int| 0 <= q < steps.len() && #[trigger] steps[q] != full;
            assert(pipe.steps[q] <= full);
            assert(after.round(q) < full);
        }
    }
}

/// The allreduce is finished exactly when every chain has done both passes of
/// `n - 1` rounds, and the buffer then holds the reduction over all ranks.
pub proof fn finished_pipeline_has_reduced<T: Copy, O: Op<T>>(
    pipe: PipelineView,
    inputs: Seq<Seq<T>>,
    schedule: Seq<int>,
)
    requires
        pipe.size == inputs.len(),
        1 < inputs.len(),
        0 <= pipe.rank < pipe.size,
        0 < pipe.chains(),
        0 <= pipe.micro,
        pipe.chunk == pipe.chains() * pipe.micro,
        model::same_shape(inputs, inputs.len() * pipe.chunk),
        forall|q: int| 0 <= q < pipe.chains() ==> #[trigger] pipe.steps[q] <= pipe.size - 1,
        forall|i: int| 0 <= i < schedule.len() ==> 0 <= #[trigger] schedule[i] < pipe.chains(),
        forall|q: int|
            0 <= q < pipe.chains() ==> #[trigger] turns(schedule, q) == pipe.round(q),
        op::is_associative::<T, O>(),
        op::is_commutative::<T, O>(),
    ensures
        pipe.buffer_len() == inputs[pipe.rank].len(),
        pipe.finished() <==> (forall|q: int|
            0 <= q < pipe.chains() ==> #[trigger] turns(schedule, q) == 2 * (pipe.size - 1)),
        pipe.finished() ==> pipeline_state::<T, O>(
            inputs,
            pipe.chunk,
            pipe.micro,
            pipe.rank,
            schedule,
        ) == model::reduced_over_ranks::<T, O>(inputs),
{
    let full = pipe.size - 1;
    assert(inputs[pipe.rank].len() == inputs.len() * pipe.chunk);
    lemma_chains_done_all(pipe.steps, full);
    if pipe.finished() {
        assert forall|q: int| 0 <= q < pipe.chains() implies #[trigger] turns(schedule, q) == 2
            * full by {
            assert(pipe.steps[q] == full);
            assert(turns(schedule, q) == pipe.round(q));
        }
        pipelined_ring_equals_ring::<T, O>(
            inputs,
            pipe.chunk,
            pipe.chains(),
            pipe.micro,
            pipe.rank,
            schedule,
        );
        assert(0 <= pipe.chunk) by (nonlinear_arith)
            requires
                pipe.chunk == pipe.chains() * pipe.micro,
                0 < pipe.chains(),
                0 <= pipe.micro,
        ;
        ring::ring_allreduce_reduces::<T, O>(inputs, pipe.chunk, pipe.rank);
    }
    if forall|q: int| 0 <= q < pipe.chains() ==> #[trigger] turns(schedule, q) == 2 * full {
        assert forall|q: int| 0 <= q < pipe.chains() implies #[trigger] pipe.steps[q] == full by {
            assert(turns(schedule, q) == 2 * full);
            assert(turns(schedule, q) == pipe.round(q));
        }
        assert(turns(schedule, 0) == pipe.round(0));
    }
}

/// In every round of a chain what a rank sends is what the next one receives:
/// the same key, the same place, the same length. The header names the sender,
/// the step within its phase, the phase and the chain.
pub proof fn chain_messages_meet(
    a: PipelineView,
    b: PipelineView,
    m: int,
    x: ChainExchange,
    y: ChainExchange,
)
    requires
        1 < a.size,
        0 <= a.rank < a.size,
        b.rank == if a.rank + 1 < a.size {
            a.rank + 1
        } else {
            0
        },
        b.size == a.size,
        b.chunk == a.chunk,
        b.micro == a.micro,
        b.round(m) == a.round(m),
        0 <= a.round(m) < 2 * (a.size - 1),
        0 <= m <= 255,
        x.is_round_of(a, m),
        y.is_round_of(b, m),
    ensures
        x.send_to == b.rank,
        y.recv_key == <RecvKey as vstd::std_specs::convert::FromSpec<AmHeader>>::from_spec(x.header),
        x.send_off == y.recv_off,
        x.len == a.micro,
        y.len == a.micro,
        x.header.src == a.rank % 0x1_0000,
        x.header.micro_chunk == m,
        a.round(m) < a.size - 1 ==> x.header.phase == 0 && x.header.step == a.round(m) % 0x1_0000,
        a.round(m) >= a.size - 1 ==> x.header.phase == 1 && x.header.step == (a.round(m) - (a.size
            - 1)) % 0x1_0000,
{
    ring::ring_neighbours(a.rank, a.size);
    ring::ring_neighbours(b.rank, a.size);
    ring::lemma_round_geometry(b.rank, 0, a.size, a.round(m));
}

/// A chain's round changes its micro-chunk of one chunk and no other position:
/// in the first `n - 1` rounds what arrived is combined with what was there, in
/// the others it takes its place.
pub proof fn chain_round_changes_one_micro_chunk<T: Copy, O: Op<T>>(
    buf: Seq<T>,
    rank: int,
    n: int,
    chunk: int,
    chains: int,
    micro: int,
    m: int,
    k: int,
    received: Seq<T>,
    p: int,
)
    requires
        1 < n,
        0 <= rank < n,
        0 <= m < chains,
        0 <= micro,
        chunk == chains * micro,
        0 <= k < 2 * (n - 1),
        buf.len() == n * chunk,
        received.len() == micro,
        0 <= p < buf.len(),
    ensures
        ({
            let after = after_chain_round::<T, O>(buf, rank, n, chunk, micro, m, k, received);
            let off = ring::recv_chunk(rank, n, k) * chunk + m * micro;
            &&& after.len() == buf.len()
            &&& 0 <= off <= buf.len() - micro
            &&& p < off || off + micro <= p ==> after[p] == buf[p]
            &&& off <= p < off + micro && k < n - 1 ==> after[p] == O::combine(
                buf[p],
                received[p - off],
            )
            &&& off <= p < off + micro && k >= n - 1 ==> after[p] == received[p - off]
        }),
{
    ring::lemma_round_geometry(rank, 0, n, k);
    lemma_slot_inside(ring::recv_chunk(rank, n, k), n, chunk, m, chains, micro);
}

} // verus!
