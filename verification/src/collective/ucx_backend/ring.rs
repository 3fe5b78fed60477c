//! Ring allreduce over tag-matched messages.
//!
//! Two phases of `n - 1` steps each (`n` is the communicator size):
//! - reduce-scatter: each rank ends up owning the reduced value of one chunk;
//! - allgather: that chunk is forwarded around the ring.
//!
//! The send and the receive of a step run concurrently. The caller performs
//! the exchange that `next_exchange` asks for and hands what arrived to
//! `complete`.

use crate::collective::communicator::Communicator;
use crate::collective::error::CollectiveError;
use crate::collective::op;
use crate::collective::op::Op;
use crate::collective::ucx_backend::communicator::UcxCommunicator;
use crate::collective::ucx_backend::model;
use crate::collective::ucx_backend::model::low16;
use crate::collective::ucx_backend::tag;
use crate::collective::ucx_backend::tag::encode_tag;
use crate::collective::ucx_backend::util::{reduce_piece, write_piece};
use vstd::prelude::*;

verus! {

/// Whether round `k` of a ring of `n` ranks belongs to the reduce-scatter
/// phase.
pub open spec fn reducing(n: int, k: int) -> bool {
    k < n - 1
}

/// The step of its phase that round `k` is.
pub open spec fn step_of(n: int, k: int) -> int {
    if reducing(n, k) {
        k
    } else {
        k - (n - 1)
    }
}

/// The number of rounds of both phases together.
pub open spec fn rounds(n: int) -> int {
    2 * (n - 1)
}

/// The rank that `rank` sends to.
pub open spec fn next_rank(rank: int, n: int) -> int {
    (rank + 1) % n
}

/// The rank that `rank` receives from.
pub open spec fn prev_rank(rank: int, n: int) -> int {
    (rank + n - 1) % n
}

/// The chunk that `rank` sends in round `k`.
pub open spec fn send_chunk(rank: int, n: int, k: int) -> int {
    if reducing(n, k) {
        (rank + n - step_of(n, k)) % n
    } else {
        (rank + n - step_of(n, k) + 1) % n
    }
}

/// The chunk that `rank` receives in round `k`.
pub open spec fn recv_chunk(rank: int, n: int, k: int) -> int {
    if reducing(n, k) {
        (rank + n - step_of(n, k) - 1) % n
    } else {
        (rank + n - step_of(n, k)) % n
    }
}

/// The tag of the message that `src` sends in round `k`.
pub open spec fn round_tag(src: int, n: int, k: int, micro_chunk: int) -> int {
    tag::tag_value(
        src,
        step_of(n, k) % 0x1_0000,
        if reducing(n, k) {
            0
        } else {
            1
        },
        micro_chunk,
    )
}

/// The buffer of `rank` after round `k`, given what arrived in it.
pub open spec fn after_round<T: Copy, O: Op<T>>(
    buf: Seq<T>,
    rank: int,
    n: int,
    chunk: int,
    k: int,
    received: Seq<T>,
) -> Seq<T> {
    let off = recv_chunk(rank, n, k) * chunk;
    model::overwritten(
        buf,
        off,
        if reducing(n, k) {
            op::reduced::<T, O>(model::piece(buf, off, chunk), received)
        } else {
            received
        },
    )
}

/// Where a ring allreduce stands.
pub struct RingView {
    /// This peer.
    pub rank: int,
    /// The number of peers.
    pub size: int,
    /// Elements per chunk.
    pub chunk: int,
    /// Rounds done.
    pub round: int,
}

impl RingView {
    /// No round is left.
    pub open spec fn finished(self) -> bool {
        self.round >= rounds(self.size)
    }

    /// The buffer length that the operation was started on.
    pub open spec fn buffer_len(self) -> int {
        self.size * self.chunk
    }

    /// One more round done.
    pub open spec fn advanced(self) -> RingView {
        RingView { round: self.round + 1, ..self }
    }
}

/// One step's messages: send `len` elements from `send_off` to `send_to`
/// under `send_tag`, receive as many from `recv_from` under `recv_tag`; they
/// belong at `recv_off`.
#[derive(Copy, Clone, Debug)]
pub struct RingExchange {
    pub send_to: usize,
    pub send_off: usize,
    pub send_tag: u64,
    pub recv_from: usize,
    pub recv_off: usize,
    pub recv_tag: u64,
    pub len: usize,
}

impl RingExchange {
    /// These are the messages of the current round of `ring`.
    pub open spec fn is_round_of(self, ring: RingView) -> bool {
        let n = ring.size;
        &&& self.send_to == next_rank(ring.rank, n)
        &&& self.recv_from == prev_rank(ring.rank, n)
        &&& self.len == ring.chunk
        &&& self.send_off == send_chunk(ring.rank, n, ring.round) * ring.chunk
        &&& self.recv_off == recv_chunk(ring.rank, n, ring.round) * ring.chunk
        &&& self.send_off + self.len <= ring.buffer_len()
        &&& self.recv_off + self.len <= ring.buffer_len()
        &&& self.send_tag == round_tag(ring.rank, n, ring.round, 0)
        &&& self.recv_tag == round_tag(prev_rank(ring.rank, n), n, ring.round, 0)
    }
}

/// A ring allreduce in progress.
pub struct RingAllreduceFuture {
    rank: usize,
    size: usize,
    chunk: usize,
    gathering: bool,
    step: usize,
}

impl View for RingAllreduceFuture {
    type V = RingView;

    closed spec fn view(&self) -> RingView {
        RingView {
            rank: self.rank as int,
            size: self.size as int,
            chunk: self.chunk as int,
            round: if self.gathering {
                self.size - 1 + self.step
            } else {
                self.step as int
            },
        }
    }
}

/// Start a ring allreduce of `buf` among the peers of `comm`.
///
/// A group of one has nothing to do. Otherwise the buffer must divide into one
/// chunk per peer, and the next rank must be connected.
pub fn ring_allreduce_typed<T, E, W, R>(comm: &UcxCommunicator<E, W, R>, buf: &[T]) -> (r: Result<
    RingAllreduceFuture,
    CollectiveError,
>)
    requires
        comm.rank_view() + comm.size_view() < usize::MAX,
    ensures
        ({
            let n = comm.size_view() as int;
            let next = next_rank(comm.rank_view() as int, n);
            match r {
                Ok(ring) => {
                    &&& ring.wf()
                    &&& ring@.rank == comm.rank_view()
                    &&& ring@.size == n
                    &&& if n <= 1 {
                        ring@.finished()
                    } else {
                        &&& buf@.len() as int % n == 0
                        &&& comm.connected_to(next)
                        &&& ring@.chunk == buf@.len() as int / n
                        &&& ring@.buffer_len() == buf@.len()
                        &&& ring@.round == 0
                    }
                },
                Err(CollectiveError::BadShape) => n > 1 && buf@.len() as int % n != 0,
                Err(CollectiveError::Protocol(m)) => {
                    &&& n > 1
                    &&& buf@.len() as int % n == 0
                    &&& !comm.connected_to(next)
                    &&& m@ == "no endpoint to next rank"@
                },
                Err(_) => false,
            }
        }),
{
    let n: usize = comm.size();
    let rank: usize = comm.rank();
    if n <= 1 {
        return Ok(RingAllreduceFuture { rank, size: n, chunk: 0, gathering: true, step: 0 });
    }
    if buf.len() % n != 0 {
        return Err(CollectiveError::BadShape);
    }
    let chunk: usize = buf.len() / n;
    proof {
        vstd::arithmetic::div_mod::lemma_fundamental_div_mod(buf@.len() as int, n as int);
        assert(n * chunk == chunk * n) by (nonlinear_arith);
    }
    let next: usize = (rank + 1) % n;
    if comm.endpoint(next).is_none() {
        return Err(CollectiveError::Protocol("no endpoint to next rank"));
    }
    Ok(RingAllreduceFuture { rank, size: n, chunk, gathering: false, step: 0 })
}

impl RingAllreduceFuture {
    /// The state is one that an allreduce can be in.
    pub closed spec fn wf(&self) -> bool {
        &&& self.rank + self.size < usize::MAX
        &&& self.size * self.chunk <= usize::MAX
        &&& if self.size <= 1 {
            self.gathering && self.step == 0
        } else {
            if self.gathering {
                self.step < self.size
            } else {
                self.step < self.size - 1
            }
        }
    }

    /// The messages of the next round, or `None` once the buffer holds the
    /// reduced values.
    pub fn next_exchange(&self) -> (r: Option<RingExchange>)
        requires
            self.wf(),
        ensures
            r is None <==> self@.finished(),
            r matches Some(x) ==> x.is_round_of(self@),
    {
        let n: usize = self.size;
        if n <= 1 || (self.gathering && self.step >= n - 1) {
            return None;
        }
        let rank: usize = self.rank;
        let step: usize = self.step;
        let (send_idx, recv_idx, phase): (usize, usize, u8) = if self.gathering {
            ((rank + n - step + 1) % n, (rank + n - step) % n, 1u8)
        } else {
            ((rank + n - step) % n, (rank + n - step - 1) % n, 0u8)
        };
        proof {
            model::lemma_block_inside(send_idx as int, n as int, self.chunk as int);
            model::lemma_block_inside(recv_idx as int, n as int, self.chunk as int);
        }
        let prev: usize = (rank + n - 1) % n;
        Some(
            RingExchange {
                send_to: (rank + 1) % n,
                send_off: send_idx * self.chunk,
                send_tag: encode_tag(rank, low16(step), phase, 0),
                recv_from: prev,
                recv_off: recv_idx * self.chunk,
                recv_tag: encode_tag(prev, low16(step), phase, 0),
                len: self.chunk,
            },
        )
    }

    /// Apply what arrived in the current round to `buf`: combine it in the
    /// reduce-scatter phase, store it in the allgather phase.
    pub fn complete<T: Copy, O: Op<T>>(&mut self, buf: &mut [T], received: &[T])
        requires
            old(self).wf(),
            !old(self)@.finished(),
            old(buf)@.len() == old(self)@.buffer_len(),
            received@.len() == old(self)@.chunk,
        ensures
            final(self).wf(),
            final(self)@ == old(self)@.advanced(),
            final(buf)@ == after_round::<T, O>(
                old(buf)@,
                old(self)@.rank,
                old(self)@.size,
                old(self)@.chunk,
                old(self)@.round,
                received@,
            ),
    {
        let n: usize = self.size;
        let rank: usize = self.rank;
        let step: usize = self.step;
        if self.gathering {
            let recv_idx: usize = (rank + n - step) % n;
            proof {
                model::lemma_block_inside(recv_idx as int, n as int, self.chunk as int);
            }
            write_piece(buf, recv_idx * self.chunk, received);
            self.step = step + 1;
        } else {
            let recv_idx: usize = (rank + n - step - 1) % n;
            proof {
                model::lemma_block_inside(recv_idx as int, n as int, self.chunk as int);
            }
            reduce_piece::<T, O>(buf, recv_idx * self.chunk, received);
            if step + 1 == n - 1 {
                self.gathering = true;
                self.step = 0;
            } else {
                self.step = step + 1;
            }
        }
    }
}

/// The buffer of `rank` after `k` rounds in which every rank applied what its
/// predecessor sent: the chunk that the predecessor held after as many rounds.
pub open spec fn ring_state<T: Copy, O: Op<T>>(
    inputs: Seq<Seq<T>>,
    chunk: int,
    rank: int,
    k: nat,
) -> Seq<T>
    decreases k,
{
    let n = inputs.len() as int;
    if k == 0 {
        inputs[rank]
    } else {
        let j = (k - 1) as nat;
        let prev = prev_rank(rank, n);
        let sent = model::piece(
            ring_state::<T, O>(inputs, chunk, prev, j),
            send_chunk(prev, n, j as int) * chunk,
            chunk,
        );
        after_round::<T, O>(
            ring_state::<T, O>(inputs, chunk, rank, j),
            rank,
            n,
            chunk,
            j as int,
            sent,
        )
    }
}

/// The value of a position of chunk `c` after the chunk has travelled `d`
/// ranks on from rank `c`.
pub open spec fn travelled<T: Copy, O: Op<T>>(
    inputs: Seq<Seq<T>>,
    c: int,
    d: nat,
    p: int,
) -> T
    decreases d,
{
    if d == 0 {
        inputs[c][p]
    } else {
        O::combine(
            inputs[(c + d) % (inputs.len() as int)][p],
            travelled::<T, O>(inputs, c, (d - 1) as nat, p),
        )
    }
}

/// What a ring allreduce leaves in every buffer: each chunk reduced in the
/// order in which it passed the ranks.
pub open spec fn ring_result<T: Copy, O: Op<T>>(inputs: Seq<Seq<T>>, chunk: int) -> Seq<T> {
    Seq::new(
        inputs[0].len(),
        |p: int| travelled::<T, O>(inputs, p / chunk, (inputs.len() - 1) as nat, p),
    )
}

/// How far rank `r` lies behind the start of chunk `c`.
pub open spec fn ring_distance(r: int, c: int, n: int) -> int {
    (r + n - c) % n
}

/// What position `p` of rank `r` holds after `k` rounds.
pub open spec fn value_after<T: Copy, O: Op<T>>(
    inputs: Seq<Seq<T>>,
    c: int,
    r: int,
    k: int,
    p: int,
) -> T {
    let n = inputs.len() as int;
    let d = ring_distance(r, c, n);
    if k <= n - 1 {
        if d <= k {
            travelled::<T, O>(inputs, c, d as nat, p)
        } else {
            inputs[r][p]
        }
    } else {
        if d < k - (n - 1) {
            travelled::<T, O>(inputs, c, (n - 1) as nat, p)
        } else {
            travelled::<T, O>(inputs, c, d as nat, p)
        }
    }
}

/// How the chunks of a round relate to the distances on the ring.
pub proof fn lemma_round_geometry(r: int, c: int, n: int, k: int)
    requires
        1 < n,
        0 <= r < n,
        0 <= c < n,
        0 <= k < rounds(n),
    ensures
        0 <= prev_rank(r, n) < n,
        send_chunk(prev_rank(r, n), n, k) == recv_chunk(r, n, k),
        0 <= recv_chunk(r, n, k) < n,
        0 <= ring_distance(r, c, n) < n,
        (c + ring_distance(r, c, n)) % n == r,
        ring_distance(prev_rank(r, n), c, n) == if ring_distance(r, c, n) == 0 {
            n - 1
        } else {
            ring_distance(r, c, n) - 1
        },
        recv_chunk(r, n, k) == c <==> ring_distance(r, c, n) == if reducing(n, k) {
            k + 1
        } else {
            k - (n - 1)
        },
{
    let s = step_of(n, k);
    let prev = prev_rank(r, n);
    model::lemma_wrap(r + n - 1, n);
    model::lemma_wrap(r + n - s, n);
    model::lemma_wrap(r + n - s - 1, n);
    model::lemma_wrap(prev + n - s, n);
    model::lemma_wrap(prev + n - s + 1, n);
    model::lemma_wrap(r + n - c, n);
    model::lemma_wrap(prev + n - c, n);
    model::lemma_wrap(c + ring_distance(r, c, n), n);
}

/// One round advances a position as `value_after` says.
pub proof fn lemma_value_step<T: Copy, O: Op<T>>(
    inputs: Seq<Seq<T>>,
    c: int,
    r: int,
    k: int,
    p: int,
)
    requires
        1 < inputs.len(),
        0 <= r < inputs.len(),
        0 <= c < inputs.len(),
        0 <= k < rounds(inputs.len() as int),
    ensures
        ({
            let n = inputs.len() as int;
            let mine = value_after::<T, O>(inputs, c, r, k, p);
            let theirs = value_after::<T, O>(inputs, c, prev_rank(r, n), k, p);
            value_after::<T, O>(inputs, c, r, k + 1, p) == if recv_chunk(r, n, k) == c {
                if reducing(n, k) {
                    O::combine(mine, theirs)
                } else {
                    theirs
                }
            } else {
                mine
            }
        }),
{
    let n = inputs.len() as int;
    lemma_round_geometry(r, c, n, k);
}

/// Every position of every rank follows `value_after`.
pub proof fn lemma_ring_state<T: Copy, O: Op<T>>(
    inputs: Seq<Seq<T>>,
    chunk: int,
    r: int,
    k: nat,
)
    requires
        1 < inputs.len(),
        0 < chunk,
        model::same_shape(inputs, inputs.len() * chunk),
        0 <= r < inputs.len(),
        k <= rounds(inputs.len() as int),
    ensures
        ring_state::<T, O>(inputs, chunk, r, k).len() == inputs.len() * chunk,
        forall|p: int|
            0 <= p < inputs.len() * chunk ==> #[trigger] ring_state::<T, O>(
                inputs,
                chunk,
                r,
                k,
            )[p] == value_after::<T, O>(inputs, p / chunk, r, k as int, p),
    decreases k,
{
    let n = inputs.len() as int;
    assert(inputs[r].len() == n * chunk);
    if k == 0 {
        assert forall|p: int| 0 <= p < n * chunk implies #[trigger] ring_state::<T, O>(
            inputs,
            chunk,
            r,
            k,
        )[p] == value_after::<T, O>(inputs, p / chunk, r, 0, p) by {
            model::lemma_block_index(p, n, chunk);
            lemma_round_geometry(r, p / chunk, n, 0);
            model::lemma_wrap(p / chunk + 0, n);
        }
    } else {
        let j = (k - 1) as nat;
        let prev = prev_rank(r, n);
        lemma_round_geometry(r, 0, n, j as int);
        lemma_ring_state::<T, O>(inputs, chunk, r, j);
        lemma_ring_state::<T, O>(inputs, chunk, prev, j);
        let rc = recv_chunk(r, n, j as int);
        model::lemma_block_inside(rc, n, chunk);
        assert forall|p: int| 0 <= p < n * chunk implies #[trigger] ring_state::<T, O>(
            inputs,
            chunk,
            r,
            k,
        )[p] == value_after::<T, O>(inputs, p / chunk, r, k as int, p) by {
            let c = p / chunk;
            model::lemma_block_index(p, n, chunk);
            model::lemma_block_of(p, rc, chunk);
            lemma_value_step::<T, O>(inputs, c, r, j as int, p);
        }
    }
}

/// After a ring allreduce every rank holds the same buffer: each chunk reduced
/// over all ranks, in the order in which it passed them.
pub proof fn ring_allreduce_agrees<T: Copy, O: Op<T>>(
    inputs: Seq<Seq<T>>,
    chunk: int,
    rank: int,
)
    requires
        1 < inputs.len(),
        0 <= chunk,
        model::same_shape(inputs, inputs.len() * chunk),
        0 <= rank < inputs.len(),
    ensures
        ring_state::<T, O>(inputs, chunk, rank, rounds(inputs.len() as int) as nat) == ring_result::<
            T,
            O,
        >(inputs, chunk),
{
    let n = inputs.len() as int;
    let k = rounds(n) as nat;
    assert(inputs[0].len() == n * chunk);
    if chunk == 0 {
        lemma_ring_state_empty::<T, O>(inputs, rank, k);
        assert(n * 0 == 0) by (nonlinear_arith);
        assert(ring_state::<T, O>(inputs, chunk, rank, k) =~= ring_result::<T, O>(inputs, chunk));
    } else {
        lemma_ring_state::<T, O>(inputs, chunk, rank, k);
        assert forall|p: int| 0 <= p < n * chunk implies value_after::<T, O>(
            inputs,
            p / chunk,
            rank,
            k as int,
            p,
        ) == #[trigger] ring_result::<T, O>(inputs, chunk)[p] by {
            model::lemma_block_index(p, n, chunk);
            lemma_round_geometry(rank, p / chunk, n, 0);
        }
        assert(ring_state::<T, O>(inputs, chunk, rank, k) =~= ring_result::<T, O>(inputs, chunk));
    }
}

/// Empty buffers stay empty.
proof fn lemma_ring_state_empty<T: Copy, O: Op<T>>(inputs: Seq<Seq<T>>, rank: int, k: nat)
    requires
        1 < inputs.len(),
        model::same_shape(inputs, 0),
        0 <= rank < inputs.len(),
    ensures
        ring_state::<T, O>(inputs, 0, rank, k).len() == 0,
    decreases k,
{
    if k == 0 {
        assert(inputs[rank].len() == 0);
    } else {
        lemma_ring_state_empty::<T, O>(inputs, rank, (k - 1) as nat);
    }
}

/// With an associative and commutative operator a ring allreduce leaves every
/// rank with the reduction over all ranks.
pub proof fn ring_allreduce_reduces<T: Copy, O: Op<T>>(
    inputs: Seq<Seq<T>>,
    chunk: int,
    rank: int,
)
    requires
        1 < inputs.len(),
        0 <= chunk,
        model::same_shape(inputs, inputs.len() * chunk),
        0 <= rank < inputs.len(),
        op::is_associative::<T, O>(),
        op::is_commutative::<T, O>(),
    ensures
        ring_state::<T, O>(inputs, chunk, rank, rounds(inputs.len() as int) as nat)
            == model::reduced_over_ranks::<T, O>(inputs),
{
    ring_allreduce_agrees::<T, O>(inputs, chunk, rank);
    lemma_ring_result_reduces::<T, O>(inputs, chunk);
}

/// The ring's order of reduction does not matter to an associative and
/// commutative operator.
pub proof fn lemma_ring_result_reduces<T: Copy, O: Op<T>>(inputs: Seq<Seq<T>>, chunk: int)
    requires
        1 < inputs.len(),
        0 <= chunk,
        model::same_shape(inputs, inputs.len() * chunk),
        op::is_associative::<T, O>(),
        op::is_commutative::<T, O>(),
    ensures
        ring_result::<T, O>(inputs, chunk) == model::reduced_over_ranks::<T, O>(inputs),
{
    let n = inputs.len() as int;
    assert(inputs[0].len() == n * chunk);
    if chunk == 0 {
        assert(n * 0 == 0) by (nonlinear_arith);
    } else {
        assert forall|p: int| 0 <= p < n * chunk implies #[trigger] ring_result::<T, O>(
            inputs,
            chunk,
        )[p] == model::range_fold::<T, O>(inputs, 0, n, p) by {
            model::lemma_block_index(p, n, chunk);
            lemma_travelled::<T, O>(inputs, p / chunk, (n - 1) as nat, p);
            if p / chunk > 0 {
                model::lemma_range_fold_concat::<T, O>(inputs, 0, p / chunk, n, p);
            }
        }
    }
    assert(ring_result::<T, O>(inputs, chunk) =~= model::reduced_over_ranks::<T, O>(inputs));
}

/// A chunk that has travelled `d` ranks carries the fold of the ranks passed.
proof fn lemma_travelled<T: Copy, O: Op<T>>(inputs: Seq<Seq<T>>, c: int, d: nat, p: int)
    requires
        1 < inputs.len(),
        0 <= c < inputs.len(),
        d < inputs.len(),
        op::is_associative::<T, O>(),
        op::is_commutative::<T, O>(),
    ensures
        ({
            let n = inputs.len() as int;
            travelled::<T, O>(inputs, c, d, p) == if c + d < n {
                model::range_fold::<T, O>(inputs, c, c + d + 1, p)
            } else {
                O::combine(
                    model::range_fold::<T, O>(inputs, 0, c + d - n + 1, p),
                    model::range_fold::<T, O>(inputs, c, n, p),
                )
            }
        }),
    decreases d,
{
    let n = inputs.len() as int;
    if d > 0 {
        lemma_travelled::<T, O>(inputs, c, (d - 1) as nat, p);
        model::lemma_wrap(c + d, n);
        if c + d > n {
            let x = inputs[c + d - n][p];
            let a = model::range_fold::<T, O>(inputs, 0, c + d - n, p);
            let b = model::range_fold::<T, O>(inputs, c, n, p);
            assert(O::combine(x, O::combine(a, b)) == O::combine(O::combine(x, a), b));
            assert(O::combine(x, a) == O::combine(a, x));
        }
    }
}

/// In a group of at most `2^16` ranks, two rounds of one allreduce never use
/// the same tag for messages from one rank.
pub proof fn round_tags_differ(src: int, n: int, k1: int, k2: int)
    requires
        1 < n <= 0x1_0000,
        0 <= k1 < k2 < rounds(n),
    ensures
        round_tag(src, n, k1, 0) != round_tag(src, n, k2, 0),
{
}


/// The ring goes through the ranks in order: after rank `r` comes `r + 1`, after
/// the last one rank 0, and the predecessor is the one before.
pub proof fn ring_neighbours(r: int, n: int)
    requires
        0 <= r < n,
    ensures
        next_rank(r, n) == if r + 1 < n {
            r + 1
        } else {
            0
        },
        prev_rank(r, n) == if r > 0 {
            r - 1
        } else {
            n - 1
        },
        prev_rank(next_rank(r, n), n) == r,
        next_rank(prev_rank(r, n), n) == r,
{
    model::lemma_wrap(r + 1, n);
    model::lemma_wrap(r + n - 1, n);
    model::lemma_wrap(next_rank(r, n) + n - 1, n);
    model::lemma_wrap(prev_rank(r, n) + 1, n);
}

/// In every round what a rank sends is what the next one receives: the same
/// tag, the same place, the same length; and each knows the other by its rank.
pub proof fn ring_messages_meet(a: RingView, b: RingView, x: RingExchange, y: RingExchange)
    requires
        1 < a.size,
        0 <= a.rank < a.size,
        b.rank == if a.rank + 1 < a.size {
            a.rank + 1
        } else {
            0
        },
        b.size == a.size,
        b.chunk == a.chunk,
        b.round == a.round,
        0 <= a.round < 2 * (a.size - 1),
        x.is_round_of(a),
        y.is_round_of(b),
    ensures
        x.send_to == b.rank,
        y.recv_from == a.rank,
        x.send_tag == y.recv_tag,
        x.send_off == y.recv_off,
        x.len == a.chunk,
        y.len == a.chunk,
{
    ring_neighbours(a.rank, a.size);
    ring_neighbours(b.rank, a.size);
    lemma_round_geometry(b.rank, 0, a.size, a.round);
}

/// Which chunks a round moves: in round `k` of the first `n - 1` a rank sends
/// the chunk `k` ranks back from its own and receives the one before that; in
/// round `k` of the others it sends the chunk after, and receives the chunk at,
/// as many ranks back.
pub proof fn ring_chunks_go_backwards(r: int, n: int, k: int)
    requires
        1 < n,
        0 <= r < n,
        0 <= k < 2 * (n - 1),
    ensures
        ({
            let s = if k < n - 1 {
                k
            } else {
                k - (n - 1)
            };
            let back = if s <= r {
                r - s
            } else {
                r - s + n
            };
            let before = if back > 0 {
                back - 1
            } else {
                n - 1
            };
            let after = if back + 1 < n {
                back + 1
            } else {
                0
            };
            &&& send_chunk(r, n, k) == if k < n - 1 {
                back
            } else {
                after
            }
            &&& recv_chunk(r, n, k) == if k < n - 1 {
                before
            } else {
                back
            }
        }),
{
    let s = step_of(n, k);
    model::lemma_wrap(r + n - s, n);
    model::lemma_wrap(r + n - s - 1, n);
    model::lemma_wrap(r + n - s + 1, n);
}

/// A round changes one chunk of the buffer and no other position: in the first
/// `n - 1` rounds what arrived is combined with what was there, in the others
/// it takes its place.
pub proof fn ring_round_changes_one_chunk<T: Copy, O: Op<T>>(
    buf: Seq<T>,
    rank: int,
    n: int,
    chunk: int,
    k: int,
    received: Seq<T>,
    p: int,
)
    requires
        1 < n,
        0 <= rank < n,
        0 <= k < 2 * (n - 1),
        0 <= chunk,
        buf.len() == n * chunk,
        received.len() == chunk,
        0 <= p < buf.len(),
    ensures
        ({
            let after = after_round::<T, O>(buf, rank, n, chunk, k, received);
            let off = recv_chunk(rank, n, k) * chunk;
            &&& after.len() == buf.len()
            &&& 0 <= off <= buf.len() - chunk
            &&& p < off || off + chunk <= p ==> after[p] == buf[p]
            &&& off <= p < off + chunk && k < n - 1 ==> after[p] == O::combine(
                buf[p],
                received[p - off],
            )
            &&& off <= p < off + chunk && k >= n - 1 ==> after[p] == received[p - off]
        }),
{
    lemma_round_geometry(rank, 0, n, k);
    model::lemma_block_inside(recv_chunk(rank, n, k), n, chunk);
}

/// A ring allreduce is finished exactly after both passes of `n - 1` rounds,
/// one round at a time, and every rank then holds the reduction over all ranks.
pub proof fn finished_ring_has_reduced<T: Copy, O: Op<T>>(
    ring: RingView,
    inputs: Seq<Seq<T>>,
)
    requires
        ring.size == inputs.len(),
        1 < inputs.len(),
        0 <= ring.rank < ring.size,
        0 <= ring.chunk,
        0 <= ring.round,
        model::same_shape(inputs, inputs.len() * ring.chunk),
        op::is_associative::<T, O>(),
        op::is_commutative::<T, O>(),
    ensures
        ring.finished() == (ring.round >= 2 * (ring.size - 1)),
        ring.finished() && ring.round <= 2 * (ring.size - 1) ==> ring_state::<T, O>(
            inputs,
            ring.chunk,
            ring.rank,
            ring.round as nat,
        ) == model::reduced_over_ranks::<T, O>(inputs),
        ring.buffer_len() == inputs[ring.rank].len(),
        ring.advanced() == (RingView { round: ring.round + 1, ..ring }),
{
    assert(inputs[ring.rank].len() == inputs.len() * ring.chunk);
    ring_allreduce_reduces::<T, O>(inputs, ring.chunk, ring.rank);
}

/// The tag of a round names its sender, its step within the phase, and the
/// phase: 0 while the ring reduces, 1 while it gathers.
pub proof fn round_tag_names_the_round(src: int, n: int, k: int)
    requires
        1 < n,
        0 <= src < n,
        0 <= k < 2 * (n - 1),
    ensures
        round_tag(src, n, k, 0) == tag::tag_value(
            src,
            (if k < n - 1 {
                k
            } else {
                k - (n - 1)
            }) % 0x1_0000,
            if k < n - 1 {
                0
            } else {
                1
            },
            0,
        ),
{
}

} // verus!
