//! Recursive-doubling allreduce over tag-matched messages.
//!
//! In round `r` each rank exchanges its whole buffer with the rank that
//! differs in bit `r`, and both combine. After `log2(n)` rounds every rank
//! holds the reduction. The method needs a power-of-two group; other sizes
//! take the ring.

use crate::collective::communicator::Communicator;
use crate::collective::error::CollectiveError;
use crate::collective::op;
use crate::collective::op::Op;
use crate::collective::ucx_backend::communicator::UcxCommunicator;
use crate::collective::ucx_backend::model;
use crate::collective::ucx_backend::model::{is_power_of_two, low16};
use crate::collective::ucx_backend::ring;
use crate::collective::ucx_backend::ring::{ring_allreduce_typed, RingAllreduceFuture};
use crate::collective::ucx_backend::tag;
use crate::collective::ucx_backend::tag::encode_tag;
use vstd::arithmetic::power2;
use vstd::prelude::*;

verus! {

/// Phase byte of recursive-doubling tags, distinct from the ring's (0 and 1)
/// and the scatter's (2).
pub const PHASE_RD: u8 = 3;

/// The rank that differs from `rank` in the bit of weight `bit`.
pub open spec fn flipped(rank: int, bit: int) -> int {
    if (rank / bit) % 2 == 0 {
        rank + bit
    } else {
        rank - bit
    }
}

/// The tag of what `src` sends in round `round`.
pub open spec fn doubling_tag(src: int, round: int) -> int {
    tag::tag_value(src, round % 0x1_0000, PHASE_RD as int, 0)
}

/// Where a recursive doubling stands.
pub struct DoublingView {
    /// This peer.
    pub rank: int,
    /// The number of peers.
    pub size: int,
    /// Rounds done.
    pub round: nat,
}

impl DoublingView {
    /// No round is left.
    pub open spec fn finished(self) -> bool {
        power2::pow2(self.round) >= self.size
    }

    /// The partner of the current round.
    pub open spec fn peer(self) -> int {
        flipped(self.rank, power2::pow2(self.round) as int)
    }

    /// One more round done.
    pub open spec fn advanced(self) -> DoublingView {
        DoublingView { round: self.round + 1, ..self }
    }
}

/// One round's messages: exchange the whole buffer with `peer`.
#[derive(Copy, Clone, Debug)]
pub struct DoublingExchange {
    pub peer: usize,
    pub send_tag: u64,
    pub recv_tag: u64,
}

/// The rounds of a recursive doubling in progress.
pub struct Doubling {
    rank: usize,
    size: usize,
    round: usize,
    bit: usize,
}

impl View for Doubling {
    type V = DoublingView;

    closed spec fn view(&self) -> DoublingView {
        DoublingView { rank: self.rank as int, size: self.size as int, round: self.round as nat }
    }
}

/// A recursive-doubling allreduce in progress: the doubling rounds, or the
/// ring for groups that are no power of two.
pub enum RecursiveDoublingFuture {
    Doubling(Doubling),
    Ring(RingAllreduceFuture),
}

/// Start a recursive-doubling allreduce of `buf` among the peers of `comm`.
pub fn recursive_doubling_typed<T, E, W, R>(
    comm: &UcxCommunicator<E, W, R>,
    buf: &[T],
) -> (r: Result<RecursiveDoublingFuture, CollectiveError>)
    requires
        comm.rank_view() + comm.size_view() < usize::MAX,
    ensures
        ({
            let n = comm.size_view() as int;
            let len = buf@.len() as int;
            let next = ring::next_rank(comm.rank_view() as int, n);
            let ring_taken = n > 1 && !power2::is_pow2(n);
            match r {
                Ok(RecursiveDoublingFuture::Doubling(d)) => {
                    &&& !ring_taken
                    &&& d.wf()
                    &&& d@.rank == comm.rank_view()
                    &&& d@.size == n
                    &&& d@.round == 0
                },
                Ok(RecursiveDoublingFuture::Ring(f)) => {
                    &&& ring_taken
                    &&& len % n == 0
                    &&& comm.connected_to(next)
                    &&& f.wf()
                    &&& f@ == ring::RingView {
                        rank: comm.rank_view() as int,
                        size: n,
                        chunk: len / n,
                        round: 0,
                    }
                    &&& f@.buffer_len() == len
                },
                Err(CollectiveError::BadShape) => ring_taken && len % n != 0,
                Err(CollectiveError::Protocol(m)) => {
                    &&& ring_taken
                    &&& len % n == 0
                    &&& !comm.connected_to(next)
                    &&& m@ == "no endpoint to next rank"@
                },
                Err(_) => false,
            }
        }),
{
    let n: usize = comm.size();
    let rank: usize = comm.rank();
    proof {
        power2::lemma2_to64();
    }
    if n <= 1 || is_power_of_two(n) {
        return Ok(
            RecursiveDoublingFuture::Doubling(Doubling { rank, size: n, round: 0, bit: 1 }),
        );
    }
    match ring_allreduce_typed(comm, buf) {
        Ok(f) => Ok(RecursiveDoublingFuture::Ring(f)),
        Err(e) => Err(e),
    }
}

impl Doubling {
    /// The state is one that a doubling can be in.
    pub closed spec fn wf(&self) -> bool {
        &&& self.rank + self.size < usize::MAX
        &&& self.bit == power2::pow2(self.round as nat)
        &&& self.size <= 1 || power2::is_pow2(self.size as int)
        &&& self.size <= 1 || self.bit <= self.size
    }

    /// The messages of the next round, or `None` once the buffer holds the
    /// reduced values. The partner must be connected.
    pub fn next_exchange<E, W, R>(&self, comm: &UcxCommunicator<E, W, R>) -> (r: Result<
        Option<DoublingExchange>,
        CollectiveError,
    >)
        requires
            self.wf(),
        ensures
            match r {
                Ok(None) => self@.finished() && power2::pow2(self@.round) >= self@.size,
                Ok(Some(x)) => {
                    &&& !self@.finished()
                    &&& power2::pow2(self@.round) < self@.size
                    &&& comm.connected_to(self@.peer())
                    &&& x.peer == self@.peer()
                    &&& x.send_tag == doubling_tag(self@.rank, self@.round as int)
                    &&& x.recv_tag == doubling_tag(self@.peer(), self@.round as int)
                },
                Err(CollectiveError::Protocol(m)) => {
                    &&& !self@.finished()
                    &&& !comm.connected_to(self@.peer())
                    &&& m@ == "rd: missing endpoint to peer"@
                },
                Err(_) => false,
            },
    {
        if self.bit >= self.size {
            return Ok(None);
        }
        proof {
            power2::lemma_pow2_pos(self.round as nat);
            lemma_flipped_nonnegative(self.rank as int, self.bit as int);
        }
        let peer: usize = if (self.rank / self.bit) % 2 == 0 {
            self.rank + self.bit
        } else {
            self.rank - self.bit
        };
        if comm.endpoint(peer).is_none() {
            return Err(CollectiveError::Protocol("rd: missing endpoint to peer"));
        }
        Ok(
            Some(
                DoublingExchange {
                    peer,
                    send_tag: encode_tag(self.rank, low16(self.round), PHASE_RD, 0),
                    recv_tag: encode_tag(peer, low16(self.round), PHASE_RD, 0),
                },
            ),
        )
    }

    /// Combine what arrived in the current round with `buf`.
    pub fn complete<T: Copy, O: Op<T>>(&mut self, buf: &mut [T], received: &[T])
        requires
            old(self).wf(),
            !old(self)@.finished(),
            old(buf)@.len() == received@.len(),
        ensures
            final(self).wf(),
            final(self)@ == old(self)@.advanced(),
            final(buf)@ == op::reduced::<T, O>(old(buf)@, received@),
    {
        O::reduce_in_place(buf, received);
        proof {
            power2::lemma_pow2_pos(self.round as nat);
            model::lemma_pow2_next(self.round as nat, self.size as int);
            power2::lemma_pow2_unfold((self.round + 1) as nat);
            model::lemma_pow2_exceeds(self.round as nat);
        }
        self.bit = self.bit * 2;
        self.round = self.round + 1;
    }
}

/// A rank with the bit set is at least the bit's weight.
proof fn lemma_flipped_nonnegative(rank: int, bit: int)
    requires
        0 <= rank,
        0 < bit,
    ensures
        0 <= flipped(rank, bit),
{
    if rank < bit {
        vstd::arithmetic::div_mod::lemma_basic_div(rank, bit);
    }
}

/// The buffer of `rank` after `k` rounds in which every rank combined what its
/// partner held after as many rounds.
pub open spec fn doubling_state<T: Copy, O: Op<T>>(
    inputs: Seq<Seq<T>>,
    rank: int,
    k: nat,
) -> Seq<T>
    decreases k,
{
    if k == 0 {
        inputs[rank]
    } else {
        let j = (k - 1) as nat;
        op::reduced::<T, O>(
            doubling_state::<T, O>(inputs, rank, j),
            doubling_state::<T, O>(inputs, flipped(rank, power2::pow2(j) as int), j),
        )
    }
}

/// Partners are inverse to each other: each receives from the rank it sends
/// to.
pub proof fn doubling_partners_match(rank: int, k: nat, e: nat)
    requires
        0 <= rank < power2::pow2(e),
        k < e,
    ensures
        0 <= flipped(rank, power2::pow2(k) as int) < power2::pow2(e),
        flipped(flipped(rank, power2::pow2(k) as int), power2::pow2(k) as int) == rank,
{
    let b = power2::pow2(k) as int;
    let peer = flipped(rank, b);
    power2::lemma_pow2_pos(k);
    lemma_flipped_nonnegative(rank, b);
    vstd::arithmetic::div_mod::lemma_div_plus_one(rank, b);
    vstd::arithmetic::div_mod::lemma_div_minus_one(rank, b);
    // Both ranks lie in the same block of twice the weight, and the group is
    // a whole number of such blocks.
    power2::lemma_pow2_unfold(k + 1);
    let rest = (e - k - 1) as nat;
    power2::lemma_pow2_adds(k + 1, rest);
    power2::lemma_pow2_pos(rest);
    let blocks = power2::pow2(rest) as int;
    let q = rank / b;
    vstd::arithmetic::div_mod::lemma_fundamental_div_mod(rank, b);
    if q % 2 == 0 {
        let h = q / 2;
        assert(q == 2 * h);
        assert(h < blocks) by (nonlinear_arith)
            requires
                rank == b * q + rank % b,
                0 <= rank % b,
                rank < (2 * b) * blocks,
                q == 2 * h,
                0 < b,
        ;
        assert(b * q + 2 * b <= (2 * b) * blocks) by (nonlinear_arith)
            requires
                q == 2 * h,
                h + 1 <= blocks,
                0 < b,
        ;
    }
}

/// The partner of a round differs from the rank in one bit, that of the round:
/// the two are the round's weight apart and lie in one block of twice the
/// weight.
pub proof fn partner_differs_in_one_bit(d: DoublingView)
    requires
        0 <= d.rank,
    ensures
        ({
            let bit = power2::pow2(d.round) as int;
            &&& 0 < bit
            &&& d.peer() == d.rank + bit || d.peer() == d.rank - bit
            &&& d.peer() / (2 * bit) == d.rank / (2 * bit)
            &&& 0 <= d.peer()
        }),
{
    let b = power2::pow2(d.round) as int;
    power2::lemma_pow2_pos(d.round);
    lemma_flipped_nonnegative(d.rank, b);
    vstd::arithmetic::div_mod::lemma_div_plus_one(d.rank, b);
    vstd::arithmetic::div_mod::lemma_div_minus_one(d.rank, b);
    vstd::arithmetic::div_mod::lemma_div_denominator(d.rank, b, 2);
    vstd::arithmetic::div_mod::lemma_div_denominator(d.peer(), b, 2);
    assert(b * 2 == 2 * b);
}

/// A recursive doubling is finished exactly when its rounds have covered the
/// group: in a group of `2^e` after `e` rounds, not before and not after, and
/// every rank then holds the reduction over all ranks.
pub proof fn finished_doubling_covers_the_group<T: Copy, O: Op<T>>(
    d: DoublingView,
    inputs: Seq<Seq<T>>,
    len: int,
    e: nat,
)
    requires
        d.size == inputs.len() == power2::pow2(e),
        0 <= d.rank < d.size,
        model::same_shape(inputs, len),
        op::is_associative::<T, O>(),
        op::is_commutative::<T, O>(),
    ensures
        d.finished() == (d.round >= e),
        d.round <= e && d.finished() ==> doubling_state::<T, O>(inputs, d.rank, d.round)
            == model::reduced_over_ranks::<T, O>(inputs),
        !d.finished() ==> 0 <= d.peer() < d.size,
        d.advanced().round == d.round + 1 && d.advanced().rank == d.rank && d.advanced().size
            == d.size,
{
    if d.round < e {
        power2::lemma_pow2_strictly_increases(d.round, e);
        doubling_partners_match(d.rank, d.round, e);
    } else {
        if e < d.round {
            power2::lemma_pow2_strictly_increases(e, d.round);
        }
        recursive_doubling_reduces::<T, O>(inputs, len, e, d.rank);
    }
}

/// A round combines element by element what the partner held with what the
/// rank held.
pub proof fn doubling_round_combines<T: Copy, O: Op<T>>(
    inputs: Seq<Seq<T>>,
    len: int,
    e: nat,
    rank: int,
    k: nat,
    p: int,
)
    requires
        inputs.len() == power2::pow2(e),
        model::same_shape(inputs, len),
        0 <= rank < inputs.len(),
        k < e,
        0 <= p < len,
        op::is_associative::<T, O>(),
        op::is_commutative::<T, O>(),
    ensures
        ({
            let peer = flipped(rank, power2::pow2(k) as int);
            doubling_state::<T, O>(inputs, rank, k + 1)[p] == O::combine(
                doubling_state::<T, O>(inputs, rank, k)[p],
                doubling_state::<T, O>(inputs, peer, k)[p],
            )
        }),
{
    lemma_doubling_state::<T, O>(inputs, len, e, rank, k);
}

/// After `k` rounds a rank holds the fold of its block of `2^k` ranks.
proof fn lemma_doubling_state<T: Copy, O: Op<T>>(
    inputs: Seq<Seq<T>>,
    len: int,
    e: nat,
    rank: int,
    k: nat,
)
    requires
        inputs.len() == power2::pow2(e),
        model::same_shape(inputs, len),
        0 <= rank < inputs.len(),
        k <= e,
        op::is_associative::<T, O>(),
        op::is_commutative::<T, O>(),
    ensures
        doubling_state::<T, O>(inputs, rank, k).len() == len,
        forall|p: int|
            0 <= p < len ==> #[trigger] doubling_state::<T, O>(inputs, rank, k)[p]
                == model::range_fold::<T, O>(
                inputs,
                (rank / power2::pow2(k) as int) * power2::pow2(k),
                (rank / power2::pow2(k) as int) * power2::pow2(k) + power2::pow2(k),
                p,
            ),
    decreases k,
{
    assert(inputs[rank].len() == len);
    if k == 0 {
        power2::lemma2_to64();
        assert(rank / 1 == rank);
    } else {
        let j = (k - 1) as nat;
        let b = power2::pow2(j) as int;
        let peer = flipped(rank, b);
        power2::lemma_pow2_pos(j);
        power2::lemma_pow2_unfold(k);
        doubling_partners_match(rank, j, e);
        lemma_doubling_state::<T, O>(inputs, len, e, rank, j);
        lemma_doubling_state::<T, O>(inputs, len, e, peer, j);
        let q = rank / b;
        vstd::arithmetic::div_mod::lemma_div_plus_one(rank, b);
        vstd::arithmetic::div_mod::lemma_div_minus_one(rank, b);
        vstd::arithmetic::div_mod::lemma_div_denominator(rank, b, 2);
        vstd::arithmetic::div_mod::lemma_div_pos_is_pos(rank, b);
        let h = rank / (2 * b);
        assert(b * 2 == 2 * b);
        assert(h == q / 2);
        let low = h * (2 * b);
        if q % 2 == 0 {
            assert(q * b == low && (q + 1) * b == low + b) by (nonlinear_arith)
                requires
                    q == 2 * h,
                    low == h * (2 * b),
            ;
        } else {
            assert((q - 1) * b == low && q * b == low + b) by (nonlinear_arith)
                requires
                    q == 2 * h + 1,
                    low == h * (2 * b),
            ;
        }
        assert forall|p: int| 0 <= p < len implies #[trigger] doubling_state::<T, O>(
            inputs,
            rank,
            k,
        )[p] == model::range_fold::<T, O>(inputs, low, low + 2 * b, p) by {
            let x = model::range_fold::<T, O>(inputs, low, low + b, p);
            let y = model::range_fold::<T, O>(inputs, low + b, low + 2 * b, p);
            model::lemma_range_fold_concat::<T, O>(inputs, low, low + b, low + 2 * b, p);
            assert(O::combine(x, y) == O::combine(y, x));
            assert(doubling_state::<T, O>(inputs, rank, j)[p] == if q % 2 == 0 {
                x
            } else {
                y
            });
            assert(doubling_state::<T, O>(inputs, peer, j)[p] == if q % 2 == 0 {
                y
            } else {
                x
            });
        }
    }
}

/// With an associative and commutative operator, `log2(n)` rounds leave every
/// rank with the reduction over all ranks.
pub proof fn recursive_doubling_reduces<T: Copy, O: Op<T>>(
    inputs: Seq<Seq<T>>,
    len: int,
    e: nat,
    rank: int,
)
    requires
        inputs.len() == power2::pow2(e),
        model::same_shape(inputs, len),
        0 <= rank < inputs.len(),
        op::is_associative::<T, O>(),
        op::is_commutative::<T, O>(),
    ensures
        doubling_state::<T, O>(inputs, rank, e) == model::reduced_over_ranks::<T, O>(inputs),
{
    lemma_doubling_state::<T, O>(inputs, len, e, rank, e);
    assert(inputs[0].len() == len);
    vstd::arithmetic::div_mod::lemma_basic_div(rank, inputs.len() as int);
    assert(0 * inputs.len() == 0) by (nonlinear_arith);
    assert(doubling_state::<T, O>(inputs, rank, e) =~= model::reduced_over_ranks::<T, O>(inputs));
}


/// In every round what a rank sends is what its partner receives, under the
/// same tag; the tag names sender and round, in a phase of its own.
pub proof fn doubling_messages_meet(a: DoublingView, e: nat)
    requires
        a.size == power2::pow2(e),
        0 <= a.rank < a.size,
        !a.finished(),
    ensures
        ({
            let b = DoublingView { rank: a.peer(), ..a };
            &&& 0 <= b.rank < a.size
            &&& b.peer() == a.rank
            &&& doubling_tag(a.rank, a.round as int) == tag::tag_value(
                a.rank,
                a.round as int % 0x1_0000,
                3,
                0,
            )
        }),
{
    if a.round < e {
        doubling_partners_match(a.rank, a.round, e);
    } else if e < a.round {
        power2::lemma_pow2_strictly_increases(e, a.round);
    }
}

} // verus!
