//! Bruck allgather over active messages.
//!
//! Each rank keeps the contributions that it owns at the front of the receive
//! buffer, slot `k` holding that of rank `(rank + k) % n`. A round passes the
//! first slots on and so doubles what everyone owns; a final local rotation
//! brings every contribution to its place.

use crate::collective::communicator::Communicator;
use crate::collective::error::CollectiveError;
use crate::collective::ucx_backend::am_router::{AmHeader, RecvKey};
use crate::collective::ucx_backend::communicator::UcxCommunicator;
use crate::collective::ucx_backend::model;
use crate::collective::ucx_backend::model::low16;
use crate::collective::ucx_backend::util::write_piece;
use vstd::arithmetic::power2;
use vstd::prelude::*;

verus! {

/// Phase byte of Bruck allgather headers.
pub const PHASE_BRUCK: u8 = 4;

/// Contributions that a round passes on when `count` of `n` are owned.
pub open spec fn to_send(count: int, n: int) -> int {
    if count <= n - count {
        count
    } else {
        n - count
    }
}

/// The header of what `src` sends in round `round`.
pub open spec fn bruck_header(src: int, round: int) -> AmHeader {
    AmHeader {
        src: (src % 0x1_0000) as u16,
        step: (round % 0x1_0000) as u16,
        phase: PHASE_BRUCK,
        micro_chunk: 0,
    }
}

/// `buf` with block `k` of `l` elements moved to block `(rank + k) % n`.
pub open spec fn rotated<T>(buf: Seq<T>, rank: int, n: int, l: int) -> Seq<T> {
    Seq::new(
        buf.len(),
        |p: int| buf[((p / l + n - rank % n) % n) * l + p % l],
    )
}

/// The contributions of all ranks side by side.
pub open spec fn gathered<T>(inputs: Seq<Seq<T>>, l: int) -> Seq<T> {
    Seq::new((inputs.len() * l) as nat, |p: int| inputs[p / l][p % l])
}

/// Where an allgather stands.
pub struct AllgatherView {
    /// This peer.
    pub rank: int,
    /// The number of peers.
    pub size: int,
    /// Elements per contribution.
    pub len: int,
    /// Contributions owned.
    pub count: int,
    /// Rounds done.
    pub round: int,
}

impl AllgatherView {
    /// All contributions are owned and in place.
    pub open spec fn finished(self) -> bool {
        self.count >= self.size
    }

    /// Where this round's message goes.
    pub open spec fn send_peer(self) -> int {
        (self.rank + self.size - self.count) % self.size
    }

    /// Where this round's message comes from.
    pub open spec fn recv_peer(self) -> int {
        (self.rank + self.count) % self.size
    }

    /// Elements that this round exchanges.
    pub open spec fn exchange_len(self) -> int {
        to_send(self.count, self.size) * self.len
    }

    /// One more round done.
    pub open spec fn advanced(self) -> AllgatherView {
        AllgatherView {
            count: self.count + to_send(self.count, self.size),
            round: self.round + 1,
            ..self
        }
    }
}

/// One round's messages: send the first `len` elements of the receive buffer
/// to `send_to` under `header`; receive as many under `recv_key`, which belong
/// at `recv_off`.
#[derive(Copy, Clone, Debug)]
pub struct AllgatherExchange {
    pub send_to: usize,
    pub header: AmHeader,
    pub recv_key: RecvKey,
    pub recv_off: usize,
    pub len: usize,
}

impl AllgatherExchange {
    /// These are the messages of the current round.
    pub open spec fn is_round_of(self, at: AllgatherView) -> bool {
        &&& self.send_to == at.send_peer()
        &&& self.header == bruck_header(at.rank, at.round)
        &&& self.recv_key == <RecvKey as vstd::std_specs::convert::FromSpec<
            AmHeader,
        >>::from_spec(bruck_header(at.recv_peer(), at.round))
        &&& self.recv_off == at.count * at.len
        &&& self.len == at.exchange_len()
        &&& self.len <= self.recv_off
        &&& self.recv_off + self.len <= at.size * at.len
    }
}

/// An allgather in progress.
pub struct AllgatherFuture {
    rank: usize,
    size: usize,
    len: usize,
    count: usize,
    round: usize,
}

impl View for AllgatherFuture {
    type V = AllgatherView;

    closed spec fn view(&self) -> AllgatherView {
        AllgatherView {
            rank: self.rank as int,
            size: self.size as int,
            len: self.len as int,
            count: self.count as int,
            round: self.round as int,
        }
    }
}

/// The working set after the start: the own contribution in slot 0.
pub open spec fn started<T>(recv: Seq<T>, own: Seq<T>) -> Seq<T> {
    model::overwritten(recv, 0, own)
}

/// The receive buffer after a round, given what arrived; the last round also
/// rotates every contribution to its place.
pub open spec fn after_round<T>(recv: Seq<T>, at: AllgatherView, received: Seq<T>) -> Seq<T> {
    let filled = model::overwritten(recv, at.count * at.len, received);
    if at.advanced().finished() {
        rotated(filled, at.rank, at.size, at.len)
    } else {
        filled
    }
}

/// Start an allgather of `send_buf` into `recv_buf` among the peers of `comm`.
///
/// The receive buffer must hold one contribution per peer.
pub fn bruck_allgather_typed<T: Copy, E, W, R>(
    comm: &UcxCommunicator<E, W, R>,
    send_buf: &[T],
    recv_buf: &mut [T],
) -> (r: Result<AllgatherFuture, CollectiveError>)
    requires
        0 < comm.size_view(),
        comm.rank_view() + comm.size_view() < usize::MAX,
    ensures
        ({
            let n = comm.size_view() as int;
            let fits = old(recv_buf)@.len() == send_buf@.len() * n;
            match r {
                Ok(f) => {
                    &&& fits
                    &&& f.wf()
                    &&& f@ == AllgatherView {
                        rank: comm.rank_view() as int,
                        size: n,
                        len: send_buf@.len() as int,
                        count: 1,
                        round: 0,
                    }
                    &&& final(recv_buf)@ == started(old(recv_buf)@, send_buf@)
                },
                Err(CollectiveError::BadShape) => !fits && final(recv_buf)@ == old(recv_buf)@,
                Err(_) => false,
            }
        }),
{
    let n: usize = comm.size();
    let rank: usize = comm.rank();
    let l: usize = send_buf.len();
    let total: usize = recv_buf.len();
    proof {
        vstd::arithmetic::div_mod::lemma_fundamental_div_mod(total as int, n as int);
        if total == l * n {
            assert(l * n == n * l) by (nonlinear_arith);
            vstd::arithmetic::div_mod::lemma_fundamental_div_mod_converse(
                total as int,
                n as int,
                l as int,
                0,
            );
        } else {
            assert(l * n == n * l) by (nonlinear_arith);
        }
    }
    if total / n != l || total % n != 0 {
        return Err(CollectiveError::BadShape);
    }
    proof {
        model::lemma_block_inside(0, n as int, l as int);
        assert(l * n == n * l) by (nonlinear_arith);
    }
    write_piece(recv_buf, 0, send_buf);
    Ok(AllgatherFuture { rank, size: n, len: l, count: 1, round: 0 })
}

impl AllgatherFuture {
    /// The state is one that an allgather can be in.
    pub closed spec fn wf(&self) -> bool {
        &&& self.rank + self.size < usize::MAX
        &&& self.size * self.len <= usize::MAX
        &&& 0 < self.count <= self.size
        &&& self.round < self.count
    }

    /// The messages of the next round, or `None` once all contributions are in
    /// place. The rank that this round sends to must be connected.
    pub fn next_exchange<E, W, R>(&self, comm: &UcxCommunicator<E, W, R>) -> (r: Result<
        Option<AllgatherExchange>,
        CollectiveError,
    >)
        requires
            self.wf(),
        ensures
            match r {
                Ok(None) => self@.finished(),
                Ok(Some(x)) => {
                    &&& !self@.finished()
                    &&& comm.connected_to(self@.send_peer())
                    &&& x.is_round_of(self@)
                },
                Err(CollectiveError::Protocol(m)) => {
                    &&& !self@.finished()
                    &&& !comm.connected_to(self@.send_peer())
                    &&& m@ == "bruck: missing endpoint"@
                },
                Err(_) => false,
            },
    {
        let n: usize = self.size;
        let count: usize = self.count;
        if count >= n {
            return Ok(None);
        }
        let send: usize = if count <= n - count {
            count
        } else {
            n - count
        };
        let send_peer: usize = (self.rank + n - count) % n;
        let recv_peer: usize = (self.rank + count) % n;
        proof {
            lemma_exchange_inside(count as int, n as int, self.len as int);
        }
        if comm.endpoint(send_peer).is_none() {
            return Err(CollectiveError::Protocol("bruck: missing endpoint"));
        }
        let header = AmHeader {
            src: low16(self.rank),
            step: low16(self.round),
            phase: PHASE_BRUCK,
            micro_chunk: 0,
        };
        let expected = AmHeader {
            src: low16(recv_peer),
            step: low16(self.round),
            phase: PHASE_BRUCK,
            micro_chunk: 0,
        };
        Ok(
            Some(
                AllgatherExchange {
                    send_to: send_peer,
                    header,
                    recv_key: RecvKey::from(expected),
                    recv_off: count * self.len,
                    len: send * self.len,
                },
            ),
        )
    }

    /// Store what arrived in the current round; after the last round bring
    /// every contribution to its place.
    pub fn complete<T: Copy>(&mut self, recv_buf: &mut [T], received: &[T])
        requires
            old(self).wf(),
            !old(self)@.finished(),
            old(recv_buf)@.len() == old(self)@.size * old(self)@.len,
            received@.len() == old(self)@.exchange_len(),
        ensures
            final(self).wf(),
            final(self)@ == old(self)@.advanced(),
            final(recv_buf)@ == after_round(old(recv_buf)@, old(self)@, received@),
    {
        let n: usize = self.size;
        let count: usize = self.count;
        let send: usize = if count <= n - count {
            count
        } else {
            n - count
        };
        proof {
            lemma_exchange_inside(count as int, n as int, self.len as int);
        }
        write_piece(recv_buf, count * self.len, received);
        self.count = count + send;
        self.round = self.round + 1;
        if self.count == n {
            rotate_blocks(recv_buf, self.rank, n, self.len);
        }
    }
}

/// A round's pieces lie inside the receive buffer and apart from each other.
proof fn lemma_exchange_inside(count: int, n: int, l: int)
    requires
        0 < count < n,
        0 <= l,
    ensures
        0 <= to_send(count, n) * l <= count * l,
        0 <= count * l,
        count * l + to_send(count, n) * l == (count + to_send(count, n)) * l,
        count * l + to_send(count, n) * l <= n * l,
{
    let s = to_send(count, n);
    assert(0 <= s * l <= count * l && count * l + s * l == (count + s) * l && (count + s) * l <= n
        * l) by (nonlinear_arith)
        requires
            0 < s <= count,
            count + s <= n,
            0 <= l,
    ;
}

/// Move block `k` of `l` elements to block `(rank + k) % n`, for every `k`.
pub fn rotate_blocks<T: Copy>(buf: &mut [T], rank: usize, n: usize, l: usize)
    requires
        0 < n,
        n < usize::MAX,
        old(buf)@.len() == n * l,
    ensures
        final(buf)@ == rotated(old(buf)@, rank as int, n as int, l as int),
{
    let ghost start = buf@;
    let total: usize = buf.len();
    let shift: usize = rank % n;
    let mut turned: Vec<T> = Vec::new();
    let mut g: usize = 0;
    while g < n
        invariant
            0 < n < usize::MAX,
            g <= n,
            shift == rank % n,
            buf@ == start,
            start.len() == n * l == total,
            turned@.len() == g * l,
            forall|p: int|
                0 <= p < g * l ==> #[trigger] turned@[p] == rotated(
                    start,
                    rank as int,
                    n as int,
                    l as int,
                )[p],
        decreases n - g,
    {
        let k: usize = if g >= shift {
            g - shift
        } else {
            g + (n - shift)
        };
        proof {
            model::lemma_wrap(g + n - shift, n as int);
            model::lemma_block_inside(k as int, n as int, l as int);
            model::lemma_block_inside(g as int, n as int, l as int);
        }
        let from: usize = k * l;
        let mut i: usize = 0;
        while i < l
            invariant
                i <= l,
                g < n,
                0 < n,
                k == (g + n - rank % n) % n as int,
                from == k * l,
                from + l <= start.len(),
                buf@ == start,
                start.len() == n * l == total,
                0 <= g * l,
                g * l + l <= n * l,
                turned@.len() == g * l + i,
                forall|p: int|
                    0 <= p < g * l + i ==> #[trigger] turned@[p] == rotated(
                        start,
                        rank as int,
                        n as int,
                        l as int,
                    )[p],
            decreases l - i,
        {
            proof {
                let p = g * l + i;
                model::lemma_block_of(p, g as int, l as int);
                vstd::arithmetic::div_mod::lemma_fundamental_div_mod(p, l as int);
                assert(l * g == g * l) by (nonlinear_arith);
            }
            turned.push(buf[from + i]);
            i += 1;
        }
        g += 1;
        proof {
            assert(g * l == (g - 1) * l + l) by (nonlinear_arith)
                requires
                    g > 0,
            ;
        }
    }
    write_piece(buf, 0, turned.as_slice());
    assert(buf@ =~= rotated(start, rank as int, n as int, l as int));
}

/// Contributions owned after `k` rounds.
pub open spec fn owned(n: int, k: nat) -> int
    decreases k,
{
    if k == 0 {
        1
    } else {
        let before = owned(n, (k - 1) as nat);
        before + to_send(before, n)
    }
}

/// Where `rank` stands after `k` rounds.
pub open spec fn view_after(rank: int, n: int, l: int, k: nat) -> AllgatherView {
    AllgatherView { rank, size: n, len: l, count: owned(n, k), round: k as int }
}

/// The receive buffer of `rank` after `k` rounds in which every rank stored
/// what its peer sent: the peer's first slots after as many rounds. `garbage`
/// is what the buffer held before.
pub open spec fn bruck_state<T>(
    inputs: Seq<Seq<T>>,
    garbage: Seq<Seq<T>>,
    l: int,
    rank: int,
    k: nat,
) -> Seq<T>
    decreases k,
{
    let n = inputs.len() as int;
    if k == 0 {
        started(garbage[rank], inputs[rank])
    } else {
        let j = (k - 1) as nat;
        let at = view_after(rank, n, l, j);
        after_round(
            bruck_state(inputs, garbage, l, rank, j),
            at,
            model::piece(
                bruck_state(inputs, garbage, l, at.recv_peer(), j),
                0,
                at.exchange_len(),
            ),
        )
    }
}

/// In every round a rank sends to the one that receives from it: the sender
/// that a receiver waits for sends to it.
pub proof fn bruck_peers_match(rank: int, n: int, l: int, k: nat)
    requires
        0 <= rank < n,
        0 < owned(n, k) < n,
    ensures
        ({
            let at = view_after(rank, n, l, k);
            let from = at.recv_peer();
            &&& 0 <= from < n
            &&& view_after(from, n, l, k).send_peer() == rank
            &&& view_after(from, n, l, k).exchange_len() == at.exchange_len()
        }),
{
    let count = owned(n, k);
    model::lemma_wrap(rank + count, n);
    let from = (rank + count) % n;
    model::lemma_wrap(from + n - count, n);
}

/// The number owned grows until all are owned.
proof fn lemma_owned_bounds(n: int, k: nat)
    requires
        0 < n,
    ensures
        0 < owned(n, k) <= n,
        owned(n, k) < n ==> owned(n, k) > k,
    decreases k,
{
    if k > 0 {
        lemma_owned_bounds(n, (k - 1) as nat);
    }
}

/// After `k` rounds the slots that are owned hold the contributions of the
/// ranks from this one on, in order and wrapping around.
pub proof fn bruck_holds_consecutive<T>(
    inputs: Seq<Seq<T>>,
    garbage: Seq<Seq<T>>,
    l: int,
    rank: int,
    k: nat,
)
    requires
        1 < inputs.len(),
        0 < l,
        model::same_shape(inputs, l),
        garbage.len() == inputs.len(),
        model::same_shape(garbage, inputs.len() * l),
        0 <= rank < inputs.len(),
        owned(inputs.len() as int, k) < inputs.len(),
    ensures
        bruck_state(inputs, garbage, l, rank, k).len() == inputs.len() * l,
        forall|p: int|
            0 <= p < owned(inputs.len() as int, k) * l ==> #[trigger] bruck_state(
                inputs,
                garbage,
                l,
                rank,
                k,
            )[p] == inputs[(rank + p / l) % (inputs.len() as int)][p % l],
    decreases k, 0nat,
{
    let n = inputs.len() as int;
    assert(inputs[rank].len() == l);
    assert(garbage[rank].len() == n * l);
    if k == 0 {
        assert forall|p: int| 0 <= p < 1 * l implies #[trigger] bruck_state(
            inputs,
            garbage,
            l,
            rank,
            k,
        )[p] == inputs[(rank + p / l) % n][p % l] by {
            model::lemma_block_inside(0, n, l);
            vstd::arithmetic::div_mod::lemma_basic_div(p, l);
            vstd::arithmetic::div_mod::lemma_small_mod(p as nat, l as nat);
            model::lemma_wrap(rank, n);
        }
    } else {
        let j = (k - 1) as nat;
        lemma_owned_bounds(n, j);
        lemma_filled(inputs, garbage, l, rank, j);
    }
}

/// What a round stores: with the contributions received, the slots hold those
/// of the ranks from this one on.
proof fn lemma_filled<T>(
    inputs: Seq<Seq<T>>,
    garbage: Seq<Seq<T>>,
    l: int,
    rank: int,
    j: nat,
)
    requires
        1 < inputs.len(),
        0 < l,
        model::same_shape(inputs, l),
        garbage.len() == inputs.len(),
        model::same_shape(garbage, inputs.len() * l),
        0 <= rank < inputs.len(),
        0 < owned(inputs.len() as int, j) < inputs.len(),
    ensures
        ({
            let n = inputs.len() as int;
            let at = view_after(rank, n, l, j);
            let filled = model::overwritten(
                bruck_state(inputs, garbage, l, rank, j),
                at.count * l,
                model::piece(
                    bruck_state(inputs, garbage, l, at.recv_peer(), j),
                    0,
                    at.exchange_len(),
                ),
            );
            &&& filled.len() == n * l
            &&& forall|p: int|
                0 <= p < at.advanced().count * l ==> #[trigger] filled[p] == inputs[(rank + p / l)
                    % n][p % l]
        }),
    decreases j, 1nat,
{
    let n = inputs.len() as int;
    let at = view_after(rank, n, l, j);
    let count = at.count;
    let s = to_send(count, n);
    let from = at.recv_peer();
    bruck_peers_match(rank, n, l, j);
    lemma_exchange_inside(count, n, l);
    bruck_holds_consecutive(inputs, garbage, l, rank, j);
    bruck_holds_consecutive(inputs, garbage, l, from, j);
    let mine = bruck_state(inputs, garbage, l, rank, j);
    let theirs = bruck_state(inputs, garbage, l, from, j);
    let filled = model::overwritten(mine, count * l, model::piece(theirs, 0, s * l));
    assert forall|p: int| 0 <= p < (count + s) * l implies #[trigger] filled[p] == inputs[(rank + p
        / l) % n][p % l] by {
        if p >= count * l {
            let q = p - count * l;
            assert(filled[p] == theirs[q]);
            assert(theirs[q] == inputs[(from + q / l) % n][q % l]);
            vstd::arithmetic::div_mod::lemma_hoist_over_denominator(p, -count, l as nat);
            assert(p - count * l == p + (-count) * l) by (nonlinear_arith);
            vstd::arithmetic::div_mod::lemma_fundamental_div_mod(p, l);
            vstd::arithmetic::div_mod::lemma_fundamental_div_mod(q, l);
            let b = p / l;
            assert(q / l == b - count);
            assert(l * (b - count) == l * b - count * l) by (nonlinear_arith);
            assert(q % l == p % l);
            model::lemma_block_index(p, count + s, l);
            vstd::arithmetic::div_mod::lemma_div_pos_is_pos(q, l);
            model::lemma_wrap(rank + count, n);
            model::lemma_wrap(from + (b - count), n);
            model::lemma_wrap(rank + b, n);
        } else {
            assert(filled[p] == mine[p]);
        }
    }
}

/// Empty buffers stay empty.
proof fn lemma_bruck_empty<T>(inputs: Seq<Seq<T>>, garbage: Seq<Seq<T>>, rank: int, k: nat)
    requires
        model::same_shape(garbage, 0),
        garbage.len() == inputs.len(),
        0 <= rank < inputs.len(),
    ensures
        bruck_state(inputs, garbage, 0, rank, k).len() == 0,
    decreases k,
{
    if k == 0 {
        assert(garbage[rank].len() == 0);
    } else {
        lemma_bruck_empty(inputs, garbage, rank, (k - 1) as nat);
    }
}

/// An allgather leaves every rank with the contribution of rank `r` at
/// `r * l`, for every `r`, whatever its receive buffer held before.
pub proof fn bruck_gathers<T>(
    inputs: Seq<Seq<T>>,
    garbage: Seq<Seq<T>>,
    l: int,
    rank: int,
    k: nat,
)
    requires
        0 < inputs.len(),
        0 <= l,
        model::same_shape(inputs, l),
        garbage.len() == inputs.len(),
        model::same_shape(garbage, inputs.len() * l),
        0 <= rank < inputs.len(),
        owned(inputs.len() as int, k) == inputs.len(),
        k > 0 ==> owned(inputs.len() as int, (k - 1) as nat) < inputs.len(),
    ensures
        bruck_state(inputs, garbage, l, rank, k) == gathered(inputs, l),
{
    let n = inputs.len() as int;
    let result = bruck_state(inputs, garbage, l, rank, k);
    assert(inputs[rank].len() == l);
    assert(garbage[rank].len() == n * l);
    if l == 0 {
        assert(n * 0 == 0) by (nonlinear_arith);
        lemma_bruck_empty(inputs, garbage, rank, k);
        assert(result =~= gathered(inputs, l));
    } else if k == 0 {
        assert(n == 1);
        assert forall|p: int| 0 <= p < l implies #[trigger] result[p] == gathered(inputs, l)[p] by {
            vstd::arithmetic::div_mod::lemma_basic_div(p, l);
            vstd::arithmetic::div_mod::lemma_small_mod(p as nat, l as nat);
        }
        assert(result =~= gathered(inputs, l));
    } else {
        let j = (k - 1) as nat;
        lemma_owned_bounds(n, j);
        let at = view_after(rank, n, l, j);
        lemma_filled(inputs, garbage, l, rank, j);
        let filled = model::overwritten(
            bruck_state(inputs, garbage, l, rank, j),
            at.count * l,
            model::piece(
                bruck_state(inputs, garbage, l, at.recv_peer(), j),
                0,
                at.exchange_len(),
            ),
        );
        assert(result == rotated(filled, rank, n, l));
        assert forall|p: int| 0 <= p < n * l implies #[trigger] result[p] == gathered(
            inputs,
            l,
        )[p] by {
            model::lemma_block_index(p, n, l);
            model::lemma_wrap(rank, n);
            let b = (p / l + n - rank) % n;
            model::lemma_wrap(p / l + n - rank, n);
            let q = b * l + p % l;
            model::lemma_block_inside(b, n, l);
            vstd::arithmetic::div_mod::lemma_mod_bound(p, l);
            model::lemma_block_of(q, b, l);
            vstd::arithmetic::div_mod::lemma_fundamental_div_mod(q, l);
            assert(l * b == b * l) by (nonlinear_arith);
            model::lemma_wrap(rank + b, n);
            assert(filled[q] == inputs[(rank + q / l) % n][q % l]);
        }
        assert(result =~= gathered(inputs, l));
    }
}

/// Every round doubles what is owned, until everything is: after `k` rounds a
/// rank owns `2^k` contributions, or all of them if there are no more.
pub proof fn bruck_doubles(n: int, k: nat)
    requires
        0 < n,
    ensures
        owned(n, k) == if power2::pow2(k) <= n {
            power2::pow2(k) as int
        } else {
            n
        },
    decreases k,
{
    if k == 0 {
        power2::lemma2_to64();
    } else {
        bruck_doubles(n, (k - 1) as nat);
        power2::lemma_pow2_unfold(k);
    }
}


/// A round passes on as much as it can: what is owned doubles, or becomes
/// everything.
pub proof fn round_doubles_or_completes(at: AllgatherView)
    requires
        0 < at.count < at.size,
    ensures
        at.advanced().count == if 2 * at.count <= at.size {
            2 * at.count
        } else {
            at.size
        },
        at.advanced().round == at.round + 1,
        at.advanced().rank == at.rank,
        at.advanced().size == at.size,
        at.advanced().len == at.len,
        at.exchange_len() == (at.advanced().count - at.count) * at.len,
{
}

/// The allgather is finished as soon as the rounds have doubled one contribution
/// to all of them, and not before; every contribution then stands in its place.
pub proof fn finished_bruck_has_gathered<T>(
    inputs: Seq<Seq<T>>,
    garbage: Seq<Seq<T>>,
    l: int,
    rank: int,
    k: nat,
)
    requires
        0 < inputs.len(),
        0 <= l,
        model::same_shape(inputs, l),
        garbage.len() == inputs.len(),
        model::same_shape(garbage, inputs.len() * l),
        0 <= rank < inputs.len(),
        k > 0 ==> !view_after(rank, inputs.len() as int, l, (k - 1) as nat).finished(),
    ensures
        view_after(rank, inputs.len() as int, l, k).finished() <==> power2::pow2(k)
            >= inputs.len(),
        view_after(rank, inputs.len() as int, l, k).finished() ==> {
            &&& bruck_state(inputs, garbage, l, rank, k).len() == inputs.len() * l
            &&& forall|r: int, i: int|
                0 <= r < inputs.len() && 0 <= i < l ==> bruck_state(
                    inputs,
                    garbage,
                    l,
                    rank,
                    k,
                )[r * l + i] == #[trigger] inputs[r][i]
        },
{
    let n = inputs.len() as int;
    bruck_doubles(n, k);
    lemma_owned_bounds(n, k);
    if k > 0 {
        lemma_owned_bounds(n, (k - 1) as nat);
    }
    if view_after(rank, n, l, k).finished() {
        bruck_gathers(inputs, garbage, l, rank, k);
        assert(0 <= n * l) by (nonlinear_arith)
            requires
                0 < n,
                0 <= l,
        ;
        assert forall|r: int, i: int| 0 <= r < n && 0 <= i < l implies bruck_state(
            inputs,
            garbage,
            l,
            rank,
            k,
        )[r * l + i] == #[trigger] inputs[r][i] by {
            gathered_side_by_side(inputs, l, r, i);
        }
    }
}

/// Gathered contributions stand side by side, that of rank `r` at `r * l`.
pub proof fn gathered_side_by_side<T>(inputs: Seq<Seq<T>>, l: int, r: int, i: int)
    requires
        0 <= r < inputs.len(),
        0 <= i < l,
    ensures
        gathered(inputs, l).len() == inputs.len() * l,
        0 <= r * l + i < inputs.len() * l,
        gathered(inputs, l)[r * l + i] == inputs[r][i],
{
    let p = r * l + i;
    model::lemma_block_inside(r, inputs.len() as int, l);
    model::lemma_block_of(p, r, l);
    vstd::arithmetic::div_mod::lemma_fundamental_div_mod(p, l);
    assert(l * r == r * l) by (nonlinear_arith);
}

/// The rotation moves block `k` as a whole, `rank` blocks further on, past the
/// end to the front.
pub proof fn rotation_moves_blocks<T>(buf: Seq<T>, rank: int, n: int, l: int, k: int, i: int)
    requires
        0 <= rank < n,
        0 <= k < n,
        0 <= i < l,
        buf.len() == n * l,
    ensures
        ({
            let to = if k + rank < n {
                k + rank
            } else {
                k + rank - n
            };
            &&& rotated(buf, rank, n, l).len() == buf.len()
            &&& 0 <= to * l + i < buf.len()
            &&& rotated(buf, rank, n, l)[to * l + i] == buf[k * l + i]
        }),
{
    let to = if k + rank < n {
        k + rank
    } else {
        k + rank - n
    };
    let p = to * l + i;
    model::lemma_block_inside(to, n, l);
    model::lemma_block_of(p, to, l);
    vstd::arithmetic::div_mod::lemma_fundamental_div_mod(p, l);
    assert(l * to == to * l) by (nonlinear_arith);
    model::lemma_wrap(rank, n);
    model::lemma_wrap(to + n - rank, n);
}

/// A round stores what arrived behind what was owned, and leaves that as it
/// was; only the last round also rotates.
pub proof fn round_stores_behind<T>(
    recv: Seq<T>,
    at: AllgatherView,
    received: Seq<T>,
    p: int,
)
    requires
        0 < at.count < at.size,
        0 <= at.len,
        recv.len() == at.size * at.len,
        received.len() == at.exchange_len(),
        0 <= p < recv.len(),
        2 * at.count < at.size,
    ensures
        ({
            let after = after_round(recv, at, received);
            let from = at.count * at.len;
            &&& after.len() == recv.len()
            &&& from <= p < 2 * from ==> after[p] == received[p - from]
            &&& p < from || 2 * from <= p ==> after[p] == recv[p]
        }),
{
    lemma_exchange_inside(at.count, at.size, at.len);
}

/// At the start a rank's own contribution stands in front, and the rest of the
/// buffer is as it was.
pub proof fn start_puts_the_own_in_front<T>(recv: Seq<T>, own: Seq<T>, p: int)
    requires
        own.len() <= recv.len(),
        0 <= p < recv.len(),
    ensures
        started(recv, own).len() == recv.len(),
        started(recv, own)[p] == if p < own.len() {
            own[p]
        } else {
            recv[p]
        },
{
}

/// In every round what a rank sends is what the rank `count` places before it
/// receives: the same key and the same length. The header names the sender and
/// the round, in a phase of its own.
pub proof fn bruck_messages_meet(
    a: AllgatherView,
    b: AllgatherView,
    x: AllgatherExchange,
    y: AllgatherExchange,
)
    requires
        0 < a.count < a.size,
        0 <= a.rank < a.size,
        b.rank == if a.rank >= a.count {
            a.rank - a.count
        } else {
            a.rank - a.count + a.size
        },
        b == (AllgatherView { rank: b.rank, ..a }),
        0 <= a.round,
        x.is_round_of(a),
        y.is_round_of(b),
    ensures
        x.send_to == b.rank,
        y.recv_key == <RecvKey as vstd::std_specs::convert::FromSpec<AmHeader>>::from_spec(x.header),
        x.len == y.len,
        y.recv_off == a.count * a.len,
        x.header.src == a.rank % 0x1_0000,
        x.header.step == a.round % 0x1_0000,
        x.header.phase == 4,
        x.header.micro_chunk == 0,
{
    model::lemma_wrap(a.rank + a.size - a.count, a.size);
    model::lemma_wrap(b.rank + a.count, a.size);
}

} // verus!
