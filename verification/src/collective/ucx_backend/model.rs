//! The mathematics that the collective algorithms are stated in: positions on
//! a ring of ranks, pieces of a buffer, and the reduction over all ranks.

use crate::collective::op;
use crate::collective::op::Op;
use vstd::prelude::*;

verus! {

/// `buf` with the elements from `off` on replaced by `data`.
pub open spec fn overwritten<T>(buf: Seq<T>, off: int, data: Seq<T>) -> Seq<T> {
    Seq::new(
        buf.len(),
        |p: int|
            if off <= p < off + data.len() {
                data[p - off]
            } else {
                buf[p]
            },
    )
}

/// The `len` elements of `buf` from `off` on.
pub open spec fn piece<T>(buf: Seq<T>, off: int, len: int) -> Seq<T> {
    buf.subrange(off, off + len)
}

/// The reduction at position `p` over the ranks `from..to`, left to right.
pub open spec fn range_fold<T: Copy, O: Op<T>>(
    inputs: Seq<Seq<T>>,
    from: int,
    to: int,
    p: int,
) -> T
    decreases to - from,
{
    if to <= from + 1 {
        inputs[from][p]
    } else {
        O::combine(range_fold::<T, O>(inputs, from, to - 1, p), inputs[to - 1][p])
    }
}

/// What an allreduce owes every rank: at each position the reduction over the
/// inputs of all ranks.
pub open spec fn reduced_over_ranks<T: Copy, O: Op<T>>(inputs: Seq<Seq<T>>) -> Seq<T> {
    Seq::new(inputs[0].len(), |p: int| range_fold::<T, O>(inputs, 0, inputs.len() as int, p))
}

/// Every rank brings a buffer of `len` elements.
pub open spec fn same_shape<T>(inputs: Seq<Seq<T>>, len: int) -> bool {
    forall|r: int| 0 <= r < inputs.len() ==> #[trigger] inputs[r].len() == len
}

/// Two adjacent ranges of ranks fold to the fold of their union.
pub proof fn lemma_range_fold_concat<T: Copy, O: Op<T>>(
    inputs: Seq<Seq<T>>,
    from: int,
    mid: int,
    to: int,
    p: int,
)
    requires
        op::is_associative::<T, O>(),
        from < mid < to,
    ensures
        O::combine(
            range_fold::<T, O>(inputs, from, mid, p),
            range_fold::<T, O>(inputs, mid, to, p),
        ) == range_fold::<T, O>(inputs, from, to, p),
    decreases to - mid,
{
    if to > mid + 1 {
        lemma_range_fold_concat::<T, O>(inputs, from, mid, to - 1, p);
        let a = range_fold::<T, O>(inputs, from, mid, p);
        let b = range_fold::<T, O>(inputs, mid, to - 1, p);
        let c = inputs[to - 1][p];
        assert(O::combine(a, O::combine(b, c)) == O::combine(O::combine(a, b), c));
    }
}

/// Reduction of a number below `3 * n` modulo `n`.
pub proof fn lemma_wrap(x: int, n: int)
    requires
        0 < n,
        0 <= x < 3 * n,
    ensures
        x % n == if x < n {
            x
        } else if x < 2 * n {
            x - n
        } else {
            x - 2 * n
        },
{
    vstd::arithmetic::div_mod::lemma_small_mod(
        (if x < n {
            x
        } else if x < 2 * n {
            x - n
        } else {
            x - 2 * n
        }) as nat,
        n as nat,
    );
    vstd::arithmetic::div_mod::lemma_mod_sub_multiples_vanish(x, n);
    vstd::arithmetic::div_mod::lemma_mod_sub_multiples_vanish(x - n, n);
}

/// Position `p` lies in the `c`-th block of `len` elements exactly when `c` is
/// the quotient.
pub proof fn lemma_block_of(p: int, c: int, len: int)
    requires
        0 < len,
    ensures
        (c * len <= p < c * len + len) <==> p / len == c,
{
    vstd::arithmetic::div_mod::lemma_fundamental_div_mod(p, len);
    let q = p / len;
    assert(len * q == q * len) by (nonlinear_arith);
    if c < q {
        assert((c + 1) * len <= q * len) by (nonlinear_arith)
            requires
                c + 1 <= q,
                0 < len,
        ;
        assert((c + 1) * len == c * len + len) by (nonlinear_arith);
    } else if c > q {
        assert((q + 1) * len <= c * len) by (nonlinear_arith)
            requires
                q + 1 <= c,
                0 < len,
        ;
        assert((q + 1) * len == q * len + len) by (nonlinear_arith);
    }
}

/// The `c`-th of `n` blocks of `len` elements lies inside `n * len` elements.
pub proof fn lemma_block_inside(c: int, n: int, len: int)
    requires
        0 <= c < n,
        0 <= len,
    ensures
        0 <= c * len,
        c * len + len <= n * len,
{
    assert(0 <= c * len && c * len + len <= n * len) by (nonlinear_arith)
        requires
            0 <= c < n,
            0 <= len,
    ;
}

/// A position among `n` blocks of `len` elements lies in one of the `n` blocks.
pub proof fn lemma_block_index(p: int, n: int, len: int)
    requires
        0 <= p < n * len,
        0 < len,
    ensures
        0 <= p / len < n,
{
    vstd::arithmetic::div_mod::lemma_div_pos_is_pos(p, len);
    vstd::arithmetic::div_mod::lemma_fundamental_div_mod(p, len);
    let q = p / len;
    assert(q < n) by (nonlinear_arith)
        requires
            p == len * q + p % len,
            0 <= p % len,
            p < n * len,
            0 < len,
    ;
}

/// The sixteen low bits of a step number, as message tags carry it.
pub fn low16(x: usize) -> (r: u16)
    ensures
        r == x % 0x1_0000,
{
    let r: u16 = x as u16;
    assert(r == x % 0x1_0000) by (bit_vector)
        requires
            r == x as u16,
    ;
    r
}

/// `(a + b) % n` for `a` and `b` below `n`.
pub fn add_modulo(a: usize, b: usize, n: usize) -> (r: usize)
    requires
        a < n,
        b < n,
    ensures
        r == (a + b) % n as int,
{
    proof {
        lemma_wrap(a + b, n as int);
    }
    if a < n - b {
        a + b
    } else {
        a - (n - b)
    }
}

/// Whether `n` is a power of two.
pub fn is_power_of_two(n: usize) -> (r: bool)
    ensures
        r == vstd::arithmetic::power2::is_pow2(n as int),
{
    proof {
        reveal(vstd::arithmetic::power2::is_pow2);
    }
    if n == 0 {
        return false;
    }
    let mut m: usize = n;
    while m % 2 == 0
        invariant
            0 < m,
            vstd::arithmetic::power2::is_pow2(m as int) == vstd::arithmetic::power2::is_pow2(
                n as int,
            ),
        decreases m,
    {
        proof {
            reveal(vstd::arithmetic::power2::is_pow2);
        }
        m = m / 2;
    }
    m == 1
}

/// The next power of two after one below a power of two does not pass it.
pub proof fn lemma_pow2_next(e: nat, n: int)
    requires
        vstd::arithmetic::power2::is_pow2(n),
        vstd::arithmetic::power2::pow2(e) < n,
    ensures
        vstd::arithmetic::power2::pow2(e + 1) <= n,
{
    vstd::arithmetic::power2::is_pow2_equiv(n);
    let top = choose|i: nat| vstd::arithmetic::power::pow(2, i) == n;
    vstd::arithmetic::power2::lemma_pow2(top);
    if top <= e {
        if top < e {
            vstd::arithmetic::power2::lemma_pow2_strictly_increases(top, e);
        }
    } else if e + 1 < top {
        vstd::arithmetic::power2::lemma_pow2_strictly_increases(e + 1, top);
    }
}

/// An exponent is below its power of two.
pub proof fn lemma_pow2_exceeds(e: nat)
    ensures
        e < vstd::arithmetic::power2::pow2(e),
    decreases e,
{
    vstd::arithmetic::power2::lemma2_to64();
    if e > 0 {
        vstd::arithmetic::power2::lemma_pow2_unfold(e);
        lemma_pow2_exceeds((e - 1) as nat);
    }
}


/// A write replaces the positions of its piece, each by its own element, and
/// no other.
pub proof fn write_stays_in_its_place<T>(buf: Seq<T>, off: int, data: Seq<T>, p: int)
    requires
        0 <= off,
        off + data.len() <= buf.len(),
        0 <= p < buf.len(),
    ensures
        overwritten(buf, off, data).len() == buf.len(),
        p < off || off + data.len() <= p ==> overwritten(buf, off, data)[p] == buf[p],
        off <= p < off + data.len() ==> overwritten(buf, off, data)[p] == data[p - off],
{
}

/// What is written is what is read back from there.
pub proof fn write_reads_back<T>(buf: Seq<T>, off: int, data: Seq<T>)
    requires
        0 <= off,
        off + data.len() <= buf.len(),
    ensures
        piece(overwritten(buf, off, data), off, data.len() as int) == data,
        overwritten(buf, off, piece(buf, off, data.len() as int)) == buf,
{
    assert(piece(overwritten(buf, off, data), off, data.len() as int) =~= data);
    assert(overwritten(buf, off, piece(buf, off, data.len() as int)) =~= buf);
}

/// A piece holds the elements from its place on, in order.
pub proof fn piece_is_in_order<T>(buf: Seq<T>, off: int, len: int, i: int)
    requires
        0 <= off,
        off + len <= buf.len(),
        0 <= i < len,
    ensures
        piece(buf, off, len).len() == len,
        piece(buf, off, len)[i] == buf[off + i],
{
}

/// The reduction takes in every rank once: that of one rank is its own value,
/// and each further rank is combined with those before it.
pub proof fn reduction_takes_in_every_rank<T: Copy, O: Op<T>>(
    inputs: Seq<Seq<T>>,
    from: int,
    to: int,
    p: int,
)
    requires
        0 <= from < to < inputs.len(),
    ensures
        range_fold::<T, O>(inputs, from, from + 1, p) == inputs[from][p],
        range_fold::<T, O>(inputs, from, to + 1, p) == O::combine(
            range_fold::<T, O>(inputs, from, to, p),
            inputs[to][p],
        ),
{
}

/// What an allreduce owes: as many elements as every rank brought, each the
/// reduction of that position over all ranks.
pub proof fn allreduce_owes_every_position<T: Copy, O: Op<T>>(
    inputs: Seq<Seq<T>>,
    len: int,
    p: int,
)
    requires
        0 < inputs.len(),
        same_shape(inputs, len),
        0 <= p < len,
    ensures
        reduced_over_ranks::<T, O>(inputs).len() == len,
        inputs.len() == 1 ==> reduced_over_ranks::<T, O>(inputs)[p] == inputs[0][p],
        inputs.len() > 1 ==> reduced_over_ranks::<T, O>(inputs)[p] == O::combine(
            reduced_over_ranks::<T, O>(inputs.drop_last())[p],
            inputs.last()[p],
        ),
{
    assert(inputs[0].len() == len);
    let front = inputs.drop_last();
    if inputs.len() > 1 {
        assert(front[0] == inputs[0]);
        lemma_fold_of_front::<T, O>(inputs, front.len() as int, p);
    }
}

/// A fold over the first ranks does not see the last one.
proof fn lemma_fold_of_front<T: Copy, O: Op<T>>(inputs: Seq<Seq<T>>, to: int, p: int)
    requires
        0 < to < inputs.len(),
    ensures
        range_fold::<T, O>(inputs, 0, to, p) == range_fold::<T, O>(inputs.drop_last(), 0, to, p),
    decreases to,
{
    if to > 1 {
        lemma_fold_of_front::<T, O>(inputs, to - 1, p);
    }
}

/// An allreduce by `u32` addition owes the sum over all ranks modulo `2^32`.
pub proof fn sum_allreduce_adds_up(inputs: Seq<Seq<u32>>, to: int, p: int)
    requires
        0 < to <= inputs.len(),
    ensures
        range_fold::<u32, crate::collective::op::Sum>(inputs, 0, to, p) == rank_sum(inputs, to, p)
            % 0x1_0000_0000,
    decreases to,
{
    if to > 1 {
        sum_allreduce_adds_up(inputs, to - 1, p);
        vstd::arithmetic::div_mod::lemma_add_mod_noop(
            rank_sum(inputs, to - 1, p),
            inputs[to - 1][p] as int,
            0x1_0000_0000,
        );
    }
    assert(rank_sum(inputs, 0, p) == 0);
}

/// The sum of position `p` over the first `to` ranks.
pub open spec fn rank_sum(inputs: Seq<Seq<u32>>, to: int, p: int) -> int
    decreases to,
{
    if to <= 0 {
        0
    } else {
        rank_sum(inputs, to - 1, p) + inputs[to - 1][p]
    }
}

} // verus!
