//! Reduction operators for collectives.

use vstd::prelude::*;

verus! {

/// The element-wise combination of two equally long sequences.
pub open spec fn reduced<T: Copy, O: Op<T>>(dst: Seq<T>, src: Seq<T>) -> Seq<T> {
    Seq::new(dst.len(), |i: int| O::combine(dst[i], src[i]))
}

/// Whether `O` may be regrouped freely.
pub open spec fn is_associative<T: Copy, O: Op<T>>() -> bool {
    forall|a: T, b: T, c: T|
        #![trigger O::combine(a, O::combine(b, c))]
        #![trigger O::combine(O::combine(a, b), c)]
        O::combine(a, O::combine(b, c)) == O::combine(O::combine(a, b), c)
}

/// Whether the operands of `O` may be swapped.
pub open spec fn is_commutative<T: Copy, O: Op<T>>() -> bool {
    forall|a: T, b: T| #[trigger] O::combine(a, b) == O::combine(b, a)
}

/// A reduction operator over values of `T`.
pub trait Op<T: Copy>: Copy + 'static {
    /// What `apply` computes.
    spec fn combine(a: T, b: T) -> T;

    /// What `identity` returns.
    spec fn neutral() -> T;

    /// Combine two values.
    fn apply(a: T, b: T) -> (r: T)
        ensures
            r == Self::combine(a, b),
    ;

    /// The operator's identity element.
    fn identity() -> (r: T)
        ensures
            r == Self::neutral(),
    ;

    /// In-place bulk reduce: `dst[i] = apply(dst[i], src[i])`.
    ///
    /// The body walks whole lanes of eight elements first, so that the
    /// compiler can vectorise the fixed-length inner loop, then the rest.
    fn reduce_in_place(dst: &mut [T], src: &[T])
        requires
            old(dst)@.len() == src@.len(),
        ensures
            final(dst)@.len() == old(dst)@.len(),
            forall|i: int|
                0 <= i < src@.len() ==> #[trigger] final(dst)@[i] == Self::combine(
                    old(dst)@[i],
                    src@[i],
                ),
    {
        let ghost start = dst@;
        let len: usize = dst.len();
        let whole: usize = len - len % LANES;
        let mut base: usize = 0;
        while base < whole
            invariant
                len == start.len() == src@.len() == dst@.len(),
                base <= whole <= len,
                base % LANES == 0,
                whole % LANES == 0,
                forall|j: int| 0 <= j < base ==> dst@[j] == Self::combine(start[j], src@[j]),
                forall|j: int| base <= j < len ==> dst@[j] == start[j],
            decreases whole - base,
        {
            let mut lane: usize = 0;
            while lane < LANES
                invariant
                    len == start.len() == src@.len() == dst@.len(),
                    base + LANES <= len,
                    lane <= LANES,
                    forall|j: int|
                        0 <= j < base + lane ==> dst@[j] == Self::combine(start[j], src@[j]),
                    forall|j: int| base + lane <= j < len ==> dst@[j] == start[j],
                decreases LANES - lane,
            {
                let v: T = Self::apply(dst[base + lane], src[base + lane]);
                dst[base + lane] = v;
                lane += 1;
            }
            base += LANES;
        }
        let mut i: usize = whole;
        while i < len
            invariant
                len == start.len() == src@.len() == dst@.len(),
                i <= len,
                forall|j: int| 0 <= j < i ==> dst@[j] == Self::combine(start[j], src@[j]),
                forall|j: int| i <= j < len ==> dst@[j] == start[j],
            decreases len - i,
        {
            let v: T = Self::apply(dst[i], src[i]);
            dst[i] = v;
            i += 1;
        }
    }
}

/// Elements that one step of the vectorisable loop covers.
const LANES: usize = 8;

/// Addition.
#[derive(Copy, Clone, Debug)]
pub struct Sum;

/// Maximum.
#[derive(Copy, Clone, Debug)]
pub struct Max;

/// Minimum.
#[derive(Copy, Clone, Debug)]
pub struct Min;

/// Multiplication.
#[derive(Copy, Clone, Debug)]
pub struct Prod;

/// Bitwise XOR, only defined on integer types.
#[derive(Copy, Clone, Debug)]
pub struct BitXor;

impl Op<u32> for Sum {
    /// Addition modulo `2^32`.
    open spec fn combine(a: u32, b: u32) -> u32 {
        ((a + b) % 0x1_0000_0000) as u32
    }

    open spec fn neutral() -> u32 {
        0
    }

    fn apply(a: u32, b: u32) -> u32 {
        a.wrapping_add(b)
    }

    fn identity() -> u32 {
        0
    }
}

impl Op<u32> for BitXor {
    open spec fn combine(a: u32, b: u32) -> u32 {
        a ^ b
    }

    open spec fn neutral() -> u32 {
        0
    }

    fn apply(a: u32, b: u32) -> u32 {
        a ^ b
    }

    fn identity() -> u32 {
        0
    }
}

/// `u32` addition is associative, commutative and has 0 as its identity.
pub proof fn sum_u32_laws()
    ensures
        is_associative::<u32, Sum>(),
        is_commutative::<u32, Sum>(),
        forall|a: u32| #[trigger] <Sum as Op<u32>>::combine(<Sum as Op<u32>>::neutral(), a) == a,
        forall|a: u32| #[trigger] <Sum as Op<u32>>::combine(a, <Sum as Op<u32>>::neutral()) == a,
{
}

/// `u32` XOR is associative, commutative, has 0 as its identity, and every
/// value is its own inverse.
pub proof fn xor_u32_laws()
    ensures
        is_associative::<u32, BitXor>(),
        is_commutative::<u32, BitXor>(),
        forall|a: u32|
            #[trigger] <BitXor as Op<u32>>::combine(<BitXor as Op<u32>>::neutral(), a) == a,
        forall|a: u32|
            #[trigger] <BitXor as Op<u32>>::combine(a, <BitXor as Op<u32>>::neutral()) == a,
        forall|a: u32| #[trigger] <BitXor as Op<u32>>::combine(a, a) == 0,
{
    assert(forall|a: u32, b: u32, c: u32| a ^ (b ^ c) == (a ^ b) ^ c) by (bit_vector);
    assert(forall|a: u32, b: u32| a ^ b == b ^ a) by (bit_vector);
    assert(forall|a: u32| 0u32 ^ a == a) by (bit_vector);
    assert(forall|a: u32| a ^ a == 0u32) by (bit_vector);
}


/// `u32` addition is addition: the result is the sum, or the sum less `2^32`
/// where that does not fit.
pub proof fn sum_u32_adds(a: u32, b: u32)
    ensures
        ({
            let r = <Sum as Op<u32>>::combine(a, b) as int;
            if a + b < 0x1_0000_0000 {
                r == a + b
            } else {
                r == a + b - 0x1_0000_0000
            }
        }),
        <Sum as Op<u32>>::neutral() == 0,
{
}

/// `u32` XOR sets exactly the bits in which its operands differ.
pub proof fn xor_u32_differs(a: u32, b: u32, i: u32)
    requires
        i < 32,
    ensures
        ((<BitXor as Op<u32>>::combine(a, b) >> i) & 1 == 1) == ((a >> i) & 1 != (b >> i) & 1),
        <BitXor as Op<u32>>::neutral() == 0,
{
    assert((((a ^ b) >> i) & 1 == 1) == ((a >> i) & 1 != (b >> i) & 1)) by (bit_vector)
        requires
            i < 32,
    ;
}

/// Two buffers are combined position by position, and none is left out.
pub proof fn reduced_combines_every_position<T: Copy, O: Op<T>>(dst: Seq<T>, src: Seq<T>, i: int)
    requires
        dst.len() == src.len(),
        0 <= i < dst.len(),
    ensures
        reduced::<T, O>(dst, src).len() == dst.len(),
        reduced::<T, O>(dst, src)[i] == O::combine(dst[i], src[i]),
{
}

} // verus!
