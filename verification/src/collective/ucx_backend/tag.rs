//! The 64-bit tag that matches a send with its receive.
//!
//! A tag packs the four axes of a message header into 16, 16, 8 and 8 bits;
//! the top 16 bits are reserved and stay zero.

use vstd::prelude::*;

verus! {

/// The tag of a message, as a number: source modulo `2^16`, then step, phase
/// and micro-chunk.
pub open spec fn tag_value(src: int, step: int, phase: int, micro_chunk: int) -> int {
    src % 0x1_0000 + step * 0x1_0000 + phase * 0x1_0000_0000 + micro_chunk * 0x100_0000_0000
}

/// Pack the axes of a message into its tag.
pub fn encode_tag(src: usize, step: u16, phase: u8, micro_chunk: u8) -> (tag: u64)
    ensures
        tag == tag_value(src as int, step as int, phase as int, micro_chunk as int),
{
    let s: u64 = src as u64;
    let tag: u64 = (s & 0xffff) | ((step as u64) << 16) | ((phase as u64) << 32) | ((
    micro_chunk as u64) << 40);
    proof {
        let (st, ph, mc) = (step as u64, phase as u64, micro_chunk as u64);
        assert(tag == (s % 0x1_0000) + st * 0x1_0000 + ph * 0x1_0000_0000 + mc * 0x100_0000_0000)
            by (bit_vector)
            requires
                tag == (s & 0xffff) | (st << 16) | (ph << 32) | (mc << 40),
                st < 0x1_0000,
                ph < 0x100,
                mc < 0x100,
        ;
    }
    tag
}

/// Two messages carry the same tag only if they agree on every axis, the
/// source taken modulo `2^16`.
pub proof fn tag_distinguishes_messages(
    src_a: int,
    step_a: u16,
    phase_a: u8,
    micro_a: u8,
    src_b: int,
    step_b: u16,
    phase_b: u8,
    micro_b: u8,
)
    requires
        tag_value(src_a, step_a as int, phase_a as int, micro_a as int) == tag_value(
            src_b,
            step_b as int,
            phase_b as int,
            micro_b as int,
        ),
    ensures
        src_a % 0x1_0000 == src_b % 0x1_0000,
        step_a == step_b,
        phase_a == phase_b,
        micro_a == micro_b,
{
}


/// A tag holds its fields side by side: the source in the lowest 16 bits, then
/// 16 bits of step, 8 of phase and 8 of micro-chunk, and nothing above.
pub proof fn tag_packs_its_fields(src: int, step: u16, phase: u8, micro_chunk: u8)
    requires
        0 <= src,
    ensures
        ({
            let tag = tag_value(src, step as int, phase as int, micro_chunk as int);
            &&& tag % 0x1_0000 == src % 0x1_0000
            &&& (tag / 0x1_0000) % 0x1_0000 == step
            &&& (tag / 0x1_0000_0000) % 0x100 == phase
            &&& tag / 0x100_0000_0000 == micro_chunk
            &&& 0 <= tag < 0x1_0000_0000_0000
        }),
{
}

} // verus!
