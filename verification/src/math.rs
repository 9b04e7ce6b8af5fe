//! Sizing math: how many 64-bit pieces a bit count needs, and which piece
//! holds a given bit position.
use vstd::prelude::*;

verus! {

/// Number of bits held by one piece of a genestring.
pub const PIECE_SIZE_IN_BITS: u64 = 64;

/// Number of bytes held by one piece of a genestring.
pub const PIECE_SIZE_IN_BYTES: u64 = 8;

/// The minimum number of 64-bit pieces that hold `bits` bits; a zero-bit
/// request still takes one piece.
pub open spec fn spec_part_count(bits: u64) -> u64 {
    if bits == 0 {
        1
    } else if bits % 64 == 0 {
        (bits / 64) as u64
    } else {
        (bits / 64 + 1) as u64
    }
}

/// Calculates the number of pieces required to hold this many bits in a genestring.
pub fn part_count_for_bits(bits: u64) -> (count: u64)
    ensures
        count == spec_part_count(bits),
        count >= 1,
{
    if bits == 0 {
        1
    } else if bits % PIECE_SIZE_IN_BITS == 0 {
        proof {
            vstd::arithmetic::div_mod::lemma_fundamental_div_mod(bits as int, 64);
        }
        bits / PIECE_SIZE_IN_BITS
    } else {
        (bits / PIECE_SIZE_IN_BITS) + 1
    }
}

/// The piece count is enough for `bits` bits and, for a nonzero request, one
/// piece fewer would not be: it is the minimum count that holds the request.
pub proof fn lemma_part_count_minimal(bits: u64)
    ensures
        bits <= spec_part_count(bits) * 64,
        bits > 0 ==> (spec_part_count(bits) - 1) * 64 < bits,
        spec_part_count(bits) >= 1,
{
    vstd::arithmetic::div_mod::lemma_fundamental_div_mod(bits as int, 64);
    vstd::arithmetic::div_mod::lemma_mod_pos_bound(bits as int, 64);
}

/// Calculates which piece contains a given bit.
pub fn part_for_bit(bit: u64) -> (part: u64)
    ensures
        part == bit / 64,
{
    bit / PIECE_SIZE_IN_BITS
}

} // verus!
