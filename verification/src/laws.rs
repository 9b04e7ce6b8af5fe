//! Laws that relate the packed-array operations to one another, stated over
//! the bit-level model that the operations' contracts use.
use vstd::prelude::*;

verus! {

use crate::bitops::{
    nth_bit, ws_bit, is_field_value, sets_field, transplants, lemma_u64_bit_ext,
    lemma_words_eq_from_bits,
};
use crate::math::spec_part_count;
use vstd::arithmetic::div_mod::lemma_fundamental_div_mod_converse;

/// Round-trip: writing a value whose bits at or above `bits` are clear and
/// then reading the same range back yields exactly that value.
pub proof fn lemma_set_get_round_trip(
    ws0: Seq<u64>,
    ws1: Seq<u64>,
    offset: u64,
    bits: u64,
    value: u64,
    v: u64,
)
    requires
        bits <= 64,
        offset + bits <= ws0.len() * 64,
        forall|k: u64| bits <= k < 64 ==> !#[trigger] nth_bit(value, k),
        sets_field(ws0, ws1, offset, bits, value),
        is_field_value(ws1, offset, bits, v),
    ensures
        v == value,
{
    assert forall|k: u64| k < 64 implies #[trigger] nth_bit(v, k) == nth_bit(value, k) by {
        if k < bits {
            assert(nth_bit(v, k) == ws_bit(ws1, offset + k));
            assert(ws_bit(ws1, offset + k) == nth_bit(value, ((offset + k) - offset) as u64));
        }
    };
    lemma_u64_bit_ext(v, value);
}

/// Non-interference: after writes to two non-overlapping ranges, in either
/// order of the ranges, each range holds the value written to it and every
/// bit outside both ranges is untouched.
pub proof fn lemma_non_interference(
    ws0: Seq<u64>,
    ws1: Seq<u64>,
    ws2: Seq<u64>,
    o1: u64,
    b1: u64,
    v1: u64,
    o2: u64,
    b2: u64,
    v2: u64,
)
    requires
        b1 <= 64,
        b2 <= 64,
        o1 + b1 <= ws0.len() * 64,
        o2 + b2 <= ws0.len() * 64,
        o1 + b1 <= o2 || o2 + b2 <= o1,
        sets_field(ws0, ws1, o1, b1, v1),
        sets_field(ws1, ws2, o2, b2, v2),
    ensures
        forall|i: int|
            o1 <= i < o1 + b1 ==> #[trigger] ws_bit(ws2, i) == nth_bit(v1, (i - o1) as u64),
        forall|i: int|
            o2 <= i < o2 + b2 ==> #[trigger] ws_bit(ws2, i) == nth_bit(v2, (i - o2) as u64),
        forall|i: int|
            0 <= i < ws0.len() * 64 && !(o1 <= i < o1 + b1) && !(o2 <= i < o2 + b2)
                ==> #[trigger] ws_bit(ws2, i) == ws_bit(ws0, i),
{
    assert forall|i: int| o1 <= i < o1 + b1 implies #[trigger] ws_bit(ws2, i) == nth_bit(
        v1,
        (i - o1) as u64,
    ) by {
        assert(ws_bit(ws2, i) == ws_bit(ws1, i));
        assert(ws_bit(ws1, i) == nth_bit(v1, (i - o1) as u64));
    };
    assert forall|i: int|
        0 <= i < ws0.len() * 64 && !(o1 <= i < o1 + b1) && !(o2 <= i < o2 + b2)
        implies #[trigger] ws_bit(ws2, i) == ws_bit(ws0, i) by {
        assert(ws_bit(ws2, i) == ws_bit(ws1, i));
        assert(ws_bit(ws1, i) == ws_bit(ws0, i));
    };
}

/// Idempotence: repeating a write with the same offset, width and value
/// leaves the words exactly as they were after the first write.
pub proof fn lemma_set_idempotent(
    ws0: Seq<u64>,
    ws1: Seq<u64>,
    ws2: Seq<u64>,
    offset: u64,
    bits: u64,
    value: u64,
)
    requires
        bits <= 64,
        offset + bits <= ws0.len() * 64,
        sets_field(ws0, ws1, offset, bits, value),
        sets_field(ws1, ws2, offset, bits, value),
    ensures
        ws2 == ws1,
{
    assert forall|i: int| 0 <= i < ws1.len() * 64 implies #[trigger] ws_bit(ws1, i) == ws_bit(
        ws2,
        i,
    ) by {
        if offset <= i < offset + bits {
            assert(ws_bit(ws1, i) == nth_bit(value, (i - offset) as u64));
            assert(ws_bit(ws2, i) == nth_bit(value, (i - offset) as u64));
        } else {
            assert(ws_bit(ws2, i) == ws_bit(ws1, i));
        }
    };
    lemma_words_eq_from_bits(ws1, ws2);
}

/// A transplant reads like its donor: any field of at most 64 bits that lies
/// inside a transplanted range has the same value in the destination as in
/// the donor, exactly as if each window had been copied by hand.
pub proof fn lemma_transplant_field_matches_donor(
    ws0: Seq<u64>,
    ws1: Seq<u64>,
    donor: Seq<u64>,
    offset: u64,
    bits: u64,
    o2: u64,
    b2: u64,
    v_dst: u64,
    v_donor: u64,
)
    requires
        transplants(ws0, ws1, donor, offset, bits),
        offset <= o2,
        o2 + b2 <= offset + bits,
        b2 <= 64,
        is_field_value(ws1, o2, b2, v_dst),
        is_field_value(donor, o2, b2, v_donor),
    ensures
        v_dst == v_donor,
{
    assert forall|k: u64| k < 64 implies #[trigger] nth_bit(v_dst, k) == nth_bit(v_donor, k) by {
        if k < b2 {
            assert(nth_bit(v_dst, k) == ws_bit(ws1, o2 + k));
            assert(ws_bit(ws1, o2 + k) == ws_bit(donor, o2 + k));
            assert(nth_bit(v_donor, k) == ws_bit(donor, o2 + k));
        }
    };
    lemma_u64_bit_ext(v_dst, v_donor);
}

/// Capacity rounding: zero bits still takes one piece, an exact multiple of
/// 64 bits takes exactly that many pieces, and any remainder adds one piece.
pub proof fn lemma_part_count_rounding(k: u64, r: u64)
    requires
        1 <= k,
        64 * k <= u64::MAX,
        0 < r < 64,
    ensures
        spec_part_count(0) == 1,
        spec_part_count((64 * k) as u64) == k,
        64 * k + r <= u64::MAX ==> spec_part_count((64 * k + r) as u64) == k + 1,
{
    lemma_fundamental_div_mod_converse(64 * k, 64, k as int, 0);
    if 64 * k + r <= u64::MAX {
        lemma_fundamental_div_mod_converse(64 * k + r, 64, k as int, r as int);
    }
}

} // verus!
