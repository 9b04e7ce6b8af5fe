//! Bit-level model of a word sequence, and the lemmas that connect the
//! masking and shifting done by the packed array to that model.
use vstd::prelude::*;

verus! {

use vstd::arithmetic::div_mod::lemma_fundamental_div_mod;
use vstd::arithmetic::div_mod::lemma_fundamental_div_mod_converse;

/// True when bit `k` of the word `w` is set (`k` below 64).
pub open spec fn nth_bit(w: u64, k: u64) -> bool {
    (w >> k) & 1u64 == 1u64
}

/// The word whose low `bits` positions are set and whose other positions are clear.
pub open spec fn mask_val(bits: u64) -> u64 {
    if bits >= 64 {
        0xffff_ffff_ffff_ffffu64
    } else {
        ((1u64 << bits) - 1) as u64
    }
}

/// True when bit `i` of the word sequence `ws` is set. Bit positions are
/// absolute, zero-based, and least-significant-bit-first within each word.
pub open spec fn ws_bit(ws: Seq<u64>, i: int) -> bool
    recommends
        0 <= i < ws.len() * 64,
{
    nth_bit(ws[i / 64], (i % 64) as u64)
}

/// `v` holds the `bits`-wide field of `ws` starting at absolute position
/// `offset`: bit `k` of `v` is bit `offset + k` of `ws`, and every bit of `v`
/// at or above `bits` is clear.
pub open spec fn is_field_value(ws: Seq<u64>, offset: u64, bits: u64, v: u64) -> bool {
    &&& forall|k: u64| k < bits ==> #[trigger] nth_bit(v, k) == ws_bit(ws, offset + k)
    &&& forall|k: u64| bits <= k < 64 ==> !#[trigger] nth_bit(v, k)
}

/// `new_ws` is `old_ws` with the `bits`-wide field at absolute position
/// `offset` overwritten by the low `bits` bits of `value`, and every bit
/// outside that range unchanged.
pub open spec fn sets_field(
    old_ws: Seq<u64>,
    new_ws: Seq<u64>,
    offset: u64,
    bits: u64,
    value: u64,
) -> bool {
    &&& new_ws.len() == old_ws.len()
    &&& forall|i: int|
        offset <= i < offset + bits ==> #[trigger] ws_bit(new_ws, i) == nth_bit(
            value,
            (i - offset) as u64,
        )
    &&& forall|i: int|
        0 <= i < old_ws.len() * 64 && !(offset <= i < offset + bits) ==> #[trigger] ws_bit(
            new_ws,
            i,
        ) == ws_bit(old_ws, i)
}

/// `new_ws` is `old_ws` with the `bits`-wide range at absolute position
/// `offset` replaced by the same range of `donor`, and every bit outside that
/// range unchanged.
pub open spec fn transplants(
    old_ws: Seq<u64>,
    new_ws: Seq<u64>,
    donor: Seq<u64>,
    offset: u64,
    bits: u64,
) -> bool {
    &&& new_ws.len() == old_ws.len()
    &&& forall|i: int|
        offset <= i < offset + bits ==> #[trigger] ws_bit(new_ws, i) == ws_bit(donor, i)
    &&& forall|i: int|
        0 <= i < old_ws.len() * 64 && !(offset <= i < offset + bits) ==> #[trigger] ws_bit(
            new_ws,
            i,
        ) == ws_bit(old_ws, i)
}

/// Writing a window just read from the donor extends a transplanted range
/// `[offset, off)` to `[offset, off + bits)`: the words `ws0`, `ws1` and
/// `ws2` are the destination before any window, before this window, and
/// after it.
pub proof fn lemma_extend_window(
    ws0: Seq<u64>,
    ws1: Seq<u64>,
    ws2: Seq<u64>,
    donor: Seq<u64>,
    offset: u64,
    off: u64,
    bits: u64,
    v: u64,
)
    requires
        offset <= off,
        0 < bits <= 64,
        off + bits <= ws0.len() * 64,
        off + bits <= donor.len() * 64,
        ws1.len() == ws0.len(),
        forall|i: int| offset <= i < off ==> #[trigger] ws_bit(ws1, i) == ws_bit(donor, i),
        forall|i: int|
            0 <= i < ws0.len() * 64 && !(offset <= i < off) ==> #[trigger] ws_bit(ws1, i)
                == ws_bit(ws0, i),
        is_field_value(donor, off, bits, v),
        sets_field(ws1, ws2, off, bits, v),
    ensures
        ws2.len() == ws0.len(),
        forall|i: int| offset <= i < off + bits ==> #[trigger] ws_bit(ws2, i) == ws_bit(donor, i),
        forall|i: int|
            0 <= i < ws0.len() * 64 && !(offset <= i < off + bits) ==> #[trigger] ws_bit(ws2, i)
                == ws_bit(ws0, i),
{
    assert forall|i: int| offset <= i < off + bits implies #[trigger] ws_bit(ws2, i) == ws_bit(
        donor,
        i,
    ) by {
        if i < off {
            assert(ws_bit(ws2, i) == ws_bit(ws1, i));
        } else {
            let k = (i - off) as u64;
            assert(ws_bit(ws2, i) == nth_bit(v, k));
            assert(nth_bit(v, k) == ws_bit(donor, off + k));
            assert(off + k == i);
        }
    };
    assert forall|i: int|
        0 <= i < ws0.len() * 64 && !(offset <= i < off + bits) implies #[trigger] ws_bit(ws2, i)
        == ws_bit(ws0, i) by {
        assert(ws_bit(ws2, i) == ws_bit(ws1, i));
        assert(ws_bit(ws1, i) == ws_bit(ws0, i));
    };
}

/// Builds the word whose low `bits` positions are set.
pub(crate) fn mask_low(bits: u64) -> (m: u64)
    requires
        bits <= 64,
    ensures
        m == mask_val(bits),
{
    if bits == 64 {
        0xffff_ffff_ffff_ffffu64
    } else {
        proof {
            assert(1u64 << bits >= 1) by (bit_vector)
                requires
                    bits < 64,
            ;
        }
        (1u64 << bits) - 1
    }
}

/// Stepping `k` bits from `offset` stays inside the word holding `offset`
/// while `offset % 64 + k` remains below 64.
pub proof fn lemma_same_word(offset: int, k: int)
    requires
        0 <= offset,
        0 <= k,
        offset % 64 + k < 64,
    ensures
        (offset + k) / 64 == offset / 64,
        (offset + k) % 64 == offset % 64 + k,
{
    lemma_fundamental_div_mod(offset, 64);
    lemma_fundamental_div_mod_converse(offset + k, 64, offset / 64, offset % 64 + k);
}

/// Stepping `k` bits from `offset` lands in the word after the one holding
/// `offset` when `offset % 64 + k` is in [64, 128).
pub proof fn lemma_next_word(offset: int, k: int)
    requires
        0 <= offset,
        0 <= k,
        64 <= offset % 64 + k < 128,
    ensures
        (offset + k) / 64 == offset / 64 + 1,
        (offset + k) % 64 == offset % 64 + k - 64,
{
    lemma_fundamental_div_mod(offset, 64);
    lemma_fundamental_div_mod_converse(offset + k, 64, offset / 64 + 1, offset % 64 + k - 64);
}

/// A position written as 64 times a word index plus an in-word position
/// decomposes back into that index and position.
pub proof fn lemma_word_pos(j: int, s: int)
    requires
        0 <= j,
        0 <= s < 64,
    ensures
        (64 * j + s) / 64 == j,
        (64 * j + s) % 64 == s,
{
    lemma_fundamental_div_mod_converse(64 * j + s, 64, j, s);
}

/// The word index of any position below `64 * len` is below `len`.
pub proof fn lemma_word_index_bound(i: int, len: int)
    requires
        0 <= i,
        i < 64 * len,
    ensures
        0 <= i / 64 < len,
{
    lemma_fundamental_div_mod(i, 64);
}

/// Words that agree on their low `n` bits agree under the low `n`-bit mask.
proof fn lemma_bits_agree_below(a: u64, b: u64, n: u64)
    requires
        n <= 64,
        forall|k: u64| k < n ==> #[trigger] nth_bit(a, k) == nth_bit(b, k),
    ensures
        a & mask_val(n) == b & mask_val(n),
    decreases n,
{
    if n == 0 {
        assert(a & mask_val(0) == b & mask_val(0)) by (bit_vector);
    } else {
        lemma_bits_agree_below(a, b, (n - 1) as u64);
        assert(nth_bit(a, (n - 1) as u64) == nth_bit(b, (n - 1) as u64));
        assert(a & mask_val(n) == b & mask_val(n)) by (bit_vector)
            requires
                0 < n <= 64,
                a & mask_val((n - 1) as u64) == b & mask_val((n - 1) as u64),
                nth_bit(a, (n - 1) as u64) == nth_bit(b, (n - 1) as u64),
        ;
    }
}

/// Two words that agree on all 64 bits are equal.
pub proof fn lemma_u64_bit_ext(a: u64, b: u64)
    requires
        forall|k: u64| k < 64 ==> #[trigger] nth_bit(a, k) == nth_bit(b, k),
    ensures
        a == b,
{
    lemma_bits_agree_below(a, b, 64);
    assert(a & mask_val(64) == a) by (bit_vector);
    assert(b & mask_val(64) == b) by (bit_vector);
}

/// Word sequences of equal length that agree on every bit are equal.
pub proof fn lemma_words_eq_from_bits(ws1: Seq<u64>, ws2: Seq<u64>)
    requires
        ws1.len() == ws2.len(),
        forall|i: int| 0 <= i < ws1.len() * 64 ==> #[trigger] ws_bit(ws1, i) == ws_bit(ws2, i),
    ensures
        ws1 == ws2,
{
    assert forall|j: int| 0 <= j < ws1.len() implies ws1[j] == ws2[j] by {
        assert forall|s: u64| s < 64 implies #[trigger] nth_bit(ws1[j], s) == nth_bit(
            ws2[j],
            s,
        ) by {
            lemma_word_pos(j, s as int);
            assert(ws_bit(ws1, 64 * j + s) == ws_bit(ws2, 64 * j + s));
        };
        lemma_u64_bit_ext(ws1[j], ws2[j]);
    };
    assert(ws1 =~= ws2);
}

/// Shifting off the low `m` bits and masking to `bits` reads exactly the
/// `bits`-wide field at in-word position `m`.
pub proof fn lemma_extract_bits(w: u64, m: u64, bits: u64, k: u64)
    by (bit_vector)
    requires
        m < 64,
        0 < bits <= 64,
        m + bits <= 64,
        k < 64,
    ensures
        nth_bit((w >> m) & mask_val(bits), k) == (k < bits && nth_bit(w, (m + k) as u64)),
{
}

/// Clearing the `bits`-wide range at in-word position `m` and installing the
/// low `bits` bits of `value` there rewrites exactly that range.
pub proof fn lemma_install_bits(w: u64, m: u64, bits: u64, value: u64, k: u64)
    by (bit_vector)
    requires
        m < 64,
        0 < bits <= 64,
        m + bits <= 64,
        k < 64,
    ensures
        nth_bit((w & !(mask_val(bits) << m)) | ((value & mask_val(bits)) << m), k) == (if m <= k
            && k < m + bits {
            nth_bit(value, (k - m) as u64)
        } else {
            nth_bit(w, k)
        }),
{
}

/// The bits of a bitwise-or are the or of the bits.
pub proof fn lemma_or_bit(x: u64, y: u64, k: u64)
    by (bit_vector)
    requires
        k < 64,
    ensures
        nth_bit(x | y, k) == (nth_bit(x, k) || nth_bit(y, k)),
{
}

/// The second-word part of a two-word read: the low `bits - (64 - m)` bits of
/// `w2`, repositioned above the `64 - m` bits taken from the first word.
pub proof fn lemma_extract_high(w2: u64, m: u64, bits: u64, k: u64)
    by (bit_vector)
    requires
        0 < m < 64,
        bits <= 64,
        m + bits > 64,
        k < 64,
    ensures
        nth_bit((w2 & mask_val((bits - (64 - m)) as u64)) << ((64 - m) as u64), k) == (64 - m <= k
            && k < bits && nth_bit(w2, (k - (64 - m)) as u64)),
{
}

/// The second-word part of a two-word write: the low `bits - (64 - m)` bit
/// positions of `w2` take the bits of `value` above `64 - m`, the rest of
/// `w2` is unchanged.
pub proof fn lemma_install_high(w2: u64, m: u64, bits: u64, value: u64, k: u64)
    by (bit_vector)
    requires
        0 < m < 64,
        bits <= 64,
        m + bits > 64,
        k < 64,
    ensures
        nth_bit(
            (w2 & !mask_val((bits - (64 - m)) as u64)) | ((value >> ((64 - m) as u64)) & mask_val(
                (bits - (64 - m)) as u64,
            )),
            k,
        ) == (if k < bits - (64 - m) {
            nth_bit(value, ((64 - m) + k) as u64)
        } else {
            nth_bit(w2, k)
        }),
{
}

} // verus!
