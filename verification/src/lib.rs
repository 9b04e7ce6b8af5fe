//! A fixed-capacity, bit-addressable packed array ("genestring") backed by
//! 64-bit words. It supports reading and writing contiguous bit ranges of up
//! to 64 bits at arbitrary bit offsets, bulk refilling of its words, and
//! copying a bit range of any width from one instance into another, even when
//! the range straddles word boundaries.
use vstd::prelude::*;

pub mod bitops;
pub mod laws;
pub mod math;

verus! {

use crate::bitops::{
    nth_bit, mask_val, ws_bit, is_field_value, sets_field, lemma_same_word, lemma_next_word,
    lemma_word_index_bound, lemma_extract_bits, lemma_extract_high, lemma_or_bit,
    lemma_install_bits, lemma_install_high, mask_low, transplants, lemma_extend_window,
};
use vstd::arithmetic::div_mod::lemma_fundamental_div_mod;
use vstd::arithmetic::div_mod::lemma_mod_pos_bound;
use crate::math::spec_part_count;
use crate::math::part_count_for_bits;
use crate::math::part_for_bit;
use crate::math::PIECE_SIZE_IN_BITS;
use crate::math::PIECE_SIZE_IN_BYTES;

/// The ways a bit-range request can be rejected.
#[derive(Clone, Copy, Debug, PartialEq, Eq, Structural)]
pub enum RangeError {
    /// More than 64 bits were requested in a single access.
    Width,
    /// The requested range does not fit inside the addressed genestring.
    Boundary,
}

/// A bit-addressable packed array with a fixed capacity, stored as 64-bit pieces.
#[derive(Debug)]
pub struct Genestring {
    pieces: Vec<u64>,
}

impl View for Genestring {
    type V = Seq<u64>;

    closed spec fn view(&self) -> Seq<u64> {
        self.pieces@
    }
}

impl Default for Genestring {
    /// A default-constructed gene string holds no pieces at all.
    fn default() -> (result: Genestring)
        ensures
            result.wf(),
            result@.len() == 0,
    {
        Genestring { pieces: Vec::new() }
    }
}

impl Genestring {
    /// The piece count never grows so large that the bit capacity overflows a usize.
    pub open spec fn wf(&self) -> bool {
        self@.len() * 64 <= usize::MAX
    }

    /// Creates a gene string capable of holding at least `count` bits.
    pub fn with_bits(count: u64) -> (result: Genestring)
        requires
            spec_part_count(count) * 64 <= usize::MAX,
        ensures
            result.wf(),
            result@.len() == spec_part_count(count),
            result@.len() >= 1,
            count <= result@.len() * 64,
            forall|j: int| 0 <= j < result@.len() ==> result@[j] == 0u64,
    {
        proof {
            crate::math::lemma_part_count_minimal(count);
        }
        let parts = part_count_for_bits(count);
        let mut pieces: Vec<u64> = Vec::new();
        let mut i: u64 = 0;
        while i < parts
            invariant
                i <= parts,
                pieces@.len() == i,
                forall|j: int| 0 <= j < i ==> pieces@[j] == 0u64,
            decreases parts - i,
        {
            pieces.push(0);
            i = i + 1;
        }
        Genestring { pieces }
    }

    /// Returns the number of bits in the gene string.
    pub fn bit_len(&self) -> (n: usize)
        requires
            self.wf(),
        ensures
            n == self@.len() * 64,
    {
        self.pieces.len() * (PIECE_SIZE_IN_BITS as usize)
    }

    /// Returns the number of bytes in the gene string.
    pub fn byte_len(&self) -> (n: usize)
        requires
            self.wf(),
        ensures
            n == self@.len() * 8,
    {
        let n = self.pieces.len();
        proof {
            assert(n * 8 <= n * 64);
        }
        n * (PIECE_SIZE_IN_BYTES as usize)
    }

    /// Returns the number of integer parts of the gene string.
    pub fn len(&self) -> (n: usize)
        ensures
            n == self@.len(),
    {
        self.pieces.len()
    }

    /// Reports whether the gene string holds no parts at all, which is only
    /// possible for a default-constructed value.
    pub fn is_empty(&self) -> (empty: bool)
        ensures
            empty == (self@.len() == 0),
    {
        self.pieces.is_empty()
    }

    /// Reads the `bits`-wide field at `offset`; the caller has already checked
    /// that the range lies inside the string.
    fn get_in_range(&self, offset: u64, bits: u64) -> (v: u64)
        requires
            self.wf(),
            0 < bits <= 64,
            offset + bits <= self@.len() * 64,
        ensures
            is_field_value(self@, offset, bits, v),
    {
        let first_half_idx = part_for_bit(offset);
        let second_half_idx = part_for_bit(offset + (bits - 1));
        let offset_modulo = offset % PIECE_SIZE_IN_BITS;
        proof {
            lemma_word_index_bound(offset as int, self@.len() as int);
            lemma_word_index_bound((offset + bits - 1) as int, self@.len() as int);
        }

        if first_half_idx != second_half_idx {
            proof {
                if offset_modulo + bits <= 64 {
                    lemma_same_word(offset as int, (bits - 1) as int);
                    assert(false);
                }
            }
            let p1_bits = PIECE_SIZE_IN_BITS - offset_modulo;
            let p2_bits = bits - p1_bits;
            let value_mask1 = mask_low(p1_bits);
            let piece_mask2 = mask_low(p2_bits);
            let w1 = self.pieces[first_half_idx as usize];
            let w2 = self.pieces[second_half_idx as usize];
            let low_part = (w1 >> offset_modulo) & value_mask1;
            let high_part = (w2 & piece_mask2) << p1_bits;
            let v = low_part | high_part;
            proof {
                assert(value_mask1 == mask_val(p1_bits));
                assert(piece_mask2 == mask_val(p2_bits));
                assert forall|k: u64| k < bits implies #[trigger] nth_bit(v, k) == ws_bit(
                    self@,
                    offset + k,
                ) by {
                    lemma_or_bit(low_part, high_part, k);
                    lemma_extract_bits(w1, offset_modulo, p1_bits, k);
                    lemma_extract_high(w2, offset_modulo, bits, k);
                    if k < p1_bits {
                        lemma_same_word(offset as int, k as int);
                    } else {
                        lemma_next_word(offset as int, k as int);
                    }
                };
                assert forall|k: u64| bits <= k < 64 implies !#[trigger] nth_bit(v, k) by {
                    lemma_or_bit(low_part, high_part, k);
                    lemma_extract_bits(w1, offset_modulo, p1_bits, k);
                    lemma_extract_high(w2, offset_modulo, bits, k);
                };
            }
            v
        } else {
            proof {
                if offset_modulo + bits > 64 {
                    lemma_next_word(offset as int, (bits - 1) as int);
                    assert(false);
                }
            }
            let w = self.pieces[first_half_idx as usize];
            let mask = mask_low(bits);
            let v = (w >> offset_modulo) & mask;
            proof {
                assert(mask == mask_val(bits));
                assert forall|k: u64| k < bits implies #[trigger] nth_bit(v, k) == ws_bit(
                    self@,
                    offset + k,
                ) by {
                    lemma_extract_bits(w, offset_modulo, bits, k);
                    lemma_same_word(offset as int, k as int);
                };
                assert forall|k: u64| bits <= k < 64 implies !#[trigger] nth_bit(v, k) by {
                    lemma_extract_bits(w, offset_modulo, bits, k);
                };
            }
            v
        }
    }

    /// Retrieves `bits` number of bits from the string, starting at a given
    /// `offset`, as an unsigned integer whose bit 0 is bit `offset` of the
    /// string. Requests wider than 64 bits are width errors; requests that
    /// reach past the capacity are boundary errors; a zero-width request
    /// reads 0 without touching storage.
    pub fn get(&self, offset: u64, bits: u64) -> (r: Result<u64, RangeError>)
        requires
            self.wf(),
        ensures
            match r {
                Ok(v) => {
                    &&& bits <= 64
                    &&& offset + bits <= self@.len() * 64
                    &&& is_field_value(self@, offset, bits, v)
                    &&& bits == 0 ==> v == 0
                },
                Err(RangeError::Width) => bits > 64,
                Err(RangeError::Boundary) => bits <= 64 && offset + bits > self@.len() * 64,
            },
    {
        if bits > PIECE_SIZE_IN_BITS {
            return Err(RangeError::Width);
        }
        let cap = self.bit_len() as u64;
        if offset > cap || bits > cap - offset {
            return Err(RangeError::Boundary);
        }
        if bits == 0 {
            proof {
                assert(forall|k: u64| k < 64 ==> !#[trigger] nth_bit(0u64, k)) by (bit_vector);
            }
            return Ok(0);
        }
        Ok(self.get_in_range(offset, bits))
    }

    /// Fills each piece of the genestring from a supplied fill function, one
    /// call per piece, in piece order. The assumed usage of this function is
    /// for inserting random values for new DNA, so nothing is promised of the
    /// values beyond their being outputs the filler allows.
    pub fn fill<F: Fn() -> u64>(&mut self, filler: F)
        requires
            call_requires(filler, ()),
        ensures
            final(self)@.len() == old(self)@.len(),
            forall|j: int|
                0 <= j < final(self)@.len() ==> #[trigger] call_ensures(
                    filler,
                    (),
                    final(self)@[j],
                ),
    {
        let n = self.pieces.len();
        let mut i: usize = 0;
        while i < n
            invariant
                i <= n,
                self@.len() == n,
                call_requires(filler, ()),
                forall|j: int| 0 <= j < i ==> #[trigger] call_ensures(filler, (), self@[j]),
            decreases n - i,
        {
            let v = filler();
            self.pieces[i] = v;
            i = i + 1;
        }
    }

    /// Writes the low `bits` bits of `value` at `offset`; the caller has
    /// already checked that the range lies inside the string.
    fn set_in_range(&mut self, offset: u64, bits: u64, value: u64)
        requires
            old(self).wf(),
            0 < bits <= 64,
            offset + bits <= old(self)@.len() * 64,
        ensures
            sets_field(old(self)@, final(self)@, offset, bits, value),
    {
        let first_half_idx = part_for_bit(offset);
        let second_half_idx = part_for_bit(offset + (bits - 1));
        let offset_modulo = offset % PIECE_SIZE_IN_BITS;
        proof {
            lemma_word_index_bound(offset as int, old(self)@.len() as int);
            lemma_word_index_bound((offset + bits - 1) as int, old(self)@.len() as int);
            lemma_fundamental_div_mod(offset as int, 64);
        }

        if first_half_idx == second_half_idx {
            proof {
                if offset_modulo + bits > 64 {
                    lemma_next_word(offset as int, (bits - 1) as int);
                    assert(false);
                }
            }
            let source_mask = mask_low(bits);
            let q = first_half_idx as usize;
            let w = self.pieces[q];
            let new_word = (w & !(source_mask << offset_modulo)) | ((value & source_mask)
                << offset_modulo);
            self.pieces[q] = new_word;
            proof {
                assert forall|i: int| offset <= i < offset + bits implies #[trigger] ws_bit(
                    self@,
                    i,
                ) == nth_bit(value, (i - offset) as u64) by {
                    let k = i - offset;
                    lemma_same_word(offset as int, k);
                    lemma_install_bits(w, offset_modulo, bits, value, (offset_modulo + k) as u64);
                };
                assert forall|i: int|
                    0 <= i < old(self)@.len() * 64 && !(offset <= i < offset + bits)
                        implies #[trigger] ws_bit(self@, i) == ws_bit(old(self)@, i) by {
                    lemma_word_index_bound(i, old(self)@.len() as int);
                    lemma_fundamental_div_mod(i, 64);
                    lemma_mod_pos_bound(i, 64);
                    let s = i % 64;
                    if i / 64 == q {
                        lemma_install_bits(w, offset_modulo, bits, value, s as u64);
                    }
                };
            }
        } else {
            proof {
                if offset_modulo + bits <= 64 {
                    lemma_same_word(offset as int, (bits - 1) as int);
                    assert(false);
                }
                lemma_next_word(offset as int, (bits - 1) as int);
            }
            let p1_bits = PIECE_SIZE_IN_BITS - offset_modulo;
            let p2_bits = bits - p1_bits;
            let value_mask1 = mask_low(p1_bits);
            let piece_mask2 = mask_low(p2_bits);
            let q1 = first_half_idx as usize;
            let q2 = second_half_idx as usize;
            let w1 = self.pieces[q1];
            let new_word1 = (w1 & !(value_mask1 << offset_modulo)) | ((value & value_mask1)
                << offset_modulo);
            self.pieces[q1] = new_word1;
            let w2 = self.pieces[q2];
            let new_word2 = (w2 & !piece_mask2) | ((value >> p1_bits) & piece_mask2);
            self.pieces[q2] = new_word2;
            proof {
                assert(self@ == old(self)@.update(q1 as int, new_word1).update(
                    q2 as int,
                    new_word2,
                ));
                assert forall|i: int| offset <= i < offset + bits implies #[trigger] ws_bit(
                    self@,
                    i,
                ) == nth_bit(value, (i - offset) as u64) by {
                    let k = i - offset;
                    if k < p1_bits {
                        lemma_same_word(offset as int, k);
                        lemma_install_bits(
                            w1,
                            offset_modulo,
                            p1_bits,
                            value,
                            (offset_modulo + k) as u64,
                        );
                    } else {
                        lemma_next_word(offset as int, k);
                        lemma_install_high(w2, offset_modulo, bits, value, (k - p1_bits) as u64);
                    }
                };
                assert forall|i: int|
                    0 <= i < old(self)@.len() * 64 && !(offset <= i < offset + bits)
                        implies #[trigger] ws_bit(self@, i) == ws_bit(old(self)@, i) by {
                    lemma_word_index_bound(i, old(self)@.len() as int);
                    lemma_fundamental_div_mod(i, 64);
                    lemma_mod_pos_bound(i, 64);
                    let s = i % 64;
                    if i / 64 == q1 {
                        lemma_install_bits(w1, offset_modulo, p1_bits, value, s as u64);
                    } else if i / 64 == q2 {
                        lemma_install_high(w2, offset_modulo, bits, value, s as u64);
                    }
                };
            }
        }
    }

    /// Assigns the `bits`-wide field at `offset` the low `bits` bits of
    /// `value`, leaving every other bit of the string unchanged. Requests
    /// wider than 64 bits are width errors; requests that reach past the
    /// capacity are boundary errors; either error leaves the string
    /// untouched, as does a zero-width request.
    pub fn set(&mut self, offset: u64, bits: u64, value: u64) -> (r: Result<(), RangeError>)
        requires
            old(self).wf(),
        ensures
            final(self).wf(),
            match r {
                Ok(_) => {
                    &&& bits <= 64
                    &&& offset + bits <= old(self)@.len() * 64
                    &&& sets_field(old(self)@, final(self)@, offset, bits, value)
                    &&& bits == 0 ==> final(self)@ == old(self)@
                },
                Err(RangeError::Width) => bits > 64 && final(self)@ == old(self)@,
                Err(RangeError::Boundary) => {
                    &&& bits <= 64
                    &&& offset + bits > old(self)@.len() * 64
                    &&& final(self)@ == old(self)@
                },
            },
    {
        if bits > PIECE_SIZE_IN_BITS {
            return Err(RangeError::Width);
        }
        let cap = self.bit_len() as u64;
        if offset > cap || bits > cap - offset {
            return Err(RangeError::Boundary);
        }
        if bits == 0 {
            return Ok(());
        }
        self.set_in_range(offset, bits, value);
        Ok(())
    }

    /// Copies the `bits`-wide range at `offset` from a donor genestring into
    /// the same bit positions of this one, window by window, so fields wider
    /// than 64 bits are allowed. The assumed usage of this function is to
    /// implement crossover between generations. A range that reaches past the
    /// capacity of either string is a boundary error and leaves this string
    /// untouched. The borrow rules keep the donor distinct from the
    /// destination, so the windowed copy never reads bits it has already
    /// overwritten.
    pub fn transplant(&mut self, donor: &Genestring, offset: u64, bits: u64) -> (r: Result<
        (),
        RangeError,
    >)
        requires
            old(self).wf(),
            donor.wf(),
        ensures
            final(self).wf(),
            match r {
                Ok(_) => {
                    &&& offset + bits <= old(self)@.len() * 64
                    &&& offset + bits <= donor@.len() * 64
                    &&& transplants(old(self)@, final(self)@, donor@, offset, bits)
                    &&& bits == 0 ==> final(self)@ == old(self)@
                },
                Err(RangeError::Width) => false,
                Err(RangeError::Boundary) => {
                    &&& (offset + bits > old(self)@.len() * 64 || offset + bits > donor@.len()
                        * 64)
                    &&& final(self)@ == old(self)@
                },
            },
    {
        let self_cap = self.bit_len() as u64;
        let donor_cap = donor.bit_len() as u64;
        if offset > self_cap || bits > self_cap - offset || offset > donor_cap || bits > donor_cap
            - offset {
            return Err(RangeError::Boundary);
        }
        if bits == 0 {
            return Ok(());
        }

        if bits <= PIECE_SIZE_IN_BITS {
            let ghost ws0 = self@;
            let v = donor.get_in_range(offset, bits);
            self.set_in_range(offset, bits, v);
            proof {
                lemma_extend_window(ws0, ws0, self@, donor@, offset, offset, bits, v);
            }
            Ok(())
        } else {
            let bit_windows = bits / PIECE_SIZE_IN_BITS;
            proof {
                lemma_fundamental_div_mod(bits as int, 64);
                lemma_mod_pos_bound(bits as int, 64);
            }
            let mut off = offset;
            let mut t: u64 = 0;
            while t < bit_windows
                invariant
                    donor.wf(),
                    self@.len() == old(self)@.len(),
                    self@.len() * 64 <= usize::MAX,
                    t <= bit_windows,
                    off == offset + 64 * t,
                    bit_windows == bits / 64,
                    64 * bit_windows <= bits,
                    offset + bits <= self@.len() * 64,
                    offset + bits <= donor@.len() * 64,
                    forall|i: int|
                        offset <= i < off ==> #[trigger] ws_bit(self@, i) == ws_bit(donor@, i),
                    forall|i: int|
                        0 <= i < self@.len() * 64 && !(offset <= i < off) ==> #[trigger] ws_bit(
                            self@,
                            i,
                        ) == ws_bit(old(self)@, i),
                decreases bit_windows - t,
            {
                proof {
                    assert(64 * (t + 1) <= 64 * bit_windows);
                }
                let ghost pre = self@;
                let v = donor.get_in_range(off, PIECE_SIZE_IN_BITS);
                self.set_in_range(off, PIECE_SIZE_IN_BITS, v);
                proof {
                    lemma_extend_window(old(self)@, pre, self@, donor@, offset, off, 64, v);
                }
                off = off + PIECE_SIZE_IN_BITS;
                t = t + 1;
            }
            let rem = bits % PIECE_SIZE_IN_BITS;
            proof {
                assert(off + rem == offset + bits);
            }
            if rem > 0 {
                let ghost pre = self@;
                let v = donor.get_in_range(off, rem);
                self.set_in_range(off, rem, v);
                proof {
                    lemma_extend_window(old(self)@, pre, self@, donor@, offset, off, rem, v);
                }
            }
            Ok(())
        }
    }
}

} // verus!
