use genestring::Genestring;
use genestring::math::part_count_for_bits;
use genestring::math::PIECE_SIZE_IN_BITS;

#[test]
fn assume_intdiv_rounds_down() {
    assert_eq!(4 / 5, 0);
    assert_eq!(7 / 5, 1);
}

#[test]
fn calculating_bi_offsets() {
    // just making sure the way we do bit offsets is correct
    let offset: u64 = 50;
    let bits: u64 = 32;
    let mut total: u64 = 0;

    let start: u64 = offset % PIECE_SIZE_IN_BITS;
    let stop: u64 = PIECE_SIZE_IN_BITS;

    for _ in start..stop {
        total += 1;
    }

    let stop: u64 = bits - (stop - start);
    let start: u64 = 0;

    for _ in start..stop {
        total += 1;
    }

    assert_eq!(total, bits);
}

#[test]
fn get_set_same_chunk() {
    assert_eq!(PIECE_SIZE_IN_BITS, 64);
    let mut gs = Genestring::with_bits(32);

    gs.set(8, 12, 842).unwrap();
    assert_eq!(gs.get(8, 12).unwrap(), 842);
}

#[test]
fn get_set_different_chunk() {
    assert_eq!(PIECE_SIZE_IN_BITS, 64);
    let mut gs = Genestring::with_bits(128);

    gs.set(60, 8, 0xFF).unwrap();
    assert_eq!(gs.get(0, 64).unwrap(), 0xF000000000000000);
    assert_eq!(gs.get(64, 64).unwrap(), 0x000000000000000F);
    assert_eq!(gs.get(60, 8).unwrap(), 0xFF);
}

#[test]
fn string_size_minimum() {
    // just making sure this bit of math works as we expect it to
    assert_eq!(PIECE_SIZE_IN_BITS, 64);
    assert_eq!(part_count_for_bits(0), 1);
}

#[test]
fn string_size_blocks() {
    assert_eq!(PIECE_SIZE_IN_BITS, 64);
    for blocks in 1u64..10 {
        assert_eq!(part_count_for_bits(blocks * PIECE_SIZE_IN_BITS), blocks);
    }
}

#[test]
fn string_size_subblocks() {
    assert_eq!(PIECE_SIZE_IN_BITS, 64);
    for blocks in 1u64..10 {
        for subblock in 1u64..32 {
            assert_eq!(
                part_count_for_bits(blocks * PIECE_SIZE_IN_BITS + subblock),
                blocks + 1
            );
        }
    }
}

#[test]
fn get_set_single() {
    // get and set values at various offsets, always getting back the value
    // we started with, including every offset that crosses a word seam
    assert_eq!(PIECE_SIZE_IN_BITS, 64);
    for start in 0u64..192 {
        for len in [1u64, 7, 13, 31, 32, 33, 63, 64] {
            if start + len >= 256 {
                continue;
            }
            let mut gs = Genestring::with_bits(256);

            let value: u64 = start
                .wrapping_mul(0x9E37_79B9_7F4A_7C15)
                .wrapping_add(len.wrapping_mul(0x85EB_CA6B));
            let mut band: u64 = 0;
            for i in 0..len {
                band += 1 << i;
            }

            let banded_value = value & band;
            gs.set(start, len, banded_value).unwrap();
            assert_eq!(gs.get(start, len).unwrap(), banded_value);
        }
    }
}

#[test]
fn get_set_1piece_duo() {
    // store two values within the same piece, guaranteed not to overlap,
    // and ensure they do not trample one another
    assert_eq!(PIECE_SIZE_IN_BITS, 64);
    for a in 0u64..16 {
        for b in 32u64..48 {
            let mut gs = Genestring::with_bits(64);
            let value_a: u64 = a.wrapping_mul(40503).wrapping_add(1) & 0xFFFF;
            let value_b: u64 = b.wrapping_mul(31727).wrapping_add(5) & 0xFFFF;

            gs.set(a, 16, value_a).unwrap();
            gs.set(b, 16, value_b).unwrap();

            assert_eq!(gs.get(a, 16).unwrap(), value_a);
            assert_eq!(gs.get(b, 16).unwrap(), value_b);
        }
    }
}

#[test]
fn get_set_multibinning() {
    // one value always in the first piece, a second value at any
    // non-overlapping location in either piece
    assert_eq!(PIECE_SIZE_IN_BITS, 64);
    for a in 0u64..16 {
        for b in 32u64..100 {
            let mut gs = Genestring::with_bits(128);
            let value_a: u64 = a.wrapping_mul(48271).wrapping_add(3) & 0xFFFF;
            let value_b: u64 = b.wrapping_mul(16807).wrapping_add(9) & 0xFFFF;

            gs.set(a, 16, value_a).unwrap();
            gs.set(b, 16, value_b).unwrap();

            assert_eq!(gs.get(a, 16).unwrap(), value_a);
            assert_eq!(gs.get(b, 16).unwrap(), value_b);
        }
    }
}
