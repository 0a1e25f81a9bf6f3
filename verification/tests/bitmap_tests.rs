use egg_index::bitmap::{bitmap_index_of, is_set, popcnt, ALPHABET_SIZE};
use egg_index::error::IndexError;

#[test]
fn is_set_test() {
    let bitmap = 0b10100000 << (ALPHABET_SIZE - 8);
    assert_eq!(is_set(bitmap, 0), Ok(true));
    assert_eq!(is_set(bitmap, 1), Ok(false));
    assert_eq!(is_set(bitmap, 2), Ok(true));
    assert_eq!(is_set(bitmap, 3), Ok(false));
}

#[test]
fn bitmap_index_of_test() {
    let bitmap = 0b01011000 << (ALPHABET_SIZE - 8);
    assert_eq!(0, bitmap_index_of(bitmap, 1));
    assert_eq!(1, bitmap_index_of(bitmap, 3));
    assert_eq!(2, bitmap_index_of(bitmap, 4));
}

#[test]
fn popcnt_counts_every_bit() {
    assert_eq!(popcnt(0), 0);
    assert_eq!(popcnt(u64::MAX), 64);
    assert_eq!(popcnt(1), 1);
    assert_eq!(popcnt(1 << 63), 1);
    assert_eq!(popcnt(0b01011000 << 56), 3);
    assert_eq!(popcnt(0x5555_5555_5555_5555), 32);
}

#[test]
fn popcnt_of_each_single_bit_is_one() {
    for position in 0..64 {
        assert_eq!(popcnt(1u64 << position), 1);
        assert_eq!(popcnt(!(1u64 << position)), 63);
    }
}

#[test]
fn is_set_inspects_bit_63_minus_symbol() {
    let bitmaps = [
        0u64,
        u64::MAX,
        1,
        1 << 63,
        0xDEAD_BEEF_0BAD_F00D,
        0x0123_4567_89AB_CDEF,
    ];
    for bitmap in bitmaps {
        for symbol in 0..64u64 {
            let bit = (bitmap >> (63 - symbol)) & 1 == 1;
            assert_eq!(is_set(bitmap, symbol), Ok(bit));
        }
    }
}

#[test]
fn is_set_rejects_symbols_outside_the_alphabet() {
    assert_eq!(is_set(u64::MAX, 64), Err(IndexError::InvalidSymbol));
    assert_eq!(is_set(0, 65), Err(IndexError::InvalidSymbol));
    assert_eq!(is_set(0, u64::MAX), Err(IndexError::InvalidSymbol));
    assert_eq!(is_set(u64::MAX, 63), Ok(true));
}

#[test]
fn offset_of_the_first_marked_symbol_is_zero() {
    assert_eq!(bitmap_index_of(1 << 63, 0), 0);
    assert_eq!(bitmap_index_of(u64::MAX, 0), 0);
    assert_eq!(bitmap_index_of(1, 63), 0);
    assert_eq!(bitmap_index_of(0b0001 << 60, 3), 0);
}

#[test]
fn offset_counts_the_marked_symbols_below() {
    assert_eq!(bitmap_index_of(u64::MAX, 1), 1);
    assert_eq!(bitmap_index_of(u64::MAX, 63), 63);
    assert_eq!(bitmap_index_of(0b1010 << 60, 2), 1);
    assert_eq!(bitmap_index_of(0b1010 << 60, 1), 1);
    assert_eq!(bitmap_index_of(0b1010 << 60, 3), 2);
    assert_eq!(bitmap_index_of(0, 17), 0);
}

#[test]
fn offset_of_a_key_beyond_the_alphabet_is_the_population_count() {
    assert_eq!(bitmap_index_of(u64::MAX, 64), 64);
    assert_eq!(bitmap_index_of(0b1010 << 60, 64), 2);
    assert_eq!(bitmap_index_of(0b1010 << 60, u64::MAX), 2);
    assert_eq!(bitmap_index_of(0, 1000), 0);
}

#[test]
fn marked_symbols_take_the_offsets_in_turn() {
    let bitmaps = [
        0u64,
        u64::MAX,
        1,
        1 << 63,
        0xDEAD_BEEF_0BAD_F00D,
        0x0123_4567_89AB_CDEF,
        0b01011000 << 56,
    ];
    for bitmap in bitmaps {
        let mut next = 0;
        for symbol in 0..64u64 {
            if is_set(bitmap, symbol) == Ok(true) {
                assert_eq!(bitmap_index_of(bitmap, symbol), next);
                next += 1;
            }
        }
        assert_eq!(next, popcnt(bitmap) as usize);
    }
}

#[test]
fn every_eight_bit_pattern_numbers_its_symbols() {
    for pattern in 0..256u64 {
        let bitmap = pattern << (ALPHABET_SIZE - 8);
        let mut next = 0;
        for symbol in 0..8u64 {
            let bit = pattern & (0b1000_0000 >> symbol) != 0;
            assert_eq!(is_set(bitmap, symbol), Ok(bit));
            if bit {
                assert_eq!(bitmap_index_of(bitmap, symbol), next);
                next += 1;
            }
        }
        assert_eq!(popcnt(bitmap) as usize, next);
    }
}
