//! Presence bitmaps: one bit per symbol of the alphabet, symbol 0 in the most
//! significant bit.

use vstd::prelude::*;
use crate::error::IndexError;

verus! {

/// Number of symbols in the alphabet; a symbol is an integer below this.
pub const ALPHABET_SIZE: u64 = 64;

/// Whether `symbol` is marked in `bitmap`: bit `63 - symbol` is one.
pub open spec fn symbol_present(bitmap: u64, symbol: int) -> bool {
    0 <= symbol < 64 && (bitmap >> ((63 - symbol) as u64)) & 1 == 1
}

/// How many symbols below `limit` are marked in `bitmap`.
pub open spec fn present_below(bitmap: u64, limit: int) -> nat
    decreases limit,
{
    if limit <= 0 {
        0
    } else {
        present_below(bitmap, limit - 1) + if symbol_present(bitmap, limit - 1) {
            1nat
        } else {
            0nat
        }
    }
}

/// How many symbols are marked in `bitmap`.
pub open spec fn popcount(bitmap: u64) -> nat {
    present_below(bitmap, 64)
}

/// The place of `symbol` among the marked symbols of `bitmap`, counted from
/// zero in ascending symbol order: the number of marked symbols below it.
pub open spec fn compact_offset(bitmap: u64, symbol: int) -> nat {
    present_below(bitmap, symbol)
}

/// The marked symbols below `limit`, ascending.
pub open spec fn symbols_below(bitmap: u64, limit: int) -> Seq<int>
    decreases limit,
{
    if limit <= 0 {
        Seq::empty()
    } else if symbol_present(bitmap, limit - 1) {
        symbols_below(bitmap, limit - 1).push(limit - 1)
    } else {
        symbols_below(bitmap, limit - 1)
    }
}

/// The marked symbols of `bitmap`, ascending.
pub open spec fn present_symbols(bitmap: u64) -> Seq<int> {
    symbols_below(bitmap, 64)
}

/// `bitmap` with `symbol` marked as well.
pub open spec fn with_symbol(bitmap: u64, symbol: int) -> u64 {
    bitmap | (1u64 << ((63 - symbol) as u64))
}

/// The number of ones in the binary representation of `n`.
pub open spec fn ones(n: u64) -> nat
    decreases n,
{
    if n == 0 {
        0
    } else {
        (n % 2) as nat + ones(n / 2)
    }
}

/// Taken on trust from the standard library: `u64::count_ones` returns the
/// number of ones in the binary representation of its argument. Nothing
/// here proves this; what is said of `popcnt` rests on it.
pub assume_specification[ u64::count_ones ](n: u64) -> (r: u32)
    ensures
        r == ones(n),
;

/// Population count of a bitmap.
pub fn popcnt(n: u64) -> (r: u32)
    ensures
        r == popcount(n),
        r == ones(n),
        r <= 64,
{
    proof {
        lemma_popcount_is_ones(n);
    }
    n.count_ones()
}

/// Whether symbol `n` is marked in `bitmap`; a symbol outside the alphabet
/// is an error.
pub fn is_set(bitmap: u64, n: u64) -> (r: Result<bool, IndexError>)
    ensures
        r == if n < ALPHABET_SIZE {
            Ok::<bool, IndexError>(symbol_present(bitmap, n as int))
        } else {
            Err::<bool, IndexError>(IndexError::InvalidSymbol)
        },
{
    if n >= ALPHABET_SIZE {
        return Err(IndexError::InvalidSymbol);
    }
    let shift: u64 = ALPHABET_SIZE - n - 1;
    let mask: u64 = 1u64 << shift;
    assert((bitmap & mask != 0) == ((bitmap >> shift) & 1 == 1)) by (bit_vector)
        requires
            shift < 64,
            mask == 1u64 << shift,
    ;
    Ok(bitmap & mask != 0)
}

/// The place that symbol `key` takes among the marked symbols of `bitmap`:
/// the number of marked symbols below it. This is the place of a child only
/// where `key` is itself marked, which `is_set` tells. A key beyond the
/// alphabet has every marked symbol below it.
pub fn bitmap_index_of(bitmap: u64, key: u64) -> (r: usize)
    ensures
        r == compact_offset(bitmap, key as int),
{
    if key == 0 {
        0
    } else if key >= ALPHABET_SIZE {
        proof {
            lemma_present_below_bounds(bitmap, key as int);
        }
        popcnt(bitmap) as usize
    } else {
        proof {
            lemma_offset_by_shift(bitmap, key);
        }
        popcnt(bitmap >> (ALPHABET_SIZE - key)) as usize
    }
}

/// The population count is the number of ones in the binary representation.
pub proof fn lemma_popcount_is_ones(bitmap: u64)
    ensures
        popcount(bitmap) == ones(bitmap),
        popcount(bitmap) <= 64,
{
    assert(bitmap >> 0 == bitmap) by (bit_vector);
    lemma_ones_of_shifted(bitmap, 0);
    lemma_present_below_bounds(bitmap, 64);
}

/// The offset of a symbol is the population count of the bits above its
/// own: of the bitmap shifted right by `64 - symbol`. Symbol 0 has nothing
/// above it.
pub proof fn lemma_offset_by_shift(bitmap: u64, symbol: u64)
    requires
        symbol < 64,
    ensures
        symbol == 0 ==> compact_offset(bitmap, symbol as int) == 0,
        symbol > 0 ==> compact_offset(bitmap, symbol as int) == popcount(
            bitmap >> ((64 - symbol) as u64),
        ),
{
    if symbol > 0 {
        let shift = (64 - symbol) as u64;
        lemma_ones_of_shifted(bitmap, shift);
        lemma_popcount_is_ones(bitmap >> shift);
    }
}

/// A marked symbol has an offset below the population count.
pub proof fn lemma_offset_in_range(bitmap: u64, symbol: int)
    requires
        symbol_present(bitmap, symbol),
    ensures
        compact_offset(bitmap, symbol) < popcount(bitmap),
{
    lemma_present_below_monotone(bitmap, symbol, 64);
}

/// Two different marked symbols have different offsets, in the order of the
/// symbols.
pub proof fn lemma_offsets_ordered(bitmap: u64, low: int, high: int)
    requires
        symbol_present(bitmap, low),
        low < high,
    ensures
        compact_offset(bitmap, low) < compact_offset(bitmap, high),
{
    lemma_present_below_monotone(bitmap, low, high);
}

/// A bitmap with `k` marked symbols gives them, in ascending symbol order,
/// exactly the offsets `0, 1, .., k - 1`: none is skipped and none is used
/// twice.
pub proof fn lemma_offsets_enumerate(bitmap: u64)
    ensures
        present_symbols(bitmap).len() == popcount(bitmap),
        forall|i: int|
            0 <= i < popcount(bitmap) ==> {
                let s = #[trigger] present_symbols(bitmap)[i];
                &&& symbol_present(bitmap, s)
                &&& compact_offset(bitmap, s) == i
            },
        forall|i: int, j: int|
            0 <= i < j < popcount(bitmap) ==> #[trigger] present_symbols(bitmap)[i]
                < #[trigger] present_symbols(bitmap)[j],
        forall|s: int| #[trigger]
            symbol_present(bitmap, s) ==> {
                &&& compact_offset(bitmap, s) < popcount(bitmap)
                &&& present_symbols(bitmap)[compact_offset(bitmap, s) as int] == s
            },
{
    lemma_symbols_below(bitmap, 64);
    let symbols = present_symbols(bitmap);
    assert forall|i: int, j: int| 0 <= i < j < popcount(bitmap) implies #[trigger] symbols[i]
        < #[trigger] symbols[j] by {
        if symbols[i] >= symbols[j] {
            lemma_present_below_monotone(bitmap, symbols[j], symbols[i]);
        }
    }
    assert forall|s: int| #[trigger] symbol_present(bitmap, s) implies compact_offset(bitmap, s)
        < popcount(bitmap) by {
        lemma_offset_in_range(bitmap, s);
    }
}

/// The empty bitmap marks no symbol.
pub proof fn lemma_empty_bitmap()
    ensures
        forall|symbol: int| !symbol_present(0, symbol),
        forall|limit: int| present_below(0, limit) == 0,
        popcount(0) == 0,
{
    assert forall|symbol: int| !symbol_present(0, symbol) by {
        lemma_empty_marks_nothing(symbol);
    }
    assert forall|limit: int| present_below(0, limit) == 0 by {
        lemma_empty_below(limit);
    }
}

/// A bitmap is what it marks: two bitmaps that mark the same symbols are
/// the same.
pub proof fn lemma_same_symbols_same_bitmap(a: u64, b: u64)
    requires
        forall|symbol: int|
            0 <= symbol < 64 ==> symbol_present(a, symbol) == symbol_present(b, symbol),
    ensures
        a == b,
{
    assert forall|bit: u64| bit < 64 implies #[trigger] ((a >> bit) & 1) == (b >> bit) & 1 by {
        let symbol = 63 - bit;
        assert(symbol_present(a, symbol) == symbol_present(b, symbol));
        assert((a >> bit) & 1 == 0 || (a >> bit) & 1 == 1) by (bit_vector);
        assert((b >> bit) & 1 == 0 || (b >> bit) & 1 == 1) by (bit_vector);
    }
    lemma_same_bits_same_shifted(a, b, 0);
    assert(a >> 0 == a) by (bit_vector);
    assert(b >> 0 == b) by (bit_vector);
}

/// Marking a symbol marks that symbol and changes no other; the offsets of
/// the symbols up to it stay as they were.
pub proof fn lemma_with_symbol(bitmap: u64, symbol: int)
    requires
        0 <= symbol < 64,
    ensures
        forall|other: int| #[trigger]
            symbol_present(with_symbol(bitmap, symbol), other) == (other == symbol
                || symbol_present(bitmap, other)),
        forall|limit: int|
            limit <= symbol ==> #[trigger] present_below(with_symbol(bitmap, symbol), limit)
                == present_below(bitmap, limit),
{
    lemma_with_symbol_marks(bitmap, symbol);
    assert forall|limit: int| limit <= symbol implies #[trigger] present_below(
        with_symbol(bitmap, symbol),
        limit,
    ) == present_below(bitmap, limit) by {
        lemma_with_symbol_below(bitmap, symbol, limit);
    }
}

/// Counting never exceeds the number of symbols looked at.
pub proof fn lemma_present_below_bounds(bitmap: u64, limit: int)
    ensures
        present_below(bitmap, limit) <= 64,
        0 <= limit ==> present_below(bitmap, limit) <= limit,
        limit >= 64 ==> present_below(bitmap, limit) == popcount(bitmap),
    decreases limit,
{
    if limit > 0 {
        lemma_present_below_bounds(bitmap, limit - 1);
    }
}

/// Counting is monotone in the limit, and strictly so across a marked symbol.
pub proof fn lemma_present_below_monotone(bitmap: u64, low: int, high: int)
    requires
        low <= high,
    ensures
        present_below(bitmap, low) <= present_below(bitmap, high),
        symbol_present(bitmap, low) && low < high ==> present_below(bitmap, low) < present_below(
            bitmap,
            high,
        ),
    decreases high - low,
{
    if low < high {
        lemma_present_below_monotone(bitmap, low, high - 1);
    }
}

/// The empty bitmap does not mark `symbol`.
proof fn lemma_empty_marks_nothing(symbol: int)
    ensures
        !symbol_present(0, symbol),
{
    if 0 <= symbol < 64 {
        let bit = (63 - symbol) as u64;
        assert((0u64 >> bit) & 1 == 0) by (bit_vector);
    }
}

/// The empty bitmap has no marked symbol below any limit.
proof fn lemma_empty_below(limit: int)
    ensures
        present_below(0, limit) == 0,
    decreases limit,
{
    if limit > 0 {
        lemma_empty_below(limit - 1);
        lemma_empty_marks_nothing(limit - 1);
    }
}

/// The ones of a bitmap shifted right by `shift` are the marked symbols
/// below `64 - shift`.
proof fn lemma_ones_of_shifted(bitmap: u64, shift: u64)
    requires
        shift < 64,
    ensures
        ones(bitmap >> shift) == present_below(bitmap, 64 - shift),
    decreases 64 - shift,
{
    let x = bitmap >> shift;
    assert(x % 2 == x & 1) by (bit_vector);
    assert(symbol_present(bitmap, 63 - shift) == (x % 2 == 1));
    if shift == 63 {
        assert(x / 2 == 0) by (bit_vector)
            requires
                x == bitmap >> shift,
                shift == 63,
        ;
        assert(ones(0) == 0);
        assert(present_below(bitmap, 0) == 0);
    } else {
        let next = (shift + 1) as u64;
        assert(x / 2 == bitmap >> next) by (bit_vector)
            requires
                x == bitmap >> shift,
                shift < 63,
                next == shift + 1,
        ;
        lemma_ones_of_shifted(bitmap, next);
    }
}

/// The marked symbols below `limit`, taken in ascending order, sit at the
/// offsets 0, 1, 2, ... in turn.
proof fn lemma_symbols_below(bitmap: u64, limit: int)
    ensures
        symbols_below(bitmap, limit).len() == present_below(bitmap, limit),
        forall|i: int|
            0 <= i < symbols_below(bitmap, limit).len() ==> {
                let s = #[trigger] symbols_below(bitmap, limit)[i];
                &&& s < limit
                &&& symbol_present(bitmap, s)
                &&& present_below(bitmap, s) == i
            },
        forall|s: int|
            s < limit && #[trigger] symbol_present(bitmap, s) ==> symbols_below(
                bitmap,
                limit,
            )[present_below(bitmap, s) as int] == s,
    decreases limit,
{
    if limit > 0 {
        lemma_symbols_below(bitmap, limit - 1);
        assert forall|s: int| s < limit - 1 && symbol_present(bitmap, s) implies present_below(
            bitmap,
            s,
        ) < present_below(bitmap, limit - 1) by {
            lemma_present_below_monotone(bitmap, s, limit - 1);
        }
    }
}

/// Two bitmaps that agree on every bit from `shift` upwards are the same
/// once shifted right by `shift`.
proof fn lemma_same_bits_same_shifted(a: u64, b: u64, shift: u64)
    requires
        shift < 64,
        forall|bit: u64| shift <= bit < 64 ==> #[trigger] ((a >> bit) & 1) == (b >> bit) & 1,
    ensures
        a >> shift == b >> shift,
    decreases 64 - shift,
{
    if shift == 63 {
        assert(a >> 63 == (a >> 63) & 1) by (bit_vector);
        assert(b >> 63 == (b >> 63) & 1) by (bit_vector);
    } else {
        let next = (shift + 1) as u64;
        lemma_same_bits_same_shifted(a, b, next);
        assert(a >> shift == ((a >> next) << 1) | ((a >> shift) & 1)) by (bit_vector)
            requires
                shift < 63,
                next == shift + 1,
        ;
        assert(b >> shift == ((b >> next) << 1) | ((b >> shift) & 1)) by (bit_vector)
            requires
                shift < 63,
                next == shift + 1,
        ;
    }
}

/// Marking a symbol marks that symbol and changes no other.
proof fn lemma_with_symbol_marks(bitmap: u64, symbol: int)
    requires
        0 <= symbol < 64,
    ensures
        forall|other: int| #[trigger]
            symbol_present(with_symbol(bitmap, symbol), other) == (other == symbol
                || symbol_present(bitmap, other)),
{
    let own = (63 - symbol) as u64;
    assert forall|other: int| #[trigger]
        symbol_present(with_symbol(bitmap, symbol), other) == (other == symbol || symbol_present(
            bitmap,
            other,
        )) by {
        if 0 <= other < 64 {
            let bit = (63 - other) as u64;
            assert((((bitmap | (1u64 << own)) >> bit) & 1 == 1) == (own == bit || (bitmap >> bit)
                & 1 == 1)) by (bit_vector)
                requires
                    own < 64,
                    bit < 64,
            ;
        }
    }
}

/// Marking a symbol leaves the count of marked symbols below it as it was.
proof fn lemma_with_symbol_below(bitmap: u64, symbol: int, limit: int)
    requires
        0 <= symbol < 64,
        limit <= symbol,
    ensures
        present_below(with_symbol(bitmap, symbol), limit) == present_below(bitmap, limit),
    decreases limit,
{
    if limit > 0 {
        lemma_with_symbol_below(bitmap, symbol, limit - 1);
        lemma_with_symbol_marks(bitmap, symbol);
    }
}

} // verus!
