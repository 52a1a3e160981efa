//! Word-level bit arithmetic: reading single bits of a `u64`, counting set
//! bits among the low positions of a word, and the masking facts that the
//! packed bit-vector operations rely on.

use vstd::prelude::*;

verus! {

/// Bit `k` of the word `w` (bit 0 is the least significant).
pub open spec fn bit64(w: u64, k: int) -> bool
    recommends
        0 <= k < 64,
{
    (w >> (k as u64)) & 1 == 1
}

/// Number of set bits of `w` at positions strictly below `n`.
pub open spec fn count_bits_below(w: u64, n: int) -> nat
    decreases n,
{
    if n <= 0 {
        0
    } else {
        count_bits_below(w, n - 1) + (if bit64(w, n - 1) {
            1nat
        } else {
            0nat
        })
    }
}

/// Counting the low bits of a word never exceeds how many positions were
/// inspected.
pub proof fn lemma_count_bits_below_bound(w: u64, n: int)
    requires
        0 <= n,
    ensures
        count_bits_below(w, n) <= n,
    decreases n,
{
    if n > 0 {
        lemma_count_bits_below_bound(w, n - 1);
    }
}

/// The zero word has no set bits.
pub proof fn lemma_zero_word(k: u64)
    requires
        k < 64,
    ensures
        !bit64(0u64, k as int),
{
    assert((0u64 >> k) & 1 == 0) by (bit_vector);
}

/// Setting bit `b` by or-ing a one-bit mask changes that bit alone.
pub proof fn lemma_or_mask_bit(w: u64, b: u64, k: u64)
    requires
        b < 64,
        k < 64,
    ensures
        bit64(w | (1u64 << b), k as int) == (k == b || bit64(w, k as int)),
{
    assert(((w | (1u64 << b)) >> k) & 1 == if k == b {
        1u64
    } else {
        (w >> k) & 1
    }) by (bit_vector)
        requires
            b < 64,
            k < 64,
    ;
}

/// Clearing bit `b` by and-ing the complement of a one-bit mask changes that
/// bit alone.
pub proof fn lemma_andnot_mask_bit(w: u64, b: u64, k: u64)
    requires
        b < 64,
        k < 64,
    ensures
        bit64(w & !(1u64 << b), k as int) == (k != b && bit64(w, k as int)),
{
    assert(((w & !(1u64 << b)) >> k) & 1 == if k == b {
        0u64
    } else {
        (w >> k) & 1
    }) by (bit_vector)
        requires
            b < 64,
            k < 64,
    ;
}

/// Testing a word against a one-bit mask reads exactly that bit.
pub proof fn lemma_test_mask_bit(w: u64, b: u64)
    requires
        b < 64,
    ensures
        (w & (1u64 << b) != 0) == bit64(w, b as int),
{
    assert((w & (1u64 << b) != 0) == ((w >> b) & 1 == 1)) by (bit_vector)
        requires
            b < 64,
    ;
}

/// Keeping the low `x` bits of a word: bit by bit.
pub proof fn lemma_low_mask_bits(w: u64, x: u64, k: u64)
    requires
        x < 64,
        k < 64,
    ensures
        bit64(w & (((1u64 << x) - 1) as u64), k as int) == (k < x && bit64(w, k as int)),
{
    assert(((w & (((1u64 << x) - 1) as u64)) >> k) & 1 == if k < x {
        (w >> k) & 1
    } else {
        0u64
    }) by (bit_vector)
        requires
            x < 64,
            k < 64,
    ;
}

/// Keeping the top `x` bits of a word, shifted down to the bottom: bit `k` of
/// the result is bit `64 - x + k` of the word.
pub proof fn lemma_high_mask_bits(w: u64, x: u64, k: u64)
    requires
        1 <= x < 64,
        k < 64,
    ensures
        bit64((w >> ((64 - x) as u64)) & (((1u64 << x) - 1) as u64), k as int) == (k < x && bit64(
            w,
            64 - x + k,
        )),
{
    assert((((w >> ((64 - x) as u64)) & (((1u64 << x) - 1) as u64)) >> k) & 1 == if k < x {
        (w >> ((64 - x + k) as u64)) & 1
    } else {
        0u64
    }) by (bit_vector)
        requires
            1 <= x < 64,
            k < 64,
    ;
}

/// A sub-range taken from the middle of a single word: mask the range
/// `[io, jo)` and shift it down; bit `k` of the result is bit `io + k` of the
/// word while `k` stays inside the range, and clear above it.
pub proof fn lemma_one_word_bits(w: u64, io: u64, jo: u64, k: u64)
    requires
        io < jo < 64,
        k < 64,
    ensures
        bit64((w & (((1u64 << jo) - (1u64 << io)) as u64)) >> io, k as int) == (k < jo - io && bit64(
            w,
            io + k,
        )),
{
    assert((((w & (((1u64 << jo) - (1u64 << io)) as u64)) >> io) >> k) & 1 == if k < jo - io {
        (w >> ((io + k) as u64)) & 1
    } else {
        0u64
    }) by (bit_vector)
        requires
            io < jo < 64,
            k < 64,
    ;
}

/// A sub-range spanning two adjacent words: the high `64 - io` bits of the
/// first word sit at the bottom of the result, and the low `jo` bits of the
/// second word are stacked above them. The two parts occupy disjoint bit
/// positions, so their sum does not overflow and reads back bit by bit.
pub proof fn lemma_two_word_bits(w1: u64, w2: u64, io: u64, jo: u64, k: u64)
    requires
        1 <= io < 64,
        jo <= io,
        k < 64,
    ensures
        ({
            let s = (64 - io) as u64;
            let second = (w1 >> io) & (((1u64 << s) - 1) as u64);
            let first = w2 & (((1u64 << jo) - 1) as u64);
            &&& second + (first << s) <= u64::MAX
            &&& bit64((second + (first << s)) as u64, k as int) == (if k < s {
                bit64(w1, io + k)
            } else if k < s + jo {
                bit64(w2, k - s)
            } else {
                false
            })
        }),
{
    let s = (64 - io) as u64;
    assert({
        let second = (w1 >> io) & (((1u64 << s) - 1) as u64);
        let first = w2 & (((1u64 << jo) - 1) as u64);
        &&& second + (first << s) <= u64::MAX
        &&& (((second + (first << s)) as u64) >> k) & 1 == (if k < s {
            (w1 >> ((io + k) as u64)) & 1
        } else if k < s + jo {
            (w2 >> ((k - s) as u64)) & 1
        } else {
            0u64
        })
    }) by (bit_vector)
        requires
            1 <= io < 64,
            jo <= io,
            k < 64,
            s == (64 - io) as u64,
    ;
}

} // verus!
