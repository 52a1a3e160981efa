//! Derivation of the rank index parameters from the bit-vector length, the
//! ceiling divisions that size the two index tables, and the divisibility
//! facts that tie positions to their enclosing block and superblock.

use vstd::prelude::*;

verus! {

use vstd::arithmetic::power2::{pow2, lemma_pow2_unfold, lemma_pow2_pos, lemma2_to64};
use vstd::arithmetic::div_mod::{
    lemma_fundamental_div_mod,
    lemma_fundamental_div_mod_converse_div,
    lemma_fundamental_div_mod_converse_mod,
    lemma_div_is_ordered,
    lemma_mod_multiples_basic,
};
use vstd::arithmetic::mul::lemma_mul_inequality;
use crate::bit_vector::BitVector;

/// Floor of the base-two logarithm.
pub open spec fn floor_log2(n: int) -> nat
    recommends
        n >= 1,
    decreases n,
{
    if n <= 1 {
        0
    } else {
        1 + floor_log2(n / 2)
    }
}

/// Floor of the base-two logarithm, then rounded up to the nearest even
/// number: the resolution parameter the rank index is derived from.
pub open spec fn even_log2(n: int) -> nat {
    floor_log2(n) + floor_log2(n) % 2
}

/// Width in bits of one block of the rank index.
pub open spec fn chunk_size_of(n: int) -> nat {
    even_log2(n) / 2
}

/// Width in bits of one superblock of the rank index: the square of the
/// even-rounded logarithm.
pub open spec fn superchunk_size_of(n: int) -> nat {
    2 * chunk_size_of(n) * even_log2(n)
}

/// Ceiling division, written so that the executable counterpart needs no
/// overflowing addition.
pub open spec fn ceil_div(a: int, d: int) -> int
    recommends
        d >= 1,
{
    a / d + (if a % d == 0 {
        0int
    } else {
        1int
    })
}

/// The floor logarithm stays below any exponent whose power exceeds `n`.
pub proof fn lemma_floor_log2_lt(n: int, b: nat)
    requires
        1 <= n,
        n < pow2(b),
    ensures
        floor_log2(n) < b,
    decreases b,
{
    assert(b >= 1) by {
        if b == 0 {
            assert(pow2(0) == 1) by {
                lemma2_to64();
            }
        }
    }
    if n > 1 {
        lemma_pow2_unfold(b);
        let p = pow2((b - 1) as nat) as int;
        assert(p >= 1) by {
            lemma_pow2_pos((b - 1) as nat);
        }
        // n < 2 * p, so halving n lands strictly below p.
        assert((2 * p - 1) / 2 == p - 1) by {
            lemma_fundamental_div_mod_converse_div(2 * p - 1, 2, p - 1, 1);
        }
        lemma_div_is_ordered(n, 2 * p - 1, 2);
        lemma_floor_log2_lt(n / 2, (b - 1) as nat);
    }
}

/// On any machine a `usize` length is below two to the sixty-fourth, so the
/// derived parameters stay in narrow, convenient ranges.
pub proof fn lemma_params(n: int)
    requires
        2 <= n < 0x1_0000_0000_0000_0000,
    ensures
        1 <= floor_log2(n) <= 63,
        2 <= even_log2(n) <= 64,
        even_log2(n) % 2 == 0,
        1 <= chunk_size_of(n) <= 32,
        2 * chunk_size_of(n) == even_log2(n),
        4 <= superchunk_size_of(n) <= 4096,
        superchunk_size_of(n) % chunk_size_of(n) == 0,
{
    assert(pow2(64) == 0x1_0000_0000_0000_0000) by {
        lemma2_to64_rest_pow();
    }
    lemma_floor_log2_lt(n, 64);
    let f = floor_log2(n);
    assert(f >= 1);
    let e = even_log2(n);
    assert(e == f + f % 2);
    assert(f % 2 == 0 || f % 2 == 1);
    assert(e % 2 == 0);
    let c = chunk_size_of(n);
    assert(c == e / 2);
    assert(2 * c == e);
    let s = superchunk_size_of(n);
    assert(s == 2 * c * e);
    assert(2 * c * e == (2 * e) * c) by (nonlinear_arith);
    lemma_mod_multiples_basic(2 * e as int, c as int);
    assert(2 * c * e <= 2 * 32 * 64) by (nonlinear_arith)
        requires
            c <= 32,
            e <= 64,
            0 <= c,
            0 <= e,
    ;
    assert(2 * c * e >= 2 * 1 * 2) by (nonlinear_arith)
        requires
            c >= 1,
            e >= 2,
    ;
}

/// Sixty-four doublings of one.
proof fn lemma2_to64_rest_pow()
    ensures
        pow2(64) == 0x1_0000_0000_0000_0000,
{
    vstd::arithmetic::power2::lemma2_to64_rest();
}

/// Every index below the ceiling-division count addresses a block that
/// begins strictly inside the measured range.
pub proof fn lemma_ceil_index(size: int, d: int, k: int)
    requires
        1 <= d,
        0 <= k < ceil_div(size, d),
        0 <= size,
    ensures
        k * d < size,
{
    lemma_fundamental_div_mod(size, d);
    assert(d * (size / d) == (size / d) * d) by (nonlinear_arith);
    if size % d == 0 {
        assert(k < size / d);
        lemma_mul_inequality(k + 1, size / d, d);
        assert((k + 1) * d == k * d + d) by (nonlinear_arith);
    } else {
        assert(k <= size / d);
        lemma_mul_inequality(k, size / d, d);
    }
}

/// Every position inside the measured range lands at a block index below the
/// ceiling-division count.
pub proof fn lemma_div_in_ceil(i: int, size: int, d: int)
    requires
        1 <= d,
        0 <= i < size,
    ensures
        0 <= i / d < ceil_div(size, d),
{
    lemma_fundamental_div_mod(i, d);
    lemma_fundamental_div_mod(size, d);
    lemma_div_is_ordered(i, size, d);
    if i / d == size / d {
        assert(size % d != 0);
    }
}

/// A position and the start of its block share the same superblock, when the
/// superblock width is a multiple of the block width.
pub proof fn lemma_chunk_align(i: int, cs: int, ss: int)
    requires
        0 <= i,
        1 <= cs,
        1 <= ss,
        ss % cs == 0,
    ensures
        ((i / cs) * cs) / ss == i / ss,
        (((i / cs) * cs) / ss) * ss == (i / ss) * ss,
{
    let chunk_start = (i / cs) * cs;
    let q = i / ss;
    let t = ss / cs;
    lemma_fundamental_div_mod(ss, cs);
    assert(ss == cs * t + 0);
    assert(cs * t == t * cs) by (nonlinear_arith);
    lemma_fundamental_div_mod(i, ss);
    assert(ss * q == q * ss) by (nonlinear_arith);
    lemma_fundamental_div_mod(i, cs);
    assert(cs * (i / cs) == (i / cs) * cs) by (nonlinear_arith);
    assert(q * ss <= i);
    // q * ss is a multiple of cs at or below i, so it cannot exceed the
    // largest such multiple, which is chunk_start.
    assert(q * ss == (q * t) * cs) by (nonlinear_arith)
        requires
            ss == t * cs,
    ;
    assert(q * t <= i / cs) by {
        lemma_multiple_le_div(q * t, cs, i);
    }
    lemma_mul_inequality(q * t, i / cs, cs);
    assert(q * ss <= chunk_start);
    assert(chunk_start <= i);
    assert(i < q * ss + ss);
    lemma_fundamental_div_mod_converse_div(chunk_start, ss, q, chunk_start - q * ss);
}

/// A multiple of `d` at or below `x` is at most `(x / d) * d`.
pub proof fn lemma_multiple_le_div(m: int, d: int, x: int)
    requires
        1 <= d,
        m * d <= x,
    ensures
        m <= x / d,
{
    lemma_fundamental_div_mod(x, d);
    assert(m <= x / d) by (nonlinear_arith)
        requires
            1 <= d,
            m * d <= x,
            x == d * (x / d) + x % d,
            0 <= x % d < d,
    ;
}

/// A position sits at or past the start of its enclosing block, and the
/// distance to that start is the remainder, which stays below the block
/// width.
pub proof fn lemma_div_mul_le(i: int, d: int)
    requires
        0 <= i,
        1 <= d,
    ensures
        0 <= (i / d) * d <= i,
        i - (i / d) * d == i % d,
        i % d < d,
{
    lemma_fundamental_div_mod(i, d);
    assert(d * (i / d) == (i / d) * d) by (nonlinear_arith);
}

/// The block at a position that is itself a block boundary starts there.
pub proof fn lemma_exact_div(i: int, d: int)
    requires
        1 <= d,
        0 <= i,
        i % d == 0,
    ensures
        (i / d) * d == i,
{
    lemma_fundamental_div_mod(i, d);
    assert(d * (i / d) == (i / d) * d) by (nonlinear_arith);
}

/// Returns the even-rounded floor logarithm of `size`: the number of
/// halvings needed to reach one, rounded up to the next even number.
pub fn my_log(size: usize) -> (r: usize)
    requires
        1 <= size,
    ensures
        r == even_log2(size as int),
        r <= 64,
{
    proof {
        assert(pow2(64) == 0x1_0000_0000_0000_0000) by {
            lemma2_to64_rest_pow();
        }
        assert(size < 0x1_0000_0000_0000_0000);
        lemma_floor_log2_lt(size as int, 64);
    }
    let mut copy_of_size: usize = size;
    let mut result: usize = 0;
    while copy_of_size != 1
        invariant
            1 <= copy_of_size,
            floor_log2(size as int) == result + floor_log2(copy_of_size as int),
            floor_log2(size as int) <= 63,
        decreases copy_of_size,
    {
        proof {
            assert(copy_of_size >> 1usize == copy_of_size / 2) by (bit_vector);
        }
        copy_of_size = copy_of_size >> 1usize;
        result = result + 1;
    }
    // Make the result even.
    result = result + (result % 2);
    result
}

/// Returns the size of the given bit vector.
pub fn bv_size(bit_vector: &BitVector) -> (r: usize)
    ensures
        r == bit_vector@.len(),
{
    bit_vector.size()
}

/// Sets or clears the bit of the given bit vector at `index`.
pub fn bv_set(bit_vector: &mut BitVector, index: usize, value: bool)
    requires
        old(bit_vector).wf(),
        index < old(bit_vector)@.len(),
    ensures
        final(bit_vector).wf(),
        final(bit_vector)@ == old(bit_vector)@.update(index as int, value),
{
    bit_vector.set(index, value)
}

/// Reads the bit of the given bit vector at `index`.
pub fn bv_get(bit_vector: &mut BitVector, index: usize) -> (r: bool)
    requires
        old(bit_vector).wf(),
        index < old(bit_vector)@.len(),
    ensures
        r == old(bit_vector)@[index as int],
        *final(bit_vector) == *old(bit_vector),
{
    bit_vector.get(index)
}

} // verus!
