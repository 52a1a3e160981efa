//! A fixed-size bit vector packed into 64-bit words: single-bit get and set,
//! extraction of arbitrary sub-ranges of up to 64 bits as an integer, and a
//! little-endian binary encoding for persistence.

use vstd::prelude::*;

verus! {

use vstd::arithmetic::div_mod::{
    lemma_fundamental_div_mod,
    lemma_fundamental_div_mod_converse_div,
    lemma_fundamental_div_mod_converse_mod,
    lemma_div_plus_one,
    lemma_div_is_ordered,
};
use vstd::bytes::{
    spec_u64_to_le_bytes,
    spec_u64_from_le_bytes,
    lemma_auto_spec_u64_to_from_le_bytes,
    u64_from_le_bytes,
};
use vstd::slice::slice_subrange;
use crate::codec::{
    words_to_bytes,
    lemma_words_to_bytes_len,
    lemma_words_to_bytes_injective,
    lemma_words_to_bytes_push,
    push_word_bytes,
};
use crate::bits::{
    bit64,
    count_bits_below,
    lemma_count_bits_below_bound,
    lemma_zero_word,
    lemma_or_mask_bit,
    lemma_andnot_mask_bit,
    lemma_test_mask_bit,
    lemma_low_mask_bits,
    lemma_high_mask_bits,
    lemma_one_word_bits,
    lemma_two_word_bits,
};

/// A bit array of fixed logical size, stored in 64-bit words. Bit `i` lives
/// in word `i / 64` at sub-position `i % 64`; the store always keeps one
/// margin word past the last logical bit, and positions at or past the
/// logical size are never read through the public operations.
pub struct BitVector {
    data: Vec<u64>,
    size: usize,
}

impl View for BitVector {
    type V = Seq<bool>;

    closed spec fn view(&self) -> Seq<bool> {
        Seq::new(self.size as nat, |i: int| bit64(self.data@[i / 64], i % 64))
    }
}

impl BitVector {
    /// The store holds exactly one word for every started group of 64 bits
    /// plus a margin word, and the size leaves room for that margin.
    pub closed spec fn wf(self) -> bool {
        &&& self.size + 64 <= usize::MAX
        &&& self.data@.len() == (self.size + 64) as int / 64
    }

    /// The word that holds bit `i` exists, for any `i` up to the size.
    proof fn lemma_word_in_bounds(self, i: int)
        requires
            self.wf(),
            0 <= i <= self.size,
        ensures
            0 <= i / 64 < self.data@.len(),
            0 <= i % 64 < 64,
            i == 64 * (i / 64) + i % 64,
    {
        lemma_div_plus_one(self.size as int, 64);
        lemma_div_is_ordered(i, self.size as int, 64);
        lemma_fundamental_div_mod(i, 64);
    }

    /// Creates a bit vector of `size` bits, all clear.
    pub fn new(size: usize) -> (r: Self)
        requires
            size + 64 <= usize::MAX,
        ensures
            r.wf(),
            r@.len() == size,
            forall|i: int| 0 <= i < size ==> !r@[i],
    {
        let n: usize = (size + 64) / 64;
        let mut data: Vec<u64> = Vec::new();
        while data.len() < n
            invariant
                data@.len() <= n,
                forall|k: int| 0 <= k < data@.len() ==> data@[k] == 0u64,
            decreases n - data@.len(),
        {
            data.push(0u64);
        }
        let r = BitVector { data, size };
        proof {
            assert forall|i: int| 0 <= i < size implies !r@[i] by {
                r.lemma_word_in_bounds(i);
                lemma_zero_word((i % 64) as u64);
            }
        }
        r
    }

    /// The number of bits the vector was created with.
    pub fn size(&self) -> (r: usize)
        ensures
            r == self@.len(),
    {
        self.size
    }

    /// Sets or clears the bit at `index` by read-modify-write masking,
    /// leaving every sibling bit of the same word untouched.
    pub fn set(&mut self, index: usize, value: bool)
        requires
            old(self).wf(),
            index < old(self)@.len(),
        ensures
            final(self).wf(),
            final(self)@ == old(self)@.update(index as int, value),
    {
        let array_index: usize = index / 64;
        let bit_index: usize = index % 64;
        proof {
            self.lemma_word_in_bounds(index as int);
        }
        let mask: u64 = 1u64 << (bit_index as u64);
        if value {
            let w = self.data[array_index];
            self.data[array_index] = w | mask;
        } else {
            let w = self.data[array_index];
            self.data[array_index] = w & !mask;
        }
        proof {
            let s0 = old(self)@;
            assert forall|j: int| 0 <= j < self.size implies self@[j] == s0.update(
                index as int,
                value,
            )[j] by {
                old(self).lemma_word_in_bounds(j);
                let w0 = old(self).data@[j / 64];
                if j / 64 == array_index {
                    if value {
                        lemma_or_mask_bit(w0, bit_index as u64, (j % 64) as u64);
                    } else {
                        lemma_andnot_mask_bit(w0, bit_index as u64, (j % 64) as u64);
                    }
                }
            }
            assert(self@ =~= s0.update(index as int, value));
        }
    }

    /// Reads the bit at `index`.
    pub fn get(&self, index: usize) -> (r: bool)
        requires
            self.wf(),
            index < self@.len(),
        ensures
            r == self@[index as int],
    {
        let array_index: usize = index / 64;
        let bit_index: usize = index % 64;
        proof {
            self.lemma_word_in_bounds(index as int);
            lemma_test_mask_bit(self.data@[array_index as int], bit_index as u64);
        }
        let mask: u64 = 1u64 << (bit_index as u64);
        (self.data[array_index] & mask) != 0
    }

    /// Counts the set bits of `number` at positions strictly below `i`: the
    /// rank of position `i` within a single extracted word.
    pub fn get_i_th_rank(&self, number: u64, i: usize) -> (r: u64)
        requires
            i <= 64,
        ensures
            r == count_bits_below(number, i as int),
    {
        let mut count: u64 = 0;
        let mut k: usize = 0;
        while k < i
            invariant
                k <= i <= 64,
                count == count_bits_below(number, k as int),
                count <= k,
            decreases i - k,
        {
            proof {
                lemma_count_bits_below_bound(number, k as int);
            }
            if (number >> (k as u64)) & 1 == 1 {
                count = count + 1;
            }
            k = k + 1;
        }
        count
    }

    /// The low `x` bits of `number`.
    pub fn get_first_x_bits(&self, number: u64, x: usize) -> (r: u64)
        requires
            x < 64,
        ensures
            r == number & (((1u64 << (x as u64)) - 1) as u64),
            forall|k: int| 0 <= k < 64 ==> #[trigger] bit64(r, k) == (k < x && bit64(number, k)),
    {
        proof {
            assert(1u64 << (x as u64) >= 1) by (bit_vector)
                requires
                    x < 64,
            ;
        }
        let mask: u64 = (1u64 << (x as u64)) - 1;
        proof {
            assert forall|k: int| 0 <= k < 64 implies #[trigger] bit64(number & mask, k) == (k < x
                && bit64(number, k)) by {
                lemma_low_mask_bits(number, x as u64, k as u64);
            }
        }
        number & mask
    }

    /// The top `x` bits of `number`, moved down to the bottom of the result.
    /// Asking for 64 or more bits returns the number unchanged; asking for
    /// none returns zero.
    pub fn get_first_x_bits_from_left(&self, number: u64, x: usize) -> (r: u64)
        ensures
            x == 0 ==> r == 0,
            0 < x < 64 ==> r == (number >> ((64 - x) as u64)) & (((1u64 << (x as u64)) - 1) as u64),
            x >= 64 ==> r == number,
            forall|k: int|
                0 <= k < 64 ==> #[trigger] bit64(r, k) == (k < x && bit64(
                    number,
                    if x < 64 {
                        64 - x + k
                    } else {
                        k
                    },
                )),
    {
        if x >= 64 {
            return number;
        }
        if x == 0 {
            proof {
                assert forall|k: int| 0 <= k < 64 implies !bit64(0u64, k) by {
                    lemma_zero_word(k as u64);
                }
            }
            return 0;
        }
        let shift_amount: usize = 64 - x;
        proof {
            assert(1u64 << (x as u64) >= 1) by (bit_vector)
                requires
                    x < 64,
            ;
        }
        let mask: u64 = (1u64 << (x as u64)) - 1;
        let r = (number >> (shift_amount as u64)) & mask;
        proof {
            assert forall|k: int| 0 <= k < 64 implies #[trigger] bit64(r, k) == (k < x && bit64(
                number,
                64 - x + k,
            )) by {
                lemma_high_mask_bits(number, x as u64, k as u64);
            }
        }
        r
    }

    /// Interprets the bit range `[i, j)` as an unsigned integer in
    /// little-endian bit order: bit `k` of the result is the bit at position
    /// `i + k`, and everything above the range width is clear. The range may
    /// lie within one word or span two adjacent words, and is at most 64 bits
    /// wide.
    pub fn interpret_as_u64_int(&self, i: usize, j: usize) -> (r: u64)
        requires
            self.wf(),
            i < j,
            j - i <= 64,
            j <= self@.len(),
        ensures
            forall|k: int| 0 <= k < j - i ==> #[trigger] bit64(r, k) == self@[i + k],
            forall|k: int| j - i <= k < 64 ==> !bit64(r, k),
    {
        let i_array_index: usize = i / 64;
        let i_array_offset: usize = i % 64;
        let j_array_index: usize = j / 64;
        let j_array_offset: usize = j % 64;
        proof {
            self.lemma_word_in_bounds(i as int);
            self.lemma_word_in_bounds(j as int);
        }
        if i_array_index == j_array_index {
            // The whole range lies inside one word.
            let full_number: u64 = self.data[i_array_index];
            proof {
                let io = i_array_offset as u64;
                let jo = j_array_offset as u64;
                assert(io < jo ==> (1u64 << jo) >= (1u64 << io)) by (bit_vector)
                    requires
                        jo < 64,
                ;
            }
            let mask: u64 = (1u64 << (j_array_offset as u64)) - (1u64 << (i_array_offset as u64));
            let result: u64 = (full_number & mask) >> (i_array_offset as u64);
            proof {
                assert forall|k: int| 0 <= k < 64 implies #[trigger] bit64(result, k) == (k < j - i
                    && bit64(full_number, i_array_offset + k)) by {
                    lemma_one_word_bits(
                        full_number,
                        i_array_offset as u64,
                        j_array_offset as u64,
                        k as u64,
                    );
                }
                assert forall|k: int| 0 <= k < j - i implies #[trigger] bit64(result, k)
                    == self@[i + k] by {
                    lemma_fundamental_div_mod_converse_div(
                        i + k,
                        64,
                        i_array_index as int,
                        i_array_offset + k,
                    );
                    lemma_fundamental_div_mod_converse_mod(
                        i + k,
                        64,
                        i_array_index as int,
                        i_array_offset + k,
                    );
                }
            }
            result
        } else {
            // The range spans two adjacent words: the low `j % 64` bits of
            // the second word go above the high `64 - i % 64` bits of the
            // first.
            proof {
                lemma_div_is_ordered(i as int, j as int, 64);
                assert(j_array_index == i_array_index + 1) by {
                    lemma_div_plus_one(i as int, 64);
                    lemma_div_is_ordered(j as int, i + 64, 64);
                }
            }
            let first_number: u64 = self.get_first_x_bits(self.data[j_array_index], j_array_offset);
            let second_number: u64 = self.get_first_x_bits_from_left(
                self.data[i_array_index],
                64 - i_array_offset,
            );
            if i_array_offset != 0 {
                let w1 = self.data[i_array_index];
                let w2 = self.data[j_array_index];
                proof {
                    lemma_two_word_bits(
                        w1,
                        w2,
                        i_array_offset as u64,
                        j_array_offset as u64,
                        0u64,
                    );
                }
                let result: u64 = second_number + (first_number << ((64 - i_array_offset) as u64));
                proof {
                    let io = i_array_offset as int;
                    let jo = j_array_offset as int;
                    assert forall|k: int| 0 <= k < 64 implies #[trigger] bit64(result, k) == (if k
                        < 64 - io {
                        bit64(w1, io + k)
                    } else if k < 64 - io + jo {
                        bit64(w2, k - (64 - io))
                    } else {
                        false
                    }) by {
                        lemma_two_word_bits(
                            w1,
                            w2,
                            i_array_offset as u64,
                            j_array_offset as u64,
                            k as u64,
                        );
                    }
                    assert forall|k: int| 0 <= k < j - i implies #[trigger] bit64(result, k)
                        == self@[i + k] by {
                        if k < 64 - io {
                            lemma_fundamental_div_mod_converse_div(
                                i + k,
                                64,
                                i_array_index as int,
                                io + k,
                            );
                            lemma_fundamental_div_mod_converse_mod(
                                i + k,
                                64,
                                i_array_index as int,
                                io + k,
                            );
                        } else {
                            lemma_fundamental_div_mod_converse_div(
                                i + k,
                                64,
                                j_array_index as int,
                                io + k - 64,
                            );
                            lemma_fundamental_div_mod_converse_mod(
                                i + k,
                                64,
                                j_array_index as int,
                                io + k - 64,
                            );
                        }
                    }
                }
                result
            } else {
                // The range starts exactly at a word boundary and must cover
                // the full word.
                proof {
                    let io = i_array_offset as int;
                    assert(j == i + 64);
                    assert forall|k: int| 0 <= k < 64 implies #[trigger] bit64(second_number, k)
                        == self@[i + k] by {
                        lemma_fundamental_div_mod_converse_div(i + k, 64, i_array_index as int, k);
                        lemma_fundamental_div_mod_converse_mod(i + k, 64, i_array_index as int, k);
                    }
                }
                second_number
            }
        }
    }

    /// The bytes the packed store occupies: eight per stored word.
    pub fn memory_usage(&self) -> (r: usize)
        requires
            self.wf(),
        ensures
            r == 8 * ((self@.len() + 64) / 64),
    {
        proof {
            let n = self.data@.len() as int;
            vstd::arithmetic::mul::lemma_mul_inequality(n, 8 * n, 8);
            assert(8 * n * 8 == 64 * n) by (nonlinear_arith);
            lemma_div_plus_one(self.size as int, 64);
            crate::utils::lemma_div_mul_le(self.size as int, 64);
            vstd::arithmetic::mul::lemma_mul_inequality(self.size as int / 64, n, 64);
        }
        self.data.len() * 8
    }

    /// The binary encoding of this bit vector: the size as an 8-byte
    /// little-endian integer, followed by each stored word as 8 little-endian
    /// bytes, in word order.
    pub closed spec fn spec_save(self) -> Seq<u8> {
        spec_u64_to_le_bytes(self.size as u64) + words_to_bytes(self.data@)
    }

    /// Serializes the bit vector to its binary encoding.
    pub fn save(&self) -> (out: Vec<u8>)
        requires
            self.wf(),
        ensures
            out@ == self.spec_save(),
            parseable(out@),
            out@.len() == 8 + 8 * ((self@.len() + 64) / 64),
    {
        let mut out = vstd::bytes::u64_to_le_bytes(self.size as u64);
        let mut idx: usize = 0;
        proof {
            assert(self.data@.take(0) =~= Seq::<u64>::empty());
        }
        while idx < self.data.len()
            invariant
                self.wf(),
                idx <= self.data@.len(),
                out@ == spec_u64_to_le_bytes(self.size as u64) + words_to_bytes(
                    self.data@.take(idx as int),
                ),
            decreases self.data@.len() - idx,
        {
            push_word_bytes(&mut out, self.data[idx]);
            proof {
                lemma_words_to_bytes_push(self.data@.take(idx as int), self.data@[idx as int]);
                assert(self.data@.take(idx as int).push(self.data@[idx as int]) =~= self.data@.take(
                    idx + 1,
                ));
                assert(out@ =~= spec_u64_to_le_bytes(self.size as u64) + words_to_bytes(
                    self.data@.take(idx + 1),
                ));
            }
            idx = idx + 1;
        }
        proof {
            assert(self.data@.take(self.data@.len() as int) =~= self.data@);
            lemma_auto_spec_u64_to_from_le_bytes();
            lemma_words_to_bytes_len(self.data@);
            assert(out@.subrange(0, 8) =~= spec_u64_to_le_bytes(self.size as u64));
            let n = self.data@.len() as int;
            vstd::arithmetic::div_mod::lemma_fundamental_div_mod_converse_mod(8 * n, 8, n, 0);
            vstd::arithmetic::div_mod::lemma_fundamental_div_mod_converse_div(8 * n, 8, n, 0);
        }
        out
    }

    /// Rebuilds a bit vector from its binary encoding. Returns nothing when
    /// the bytes are not exactly an encoding: too short for the size header,
    /// a size too large for this machine, a truncated or oversized word
    /// region, or a trailing partial word.
    pub fn load(bytes: &[u8]) -> (r: Option<BitVector>)
        ensures
            r is Some <==> parseable(bytes@),
            r matches Some(bv) ==> bv.wf() && bv.spec_save() == bytes@,
    {
        proof {
            lemma_auto_spec_u64_to_from_le_bytes();
        }
        if bytes.len() < 8 {
            return None;
        }
        let size_bytes = slice_subrange(bytes, 0, 8);
        let size_u64 = u64_from_le_bytes(size_bytes);
        if size_u64 > (usize::MAX as u64) - 64 {
            return None;
        }
        let size = size_u64 as usize;
        let n: usize = (size + 64) / 64;
        let remaining = bytes.len() - 8;
        if remaining % 8 != 0 {
            proof {
                vstd::arithmetic::div_mod::lemma_fundamental_div_mod(remaining as int, 8);
                if parseable(bytes@) {
                    vstd::arithmetic::div_mod::lemma_fundamental_div_mod_converse_mod(
                        remaining as int,
                        8,
                        n as int,
                        0,
                    );
                }
            }
            return None;
        }
        if remaining / 8 != n {
            proof {
                if parseable(bytes@) {
                    vstd::arithmetic::div_mod::lemma_fundamental_div_mod_converse_div(
                        remaining as int,
                        8,
                        n as int,
                        0,
                    );
                }
            }
            return None;
        }
        proof {
            vstd::arithmetic::div_mod::lemma_fundamental_div_mod(remaining as int, 8);
        }
        let mut data: Vec<u64> = Vec::new();
        let mut idx: usize = 0;
        while idx < n
            invariant
                data@.len() == idx,
                idx <= n,
                bytes@.len() == 8 + 8 * n,
                bytes@.len() <= usize::MAX,
                words_to_bytes(data@) == bytes@.subrange(8, 8 + 8 * idx),
            decreases n - idx,
        {
            let off: usize = 8 + 8 * idx;
            let wb = slice_subrange(bytes, off, off + 8);
            let w = u64_from_le_bytes(wb);
            let ghost prev = data@;
            data.push(w);
            proof {
                lemma_auto_spec_u64_to_from_le_bytes();
                lemma_words_to_bytes_push(prev, w);
                assert(spec_u64_to_le_bytes(w) =~= bytes@.subrange(off as int, off + 8));
                assert(words_to_bytes(data@) =~= bytes@.subrange(8, 8 + 8 * (idx + 1)));
            }
            idx = idx + 1;
        }
        let bv = BitVector { data, size };
        proof {
            assert(bytes@.subrange(0, 8) =~= size_bytes@);
            assert(bv.spec_save() =~= bytes@);
        }
        Some(bv)
    }
}

/// Whether a byte string is exactly the binary encoding of some well-formed
/// bit vector: an 8-byte size that fits this machine, followed by exactly the
/// number of 8-byte words the store keeps for that size.
pub open spec fn parseable(bytes: Seq<u8>) -> bool {
    &&& bytes.len() >= 8
    &&& spec_u64_from_le_bytes(bytes.subrange(0, 8)) + 64 <= usize::MAX
    &&& bytes.len() - 8 == 8 * ((spec_u64_from_le_bytes(bytes.subrange(0, 8)) + 64) / 64)
}

/// A well-formed bit vector's size leaves room for its margin word on this
/// machine.
pub proof fn lemma_wf_size_bound(bv: BitVector)
    requires
        bv.wf(),
    ensures
        bv@.len() + 64 <= usize::MAX,
{
}

/// Two well-formed bit vectors with the same encoding hold the same bits, so
/// saving and then loading reproduces every query answer of the original.
pub proof fn lemma_save_determines_bits(a: BitVector, b: BitVector)
    requires
        a.wf(),
        b.wf(),
        a.spec_save() == b.spec_save(),
    ensures
        a@ == b@,
{
    lemma_auto_spec_u64_to_from_le_bytes();
    let bytes = a.spec_save();
    lemma_words_to_bytes_len(a.data@);
    lemma_words_to_bytes_len(b.data@);
    assert(spec_u64_to_le_bytes(a.size as u64) =~= bytes.subrange(0, 8));
    assert(spec_u64_to_le_bytes(b.size as u64) =~= bytes.subrange(0, 8));
    assert(a.size == b.size);
    assert(words_to_bytes(a.data@) =~= bytes.subrange(8, bytes.len() as int));
    assert(words_to_bytes(b.data@) =~= bytes.subrange(8, bytes.len() as int));
    lemma_words_to_bytes_injective(a.data@, b.data@);
    assert(a@ =~= b@);
}

} // verus!
