//! Two-level precomputed rank index over a packed bit vector: absolute ranks
//! at superblock boundaries, 16-bit relative ranks at block boundaries, and a
//! rank query that combines both with a popcount over one extracted block.

use vstd::prelude::*;

verus! {

use vstd::arithmetic::div_mod::{
    lemma_fundamental_div_mod,
    lemma_fundamental_div_mod_converse_div,
    lemma_fundamental_div_mod_converse_mod,
    lemma_mod_multiples_basic,
};
use crate::bit_vector::{BitVector, lemma_wf_size_bound};
use vstd::bytes::{
    spec_u64_to_le_bytes,
    spec_u16_to_le_bytes,
    lemma_auto_spec_u64_to_from_le_bytes,
    lemma_auto_spec_u16_to_from_le_bytes,
};
use vstd::slice::slice_subrange;
use crate::codec::{
    words_to_bytes,
    shorts_to_bytes,
    lemma_words_to_bytes_len,
    lemma_shorts_to_bytes_len,
    lemma_words_to_bytes_injective,
    lemma_shorts_to_bytes_injective,
    lemma_words_to_bytes_push,
    lemma_shorts_to_bytes_push,
    push_word_bytes,
    push_short_bytes,
};
use crate::utils::lemma_multiple_le_div;
use crate::count::{ones_below, lemma_ones_below_bound, lemma_ones_below_monotone,
    lemma_count_from_word};
use crate::utils::{
    chunk_size_of,
    superchunk_size_of,
    ceil_div,
    my_log,
    lemma_params,
    lemma_ceil_index,
    lemma_div_in_ceil,
    lemma_chunk_align,
    lemma_exact_div,
    lemma_div_mul_le,
};

/// The table lengths and parameters a rank index must carry for a bit vector
/// of the given size: parameters derived from the size, one superblock entry
/// per started superblock, one block entry per started block.
pub open spec fn tables_shape(size: int, slen: int, clen: int, cs: int, ss: int) -> bool {
    &&& 2 <= size
    &&& cs == chunk_size_of(size)
    &&& ss == superchunk_size_of(size)
    &&& slen == ceil_div(size, ss)
    &&& clen == ceil_div(size, cs)
}

/// The table contents a rank index must carry for the given bits: each
/// superblock entry holds the absolute rank at its start, each block entry
/// the rank at its start minus the rank at the start of its enclosing
/// superblock.
pub open spec fn tables_wf(
    bits: Seq<bool>,
    sdata: Seq<u64>,
    cdata: Seq<u16>,
    cs: int,
    ss: int,
) -> bool {
    &&& forall|k: int|
        0 <= k < sdata.len() ==> #[trigger] sdata[k] as int == ones_below(bits, k * ss)
    &&& forall|k: int|
        0 <= k < cdata.len() ==> #[trigger] cdata[k] as int == ones_below(bits, k * cs)
            - ones_below(bits, ((k * cs) / ss) * ss)
}

/// A vector of `n` zeroed 64-bit counters.
pub(crate) fn zeros_u64(n: usize) -> (r: Vec<u64>)
    ensures
        r@.len() == n,
        forall|k: int| 0 <= k < n ==> r@[k] == 0u64,
{
    let mut r: Vec<u64> = Vec::new();
    while r.len() < n
        invariant
            r@.len() <= n,
            forall|k: int| 0 <= k < r@.len() ==> r@[k] == 0u64,
        decreases n - r@.len(),
    {
        r.push(0u64);
    }
    r
}

/// A vector of `n` zeroed 16-bit counters.
pub(crate) fn zeros_u16(n: usize) -> (r: Vec<u16>)
    ensures
        r@.len() == n,
        forall|k: int| 0 <= k < n ==> r@[k] == 0u16,
{
    let mut r: Vec<u16> = Vec::new();
    while r.len() < n
        invariant
            r@.len() <= n,
            forall|k: int| 0 <= k < r@.len() ==> r@[k] == 0u16,
        decreases n - r@.len(),
    {
        r.push(0u16);
    }
    r
}

/// One linear pass over all bits, recording the running rank into the
/// superblock table at each superblock boundary and the rank relative to the
/// current superblock into the block table at each other block boundary. A
/// position that starts both a superblock and a block is treated as a
/// superblock boundary only: its block entry stays zero, which is exactly the
/// relative rank there.
pub(crate) fn fill_tables(
    bv: &BitVector,
    sdata: &mut Vec<u64>,
    cdata: &mut Vec<u16>,
    cs: usize,
    ss: usize,
)
    requires
        bv.wf(),
        tables_shape(
            bv@.len() as int,
            old(sdata)@.len() as int,
            old(cdata)@.len() as int,
            cs as int,
            ss as int,
        ),
        forall|k: int|
            0 <= k < old(cdata)@.len() && (k * (cs as int)) % (ss as int) == 0 ==> #[trigger] old(
                cdata,
            )@[k] == 0,
    ensures
        final(sdata)@.len() == old(sdata)@.len(),
        final(cdata)@.len() == old(cdata)@.len(),
        tables_wf(bv@, final(sdata)@, final(cdata)@, cs as int, ss as int),
{
    let size = bv.size();
    proof {
        lemma_params(size as int);
    }
    let ghost bits = bv@;
    let mut rank: u64 = 0;
    let mut prev_superchunk_rank: u64 = 0;
    let mut i: usize = 0;
    while i < size
        invariant
            bv.wf(),
            bv@ == bits,
            size == bits.len(),
            2 <= size,
            1 <= cs <= 32,
            4 <= ss <= 4096,
            (ss as int) % (cs as int) == 0,
            tables_shape(
                size as int,
                sdata@.len() as int,
                cdata@.len() as int,
                cs as int,
                ss as int,
            ),
            i <= size,
            rank as int == ones_below(bits, i as int),
            rank <= i,
            (i as int) % (ss as int) != 0 ==> prev_superchunk_rank as int == ones_below(
                bits,
                ((i as int) / (ss as int)) * (ss as int),
            ),
            forall|k: int|
                0 <= k < sdata@.len() && k * (ss as int) < i ==> #[trigger] sdata@[k] as int
                    == ones_below(bits, k * (ss as int)),
            forall|k: int|
                0 <= k < cdata@.len() && k * (cs as int) < i && (k * (cs as int)) % (ss as int) != 0
                    ==> #[trigger] cdata@[k] as int == ones_below(bits, k * (cs as int))
                    - ones_below(bits, ((k * (cs as int)) / (ss as int)) * (ss as int)),
            forall|k: int|
                0 <= k < cdata@.len() && (k * (cs as int)) % (ss as int) == 0 ==> #[trigger] cdata@[k]
                    == 0,
        decreases size - i,
    {
        let ghost csi = cs as int;
        let ghost ssi = ss as int;
        let ghost ii = i as int;
        if i % ss == 0 {
            proof {
                lemma_div_in_ceil(ii, size as int, ssi);
                lemma_exact_div(ii, ssi);
            }
            let q = i / ss;
            sdata[q] = rank;
            prev_superchunk_rank = rank;
            proof {
                assert forall|k: int|
                    0 <= k < sdata@.len() && k * ssi < ii + 1 implies #[trigger] sdata@[k] as int
                    == ones_below(bits, k * ssi) by {
                    if k * ssi < ii {
                        assert(k < q as int) by (nonlinear_arith)
                            requires
                                k * ssi < ii,
                                ii == (q as int) * ssi,
                                ssi >= 1,
                                0 <= k,
                        ;
                    } else {
                        assert(k * ssi == ii) by (nonlinear_arith)
                            requires
                                ii <= k * ssi < ii + 1,
                        ;
                        assert(k == q as int) by (nonlinear_arith)
                            requires
                                k * ssi == (q as int) * ssi,
                                ssi >= 1,
                        ;
                    }
                }
            }
        } else if i % cs == 0 {
            proof {
                lemma_div_in_ceil(ii, size as int, csi);
                lemma_exact_div(ii, csi);
                // The enclosing superblock starts at or before this block, so
                // its base rank is at most the running rank, and the excess
                // fits the 16-bit field because a superblock spans at most
                // 4096 positions.
                lemma_div_mul_le(ii, ssi);
                lemma_ones_below_monotone(bits, (ii / ssi) * ssi, ii);
            }
            let rel = rank - prev_superchunk_rank;
            let p = i / cs;
            cdata[p] = rel as u16;
            proof {
                lemma_chunk_align(ii, csi, ssi);
                assert forall|k: int|
                    0 <= k < cdata@.len() && k * csi < ii + 1 && (k * csi) % ssi != 0 implies #[trigger] cdata@[k] as int
                    == ones_below(bits, k * csi) - ones_below(bits, ((k * csi) / ssi) * ssi) by {
                    if k * csi < ii {
                        assert(k < p as int) by (nonlinear_arith)
                            requires
                                k * csi < ii,
                                ii == (p as int) * csi,
                                csi >= 1,
                                0 <= k,
                        ;
                    } else {
                        assert(k == p as int) by (nonlinear_arith)
                            requires
                                ii <= k * csi < ii + 1,
                                ii == (p as int) * csi,
                                csi >= 1,
                        ;
                    }
                }
                assert forall|k: int|
                    0 <= k < cdata@.len() && (k * csi) % ssi == 0 implies #[trigger] cdata@[k]
                    == 0 by {
                    assert(k != p as int);
                }
            }
        }
        if bv.get(i) {
            rank = rank + 1;
        }
        proof {
            // The table invariants extend to the next position: a table entry
            // newly inside the bound would have to sit exactly at the current
            // position, which only a matching boundary branch can reach.
            if ii % ssi != 0 {
                assert forall|k: int|
                    0 <= k < sdata@.len() && k * ssi < ii + 1 implies #[trigger] sdata@[k] as int
                    == ones_below(bits, k * ssi) by {
                    if !(k * ssi < ii) {
                        lemma_mod_multiples_basic(k, ssi);
                    }
                }
            }
            if ii % csi != 0 || ii % ssi == 0 {
                assert forall|k: int|
                    0 <= k < cdata@.len() && k * csi < ii + 1 && (k * csi) % ssi != 0 implies #[trigger] cdata@[k] as int
                    == ones_below(bits, k * csi) - ones_below(bits, ((k * csi) / ssi) * ssi) by {
                    if !(k * csi < ii) {
                        lemma_mod_multiples_basic(k, csi);
                    }
                }
            }
            // The superblock base carried into the next position: position
            // `i` either started a superblock (the base is the rank recorded
            // there) or sits inside one whose start has not moved.
            if (ii + 1) % ssi != 0 {
                if ii % ssi == 0 {
                    lemma_exact_div(ii, ssi);
                    lemma_fundamental_div_mod_converse_div(ii + 1, ssi, ii / ssi, 1);
                } else {
                    lemma_fundamental_div_mod(ii, ssi);
                    let q = ii / ssi;
                    let rm = ii % ssi;
                    if rm == ssi - 1 {
                        assert(ii + 1 == (q + 1) * ssi + 0) by (nonlinear_arith)
                            requires
                                ii == ssi * q + rm,
                                rm == ssi - 1,
                        ;
                        lemma_fundamental_div_mod_converse_mod(ii + 1, ssi, q + 1, 0);
                    } else {
                        assert(ii + 1 == q * ssi + (rm + 1)) by (nonlinear_arith)
                            requires
                                ii == ssi * q + rm,
                        ;
                        lemma_fundamental_div_mod_converse_div(ii + 1, ssi, q, rm + 1);
                    }
                }
            }
        }
        i = i + 1;
    }
    proof {
        assert forall|k: int| 0 <= k < sdata@.len() implies #[trigger] sdata@[k] as int
            == ones_below(bits, k * (ss as int)) by {
            lemma_ceil_index(size as int, ss as int, k);
        }
        assert forall|k: int| 0 <= k < cdata@.len() implies #[trigger] cdata@[k] as int
            == ones_below(bits, k * (cs as int)) - ones_below(
            bits,
            ((k * (cs as int)) / (ss as int)) * (ss as int),
        ) by {
            lemma_ceil_index(size as int, cs as int, k);
            if (k * (cs as int)) % (ss as int) == 0 {
                lemma_exact_div(k * (cs as int), ss as int);
            }
        }
    }
}

/// Answers rank1 from the tables: the superblock base plus the block-relative
/// base plus a popcount over the bits of the block that lie strictly before
/// the queried position.
pub(crate) fn rank_query(
    bv: &BitVector,
    sdata: &Vec<u64>,
    cdata: &Vec<u16>,
    cs: usize,
    ss: usize,
    i: usize,
) -> (r: u64)
    requires
        bv.wf(),
        tables_shape(bv@.len() as int, sdata@.len() as int, cdata@.len() as int, cs as int, ss as int),
        tables_wf(bv@, sdata@, cdata@, cs as int, ss as int),
        i < bv@.len(),
    ensures
        r as int == ones_below(bv@, i as int),
{
    if i == 0 {
        return 0;
    }
    let size = bv.size();
    proof {
        lemma_params(size as int);
        lemma_wf_size_bound(*bv);
        lemma_div_in_ceil(i as int, size as int, ss as int);
        lemma_div_in_ceil(i as int, size as int, cs as int);
        lemma_chunk_align(i as int, cs as int, ss as int);
        lemma_div_mul_le(i as int, cs as int);
        lemma_div_mul_le(i as int, ss as int);
        lemma_div_mul_le(((i as int) / (cs as int)) * (cs as int), ss as int);
        lemma_ones_below_bound(bv@, ((i as int) / (cs as int)) * (cs as int));
        lemma_ones_below_monotone(
            bv@,
            ((i as int) / (ss as int)) * (ss as int),
            ((i as int) / (cs as int)) * (cs as int),
        );
    }
    let superchunk_rank = sdata[i / ss];
    let chunk_rank = cdata[i / cs] as u64;
    let base_rank = superchunk_rank + chunk_rank;

    let chunk_local_position = i % cs;
    let chunk_start = i - chunk_local_position;
    let chunk_end = if chunk_start + cs < size {
        chunk_start + cs
    } else {
        size
    };
    let chunk_as_int = bv.interpret_as_u64_int(chunk_start, chunk_end);
    let in_chunk = bv.get_i_th_rank(chunk_as_int, chunk_local_position);
    proof {
        lemma_count_from_word(
            bv@,
            chunk_start as int,
            chunk_as_int,
            chunk_end - chunk_start,
            chunk_local_position as int,
        );
        lemma_ones_below_monotone(bv@, chunk_start as int, i as int);
        lemma_ones_below_bound(bv@, i as int);
    }
    base_rank + in_chunk
}

/// The two-level rank index: absolute ranks per superblock, 16-bit relative
/// ranks per block, over an owned packed bit vector.
pub struct RankSupport {
    pub(crate) bit_vector: BitVector,
    pub(crate) superchunk_data: Vec<u64>,
    pub(crate) chunk_data: Vec<u16>,
    pub(crate) chunk_size: usize,
    pub(crate) superchunk_size: usize,
}

/// Spells out, for the rest of the crate, what a fully built rank index
/// guarantees about its parts.
pub(crate) proof fn lemma_rank_wf_unfold(rs: RankSupport)
    requires
        rs.wf(),
    ensures
        rs.bit_vector.wf(),
        rs.bit_vector@ == rs.bits(),
        tables_shape(
            rs.bits().len() as int,
            rs.superchunk_data@.len() as int,
            rs.chunk_data@.len() as int,
            rs.chunk_size as int,
            rs.superchunk_size as int,
        ),
        tables_wf(
            rs.bits(),
            rs.superchunk_data@,
            rs.chunk_data@,
            rs.chunk_size as int,
            rs.superchunk_size as int,
        ),
{
}

impl RankSupport {
    /// The bit vector this index was built over.
    pub closed spec fn bit_vec(self) -> BitVector {
        self.bit_vector
    }

    /// The indexed bits.
    pub open spec fn bits(self) -> Seq<bool> {
        self.bit_vec()@
    }

    /// The parameters and table lengths fit the bit vector's size.
    pub closed spec fn wf_shape(self) -> bool {
        &&& self.bit_vector.wf()
        &&& tables_shape(
            self.bits().len() as int,
            self.superchunk_data@.len() as int,
            self.chunk_data@.len() as int,
            self.chunk_size as int,
            self.superchunk_size as int,
        )
    }

    /// The index is fully built: right shape, and every table entry holds the
    /// rank the query path expects there.
    pub closed spec fn wf(self) -> bool {
        &&& self.wf_shape()
        &&& tables_wf(
            self.bits(),
            self.superchunk_data@,
            self.chunk_data@,
            self.chunk_size as int,
            self.superchunk_size as int,
        )
    }

    /// Both tables still hold only zeros, as freshly allocated.
    pub closed spec fn tables_zero(self) -> bool {
        &&& forall|k: int| 0 <= k < self.superchunk_data@.len() ==> self.superchunk_data@[k] == 0u64
        &&& forall|k: int| 0 <= k < self.chunk_data@.len() ==> self.chunk_data@[k] == 0u16
    }

    /// The index size in bits: 64 per superblock entry plus 16 per block
    /// entry.
    pub closed spec fn overhead_bits(self) -> int {
        64 * self.superchunk_data@.len() as int + 16 * self.chunk_data@.len() as int
    }

    /// Builds the index over the given bit vector in one linear pass.
    pub fn new(bit_vector: BitVector) -> (r: Self)
        requires
            bit_vector.wf(),
            2 <= bit_vector@.len(),
        ensures
            r.wf(),
            r.bit_vec() == bit_vector,
    {
        let size = bit_vector.size();
        proof {
            lemma_wf_size_bound(bit_vector);
            lemma_params(size as int);
        }
        let log_of_size = my_log(size);

        // The block covers half the (even-rounded) logarithm of the size.
        let chunk_size: usize = log_of_size / 2;

        // The superblock covers the square of that logarithm.
        let superchunk_size: usize = 2 * chunk_size * log_of_size;

        // One superblock entry per started superblock.
        let slen = size / superchunk_size + (if size % superchunk_size == 0 {
            0
        } else {
            1
        });
        // One block entry per started block.
        let clen = size / chunk_size + (if size % chunk_size == 0 {
            0
        } else {
            1
        });
        let mut superchunk_data = zeros_u64(slen);
        let mut chunk_data = zeros_u16(clen);

        fill_tables(&bit_vector, &mut superchunk_data, &mut chunk_data, chunk_size, superchunk_size);

        RankSupport { bit_vector, superchunk_data, chunk_data, chunk_size, superchunk_size }
    }

    /// Recomputes both tables from the current bits. The tables must be as
    /// freshly allocated, or already correct: the pass never writes the block
    /// entry at a superblock boundary, so anything else left there would
    /// survive it.
    pub fn finalize_rank(&mut self)
        requires
            old(self).wf_shape(),
            old(self).tables_zero() || old(self).wf(),
        ensures
            final(self).wf(),
            final(self).bit_vec() == old(self).bit_vec(),
    {
        proof {
            lemma_wf_size_bound(self.bit_vector);
            lemma_params(self.bits().len() as int);
            let csi = self.chunk_size as int;
            let ssi = self.superchunk_size as int;
            assert forall|k: int|
                0 <= k < self.chunk_data@.len() && (k * csi) % ssi == 0 implies #[trigger] self.chunk_data@[k]
                == 0 by {
                if self.wf() {
                    lemma_exact_div(k * csi, ssi);
                }
            }
        }
        fill_tables(
            &self.bit_vector,
            &mut self.superchunk_data,
            &mut self.chunk_data,
            self.chunk_size,
            self.superchunk_size,
        );
    }

    /// The size of the underlying bit vector.
    pub fn bit_vector_size(&self) -> (r: usize)
        ensures
            r == self.bits().len(),
    {
        self.bit_vector.size()
    }

    /// rank1: the number of set bits at positions strictly before `i`.
    pub fn rank1(&self, i: usize) -> (r: u64)
        requires
            self.wf(),
            i < self.bits().len(),
        ensures
            r as int == ones_below(self.bits(), i as int),
    {
        rank_query(
            &self.bit_vector,
            &self.superchunk_data,
            &self.chunk_data,
            self.chunk_size,
            self.superchunk_size,
            i,
        )
    }

    /// The index size in bits, for space accounting.
    pub fn overhead(&self) -> (r: usize)
        requires
            self.overhead_bits() <= usize::MAX,
        ensures
            r == self.overhead_bits(),
    {
        let superchunk_data_bits = self.superchunk_data.len() * 64;
        let chunk_data_bits = self.chunk_data.len() * 16;
        superchunk_data_bits + chunk_data_bits
    }
}

/// Whether a byte string is exactly the binary encoding of a rank index for
/// a bit vector of the given size: the two parameters derived from that size
/// as 8-byte little-endian integers, then the superblock table at 8 bytes per
/// entry, then the block table at 2 bytes per entry.
pub open spec fn rank_parseable(size: int, bytes: Seq<u8>) -> bool {
    &&& 2 <= size
    &&& bytes.len() >= 16
    &&& vstd::bytes::spec_u64_from_le_bytes(bytes.subrange(0, 8)) == chunk_size_of(size)
    &&& vstd::bytes::spec_u64_from_le_bytes(bytes.subrange(8, 16)) == superchunk_size_of(size)
    &&& bytes.len() == 16 + 8 * ceil_div(size, superchunk_size_of(size) as int) + 2 * ceil_div(
        size,
        chunk_size_of(size) as int,
    )
}

impl RankSupport {
    /// The binary encoding of this index: chunk size and superchunk size as
    /// 8-byte little-endian integers, then every superblock rank as 8 bytes,
    /// then every block rank as 2 bytes.
    pub closed spec fn spec_save(self) -> Seq<u8> {
        spec_u64_to_le_bytes(self.chunk_size as u64) + spec_u64_to_le_bytes(
            self.superchunk_size as u64,
        ) + words_to_bytes(self.superchunk_data@) + shorts_to_bytes(self.chunk_data@)
    }

    /// Serializes the index tables. The bit data itself is not included:
    /// loading needs the bit vector back from its own encoding.
    pub fn save(&self) -> (out: Vec<u8>)
        requires
            self.wf_shape(),
        ensures
            out@ == self.spec_save(),
            rank_parseable(self.bits().len() as int, out@),
    {
        proof {
            lemma_wf_size_bound(self.bit_vector);
            lemma_params(self.bits().len() as int);
            lemma_auto_spec_u64_to_from_le_bytes();
        }
        let ghost header = spec_u64_to_le_bytes(self.chunk_size as u64) + spec_u64_to_le_bytes(
            self.superchunk_size as u64,
        );
        let mut out = vstd::bytes::u64_to_le_bytes(self.chunk_size as u64);
        let mut ssb = vstd::bytes::u64_to_le_bytes(self.superchunk_size as u64);
        out.append(&mut ssb);
        let mut idx: usize = 0;
        proof {
            assert(self.superchunk_data@.take(0) =~= Seq::<u64>::empty());
            assert(out@ =~= header + words_to_bytes(self.superchunk_data@.take(0)));
        }
        while idx < self.superchunk_data.len()
            invariant
                idx <= self.superchunk_data@.len(),
                header == spec_u64_to_le_bytes(self.chunk_size as u64) + spec_u64_to_le_bytes(
                    self.superchunk_size as u64,
                ),
                out@ == header + words_to_bytes(self.superchunk_data@.take(idx as int)),
            decreases self.superchunk_data@.len() - idx,
        {
            push_word_bytes(&mut out, self.superchunk_data[idx]);
            proof {
                lemma_words_to_bytes_push(
                    self.superchunk_data@.take(idx as int),
                    self.superchunk_data@[idx as int],
                );
                assert(self.superchunk_data@.take(idx as int).push(self.superchunk_data@[idx as int])
                    =~= self.superchunk_data@.take(idx + 1));
                assert(out@ =~= header + words_to_bytes(self.superchunk_data@.take(idx + 1)));
            }
            idx = idx + 1;
        }
        proof {
            assert(self.superchunk_data@.take(self.superchunk_data@.len() as int)
                =~= self.superchunk_data@);
        }
        let ghost header2 = header + words_to_bytes(self.superchunk_data@);
        let mut cidx: usize = 0;
        proof {
            assert(self.chunk_data@.take(0) =~= Seq::<u16>::empty());
            assert(out@ =~= header2 + shorts_to_bytes(self.chunk_data@.take(0)));
        }
        while cidx < self.chunk_data.len()
            invariant
                cidx <= self.chunk_data@.len(),
                header2 == spec_u64_to_le_bytes(self.chunk_size as u64) + spec_u64_to_le_bytes(
                    self.superchunk_size as u64,
                ) + words_to_bytes(self.superchunk_data@),
                out@ == header2 + shorts_to_bytes(self.chunk_data@.take(cidx as int)),
            decreases self.chunk_data@.len() - cidx,
        {
            push_short_bytes(&mut out, self.chunk_data[cidx]);
            proof {
                lemma_shorts_to_bytes_push(
                    self.chunk_data@.take(cidx as int),
                    self.chunk_data@[cidx as int],
                );
                assert(self.chunk_data@.take(cidx as int).push(self.chunk_data@[cidx as int])
                    =~= self.chunk_data@.take(cidx + 1));
                assert(out@ =~= header2 + shorts_to_bytes(self.chunk_data@.take(cidx + 1)));
            }
            cidx = cidx + 1;
        }
        proof {
            assert(self.chunk_data@.take(self.chunk_data@.len() as int) =~= self.chunk_data@);
            assert(out@ =~= self.spec_save());
            lemma_words_to_bytes_len(self.superchunk_data@);
            lemma_shorts_to_bytes_len(self.chunk_data@);
            assert(out@.subrange(0, 8) =~= spec_u64_to_le_bytes(self.chunk_size as u64));
            assert(out@.subrange(8, 16) =~= spec_u64_to_le_bytes(self.superchunk_size as u64));
        }
        out
    }

    /// Rebuilds an index from its binary encoding and an already-loaded bit
    /// vector: the encoding carries no bit data of its own. Returns nothing
    /// when the bytes do not fit that bit vector: a header too short, mismatched
    /// parameters for the size, or a table region whose length is not exactly
    /// what the size demands. The loaded tables are taken as stored; they
    /// answer queries correctly exactly when they were saved from an index
    /// built over the same bits.
    pub fn load(bit_vector: BitVector, bytes: &[u8]) -> (r: Option<RankSupport>)
        requires
            bit_vector.wf(),
        ensures
            r is Some <==> rank_parseable(bit_vector@.len() as int, bytes@),
            r matches Some(rs) ==> rs.wf_shape() && rs.bit_vec() == bit_vector && rs.spec_save()
                == bytes@,
    {
        proof {
            lemma_auto_spec_u64_to_from_le_bytes();
            lemma_wf_size_bound(bit_vector);
        }
        let size = bit_vector.size();
        if size < 2 {
            return None;
        }
        proof {
            lemma_params(size as int);
        }
        if bytes.len() < 16 {
            return None;
        }
        let log_of_size = my_log(size);
        let chunk_size: usize = log_of_size / 2;
        let superchunk_size: usize = 2 * chunk_size * log_of_size;
        let cs_parsed = vstd::bytes::u64_from_le_bytes(slice_subrange(bytes, 0, 8));
        let ss_parsed = vstd::bytes::u64_from_le_bytes(slice_subrange(bytes, 8, 16));
        if cs_parsed != chunk_size as u64 {
            return None;
        }
        if ss_parsed != superchunk_size as u64 {
            return None;
        }
        let slen = size / superchunk_size + (if size % superchunk_size == 0 {
            0
        } else {
            1
        });
        let clen = size / chunk_size + (if size % chunk_size == 0 {
            0
        } else {
            1
        });
        let rem = bytes.len() - 16;
        let ghost gsize = size as int;
        let ghost gss = superchunk_size as int;
        let ghost gcs = chunk_size as int;
        proof {
            lemma_div_mul_le(rem as int, 8);
        }
        if rem / 8 < slen {
            proof {
                if rank_parseable(gsize, bytes@) {
                    lemma_multiple_le_div(slen as int, 8, rem as int);
                }
            }
            return None;
        }
        proof {
            vstd::arithmetic::mul::lemma_mul_inequality(slen as int, (rem as int) / 8, 8);
        }
        let words_len: usize = 8 * slen;
        let rem2 = rem - words_len;
        if rem2 % 2 != 0 {
            proof {
                if rank_parseable(gsize, bytes@) {
                    lemma_fundamental_div_mod_converse_mod(rem2 as int, 2, clen as int, 0);
                }
            }
            return None;
        }
        if rem2 / 2 != clen {
            proof {
                if rank_parseable(gsize, bytes@) {
                    lemma_fundamental_div_mod_converse_div(rem2 as int, 2, clen as int, 0);
                }
            }
            return None;
        }
        proof {
            lemma_fundamental_div_mod(rem2 as int, 2);
        }
        let mut superchunk_data: Vec<u64> = Vec::new();
        let mut idx: usize = 0;
        while idx < slen
            invariant
                superchunk_data@.len() == idx,
                idx <= slen,
                bytes@.len() == 16 + 8 * slen + 2 * clen,
                bytes@.len() <= usize::MAX,
                words_to_bytes(superchunk_data@) == bytes@.subrange(16, 16 + 8 * idx),
            decreases slen - idx,
        {
            let off: usize = 16 + 8 * idx;
            let w = vstd::bytes::u64_from_le_bytes(slice_subrange(bytes, off, off + 8));
            let ghost prev = superchunk_data@;
            superchunk_data.push(w);
            proof {
                lemma_auto_spec_u64_to_from_le_bytes();
                lemma_words_to_bytes_push(prev, w);
                assert(spec_u64_to_le_bytes(w) =~= bytes@.subrange(off as int, off + 8));
                assert(words_to_bytes(superchunk_data@) =~= bytes@.subrange(16, 16 + 8 * (idx + 1)));
            }
            idx = idx + 1;
        }
        let base: usize = 16 + words_len;
        let mut chunk_data: Vec<u16> = Vec::new();
        let mut cidx: usize = 0;
        while cidx < clen
            invariant
                chunk_data@.len() == cidx,
                cidx <= clen,
                base == 16 + 8 * slen,
                bytes@.len() == 16 + 8 * slen + 2 * clen,
                bytes@.len() <= usize::MAX,
                shorts_to_bytes(chunk_data@) == bytes@.subrange(base as int, base + 2 * cidx),
            decreases clen - cidx,
        {
            let off: usize = base + 2 * cidx;
            let w = vstd::bytes::u16_from_le_bytes(slice_subrange(bytes, off, off + 2));
            let ghost prev = chunk_data@;
            chunk_data.push(w);
            proof {
                lemma_auto_spec_u16_to_from_le_bytes();
                lemma_shorts_to_bytes_push(prev, w);
                assert(spec_u16_to_le_bytes(w) =~= bytes@.subrange(off as int, off + 2));
                assert(shorts_to_bytes(chunk_data@) =~= bytes@.subrange(
                    base as int,
                    base + 2 * (cidx + 1),
                ));
            }
            cidx = cidx + 1;
        }
        let rs = RankSupport { bit_vector, superchunk_data, chunk_data, chunk_size, superchunk_size };
        proof {
            assert(bytes@.subrange(0, 8) =~= spec_u64_to_le_bytes(rs.chunk_size as u64));
            assert(bytes@.subrange(8, 16) =~= spec_u64_to_le_bytes(rs.superchunk_size as u64));
            assert(rs.spec_save() =~= bytes@);
        }
        Some(rs)
    }
}

/// Two rank indexes over the same bits and with the same encoding answer
/// every query alike: one that was saved from a fully built index and loaded
/// back over those bits is itself fully built.
pub proof fn lemma_rank_save_determines_index(a: RankSupport, b: RankSupport)
    requires
        a.wf(),
        b.wf_shape(),
        b.spec_save() == a.spec_save(),
        b.bits() == a.bits(),
    ensures
        b.wf(),
{
    lemma_auto_spec_u64_to_from_le_bytes();
    let bytes = a.spec_save();
    lemma_words_to_bytes_len(a.superchunk_data@);
    lemma_words_to_bytes_len(b.superchunk_data@);
    lemma_shorts_to_bytes_len(a.chunk_data@);
    lemma_shorts_to_bytes_len(b.chunk_data@);
    let slen = a.superchunk_data@.len() as int;
    let clen = a.chunk_data@.len() as int;
    assert(b.superchunk_data@.len() == slen && b.chunk_data@.len() == clen);
    assert(words_to_bytes(a.superchunk_data@) =~= bytes.subrange(16, 16 + 8 * slen));
    assert(words_to_bytes(b.superchunk_data@) =~= bytes.subrange(16, 16 + 8 * slen));
    lemma_words_to_bytes_injective(a.superchunk_data@, b.superchunk_data@);
    assert(shorts_to_bytes(a.chunk_data@) =~= bytes.subrange(16 + 8 * slen, bytes.len() as int));
    assert(shorts_to_bytes(b.chunk_data@) =~= bytes.subrange(16 + 8 * slen, bytes.len() as int));
    lemma_shorts_to_bytes_injective(a.chunk_data@, b.chunk_data@);
}

} // verus!
