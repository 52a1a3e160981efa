//! Select queries answered by binary search over rank: select1(r) is the
//! smallest prefix length whose rank reaches `r`, found in logarithmically
//! many rank probes because rank grows monotonically.

use vstd::prelude::*;

verus! {

use crate::bit_vector::{BitVector, lemma_wf_size_bound};
use crate::count::{ones_below, lemma_ones_below_monotone, lemma_ones_below_bound};
use crate::rank_support::{RankSupport, tables_shape, tables_wf, rank_query, lemma_rank_wf_unfold};

/// What select1 promises: rank zero gives position zero by convention; an
/// answerable rank gives the first prefix length whose rank reaches it; a
/// rank beyond the total number of set bits gives the sentinel.
pub open spec fn select1_post(bits: Seq<bool>, r: u64, out: u64) -> bool {
    let total = ones_below(bits, bits.len() as int);
    &&& r == 0 ==> out == 0
    &&& 1 <= r <= total ==> {
        &&& 1 <= out <= bits.len()
        &&& ones_below(bits, out as int) == r
        &&& ones_below(bits, out as int - 1) == r - 1
        &&& bits[out as int - 1]
    }
    &&& r > total ==> out == u64::MAX
}

/// Binary search for the smallest `i` with `rank1(i) == r`, keeping a bracket
/// with `rank(lo) < r <= rank(hi)` and probing rank at its midpoint.
pub(crate) fn select_query(
    bv: &BitVector,
    sdata: &Vec<u64>,
    cdata: &Vec<u16>,
    cs: usize,
    ss: usize,
    r: u64,
) -> (out: u64)
    requires
        bv.wf(),
        tables_shape(bv@.len() as int, sdata@.len() as int, cdata@.len() as int, cs as int, ss as int),
        tables_wf(bv@, sdata@, cdata@, cs as int, ss as int),
    ensures
        select1_post(bv@, r, out),
{
    let ghost bits = bv@;
    if r == 0 {
        return 0;
    }
    let size = bv.size();
    proof {
        lemma_wf_size_bound(*bv);
    }

    // The total number of set bits: the rank just before the end, plus the
    // last bit itself.
    let rank_before_last = rank_query(bv, sdata, cdata, cs, ss, size - 1);
    proof {
        lemma_ones_below_bound(bits, size as int - 1);
    }
    let total = if bv.get(size - 1) {
        rank_before_last + 1
    } else {
        rank_before_last
    };
    proof {
        lemma_ones_below_monotone(bits, 0, size as int - 1);
    }
    if r > total {
        return u64::MAX;
    }

    let mut lo: usize = 0;
    let mut hi: usize = size;
    while hi - lo > 1
        invariant
            bv.wf(),
            bv@ == bits,
            tables_shape(
                bv@.len() as int,
                sdata@.len() as int,
                cdata@.len() as int,
                cs as int,
                ss as int,
            ),
            tables_wf(bv@, sdata@, cdata@, cs as int, ss as int),
            size == bits.len(),
            0 <= lo < hi <= size,
            ones_below(bits, lo as int) < r,
            r <= ones_below(bits, hi as int),
        decreases hi - lo,
    {
        let mid = lo + (hi - lo) / 2;
        let rank_mid = rank_query(bv, sdata, cdata, cs, ss, mid);
        if rank_mid >= r {
            hi = mid;
        } else {
            lo = mid;
        }
    }
    proof {
        // The bracket has closed on one position: the rank can have grown by
        // at most the one bit at `lo`, and it must have, since the rank at
        // `hi` reaches `r`.
        assert(ones_below(bits, hi as int) == ones_below(bits, lo as int) + (if bits[lo as int] {
            1int
        } else {
            0int
        }));
    }
    hi as u64
}

/// The select1 contract pins its answer completely: any two results for the
/// same rank over the same bits are equal, so repeating a query returns the
/// identical answer.
pub proof fn lemma_select1_unique(bits: Seq<bool>, r: u64, a: u64, b: u64)
    requires
        select1_post(bits, r, a),
        select1_post(bits, r, b),
    ensures
        a == b,
{
    let total = ones_below(bits, bits.len() as int);
    if 1 <= r <= total {
        if a < b {
            lemma_ones_below_monotone(bits, a as int, b as int - 1);
        }
        if b < a {
            lemma_ones_below_monotone(bits, b as int, a as int - 1);
        }
    }
}

/// A select index over a rank index. Binary search over rank needs no state
/// of its own; a constant-time variant would add a sampled lookup table here.
pub struct SelectSupport<'a> {
    rank_support: &'a RankSupport,
}

impl<'a> SelectSupport<'a> {
    /// The rank index this select index searches over.
    pub closed spec fn rank(self) -> RankSupport {
        *self.rank_support
    }

    /// The select index is usable when its rank index is fully built.
    pub open spec fn wf(self) -> bool {
        self.rank().wf()
    }

    /// Wraps a rank index.
    pub fn new(rank_support: &'a RankSupport) -> (r: Self)
        ensures
            r.rank() == *rank_support,
    {
        SelectSupport { rank_support }
    }

    /// select1: the smallest `j` with `rank1(j) == i`; in other words, one
    /// past the position of the `i`-th set bit, counting from one. Zero maps
    /// to zero, and a rank beyond the total number of set bits gives the
    /// sentinel `u64::MAX`.
    pub fn select1(&self, i: u64) -> (out: u64)
        requires
            self.wf(),
        ensures
            select1_post(self.rank().bits(), i, out),
    {
        proof {
            lemma_rank_wf_unfold(*self.rank_support);
        }
        select_query(
            &self.rank_support.bit_vector,
            &self.rank_support.superchunk_data,
            &self.rank_support.chunk_data,
            self.rank_support.chunk_size,
            self.rank_support.superchunk_size,
            i,
        )
    }

    /// The index size in bits: select adds no state beyond the rank index it
    /// borrows.
    pub fn overhead(&self) -> (r: u64)
        requires
            self.rank().overhead_bits() <= usize::MAX,
        ensures
            r == self.rank().overhead_bits(),
    {
        let bits_count = self.rank_support.overhead();
        bits_count as u64
    }

    /// Serializes the select structure: exactly the rank index's encoding,
    /// since select keeps no state of its own.
    pub fn save(&self) -> (out: Vec<u8>)
        requires
            self.rank().wf_shape(),
        ensures
            out@ == self.rank().spec_save(),
    {
        self.rank_support.save()
    }

    /// Rebuilds a select structure over an already-loaded rank index: there
    /// is nothing else to read back.
    pub fn load(rank_support: &'a RankSupport) -> (r: Self)
        ensures
            r.rank() == *rank_support,
    {
        SelectSupport { rank_support }
    }
}

} // verus!
