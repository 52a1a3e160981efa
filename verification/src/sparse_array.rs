//! A sparse array: a presence bitmap over a fixed range of positions, a
//! dense value list holding one entry per present position in position order,
//! and the rank and select machinery that maps between sparse positions and
//! dense value slots.

use vstd::prelude::*;

verus! {

use crate::bit_vector::{BitVector, lemma_wf_size_bound};
use crate::count::{
    ones_below,
    lemma_ones_below_bound,
    lemma_ones_below_monotone,
    lemma_ones_below_update_before,
    lemma_ones_below_update_after,
    lemma_ones_below_no_ones_suffix,
    lemma_rank_identifies_position,
};
use crate::rank_support::{tables_shape, tables_wf, fill_tables, rank_query, zeros_u64, zeros_u16};
use crate::select_support::{select1_post, select_query};
use crate::utils::{my_log, lemma_params, lemma_exact_div};

/// A sparse array over positions `0 .. size`: a presence bit per position,
/// the values of the present positions packed densely in append order, and
/// the flattened two-level rank tables over the presence bitmap.
pub struct SparseArray {
    bit_vector: BitVector,
    elements: Vec<String>,
    superchunk_data: Vec<u64>,
    chunk_data: Vec<u16>,
    chunk_size: usize,
    superchunk_size: usize,
    positions: Ghost<Seq<u64>>,
}

impl SparseArray {
    /// The presence bitmap: one bit per position of the sparse array.
    pub closed spec fn presence(self) -> Seq<bool> {
        self.bit_vector@
    }

    /// The stored values, dense, in the order they were appended.
    pub closed spec fn values(self) -> Seq<Seq<char>> {
        Seq::new(self.elements@.len(), |k: int| self.elements@[k]@)
    }

    /// The positions at which the values were appended, in append order.
    pub closed spec fn appended(self) -> Seq<u64> {
        self.positions@
    }

    /// The bitmap is well formed and the rank tables have the lengths and
    /// parameters its size demands.
    spec fn params_ok(self) -> bool {
        &&& self.bit_vector.wf()
        &&& tables_shape(
            self.bit_vector@.len() as int,
            self.superchunk_data@.len() as int,
            self.chunk_data@.len() as int,
            self.chunk_size as int,
            self.superchunk_size as int,
        )
    }

    /// The value list matches the bitmap: one value per set bit, and the
    /// value appended at a position sits at exactly that position's rank
    /// among the present positions.
    spec fn entries_ok(self) -> bool {
        let bits = self.bit_vector@;
        &&& self.elements@.len() == self.positions@.len()
        &&& self.elements@.len() == ones_below(bits, bits.len() as int)
        &&& forall|k: int|
            0 <= k < self.positions@.len() ==> {
                &&& (#[trigger] self.positions@[k]) < bits.len()
                &&& bits[self.positions@[k] as int]
                &&& ones_below(bits, self.positions@[k] as int) == k
            }
    }

    /// Both rank tables still hold only zeros, as allocated.
    spec fn tables_zero(self) -> bool {
        &&& forall|k: int| 0 <= k < self.superchunk_data@.len() ==> self.superchunk_data@[k] == 0u64
        &&& forall|k: int| 0 <= k < self.chunk_data@.len() ==> self.chunk_data@[k] == 0u16
    }

    /// The array is still being populated: values and bits correspond, and
    /// the rank tables are allocated but untouched.
    pub closed spec fn wf_building(self) -> bool {
        &&& self.params_ok()
        &&& self.entries_ok()
        &&& self.tables_zero()
    }

    /// The array is finalized: values and bits correspond, and the rank
    /// tables describe the bitmap.
    pub closed spec fn wf(self) -> bool {
        &&& self.params_ok()
        &&& self.entries_ok()
        &&& tables_wf(
            self.bit_vector@,
            self.superchunk_data@,
            self.chunk_data@,
            self.chunk_size as int,
            self.superchunk_size as int,
        )
    }

    /// Allocates an empty sparse array of the given size: a zeroed presence
    /// bitmap, an empty value list, and zeroed rank tables waiting for
    /// `finalize`.
    pub fn create(size: u64) -> (r: Self)
        requires
            2 <= size,
            size + 64 <= usize::MAX,
        ensures
            r.wf_building(),
            r.presence().len() == size,
            forall|q: int| 0 <= q < size ==> !r.presence()[q],
            r.values() == Seq::<Seq<char>>::empty(),
            r.appended() == Seq::<u64>::empty(),
    {
        let size: usize = size as usize;
        let bit_vector = BitVector::new(size);
        proof {
            lemma_params(size as int);
        }
        let log_of_size = my_log(size);

        // The block covers half the (even-rounded) logarithm of the size.
        let chunk_size: usize = log_of_size / 2;

        // The superblock covers the square of that logarithm.
        let superchunk_size: usize = 2 * chunk_size * log_of_size;

        // One entry per started superblock, and one per started block.
        let slen = size / superchunk_size + (if size % superchunk_size == 0 {
            0
        } else {
            1
        });
        let clen = size / chunk_size + (if size % chunk_size == 0 {
            0
        } else {
            1
        });
        let superchunk_data = zeros_u64(slen);
        let chunk_data = zeros_u16(clen);

        let r = SparseArray {
            bit_vector,
            elements: Vec::new(),
            superchunk_data,
            chunk_data,
            chunk_size,
            superchunk_size,
            positions: Ghost(Seq::empty()),
        };
        proof {
            lemma_ones_below_no_ones_suffix(r.bit_vector@, 0, size as int);
            assert(r.values() =~= Seq::<Seq<char>>::empty());
        }
        r
    }

    /// Appends a value at a position: sets the presence bit and pushes the
    /// value onto the dense list. Positions must arrive in increasing order —
    /// every present position must lie strictly below the new one — since the
    /// list's order is what ties values to positions. A position at or past
    /// the declared size is silently ignored, as is this structure's policy.
    pub fn append(&mut self, elem: String, pos: u64)
        requires
            old(self).wf_building(),
            pos < old(self).presence().len() ==> forall|q: int|
                pos <= q < old(self).presence().len() ==> !old(self).presence()[q],
        ensures
            final(self).wf_building(),
            final(self).presence().len() == old(self).presence().len(),
            pos < old(self).presence().len() ==> {
                &&& final(self).presence() == old(self).presence().update(pos as int, true)
                &&& final(self).values() == old(self).values().push(elem@)
                &&& final(self).appended() == old(self).appended().push(pos)
            },
            pos >= old(self).presence().len() ==> {
                &&& final(self).presence() == old(self).presence()
                &&& final(self).values() == old(self).values()
                &&& final(self).appended() == old(self).appended()
            },
    {
        let size = self.bit_vector.size();
        if pos < size as u64 {
            let p = pos as usize;
            let ghost bits0 = self.bit_vector@;
            let ghost len0 = self.elements@.len() as int;
            self.bit_vector.set(p, true);
            self.elements.push(elem);
            proof {
                self.positions@ = self.positions@.push(pos);
            }
            proof {
                let bits1 = self.bit_vector@;
                let pi = p as int;
                assert(!old(self).presence()[pi]);
                lemma_ones_below_update_after(bits0, pi, size as int);
                assert forall|k: int| 0 <= k < self.positions@.len() implies {
                    &&& (#[trigger] self.positions@[k]) < bits1.len()
                    &&& bits1[self.positions@[k] as int]
                    &&& ones_below(bits1, self.positions@[k] as int) == k
                } by {
                    if k < len0 {
                        let pk = old(self).positions@[k] as int;
                        if pk >= pi {
                            assert(!old(self).presence()[pk]);
                        }
                        lemma_ones_below_update_before(bits0, pi, true, pk);
                    } else {
                        lemma_ones_below_update_before(bits0, pi, true, pi);
                        lemma_ones_below_no_ones_suffix(bits0, pi, size as int);
                    }
                }
                assert(final(self).values() =~= old(self).values().push(elem@));
            }
        } else {
            proof {
                assert(final(self).values() =~= old(self).values());
            }
        }
    }

    /// Computes the rank tables from the now-populated presence bitmap, in
    /// one linear pass. Called once, after the last `append` and before any
    /// query; calling it again on an already finalized array recomputes the
    /// same tables.
    pub fn finalize(&mut self)
        requires
            old(self).wf_building() || old(self).wf(),
        ensures
            final(self).wf(),
            final(self).presence() == old(self).presence(),
            final(self).values() == old(self).values(),
            final(self).appended() == old(self).appended(),
    {
        proof {
            lemma_wf_size_bound(self.bit_vector);
            lemma_params(self.bit_vector@.len() as int);
            let csi = self.chunk_size as int;
            let ssi = self.superchunk_size as int;
            assert forall|k: int|
                0 <= k < self.chunk_data@.len() && (k * csi) % ssi == 0 implies #[trigger] self.chunk_data@[k]
                == 0 by {
                if self.wf() {
                    lemma_exact_div(k * csi, ssi);
                }
            }
        }
        fill_tables(
            &self.bit_vector,
            &mut self.superchunk_data,
            &mut self.chunk_data,
            self.chunk_size,
            self.superchunk_size,
        );
    }

    /// Copies the `r`-th present value (zero-indexed, in position order) into
    /// `s` and reports success; reports failure, leaving `s` alone, when
    /// fewer than `r + 1` values are stored.
    pub fn get_at_rank(&self, r: u64, s: &mut String) -> (out: bool)
        ensures
            r < self.values().len() ==> out && final(s)@ == self.values()[r as int],
            r >= self.values().len() ==> !out && *final(s) == *old(s),
    {
        if r < self.elements.len() as u64 {
            *s = self.elements[r as usize].clone();
            return true;
        }
        false
    }

    /// rank1 on the presence bitmap: the number of present positions strictly
    /// before `i`.
    pub fn get_rank1(&self, i: usize) -> (r: u64)
        requires
            self.wf(),
            i < self.presence().len(),
        ensures
            r as int == ones_below(self.presence(), i as int),
    {
        rank_query(
            &self.bit_vector,
            &self.superchunk_data,
            &self.chunk_data,
            self.chunk_size,
            self.superchunk_size,
            i,
        )
    }

    /// Looks up the position `r`: when its presence bit is set, copies the
    /// value stored for it — the value at its rank among present positions —
    /// into `s` and reports success; when the bit is clear, reports failure
    /// and leaves `s` alone.
    pub fn get_at_index(&self, r: u64, s: &mut String) -> (out: bool)
        requires
            self.wf(),
            r < self.presence().len(),
        ensures
            self.presence()[r as int] ==> out && final(s)@ == self.values()[ones_below(
                self.presence(),
                r as int,
            ) as int],
            !self.presence()[r as int] ==> !out && *final(s) == *old(s),
    {
        proof {
            lemma_wf_size_bound(self.bit_vector);
        }
        let p = r as usize;
        if self.bit_vector.get(p) {
            let rank = self.get_rank1(p);
            proof {
                // The rank of a present position lies below the total count,
                // which is the value list's length.
                assert(ones_below(self.presence(), p as int + 1) == ones_below(
                    self.presence(),
                    p as int,
                ) + 1);
                lemma_ones_below_monotone(self.presence(), p as int + 1, self.presence().len() as int);
            }
            return self.get_at_rank(rank, s);
        }
        false
    }

    /// The position of the `r`-th present element (zero-indexed), found by
    /// converting to select1's one-indexed convention; the sentinel
    /// `u64::MAX` when fewer than `r + 1` elements are present.
    pub fn get_index_of(&self, r: u64) -> (out: u64)
        requires
            self.wf(),
        ensures
            r < self.values().len() ==> out < self.presence().len() && self.presence()[out as int]
                && ones_below(self.presence(), out as int) == r,
            r >= self.values().len() ==> out == u64::MAX,
    {
        if r < self.elements.len() as u64 {
            let s1 = self.get_select1(r + 1);
            proof {
                lemma_ones_below_bound(self.presence(), self.presence().len() as int);
            }
            return s1 - 1;
        }
        u64::MAX
    }

    /// The number of present elements at positions up to and including
    /// `idx`: inclusive rank. The final position is answered from the value
    /// list's length directly, since rank1 takes only arguments below the
    /// size.
    pub fn num_elem_at(&self, idx: u64) -> (out: u64)
        requires
            self.wf(),
            idx < self.presence().len(),
        ensures
            out as int == ones_below(self.presence(), idx as int + 1),
    {
        let size = self.bit_vector.size();
        proof {
            lemma_wf_size_bound(self.bit_vector);
        }
        if idx as usize == size - 1 {
            proof {
                lemma_ones_below_no_ones_suffix(self.presence(), idx as int + 1, size as int);
            }
            return self.elements.len() as u64;
        }
        self.get_rank1((idx + 1) as usize)
    }

    /// The declared size of the sparse array.
    pub fn size(&self) -> (out: u64)
        ensures
            out == self.presence().len(),
    {
        self.bit_vector.size() as u64
    }

    /// The number of present elements: the number of set presence bits.
    pub fn num_elem(&self) -> (out: u64)
        ensures
            out == self.values().len(),
    {
        self.elements.len() as u64
    }

    /// select1 on the presence bitmap: the smallest prefix length whose rank
    /// reaches `i`; zero for zero, the sentinel `u64::MAX` past the total.
    pub fn get_select1(&self, i: u64) -> (out: u64)
        requires
            self.wf(),
        ensures
            select1_post(self.presence(), i, out),
    {
        select_query(
            &self.bit_vector,
            &self.superchunk_data,
            &self.chunk_data,
            self.chunk_size,
            self.superchunk_size,
            i,
        )
    }
}

/// The bytes of payload text held in a list of values, by UTF-8 encoding.
pub open spec fn payload_bytes(vs: Seq<Seq<char>>) -> int
    decreases vs.len(),
{
    if vs.len() == 0 {
        0
    } else {
        payload_bytes(vs.drop_last()) + vstd::utf8::encode_utf8(vs.last()).len()
    }
}

/// Payload byte counts are never negative.
proof fn lemma_payload_bytes_nonneg(vs: Seq<Seq<char>>)
    ensures
        payload_bytes(vs) >= 0,
    decreases vs.len(),
{
    if vs.len() > 0 {
        lemma_payload_bytes_nonneg(vs.drop_last());
    }
}

/// Extending a prefix of the value list by one value adds that value's bytes.
proof fn lemma_payload_take_step(vs: Seq<Seq<char>>, i: int)
    requires
        0 <= i < vs.len(),
    ensures
        payload_bytes(vs.take(i + 1)) == payload_bytes(vs.take(i)) + vstd::utf8::encode_utf8(
            vs[i],
        ).len(),
{
    assert(vs.take(i + 1).drop_last() =~= vs.take(i));
    assert(vs.take(i + 1).last() == vs[i]);
}

/// A prefix of the value list never holds more bytes than the whole.
proof fn lemma_payload_take_le(vs: Seq<Seq<char>>, i: int)
    requires
        0 <= i <= vs.len(),
    ensures
        payload_bytes(vs.take(i)) <= payload_bytes(vs),
    decreases vs.len() - i,
{
    if i == vs.len() {
        assert(vs.take(i) =~= vs);
    } else {
        lemma_payload_take_step(vs, i);
        lemma_payload_take_le(vs, i + 1);
    }
}

impl SparseArray {
    /// The structure's memory footprint in bytes: the packed bitmap words,
    /// the payload bytes of the stored values, and the two rank tables at
    /// eight and two bytes per entry.
    pub closed spec fn overhead_spec(self) -> int {
        8 * ((self.bit_vector@.len() + 64) / 64) + payload_bytes(self.values()) + 8
            * self.superchunk_data@.len() as int + 2 * self.chunk_data@.len() as int
    }

    /// Reports the memory footprint, for space accounting.
    pub fn get_overhead(&self) -> (r: usize)
        requires
            self.wf_building() || self.wf(),
            self.overhead_spec() <= usize::MAX,
        ensures
            r as int == self.overhead_spec(),
    {
        proof {
            lemma_payload_bytes_nonneg(self.values());
        }
        let bit_vector_size = self.bit_vector.memory_usage();
        let superchunk_data_size = self.superchunk_data.len() * 8;
        let chunk_data_size = self.chunk_data.len() * 2;
        let mut total: usize = bit_vector_size + superchunk_data_size + chunk_data_size;
        let ghost vals = self.values();
        let ghost fixed = total as int;
        proof {
            assert(vals.take(0) =~= Seq::<Seq<char>>::empty());
        }
        let mut i: usize = 0;
        while i < self.elements.len()
            invariant
                i <= self.elements@.len(),
                vals == self.values(),
                vals.len() == self.elements@.len(),
                total as int == fixed + payload_bytes(vals.take(i as int)),
                fixed + payload_bytes(vals) <= usize::MAX,
                fixed >= 0,
            decreases self.elements@.len() - i,
        {
            proof {
                lemma_payload_take_step(vals, i as int);
                lemma_payload_take_le(vals, i as int + 1);
                lemma_payload_bytes_nonneg(vals.take(i as int));
            }
            let element_len = self.elements[i].as_str().len();
            total = total + element_len;
            i = i + 1;
        }
        proof {
            assert(vals.take(vals.len() as int) =~= vals);
        }
        total
    }
}

/// Every appended pair is retrievable where it was put: the position appended
/// in the `k`-th call carries rank `k` among present positions — so the
/// lookup at that position fetches the `k`-th stored value — and it is the
/// only present position of that rank, so the position reported for rank `k`
/// is it.
pub proof fn lemma_appended_pair_round_trip(sa: SparseArray, k: int)
    requires
        sa.wf(),
        0 <= k < sa.appended().len(),
    ensures
        ({
            let p = sa.appended()[k] as int;
            &&& 0 <= p < sa.presence().len()
            &&& sa.presence()[p]
            &&& ones_below(sa.presence(), p) == k
            &&& k < sa.values().len()
            &&& forall|q: int|
                0 <= q < sa.presence().len() && sa.presence()[q] && ones_below(sa.presence(), q)
                    == k ==> q == p
        }),
{
    let bits = sa.presence();
    let p = sa.appended()[k] as int;
    assert forall|q: int|
        0 <= q < bits.len() && bits[q] && ones_below(bits, q) == k implies q == p by {
        lemma_rank_identifies_position(bits, p, q);
    }
}

} // verus!
