//! Little-endian byte encodings of the integer tables that the persistence
//! layer writes: sequences of 64-bit and of 16-bit words, with the length and
//! injectivity facts that make loading the exact inverse of saving.

use vstd::prelude::*;

verus! {

use vstd::bytes::{
    spec_u64_to_le_bytes,
    spec_u64_from_le_bytes,
    spec_u16_to_le_bytes,
    spec_u16_from_le_bytes,
    lemma_auto_spec_u64_to_from_le_bytes,
    lemma_auto_spec_u16_to_from_le_bytes,
};

/// Each 64-bit word as eight little-endian bytes, in word order.
pub open spec fn words_to_bytes(ws: Seq<u64>) -> Seq<u8>
    decreases ws.len(),
{
    if ws.len() == 0 {
        Seq::empty()
    } else {
        words_to_bytes(ws.drop_last()) + spec_u64_to_le_bytes(ws.last())
    }
}

/// Each 16-bit word as two little-endian bytes, in word order.
pub open spec fn shorts_to_bytes(ws: Seq<u16>) -> Seq<u8>
    decreases ws.len(),
{
    if ws.len() == 0 {
        Seq::empty()
    } else {
        shorts_to_bytes(ws.drop_last()) + spec_u16_to_le_bytes(ws.last())
    }
}

/// The encoding of 64-bit words takes eight bytes per word.
pub proof fn lemma_words_to_bytes_len(ws: Seq<u64>)
    ensures
        words_to_bytes(ws).len() == 8 * ws.len(),
    decreases ws.len(),
{
    lemma_auto_spec_u64_to_from_le_bytes();
    if ws.len() > 0 {
        lemma_words_to_bytes_len(ws.drop_last());
    }
}

/// The encoding of 16-bit words takes two bytes per word.
pub proof fn lemma_shorts_to_bytes_len(ws: Seq<u16>)
    ensures
        shorts_to_bytes(ws).len() == 2 * ws.len(),
    decreases ws.len(),
{
    lemma_auto_spec_u16_to_from_le_bytes();
    if ws.len() > 0 {
        lemma_shorts_to_bytes_len(ws.drop_last());
    }
}

/// Equally long word sequences with the same encoding are the same sequence.
pub proof fn lemma_words_to_bytes_injective(a: Seq<u64>, b: Seq<u64>)
    requires
        a.len() == b.len(),
        words_to_bytes(a) == words_to_bytes(b),
    ensures
        a == b,
    decreases a.len(),
{
    if a.len() == 0 {
        assert(a =~= b);
    } else {
        lemma_auto_spec_u64_to_from_le_bytes();
        lemma_words_to_bytes_len(a.drop_last());
        lemma_words_to_bytes_len(b.drop_last());
        let n = a.len() as int;
        let bytes = words_to_bytes(a);
        assert(words_to_bytes(a.drop_last()) =~= bytes.subrange(0, 8 * (n - 1)));
        assert(words_to_bytes(b.drop_last()) =~= bytes.subrange(0, 8 * (n - 1)));
        assert(spec_u64_to_le_bytes(a.last()) =~= bytes.subrange(8 * (n - 1), 8 * n));
        assert(spec_u64_to_le_bytes(b.last()) =~= bytes.subrange(8 * (n - 1), 8 * n));
        assert(a.last() == spec_u64_from_le_bytes(spec_u64_to_le_bytes(a.last())));
        assert(b.last() == spec_u64_from_le_bytes(spec_u64_to_le_bytes(b.last())));
        lemma_words_to_bytes_injective(a.drop_last(), b.drop_last());
        assert forall|i: int| 0 <= i < a.len() implies a[i] == b[i] by {
            if i < a.len() - 1 {
                assert(a.drop_last()[i] == b.drop_last()[i]);
            }
        }
        assert(a =~= b);
    }
}

/// Equally long short sequences with the same encoding are the same sequence.
pub proof fn lemma_shorts_to_bytes_injective(a: Seq<u16>, b: Seq<u16>)
    requires
        a.len() == b.len(),
        shorts_to_bytes(a) == shorts_to_bytes(b),
    ensures
        a == b,
    decreases a.len(),
{
    if a.len() == 0 {
        assert(a =~= b);
    } else {
        lemma_auto_spec_u16_to_from_le_bytes();
        lemma_shorts_to_bytes_len(a.drop_last());
        lemma_shorts_to_bytes_len(b.drop_last());
        let n = a.len() as int;
        let bytes = shorts_to_bytes(a);
        assert(shorts_to_bytes(a.drop_last()) =~= bytes.subrange(0, 2 * (n - 1)));
        assert(shorts_to_bytes(b.drop_last()) =~= bytes.subrange(0, 2 * (n - 1)));
        assert(spec_u16_to_le_bytes(a.last()) =~= bytes.subrange(2 * (n - 1), 2 * n));
        assert(spec_u16_to_le_bytes(b.last()) =~= bytes.subrange(2 * (n - 1), 2 * n));
        assert(a.last() == spec_u16_from_le_bytes(spec_u16_to_le_bytes(a.last())));
        assert(b.last() == spec_u16_from_le_bytes(spec_u16_to_le_bytes(b.last())));
        lemma_shorts_to_bytes_injective(a.drop_last(), b.drop_last());
        assert forall|i: int| 0 <= i < a.len() implies a[i] == b[i] by {
            if i < a.len() - 1 {
                assert(a.drop_last()[i] == b.drop_last()[i]);
            }
        }
        assert(a =~= b);
    }
}

/// Appends the eight-byte encoding of one 64-bit word to a byte stream.
pub(crate) fn push_word_bytes(out: &mut Vec<u8>, w: u64)
    ensures
        final(out)@ == old(out)@ + spec_u64_to_le_bytes(w),
{
    let mut wb = vstd::bytes::u64_to_le_bytes(w);
    out.append(&mut wb);
}

/// Appends the two-byte encoding of one 16-bit word to a byte stream.
pub(crate) fn push_short_bytes(out: &mut Vec<u8>, w: u16)
    ensures
        final(out)@ == old(out)@ + spec_u16_to_le_bytes(w),
{
    let mut wb = vstd::bytes::u16_to_le_bytes(w);
    out.append(&mut wb);
}

/// A word sequence extended by one word encodes as the old bytes followed by
/// the new word's bytes.
pub proof fn lemma_words_to_bytes_push(ws: Seq<u64>, w: u64)
    ensures
        words_to_bytes(ws.push(w)) == words_to_bytes(ws) + spec_u64_to_le_bytes(w),
{
    assert(ws.push(w).drop_last() =~= ws);
    assert(ws.push(w).last() == w);
}

/// A short sequence extended by one short encodes as the old bytes followed
/// by the new short's bytes.
pub proof fn lemma_shorts_to_bytes_push(ws: Seq<u16>, w: u16)
    ensures
        shorts_to_bytes(ws.push(w)) == shorts_to_bytes(ws) + spec_u16_to_le_bytes(w),
{
    assert(ws.push(w).drop_last() =~= ws);
    assert(ws.push(w).last() == w);
}

} // verus!
