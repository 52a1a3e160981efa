//! Counting set positions of a boolean sequence: the mathematical meaning of
//! rank, and the facts about it that the index construction, the rank query,
//! and the select search rely on.

use vstd::prelude::*;

verus! {

use crate::bits::{bit64, count_bits_below};

/// Number of `true` entries of `s` at positions strictly below `n`: the
/// brute-force definition of rank1.
pub open spec fn ones_below(s: Seq<bool>, n: int) -> nat
    decreases n,
{
    if n <= 0 {
        0
    } else {
        ones_below(s, n - 1) + (if 0 <= n - 1 < s.len() && s[n - 1] {
            1nat
        } else {
            0nat
        })
    }
}

/// A count over `n` positions is at most `n`.
pub proof fn lemma_ones_below_bound(s: Seq<bool>, n: int)
    requires
        0 <= n,
    ensures
        ones_below(s, n) <= n,
    decreases n,
{
    if n > 0 {
        lemma_ones_below_bound(s, n - 1);
    }
}

/// Counting further never loses ones, and gains at most one per position.
pub proof fn lemma_ones_below_monotone(s: Seq<bool>, a: int, b: int)
    requires
        0 <= a <= b,
    ensures
        ones_below(s, a) <= ones_below(s, b),
        ones_below(s, b) - ones_below(s, a) <= b - a,
    decreases b - a,
{
    if a < b {
        lemma_ones_below_monotone(s, a, b - 1);
    }
}

/// Setting position `p` does not disturb counts that stop at or before `p`.
pub proof fn lemma_ones_below_update_before(s: Seq<bool>, p: int, v: bool, n: int)
    requires
        0 <= p < s.len(),
        n <= p,
    ensures
        ones_below(s.update(p, v), n) == ones_below(s, n),
    decreases n,
{
    if n > 0 {
        lemma_ones_below_update_before(s, p, v, n - 1);
    }
}

/// Setting a clear position `p` raises by one every count that looks past it.
pub proof fn lemma_ones_below_update_after(s: Seq<bool>, p: int, n: int)
    requires
        0 <= p < s.len(),
        !s[p],
        p < n,
    ensures
        ones_below(s.update(p, true), n) == ones_below(s, n) + 1,
    decreases n,
{
    if n - 1 == p {
        lemma_ones_below_update_before(s, p, true, n - 1);
    } else {
        lemma_ones_below_update_after(s, p, n - 1);
    }
}

/// A stretch with no set positions adds nothing to the count.
pub proof fn lemma_ones_below_no_ones_suffix(s: Seq<bool>, a: int, b: int)
    requires
        0 <= a <= b,
        forall|q: int| a <= q < b ==> !(0 <= q < s.len() && s[q]),
    ensures
        ones_below(s, b) == ones_below(s, a),
    decreases b - a,
{
    if a < b {
        lemma_ones_below_no_ones_suffix(s, a, b - 1);
    }
}

/// Among the set positions of `s`, the count of ones strictly before a set
/// position identifies it: no two distinct set positions share a rank.
pub proof fn lemma_rank_identifies_position(s: Seq<bool>, p: int, q: int)
    requires
        0 <= p < s.len(),
        0 <= q < s.len(),
        s[p],
        s[q],
        ones_below(s, p) == ones_below(s, q),
    ensures
        p == q,
{
    if p < q {
        assert(ones_below(s, p + 1) == ones_below(s, p) + 1);
        lemma_ones_below_monotone(s, p + 1, q);
        assert(false);
    }
    if q < p {
        assert(ones_below(s, q + 1) == ones_below(s, q) + 1);
        lemma_ones_below_monotone(s, q + 1, p);
        assert(false);
    }
}

/// A word whose low bits mirror `s` starting at `start` counts exactly the
/// ones of `s` in that window.
pub proof fn lemma_count_from_word(s: Seq<bool>, start: int, w: u64, width: int, m: int)
    requires
        0 <= start,
        0 <= m <= width <= 64,
        start + width <= s.len(),
        forall|k: int| 0 <= k < width ==> bit64(w, k) == #[trigger] s[start + k],
    ensures
        count_bits_below(w, m) == ones_below(s, start + m) - ones_below(s, start),
    decreases m,
{
    if m > 0 {
        lemma_count_from_word(s, start, w, width, m - 1);
        assert(bit64(w, m - 1) == s[start + m - 1]);
    }
}

} // verus!
