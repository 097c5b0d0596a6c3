//! Laws that relate rank and select, stated over the model and proved.
//!
//! Every rank and select operation of this crate is specified through
//! [`rank_of`], [`is_selected`] and [`is_zero_selected`], so the laws below
//! hold of every structure and of the agreement between structures.

use vstd::prelude::*;

use crate::bitmap::BitMap;
use crate::model::{
    complement, is_selected, is_zero_selected, lemma_ones_before_word, lemma_rank_bounds,
    lemma_rank_complement, lemma_rank_saturates, lemma_select_unique, ones_before, ones_of,
    rank_of, zeros_of,
};
use crate::traits::BitLength;
use crate::word::word_ones;

verus! {

/// Every rank below the number of ones has a one: selecting it is defined,
/// and the rank at the selected position is the rank asked for.
pub proof fn law_select_defined(s: Seq<bool>, k: int)
    requires
        0 <= k < ones_of(s),
    ensures
        exists|r: int| #[trigger] is_selected(s, k, r) && rank_of(s, r) == k,
{
    lemma_select_below(s, k, s.len() as int);
}

proof fn lemma_select_below(s: Seq<bool>, k: int, p: int)
    requires
        0 <= k < rank_of(s, p),
        p <= s.len(),
    ensures
        exists|r: int| r < p && #[trigger] is_selected(s, k, r),
    decreases p,
{
    if p > 0 {
        if k < rank_of(s, p - 1) {
            lemma_select_below(s, k, p - 1);
        } else {
            assert(is_selected(s, k, p - 1));
        }
    }
}

/// Selecting the rank of a position gives a position at or after it, and
/// exactly it when the bit there is a one.
pub proof fn law_select_of_rank(s: Seq<bool>, p: int, r: int)
    requires
        0 <= p,
        is_selected(s, rank_of(s, p) as int, r),
    ensures
        r >= p,
        p < s.len() && s[p] ==> r == p,
{
    if r < p {
        lemma_rank_bounds(s, r + 1, p);
    }
    if p < s.len() && s[p] {
        lemma_select_unique(s, rank_of(s, p) as int, r, p);
    }
}

/// Rank never decreases as the position grows.
pub proof fn law_rank_monotonic(s: Seq<bool>, p1: int, p2: int)
    requires
        p1 <= p2,
    ensures
        rank_of(s, p1) <= rank_of(s, p2),
{
    lemma_rank_bounds(s, p1, p2);
}

/// Select strictly increases with the rank.
pub proof fn law_select_monotonic(s: Seq<bool>, k1: int, k2: int, r1: int, r2: int)
    requires
        k1 < k2,
        is_selected(s, k1, r1),
        is_selected(s, k2, r2),
    ensures
        r1 < r2,
{
    if r2 <= r1 {
        lemma_rank_bounds(s, r2 + 1, r1);
    }
}

/// Past the length, the rank is the number of ones.
pub proof fn law_rank_saturates(s: Seq<bool>, p: int)
    requires
        p >= s.len(),
    ensures
        rank_of(s, p) == ones_of(s),
{
    lemma_rank_saturates(s, p);
}

/// Two structures over the same bits select the same position for every
/// rank: the position of a one of given rank is unique.
pub proof fn law_select_agreement(s: Seq<bool>, k: int, r1: int, r2: int)
    requires
        is_selected(s, k, r1),
        is_selected(s, k, r2),
    ensures
        r1 == r2,
{
    lemma_select_unique(s, k, r1, r2);
}

/// Selecting a zero of `s` is selecting a one of its complement, which has
/// the same length; the zeros of `s` are the ones of the complement.
pub proof fn law_zero_one_symmetry(s: Seq<bool>, k: int, r: int)
    ensures
        complement(s).len() == s.len(),
        zeros_of(s) == ones_of(complement(s)),
        is_zero_selected(s, k, r) <==> is_selected(complement(s), k, r),
{
    lemma_rank_complement(s, s.len() as int);
    lemma_rank_bounds(s, 0, s.len() as int);
    if 0 <= r < s.len() {
        lemma_rank_complement(s, r);
    }
}

/// The sum of the population counts of the first `n` words.
pub open spec fn popcount_sum(ws: Seq<u64>, n: int) -> nat
    decreases n,
{
    if n <= 0 || ws.len() < n {
        0
    } else {
        popcount_sum(ws, n - 1) + word_ones(ws[n - 1], 64)
    }
}

/// The population counts of the words of a bit container add up to its
/// number of ones.
pub proof fn law_popcount_sum(b: &BitMap)
    requires
        b.wf(),
    ensures
        popcount_sum(b.words(), b.words().len() as int) == ones_of(b@),
{
    b.lemma_words();
    lemma_popcount_sum_prefix(b.words(), b.words().len() as int);
    crate::model::lemma_ones_before_past_end(b.words(), 64 * b.words().len() as int);
    lemma_rank_saturates(b@, 64 * b.words().len() as int);
}

proof fn lemma_popcount_sum_prefix(ws: Seq<u64>, n: int)
    requires
        0 <= n <= ws.len(),
    ensures
        popcount_sum(ws, n) == ones_before(ws, 64 * n),
    decreases n,
{
    if n > 0 {
        lemma_popcount_sum_prefix(ws, n - 1);
        lemma_ones_before_word(ws, n - 1, 64);
    }
}

} // verus!
