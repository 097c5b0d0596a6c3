//! The mathematical model: bits as `Seq<bool>`, rank and select over it, and
//! the link between a sequence of 64-bit words and the bits it packs.

use vstd::prelude::*;

use crate::word::{bit_at, lemma_not_bits, word_ones};

verus! {

/// The number of ones of `s` at positions `0..p`; positions past the end
/// count as zeros, so the rank saturates at the number of ones.
pub open spec fn rank_of(s: Seq<bool>, p: int) -> nat
    decreases p,
{
    if p <= 0 {
        0
    } else {
        rank_of(s, p - 1) + if p - 1 < s.len() && s[p - 1] { 1nat } else { 0nat }
    }
}

/// The number of ones of `s`.
pub open spec fn ones_of(s: Seq<bool>) -> nat {
    rank_of(s, s.len() as int)
}

/// The number of zeros of `s`.
pub open spec fn zeros_of(s: Seq<bool>) -> nat {
    (s.len() - rank_of(s, s.len() as int)) as nat
}

/// `r` is the position of the one of rank `k` (counted from 0) in `s`.
pub open spec fn is_selected(s: Seq<bool>, k: int, r: int) -> bool {
    0 <= r < s.len() && s[r] && rank_of(s, r) == k
}

/// `r` is the position of the zero of rank `k` (counted from 0) in `s`.
pub open spec fn is_zero_selected(s: Seq<bool>, k: int, r: int) -> bool {
    0 <= r < s.len() && !s[r] && r - rank_of(s, r) == k
}

/// `r` is the position of the one of rank `j` among the ones of `s` at or
/// after position `from`.
pub open spec fn is_selected_from(s: Seq<bool>, from: int, j: int, r: int) -> bool {
    from <= r < s.len() && s[r] && rank_of(s, r) - rank_of(s, from) == j
}

/// The bitwise complement of `s`.
pub open spec fn complement(s: Seq<bool>) -> Seq<bool> {
    Seq::new(s.len(), |i: int| !s[i])
}

/// Bit `i` of the words `ws`: bit `i % 64` of word `i / 64`, and false past
/// the last word.
pub open spec fn wbit(ws: Seq<u64>, i: int) -> bool {
    0 <= i && i / 64 < ws.len() && bit_at(ws[i / 64], i % 64)
}

/// The first `len` bits packed in `ws`.
pub open spec fn bits_of(ws: Seq<u64>, len: nat) -> Seq<bool> {
    Seq::new(len, |i: int| wbit(ws, i))
}

/// The number of ones of the words `ws` at positions `0..p`.
pub open spec fn ones_before(ws: Seq<u64>, p: int) -> nat
    decreases p,
{
    if p <= 0 {
        0
    } else {
        ones_before(ws, p - 1) + if wbit(ws, p - 1) { 1nat } else { 0nat }
    }
}

/// The words `ws`, each complemented when `flip` holds.
pub open spec fn flip_words(ws: Seq<u64>, flip: bool) -> Seq<u64> {
    if flip {
        Seq::new(ws.len(), |i: int| !ws[i])
    } else {
        ws
    }
}

/// The rank grows with the position, by at most one per position.
pub proof fn lemma_rank_bounds(s: Seq<bool>, m: int, n: int)
    requires
        m <= n,
    ensures
        rank_of(s, m) <= rank_of(s, n),
        rank_of(s, n) - rank_of(s, m) <= n - m,
        rank_of(s, n) <= if n < 0 { 0 } else { n },
    decreases n - m,
{
    if m < n {
        lemma_rank_bounds(s, m, n - 1);
    } else {
        lemma_rank_nonneg_bound(s, n);
    }
}

proof fn lemma_rank_nonneg_bound(s: Seq<bool>, n: int)
    ensures
        rank_of(s, n) <= if n < 0 { 0 } else { n },
    decreases n,
{
    if n > 0 {
        lemma_rank_nonneg_bound(s, n - 1);
    }
}

/// Past the end of `s` the rank no longer changes.
pub proof fn lemma_rank_saturates(s: Seq<bool>, p: int)
    requires
        p >= s.len(),
    ensures
        rank_of(s, p) == rank_of(s, s.len() as int),
    decreases p - s.len(),
{
    if p > s.len() {
        lemma_rank_saturates(s, p - 1);
    }
}

/// The rank never exceeds the length.
pub proof fn lemma_rank_le_len(s: Seq<bool>, p: int)
    ensures
        rank_of(s, p) <= s.len(),
{
    if p <= 0 {
    } else if p <= s.len() {
        lemma_rank_bounds(s, p, s.len() as int);
        lemma_rank_bounds(s, 0, p);
    } else {
        lemma_rank_saturates(s, p);
        lemma_rank_bounds(s, 0, s.len() as int);
    }
}

/// The rank over a prefix depends only on the bits of that prefix.
pub proof fn lemma_rank_prefix(s: Seq<bool>, t: Seq<bool>, p: int)
    requires
        p <= s.len(),
        p <= t.len(),
        forall|i: int| 0 <= i < p ==> s[i] == t[i],
    ensures
        rank_of(s, p) == rank_of(t, p),
    decreases p,
{
    if p > 0 {
        lemma_rank_prefix(s, t, p - 1);
    }
}

/// A one of rank `k` is unique.
pub proof fn lemma_select_unique(s: Seq<bool>, k: int, r1: int, r2: int)
    requires
        is_selected(s, k, r1),
        is_selected(s, k, r2),
    ensures
        r1 == r2,
{
    if r1 < r2 {
        lemma_rank_bounds(s, r1 + 1, r2);
    } else if r2 < r1 {
        lemma_rank_bounds(s, r2 + 1, r1);
    }
}

/// The zeros of `s` are the ones of its complement.
pub proof fn lemma_rank_complement(s: Seq<bool>, p: int)
    requires
        0 <= p <= s.len(),
    ensures
        rank_of(complement(s), p) == p - rank_of(s, p),
    decreases p,
{
    if p > 0 {
        lemma_rank_complement(s, p - 1);
    }
}

/// The word-level count grows with the position, by at most one per position.
pub proof fn lemma_ones_before_bounds(ws: Seq<u64>, m: int, n: int)
    requires
        m <= n,
    ensures
        ones_before(ws, m) <= ones_before(ws, n),
        ones_before(ws, n) - ones_before(ws, m) <= n - m,
    decreases n - m,
{
    if m < n {
        lemma_ones_before_bounds(ws, m, n - 1);
    }
}

/// Inside word `j`, the count advances by the ones of that word.
pub proof fn lemma_ones_before_word(ws: Seq<u64>, j: int, t: int)
    requires
        0 <= j < ws.len(),
        0 <= t <= 64,
    ensures
        ones_before(ws, 64 * j + t) == ones_before(ws, 64 * j) + word_ones(ws[j], t),
    decreases t,
{
    if t > 0 {
        lemma_ones_before_word(ws, j, t - 1);
        assert((64 * j + t - 1) / 64 == j);
        assert((64 * j + t - 1) % 64 == t - 1);
    }
}

/// Past the last word the count no longer changes.
pub proof fn lemma_ones_before_past_end(ws: Seq<u64>, p: int)
    requires
        p >= 64 * ws.len(),
    ensures
        ones_before(ws, p) == ones_before(ws, 64 * ws.len() as int),
    decreases p - 64 * ws.len(),
{
    if p > 64 * ws.len() {
        lemma_ones_before_past_end(ws, p - 1);
    }
}

/// The rank over the bits packed in `ws` is the word-level count.
pub proof fn lemma_rank_bits_of(ws: Seq<u64>, len: nat, p: int)
    requires
        p <= len,
    ensures
        rank_of(bits_of(ws, len), p) == ones_before(ws, p),
    decreases p,
{
    if p > 0 {
        lemma_rank_bits_of(ws, len, p - 1);
    }
}

/// Complementing every word complements the bits they pack.
pub proof fn lemma_flip_words_complement(ws: Seq<u64>, len: nat)
    requires
        len <= 64 * ws.len(),
    ensures
        bits_of(flip_words(ws, true), len) == complement(bits_of(ws, len)),
        bits_of(flip_words(ws, false), len) == bits_of(ws, len),
{
    let f = flip_words(ws, true);
    assert forall|i: int| 0 <= i < len implies #[trigger] wbit(f, i) == !wbit(ws, i) by {
        lemma_not_bits(ws[i / 64]);
    }
    assert(bits_of(f, len) =~= complement(bits_of(ws, len)));
}

} // verus!
