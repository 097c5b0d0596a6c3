//! Operations on a single 64-bit word: bit access, popcount, in-word select.

use vstd::prelude::*;

verus! {

/// Whether bit `i` of `w` is set; bit 0 is the least significant one.
pub open spec fn bit_at(w: u64, i: int) -> bool {
    0 <= i < 64 && (w >> (i as u64)) & 1u64 == 1u64
}

/// The number of set bits of `w` among positions `0..n`.
pub open spec fn word_ones(w: u64, n: int) -> nat
    decreases n,
{
    if n <= 0 {
        0
    } else {
        word_ones(w, n - 1) + if bit_at(w, n - 1) { 1nat } else { 0nat }
    }
}

/// Relies on `u64::count_ones`: the number of set bits of the word.
#[verifier::external_body]
pub(crate) fn popcount(w: u64) -> (r: usize)
    ensures
        r == word_ones(w, 64),
{
    w.count_ones() as usize
}

/// Relies on `common_traits::SelectInWord::select_in_word` for `u64`: the
/// position of the set bit of the given rank (counted from 0) in the word.
#[verifier::external_body]
pub(crate) fn select_in_word(w: u64, rank: usize) -> (r: usize)
    requires
        rank < word_ones(w, 64),
    ensures
        r < 64,
        bit_at(w, r as int),
        word_ones(w, r as int) == rank,
{
    common_traits::SelectInWord::select_in_word(&w, rank)
}

/// At most `n` bits lie below position `n`, and the count grows with `n`.
pub proof fn lemma_word_ones_bounds(w: u64, m: int, n: int)
    requires
        0 <= m <= n,
    ensures
        word_ones(w, m) <= word_ones(w, n),
        word_ones(w, n) - word_ones(w, m) <= n - m,
    decreases n - m,
{
    if m < n {
        lemma_word_ones_bounds(w, m, n - 1);
    }
}

/// A word `m` that keeps the bits of `w` in `lo..hi` and clears the others
/// counts, below `n`, the bits of `w` in `lo..min(n, hi)`.
pub proof fn lemma_word_ones_window(w: u64, m: u64, lo: int, hi: int, n: int)
    requires
        0 <= lo <= hi <= 64,
        0 <= n <= 64,
        forall|i: int| 0 <= i < 64 ==> #[trigger] bit_at(m, i) == (lo <= i < hi && bit_at(w, i)),
    ensures
        word_ones(m, n) == if n <= lo {
            0
        } else if n <= hi {
            word_ones(w, n) - word_ones(w, lo)
        } else {
            word_ones(w, hi) - word_ones(w, lo)
        },
    decreases n,
{
    if n > 0 {
        lemma_word_ones_window(w, m, lo, hi, n - 1);
        if lo <= n {
            lemma_word_ones_bounds(w, lo, n);
        }
        lemma_word_ones_bounds(w, lo, hi);
    }
}

/// Clearing the bits below position `b`.
pub proof fn lemma_clear_low_bits(w: u64, b: u64)
    requires
        b < 64,
    ensures
        forall|i: int| 0 <= i < 64 ==> #[trigger] bit_at((w >> b) << b, i) == (b <= i && bit_at(w, i)),
{
    assert forall|i: int| 0 <= i < 64 implies #[trigger] bit_at((w >> b) << b, i) == (b <= i && bit_at(w, i)) by {
        let j = i as u64;
        assert((((w >> b) << b) >> j) & 1u64 == 1u64 <==> (b <= j && (w >> j) & 1u64 == 1u64)) by (bit_vector)
            requires
                b < 64,
                j < 64,
        ;
    }
}

/// Keeping only the bits below position `b`.
pub proof fn lemma_keep_low_bits(w: u64, b: u64)
    requires
        0 < b < 64,
    ensures
        forall|i: int| 0 <= i < 64 ==> #[trigger] bit_at(w & ((1u64 << b) - 1u64) as u64, i) == (i < b && bit_at(w, i)),
{
    assert forall|i: int| 0 <= i < 64 implies #[trigger] bit_at(w & ((1u64 << b) - 1u64) as u64, i) == (i < b && bit_at(w, i)) by {
        let j = i as u64;
        assert(((w & ((1u64 << b) - 1u64) as u64) >> j) & 1u64 == 1u64 <==> (j < b && (w >> j) & 1u64 == 1u64)) by (bit_vector)
            requires
                0 < b < 64,
                j < 64,
        ;
    }
}

/// The complement of a word has its bits flipped.
pub proof fn lemma_not_bits(w: u64)
    ensures
        forall|i: int| 0 <= i < 64 ==> #[trigger] bit_at(!w, i) == !bit_at(w, i),
{
    assert forall|i: int| 0 <= i < 64 implies #[trigger] bit_at(!w, i) == !bit_at(w, i) by {
        let j = i as u64;
        assert(((!w) >> j) & 1u64 == 1u64 <==> !((w >> j) & 1u64 == 1u64)) by (bit_vector)
            requires
                j < 64,
        ;
    }
}

/// The complement of a word has, below `n`, the zeros of the word as ones.
pub proof fn lemma_word_ones_not(w: u64, n: int)
    requires
        0 <= n <= 64,
    ensures
        word_ones(!w, n) == n - word_ones(w, n),
    decreases n,
{
    lemma_not_bits(w);
    if n > 0 {
        lemma_word_ones_not(w, n - 1);
        lemma_word_ones_bounds(w, n - 1, n);
    }
}

/// A word with no bits set counts no ones.
pub proof fn lemma_word_ones_zero(n: int)
    ensures
        word_ones(0u64, n) == 0,
    decreases n,
{
    if n > 0 {
        lemma_word_ones_zero(n - 1);
        let j = (n - 1) as u64;
        assert((0u64 >> j) & 1u64 == 0u64) by (bit_vector);
    }
}

} // verus!
