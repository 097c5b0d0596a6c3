//! A packed bit container with a cached count of ones.

use vstd::prelude::*;

use crate::model::{
    bits_of, complement, flip_words, is_selected_from,
    lemma_flip_words_complement, lemma_ones_before_bounds, lemma_ones_before_past_end,
    lemma_ones_before_word, lemma_rank_bits_of, lemma_rank_bounds, lemma_rank_complement, lemma_rank_saturates,
    ones_before, ones_of, rank_of, wbit,
};
use crate::traits::{
    BitCount, BitLength, RankHinted, Select, SelectHinted, SelectZero, SelectZeroHinted,
};
use crate::word::{
    bit_at, lemma_clear_low_bits, lemma_keep_low_bits,
    lemma_word_ones_window, popcount, select_in_word, word_ones,
};

verus! {

/// The number of 64-bit words that hold `len` bits.
pub open spec fn words_for(len: nat) -> nat {
    len / 64 + if len % 64 == 0 { 0nat } else { 1nat }
}

/// A sequence of bits packed into 64-bit words: bit `i` is bit `i % 64` of
/// word `i / 64`. The number of ones is kept up to date.
#[derive(Clone, Debug)]
pub struct BitMap {
    data: Vec<u64>,
    len: usize,
    number_of_ones: usize,
}

impl View for BitMap {
    type V = Seq<bool>;

    closed spec fn view(&self) -> Seq<bool> {
        bits_of(self.data@, self.len as nat)
    }
}

impl BitMap {
    /// The words that hold the bits.
    pub closed spec fn words(&self) -> Seq<u64> {
        self.data@
    }

    /// Returns a container of `len` zeros.
    pub fn new(len: usize) -> (r: BitMap)
        ensures
            r.wf(),
            r@ == Seq::new(len as nat, |i: int| false),
    {
        let n_of_words = len / 64 + if len % 64 == 0 { 0 } else { 1 };
        let mut data: Vec<u64> = Vec::new();
        let mut i: usize = 0;
        while i < n_of_words
            invariant
                i <= n_of_words,
                data@.len() == i,
                forall|j: int| 0 <= j < i ==> data@[j] == 0u64,
            decreases n_of_words - i,
        {
            data.push(0);
            i += 1;
        }
        let r = BitMap { data, len, number_of_ones: 0 };
        proof {
            assert forall|j: int| 0 <= j < 64 implies !#[trigger] bit_at(0u64, j) by {
                let k = j as u64;
                assert((0u64 >> k) & 1u64 == 0u64) by (bit_vector);
            }
            assert forall|p: int| #![trigger wbit(r.data@, p)] !wbit(r.data@, p) by {
                if 0 <= p && p / 64 < r.data@.len() {
                    assert(!bit_at(0u64, p % 64));
                }
            }
            lemma_no_ones(r.data@, len as int);
            assert(r@ =~= Seq::new(len as nat, |i: int| false));
        }
        r
    }

    /// Builds a container from its words, its length and its number of ones,
    /// which must agree: enough words for `len` bits, no ones past `len`, and
    /// `number_of_ones` ones in all.
    pub fn from_raw_parts(data: Vec<u64>, len: usize, number_of_ones: usize) -> (r: BitMap)
        requires
            data@.len() == words_for(len as nat),
            forall|i: int| len <= i ==> !#[trigger] wbit(data@, i),
            number_of_ones == ones_before(data@, len as int),
        ensures
            r.wf(),
            r.words() == data@,
            r@ == bits_of(data@, len as nat),
    {
        BitMap { data, len, number_of_ones }
    }

    /// The words that hold the bits.
    pub fn as_ref(&self) -> (r: &[u64])
        ensures
            r@ == self.words(),
    {
        self.data.as_slice()
    }

    /// How the words hold the bits: bit `i` is bit `i % 64` of word `i / 64`,
    /// the words hold no ones past the length, and the rank is the count of
    /// ones of the words.
    pub proof fn lemma_words(&self)
        requires
            self.wf(),
        ensures
            self@.len() <= usize::MAX,
            self.words().len() == words_for(self@.len()),
            forall|i: int| 0 <= i < self@.len() ==> #[trigger] self@[i] == wbit(self.words(), i),
            forall|i: int| self@.len() <= i ==> !#[trigger] wbit(self.words(), i),
            forall|p: int| #[trigger] rank_of(self@, p) == ones_before(self.words(), p),
    {
        assert forall|p: int| #[trigger] rank_of(self@, p) == ones_before(self.words(), p) by {
            self.lemma_rank_words(p);
        }
    }

    /// Returns the bit at position `index`.
    pub fn get(&self, index: usize) -> (r: bool)
        requires
            self.wf(),
            index < self@.len(),
        ensures
            r == self@[index as int],
    {
        let word = self.data[index / 64];
        (word >> (index % 64) as u64) & 1 == 1
    }

    /// Sets the bit at position `index` to `value`, keeping the count of ones.
    pub fn set(&mut self, index: usize, value: bool)
        requires
            old(self).wf(),
            index < old(self)@.len(),
        ensures
            final(self).wf(),
            final(self)@ == old(self)@.update(index as int, value),
    {
        let word_index = index / 64;
        let bit_index = (index % 64) as u64;
        let word = self.data[word_index];
        let v: u64 = if value { 1 } else { 0 };
        let new_word = (word & !(1u64 << bit_index)) | (v << bit_index);
        let ghost old_data = self.data@;
        proof {
            assert forall|j: int| 0 <= j < 64 implies #[trigger] bit_at(new_word, j) == if j
                == bit_index {
                value
            } else {
                bit_at(word, j)
            } by {
                let k = j as u64;
                assert((((word & !(1u64 << bit_index)) | (v << bit_index)) >> k) & 1u64 == 1u64
                    <==> if k == bit_index {
                    v == 1u64
                } else {
                    (word >> k) & 1u64 == 1u64
                }) by (bit_vector)
                    requires
                        bit_index < 64,
                        k < 64,
                        v <= 1,
                ;
            }
            assert(new_word > word <==> (v == 1u64 && (word >> bit_index) & 1u64 == 0u64))
                by (bit_vector)
                requires
                    new_word == (word & !(1u64 << bit_index)) | (v << bit_index),
                    bit_index < 64,
                    v <= 1,
            ;
            assert(new_word < word <==> (v == 0u64 && (word >> bit_index) & 1u64 == 1u64))
                by (bit_vector)
                requires
                    new_word == (word & !(1u64 << bit_index)) | (v << bit_index),
                    bit_index < 64,
                    v <= 1,
            ;
        }
        self.data.set(word_index, new_word);
        proof {
            let nd = self.data@;
            assert forall|p: int| #![trigger wbit(nd, p)] wbit(nd, p) == if p == index {
                value
            } else {
                wbit(old_data, p)
            } by {
                if 0 <= p && p / 64 == word_index {
                    assert(p % 64 == bit_index <==> p == index);
                }
            }
            lemma_ones_before_update(old_data, nd, index as int, self.len as int);
            lemma_ones_before_bounds(old_data, 0, self.len as int);
            lemma_ones_before_bounds(nd, 0, self.len as int);
            assert(self@ =~= old(self)@.update(index as int, value));
        }
        if new_word > word {
            self.number_of_ones += 1;
        }
        if new_word < word {
            self.number_of_ones -= 1;
        }
    }

    /// The words, each complemented when `flip` holds.
    fn word(&self, i: usize, flip: bool) -> (r: u64)
        requires
            i < self.data@.len(),
        ensures
            r == flip_words(self.data@, flip)[i as int],
    {
        if flip {
            !self.data[i]
        } else {
            self.data[i]
        }
    }

    /// Finds the one of rank `residual` at or after `pos` in the bits, or in
    /// their complement when `flip` holds: scans word by word from `pos`,
    /// then selects inside the word that holds it.
    fn scan(&self, pos: usize, residual: usize, flip: bool) -> (r: Option<usize>)
        requires
            self.wf(),
            pos <= self@.len(),
        ensures
            ({
                let s = bits_of(flip_words(self.words(), flip), self@.len());
                &&& r is Some <==> residual < ones_of(s) - rank_of(s, pos as int)
                &&& r matches Some(p) ==> is_selected_from(s, pos as int, residual as int, p as int)
            }),
    {
        let ghost g = flip_words(self.data@, flip);
        let ghost n = self.data@.len() as int;
        let ghost len = self.len as int;
        let ghost s = bits_of(g, self.len as nat);
        proof {
            lemma_rank_bits_of(g, self.len as nat, pos as int);
            lemma_rank_bits_of(g, self.len as nat, len);
            lemma_ones_before_bounds(g, pos as int, len);
        }
        let mut word_index = pos / 64;
        let bit_index = (pos % 64) as u64;
        if word_index >= self.data.len() {
            return None;
        }
        let mut left = residual;
        let mut word = (self.word(word_index, flip) >> bit_index) << bit_index;
        let ghost mut lo: int = bit_index as int;
        loop
            invariant
                self.wf(),
                pos <= len,
                len == self.len,
                n == self.data@.len(),
                g == flip_words(self.data@, flip),
                g.len() == n,
                s == bits_of(g, self.len as nat),
                ones_of(s) == ones_before(g, len),
                rank_of(s, pos as int) == ones_before(g, pos as int),
                ones_before(g, pos as int) <= ones_before(g, len),
                word_index < n,
                0 <= lo < 64,
                word == (g[word_index as int] >> (lo as u64)) << (lo as u64),
                64 * word_index + lo >= pos,
                ones_before(g, 64 * word_index + lo) + left == ones_before(g, pos as int)
                    + residual,
            ensures
                left < word_ones(word, 64),
            decreases n - word_index,
        {
            let bit_count = popcount(word);
            proof {
                let w = g[word_index as int];
                lemma_clear_low_bits(w, lo as u64);
                lemma_word_ones_window(w, word, lo, 64, 64);
                lemma_ones_before_word(g, word_index as int, lo);
                lemma_ones_before_word(g, word_index as int, 64);
            }
            if left < bit_count {
                break;
            }
            left -= bit_count;
            word_index += 1;
            if word_index >= self.data.len() {
                proof {
                    assert(ones_before(g, 64 * n) + left == ones_before(g, pos as int) + residual);
                    assert(len <= 64 * n);
                    lemma_ones_before_bounds(g, len, 64 * n);
                }
                return None;
            }
            word = self.word(word_index, flip);
            proof {
                lo = 0;
                assert((word >> 0u64) << 0u64 == word) by (bit_vector);
            }
        }
        let off = select_in_word(word, left);
        let base = word_index * 64;
        proof {
            let w = g[word_index as int];
            lemma_clear_low_bits(w, lo as u64);
            lemma_word_ones_window(w, word, lo, 64, off as int);
            lemma_ones_before_word(g, word_index as int, off as int);
            lemma_ones_before_word(g, word_index as int, lo);
            assert(off >= lo);
            let p = base + off;
            assert(p / 64 == word_index);
            assert(p % 64 == off);
            assert(wbit(g, p));
            assert(ones_before(g, p) == ones_before(g, pos as int) + residual);
        }
        if off < self.len - base {
            proof {
                let p = base + off;
                lemma_rank_bits_of(g, self.len as nat, p);
                lemma_rank_bits_of(g, self.len as nat, p + 1);
                lemma_rank_bounds(s, p + 1, len);
            }
            Some(base + off)
        } else {
            proof {
                lemma_ones_before_bounds(g, len, base + off);
            }
            None
        }
    }

    /// The number of ones in the words `from..to`; words past the end count
    /// as zeros.
    pub(crate) fn word_range_ones(&self, from: usize, to: usize) -> (r: usize)
        requires
            self.wf(),
            from <= to,
        ensures
            r == rank_of(self@, 64 * to) - rank_of(self@, 64 * from),
    {
        let ghost ws = self.data@;
        let end = if to < self.data.len() { to } else { self.data.len() };
        let mut i = from;
        let mut count: usize = 0;
        proof {
            self.lemma_rank_words(64 * from);
            self.lemma_rank_words(64 * to);
            lemma_ones_before_bounds(ws, 64 * from, 64 * to);
        }
        if from >= end {
            proof {
                if from < to {
                    lemma_ones_before_past_end(ws, 64 * from);
                    lemma_ones_before_past_end(ws, 64 * to);
                }
            }
            return 0;
        }
        while i < end
            invariant
                self.wf(),
                ws == self.data@,
                from <= i <= end,
                end <= to,
                end <= ws.len(),
                count == ones_before(ws, 64 * i) - ones_before(ws, 64 * from),
                ones_before(ws, 64 * from) <= ones_before(ws, 64 * i),
                ones_before(ws, 64 * i) - ones_before(ws, 64 * from) <= ones_before(ws, 64 * ws.len() as int),
                ones_before(ws, 64 * ws.len() as int) == ones_before(ws, self.len as int),
                ones_before(ws, self.len as int) <= self.len,
            decreases end - i,
        {
            let c = popcount(self.data[i]);
            proof {
                lemma_ones_before_word(ws, i as int, 64);
                lemma_ones_before_bounds(ws, 64 * from, 64 * i + 64);
                lemma_ones_before_bounds(ws, 64 * i + 64, 64 * ws.len() as int);
            }
            count += c;
            i += 1;
        }
        proof {
            if end < to {
                lemma_ones_before_past_end(ws, 64 * to);
            }
        }
        count
    }

    /// The rank over the bits is the word-level count, past the length too.
    proof fn lemma_rank_words(&self, p: int)
        requires
            self.wf(),
        ensures
            rank_of(self@, p) == ones_before(self.data@, p),
            ones_before(self.data@, 64 * self.data@.len() as int) == ones_before(self.data@, self.len as int),
            ones_before(self.data@, self.len as int) <= self.len,
    {
        let len = self.len as int;
        lemma_ones_before_tail(self.data@, len, 64 * self.data@.len() as int);
        lemma_ones_before_bounds(self.data@, 0, len);
        if p <= len {
            lemma_rank_bits_of(self.data@, self.len as nat, p);
        } else {
            lemma_rank_bits_of(self.data@, self.len as nat, len);
            lemma_rank_saturates(self@, p);
            lemma_ones_before_tail(self.data@, len, p);
        }
    }

    /// The number of ones from the start of word `word_from` up to `pos`.
    fn ones_from_word(&self, word_from: usize, pos: usize) -> (r: usize)
        requires
            self.wf(),
            64 * word_from <= pos <= self@.len(),
        ensures
            r == ones_before(self.words(), pos as int) - ones_before(
                self.words(),
                64 * word_from,
            ),
    {
        let ghost ws = self.data@;
        let end = pos / 64;
        let mut i = word_from;
        let mut count: usize = 0;
        proof {
            lemma_ones_before_bounds(ws, 64 * word_from, pos as int);
        }
        while i < end
            invariant
                self.wf(),
                ws == self.data@,
                word_from <= i <= end,
                end == pos / 64,
                pos <= self.len,
                64 * word_from <= pos,
                count == ones_before(ws, 64 * i) - ones_before(ws, 64 * word_from),
                ones_before(ws, 64 * word_from) <= ones_before(ws, 64 * i),
                ones_before(ws, 64 * i) - ones_before(ws, 64 * word_from) <= 64 * i - 64 * word_from,
            decreases end - i,
        {
            let c = popcount(self.data[i]);
            proof {
                lemma_ones_before_word(ws, i as int, 64);
                lemma_ones_before_bounds(ws, 64 * word_from, 64 * i + 64);
            }
            count += c;
            i += 1;
        }
        let rem = (pos % 64) as u64;
        if rem > 0 {
            let w = self.data[end];
            assert((1u64 << rem) >= 1u64) by (bit_vector)
                requires
                    rem < 64,
            ;
            let c = popcount(w & ((1u64 << rem) - 1u64) as u64);
            proof {
                lemma_keep_low_bits(w, rem);
                lemma_word_ones_window(w, w & ((1u64 << rem) - 1u64) as u64, 0, rem as int, 64);
                lemma_ones_before_word(ws, end as int, rem as int);
                lemma_ones_before_bounds(ws, 64 * word_from, pos as int);
            }
            count += c;
        }
        count
    }
}

/// Words with no bit set hold no ones.
proof fn lemma_no_ones(ws: Seq<u64>, p: int)
    requires
        forall|i: int| !#[trigger] wbit(ws, i),
    ensures
        ones_before(ws, p) == 0,
    decreases p,
{
    if p > 0 {
        lemma_no_ones(ws, p - 1);
    }
}

/// Changing the bit at `index` changes the count past it by the difference.
proof fn lemma_ones_before_update(a: Seq<u64>, b: Seq<u64>, index: int, p: int)
    requires
        0 <= index,
        forall|i: int| #![trigger wbit(b, i)] wbit(b, i) == if i == index {
            wbit(b, index)
        } else {
            wbit(a, i)
        },
    ensures
        p <= index ==> ones_before(b, p) == ones_before(a, p),
        p > index ==> ones_before(b, p) + (if wbit(a, index) { 1int } else { 0 })
            == ones_before(a, p) + (if wbit(b, index) { 1int } else { 0 }),
    decreases p,
{
    if p > 0 {
        lemma_ones_before_update(a, b, index, p - 1);
    }
}

/// Past `len` the words hold no ones, so the count stays at its value at `len`.
proof fn lemma_ones_before_tail(ws: Seq<u64>, len: int, p: int)
    requires
        0 <= len <= p,
        forall|i: int| len <= i ==> !#[trigger] wbit(ws, i),
    ensures
        ones_before(ws, p) == ones_before(ws, len),
    decreases p - len,
{
    if p > len {
        lemma_ones_before_tail(ws, len, p - 1);
    }
}

impl BitLength for BitMap {
    open spec fn bits(&self) -> Seq<bool> {
        self@
    }

    closed spec fn wf(&self) -> bool {
        &&& self.data@.len() == words_for(self.len as nat)
        &&& self.number_of_ones == ones_before(self.data@, self.len as int)
        &&& forall|i: int| self.len <= i ==> !#[trigger] wbit(self.data@, i)
    }

    fn len(&self) -> (r: usize) {
        self.len
    }
}

impl BitCount for BitMap {
    fn count_ones(&self) -> (r: usize) {
        proof {
            lemma_rank_bits_of(self.data@, self.len as nat, self.len as int);
        }
        self.number_of_ones
    }
}

impl SelectHinted for BitMap {
    fn select_hinted_unchecked(&self, rank: usize, hint_pos: usize, hint_rank: usize) -> (r: usize) {
        proof {
            lemma_flip_words_complement(self.data@, self.len as nat);
        }
        let r = self.scan(hint_pos, rank - hint_rank, false);
        r.unwrap()
    }

    fn select_hinted(&self, rank: usize, hint_pos: usize, hint_rank: usize) -> (r: Option<usize>) {
        proof {
            lemma_flip_words_complement(self.data@, self.len as nat);
        }
        if hint_pos > self.len || hint_rank > rank {
            return None;
        }
        self.scan(hint_pos, rank - hint_rank, false)
    }
}

impl Select for BitMap {
    fn select_unchecked(&self, rank: usize) -> (r: usize) {
        self.select_hinted_unchecked(rank, 0, 0)
    }
}

impl SelectZeroHinted for BitMap {
    fn select_zero_hinted_unchecked(&self, rank: usize, hint_pos: usize, hint_rank: usize) -> (r: usize) {
        proof {
            lemma_flip_words_complement(self.data@, self.len as nat);
            lemma_rank_complement(self@, hint_pos as int);
            lemma_rank_complement(self@, self.len as int);
        }
        let r = self.scan(hint_pos, rank - hint_rank, true).unwrap();
        proof {
            lemma_rank_complement(self@, r as int);
        }
        r
    }

    fn select_zero_hinted(&self, rank: usize, hint_pos: usize, hint_rank: usize) -> (r: Option<usize>) {
        proof {
            lemma_flip_words_complement(self.data@, self.len as nat);
            lemma_rank_complement(self@, self.len as int);
        }
        if hint_pos > self.len || hint_rank > rank {
            return None;
        }
        proof {
            lemma_rank_complement(self@, hint_pos as int);
        }
        self.scan(hint_pos, rank - hint_rank, true)
    }
}

impl SelectZero for BitMap {
    fn select_zero_unchecked(&self, rank: usize) -> (r: usize) {
        self.select_zero_hinted_unchecked(rank, 0, 0)
    }
}

impl RankHinted<64> for BitMap {
    fn rank_hinted_unchecked(&self, pos: usize, hint_pos: usize, hint_rank: usize) -> (r: usize) {
        proof {
            lemma_rank_bits_of(self.data@, self.len as nat, pos as int);
            lemma_rank_bits_of(self.data@, self.len as nat, 64 * hint_pos);
            lemma_ones_before_bounds(self.data@, 0, pos as int);
        }
        hint_rank + self.ones_from_word(hint_pos, pos)
    }

    fn rank_hinted(&self, pos: usize, hint_pos: usize, hint_rank: usize) -> (r: Option<usize>) {
        if pos > self.len || hint_pos > pos / 64 {
            return None;
        }
        proof {
            lemma_rank_bits_of(self.data@, self.len as nat, pos as int);
            lemma_rank_bits_of(self.data@, self.len as nat, 64 * hint_pos);
        }
        let count = self.ones_from_word(hint_pos, pos);
        if hint_rank <= usize::MAX - count {
            Some(hint_rank + count)
        } else {
            None
        }
    }
}

} // verus!
