//! Constant-time rank with blocks of 512 bits over a [`BitMap`].
//!
//! For each block two words are stored side by side: the number of ones
//! before the block, and seven 9-bit counts, the number of ones from the
//! block start to the start of each of its words 1 to 7.

use vstd::prelude::*;

use vstd::arithmetic::div_mod::{lemma_div_is_ordered, lemma_fundamental_div_mod};

use crate::bitmap::BitMap;
use crate::model::{lemma_rank_bounds, lemma_rank_le_len, rank_of};
use crate::traits::{BitCount, BitLength, Rank, RankHinted, RankZero};

verus! {

/// The number of ones from the block start to the start of word `j` (0 to
/// 7) of the block, held by a packed word.
pub open spec fn packed_count(e: u64, j: int) -> int {
    if j <= 0 {
        0
    } else {
        ((e >> (9 * (j - 1)) as u64) & 0x1ffu64) as int
    }
}

/// The packed word of seven 9-bit counts.
pub open spec fn pack9(r: Seq<u64>) -> u64 {
    r[0] | (r[1] << 9u64) | (r[2] << 18u64) | (r[3] << 27u64) | (r[4] << 36u64) | (r[5] << 45u64) | (
    r[6] << 54u64)
}

/// Reading back the counts of a packed word.
proof fn lemma_pack9(r: Seq<u64>)
    requires
        r.len() == 7,
        forall|k: int| 0 <= k < 7 ==> #[trigger] r[k] < 512,
    ensures
        forall|j: int| 1 <= j <= 7 ==> #[trigger] packed_count(pack9(r), j) == r[j - 1],
{
    let (a, b, c, d, e, f, g) = (r[0], r[1], r[2], r[3], r[4], r[5], r[6]);
    let x = pack9(r);
    assert(x & 0x1ffu64 == a && (x >> 9u64) & 0x1ffu64 == b && (x >> 18u64) & 0x1ffu64 == c && (x
        >> 27u64) & 0x1ffu64 == d && (x >> 36u64) & 0x1ffu64 == e && (x >> 45u64) & 0x1ffu64 == f
        && (x >> 54u64) & 0x1ffu64 == g) by (bit_vector)
        requires
            x == a | (b << 9u64) | (c << 18u64) | (d << 27u64) | (e << 36u64) | (f << 45u64) | (g
                << 54u64),
            a < 512,
            b < 512,
            c < 512,
            d < 512,
            e < 512,
            f < 512,
            g < 512,
    ;
    assert((x >> 0u64) == x) by (bit_vector);
}

/// Rank in constant time with blocks of 512 bits.
pub struct Rank9 {
    bits: BitMap,
    counts: Vec<u64>,
}

impl Rank9 {
    /// The number of blocks: one for each position up to the length.
    pub open spec fn num_blocks(&self) -> int {
        self.bits().len() as int / 512 + 1
    }

    /// Builds the counts over `bits`.
    pub fn new(bits: BitMap) -> (r: Self)
        requires
            bits.wf(),
        ensures
            r.wf(),
            r.bits() == bits@,
    {
        let n = bits.len();
        let num_blocks = n / 512 + 1;
        let ghost s = bits@;
        let mut counts: Vec<u64> = Vec::new();
        let mut ones: u64 = 0;
        let mut b: usize = 0;
        while b < num_blocks
            invariant
                bits.wf(),
                s == bits@,
                s.len() == n,
                num_blocks == n / 512 + 1,
                b <= num_blocks,
                counts@.len() == 2 * b,
                ones == rank_of(s, 512 * b),
                forall|i: int| 0 <= i < b ==> #[trigger] counts@[2 * i] == rank_of(s, 512 * i),
                forall|i: int, j: int| 0 <= i < b && 0 <= j < 8 ==> #[trigger] packed_count(counts@[2 * i + 1], j)
                    == rank_of(s, 512 * i + 64 * j) - rank_of(s, 512 * i),
            decreases num_blocks - b,
        {
            let w = b * 8;
            let c0 = bits.word_range_ones(w, w + 1);
            let c1 = bits.word_range_ones(w + 1, w + 2);
            let c2 = bits.word_range_ones(w + 2, w + 3);
            let c3 = bits.word_range_ones(w + 3, w + 4);
            let c4 = bits.word_range_ones(w + 4, w + 5);
            let c5 = bits.word_range_ones(w + 5, w + 6);
            let c6 = bits.word_range_ones(w + 6, w + 7);
            let c7 = bits.word_range_ones(w + 7, w + 8);
            let ghost base = 512 * b;
            proof {
                lemma_rank_bounds(s, base, base + 64);
                lemma_rank_bounds(s, base + 64, base + 128);
                lemma_rank_bounds(s, base + 128, base + 192);
                lemma_rank_bounds(s, base + 192, base + 256);
                lemma_rank_bounds(s, base + 256, base + 320);
                lemma_rank_bounds(s, base + 320, base + 384);
                lemma_rank_bounds(s, base + 384, base + 448);
                lemma_rank_bounds(s, base + 448, base + 512);
                lemma_rank_le_len(s, base + 512);
            }
            let r1 = c0 as u64;
            let r2 = r1 + c1 as u64;
            let r3 = r2 + c2 as u64;
            let r4 = r3 + c3 as u64;
            let r5 = r4 + c4 as u64;
            let r6 = r5 + c5 as u64;
            let r7 = r6 + c6 as u64;
            let packed = r1 | (r2 << 9u64) | (r3 << 18u64) | (r4 << 27u64) | (r5 << 36u64) | (r6
                << 45u64) | (r7 << 54u64);
            proof {
                let rs = seq![r1, r2, r3, r4, r5, r6, r7];
                lemma_pack9(rs);
                assert(packed == pack9(rs));
                assert forall|j: int| 0 <= j < 8 implies #[trigger] packed_count(packed, j) == rank_of(
                    s,
                    base + 64 * j,
                ) - rank_of(s, base) by {
                    if j > 0 {
                        assert(packed_count(pack9(rs), j) == rs[j - 1]);
                    }
                }
            }
            counts.push(ones);
            counts.push(packed);
            ones = ones + r7 + c7 as u64;
            b += 1;
        }
        Rank9 { bits, counts }
    }

    /// The underlying bits.
    pub fn bit_map(&self) -> (r: &BitMap)
        requires
            self.wf(),
        ensures
            r.wf(),
            r@ == self.bits(),
    {
        &self.bits
    }

    /// The number of ones before block `b`.
    pub fn block_count(&self, b: usize) -> (r: u64)
        requires
            self.wf(),
            b < self.num_blocks(),
        ensures
            r == rank_of(self.bits(), 512 * b),
    {
        let num_counts = self.counts.len();
        proof {
            assert(2 * b + 1 < num_counts);
        }
        self.counts[2 * b]
    }

    /// The number of ones from the start of block `b` to the start of its
    /// word `j` (0 to 7).
    pub fn word_count(&self, b: usize, j: usize) -> (r: u64)
        requires
            self.wf(),
            b < self.num_blocks(),
            j < 8,
        ensures
            r == rank_of(self.bits(), 512 * b + 64 * j) - rank_of(self.bits(), 512 * b),
    {
        let num_counts = self.counts.len();
        proof {
            assert(2 * b + 1 < num_counts);
        }
        let e = self.counts[2 * b + 1];
        proof {
            assert(packed_count(e, j as int) == rank_of(self.bits(), 512 * b + 64 * j) - rank_of(self.bits(), 512 * b));
        }
        if j == 0 {
            0
        } else {
            (e >> (9 * (j - 1)) as u64) & 0x1ffu64
        }
    }
}

impl BitLength for Rank9 {
    closed spec fn bits(&self) -> Seq<bool> {
        self.bits@
    }

    closed spec fn wf(&self) -> bool {
        let s = self.bits@;
        &&& self.bits.wf()
        &&& self.counts@.len() == 2 * (s.len() as int / 512 + 1)
        &&& forall|i: int| 0 <= i < s.len() as int / 512 + 1 ==> #[trigger] self.counts@[2 * i] == rank_of(s, 512 * i)
        &&& forall|i: int, j: int| 0 <= i < s.len() as int / 512 + 1 && 0 <= j < 8 ==> #[trigger] packed_count(
            self.counts@[2 * i + 1],
            j,
        ) == rank_of(s, 512 * i + 64 * j) - rank_of(s, 512 * i)
    }

    fn len(&self) -> (r: usize) {
        self.bits.len()
    }
}

impl BitCount for Rank9 {
    fn count_ones(&self) -> (r: usize) {
        self.bits.count_ones()
    }
}

impl Rank for Rank9 {
    fn rank_unchecked(&self, pos: usize) -> (r: usize) {
        let block = pos / 512;
        let word = pos / 64;
        let j = word - block * 8;
        proof {
            lemma_div_is_ordered(pos as int, self.bits().len() as int, 512);
            lemma_fundamental_div_mod(pos as int, 512);
            lemma_fundamental_div_mod(pos as int, 64);
            lemma_rank_le_len(self.bits(), 512 * block + 64 * j);
            lemma_rank_bounds(self.bits(), 512 * block, 512 * block + 64 * j);
        }
        let hint_rank = self.block_count(block) + self.word_count(block, j);
        self.bits.rank_hinted_unchecked(pos, word, hint_rank as usize)
    }
}

impl RankZero for Rank9 {

}

} // verus!
