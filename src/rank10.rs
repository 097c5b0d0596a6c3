//! Constant-time rank through a hierarchy of counters over a [`BitMap`].
//!
//! Upper blocks of 2^32 bits store the absolute number of ones before them.
//! Lower blocks of 256, 512 or 1024 bits store, in one 64-bit entry, the
//! number of ones from the start of their upper block (32 bits) and the
//! cumulative number of ones of their first three basic blocks, a quarter of
//! a lower block each (10 bits apiece).

use vstd::prelude::*;

use vstd::arithmetic::div_mod::{
    lemma_div_is_ordered, lemma_fundamental_div_mod, lemma_fundamental_div_mod_converse,
};

use crate::bitmap::BitMap;
use crate::model::{lemma_rank_bounds, lemma_rank_le_len, rank_of};
use crate::traits::{BitCount, BitLength, Rank, RankHinted, RankZero};

verus! {

/// The number of bits of an upper block.
pub open spec fn upper_block_size() -> int {
    0x1_0000_0000
}

/// The number of bits of a lower block, for a base-2 logarithm of 8, 9 or 10.
pub open spec fn lower_block_size(log2: usize) -> int {
    if log2 == 8 {
        256
    } else if log2 == 9 {
        512
    } else {
        1024
    }
}

/// The count of ones from the start of the upper block, held by an entry.
pub open spec fn entry_absolute(e: u64) -> int {
    (e & 0xffff_ffffu64) as int
}

/// The count of ones of the first `k` basic blocks (1 to 3), held by an entry.
pub open spec fn entry_basic(e: u64, k: int) -> int {
    if k == 1 {
        ((e >> 32u64) & 0x3ffu64) as int
    } else if k == 2 {
        ((e >> 42u64) & 0x3ffu64) as int
    } else {
        ((e >> 52u64) & 0x3ffu64) as int
    }
}

/// Packing a relative count and three basic counts into an entry.
proof fn lemma_pack_entry(a: u64, sum1: u64, sum2: u64, sum3: u64)
    requires
        a < 0x1_0000_0000,
        sum1 < 1024,
        sum2 < 1024,
        sum3 < 1024,
    ensures
        entry_absolute(a | (sum1 << 32u64) | (sum2 << 42u64) | (sum3 << 52u64)) == a,
        entry_basic(a | (sum1 << 32u64) | (sum2 << 42u64) | (sum3 << 52u64), 1) == sum1,
        entry_basic(a | (sum1 << 32u64) | (sum2 << 42u64) | (sum3 << 52u64), 2) == sum2,
        entry_basic(a | (sum1 << 32u64) | (sum2 << 42u64) | (sum3 << 52u64), 3) == sum3,
{
    let e = a | (sum1 << 32u64) | (sum2 << 42u64) | (sum3 << 52u64);
    assert(e & 0xffff_ffffu64 == a && (e >> 32u64) & 0x3ffu64 == sum1 && (e >> 42u64) & 0x3ffu64
        == sum2 && (e >> 52u64) & 0x3ffu64 == sum3) by (bit_vector)
        requires
            e == a | (sum1 << 32u64) | (sum2 << 42u64) | (sum3 << 52u64),
            a < 0x1_0000_0000,
            sum1 < 1024,
            sum2 < 1024,
            sum3 < 1024,
    ;
}

/// Positions of lower block `j`, of its basic blocks and of its upper block.
proof fn lemma_block_arith(l: int, j: int)
    requires
        l == 256 || l == 512 || l == 1024,
        0 <= j,
    ensures
        64 * (j * (l / 64)) == j * l,
        forall|k: int| 0 <= k <= 4 ==> #[trigger] (64 * (j * (l / 64) + k * (l / 256))) == j * l + k * (l / 4),
        j * l + 4 * (l / 4) == (j + 1) * l,
        j * l <= (j + 1) * l,
        j == 0 ==> j % (upper_block_size() / l) == 0 && j / (upper_block_size() / l) == 0,
        0 <= j * l - (j / (upper_block_size() / l)) * (upper_block_size() / l) * l < upper_block_size(),
        j % (upper_block_size() / l) == 0 ==> (j / (upper_block_size() / l)) * (
        upper_block_size() / l) == j,
        j > 0 && j % (upper_block_size() / l) == 0 ==> j / (upper_block_size() / l) == (j - 1) / (
        upper_block_size() / l) + 1,
        j > 0 && j % (upper_block_size() / l) != 0 ==> j / (upper_block_size() / l) == (j - 1) / (
        upper_block_size() / l),
{
    let d = upper_block_size() / l;
    let m = l / 64;
    let w = l / 256;
    let b = l / 4;
    assert(l == 64 * m && b == 64 * w && l == 4 * b && d * l == upper_block_size() && d > 0);
    assert(64 * (j * m) == j * l) by (nonlinear_arith)
        requires
            l == 64 * m,
    ;
    assert forall|k: int| 0 <= k <= 4 implies #[trigger] (64 * (j * m + k * w)) == j * l + k * b by {
        assert(64 * (j * m + k * w) == j * l + k * b) by (nonlinear_arith)
            requires
                l == 64 * m,
                b == 64 * w,
        ;
    }
    assert(j * l + 4 * b == (j + 1) * l) by (nonlinear_arith)
        requires
            l == 4 * b,
    ;
    assert(j * l <= (j + 1) * l) by (nonlinear_arith)
        requires
            l > 0,
    ;
    lemma_fundamental_div_mod(j, d);
    let q = j / d;
    let r = j % d;
    assert(0 <= j * l - q * d * l < upper_block_size()) by (nonlinear_arith)
        requires
            j == d * q + r,
            0 <= r < d,
            d * l == upper_block_size(),
            l > 0,
    ;
    assert(q * d == d * q && (q - 1) * d + (d - 1) == d * q - 1) by (nonlinear_arith);
    if j == 0 {
        lemma_fundamental_div_mod_converse(j, d, 0, 0);
    }
    if j > 0 {
        if r == 0 {
            lemma_fundamental_div_mod_converse(j - 1, d, q - 1, d - 1);
        } else {
            lemma_fundamental_div_mod_converse(j - 1, d, q, r - 1);
        }
    }
}

/// The position of `pos` inside its lower block: the block, the basic block
/// that holds it, and the start of that basic block in words.
proof fn lemma_position_arith(l: int, pos: int)
    requires
        l == 256 || l == 512 || l == 1024,
        0 <= pos,
    ensures
        0 <= (pos % l) / (l / 4) <= 3,
        (pos / l) * l + ((pos % l) / (l / 4)) * (l / 4) <= pos,
        64 * ((pos / l) * (l / 64) + ((pos % l) / (l / 4)) * (l / 256)) == (pos / l) * l + ((pos % l)
            / (l / 4)) * (l / 4),
{
    let m = l / 64;
    let w = l / 256;
    let b = l / 4;
    assert(l == 64 * m && b == 64 * w && l == 4 * b && b > 0);
    lemma_fundamental_div_mod(pos, l);
    let q = pos / l;
    let r = pos % l;
    lemma_fundamental_div_mod(r, b);
    let k = r / b;
    assert(0 <= k <= 3) by (nonlinear_arith)
        requires
            r == b * k + r % b,
            0 <= r % b < b,
            0 <= r < l,
            l == 4 * b,
    ;
    assert(q * l + k * b <= pos) by (nonlinear_arith)
        requires
            pos == l * q + r,
            r == b * k + r % b,
            0 <= r % b,
    ;
    assert(64 * (q * m + k * w) == q * l + k * b) by (nonlinear_arith)
        requires
            l == 64 * m,
            b == 64 * w,
    ;
}

/// Rank in constant time: counters over a [`BitMap`], with lower blocks of
/// `2^LOG2_LOWER_BLOCK_SIZE` bits (8, 9 or 10).
pub struct Rank10<const LOG2_LOWER_BLOCK_SIZE: usize> {
    bits: BitMap,
    upper: Vec<u64>,
    lower: Vec<u64>,
}

impl<const LOG2_LOWER_BLOCK_SIZE: usize> Rank10<LOG2_LOWER_BLOCK_SIZE> {
    /// The number of bits of a lower block.
    pub open spec fn lower_size() -> int {
        lower_block_size(LOG2_LOWER_BLOCK_SIZE)
    }

    /// The number of bits of a basic block.
    pub open spec fn basic_size() -> int {
        Self::lower_size() / 4
    }

    /// The number of lower blocks in an upper block.
    pub open spec fn blocks_per_upper() -> int {
        upper_block_size() / Self::lower_size()
    }

    /// The number of lower blocks: one for each position up to the length.
    pub open spec fn num_lower(&self) -> int {
        self.bits().len() as int / Self::lower_size() + 1
    }

    /// The absolute counts of the upper blocks.
    pub closed spec fn upper_counts(&self) -> Seq<u64> {
        self.upper@
    }

    /// The packed entries of the lower blocks.
    pub closed spec fn lower_entries(&self) -> Seq<u64> {
        self.lower@
    }

    /// Every counter holds the number of ones before its block boundary: the
    /// absolute count of each upper block, and for each lower block the count
    /// from the start of its upper block and those of its basic blocks.
    pub proof fn lemma_counters(&self)
        requires
            self.wf(),
        ensures
            self.lower_entries().len() == self.num_lower(),
            (self.num_lower() - 1) / Self::blocks_per_upper() < self.upper_counts().len(),
            forall|i: int| 0 <= i < self.upper_counts().len() ==> #[trigger] self.upper_counts()[i]
                == rank_of(self.bits(), i * Self::blocks_per_upper() * Self::lower_size()),
            forall|j: int| 0 <= j < self.lower_entries().len() ==> entry_absolute(
                #[trigger] self.lower_entries()[j],
            ) == rank_of(self.bits(), j * Self::lower_size()) - rank_of(
                self.bits(),
                (j / Self::blocks_per_upper()) * Self::blocks_per_upper() * Self::lower_size(),
            ),
            forall|j: int, k: int| 0 <= j < self.lower_entries().len() && 1 <= k <= 3 ==> #[trigger] entry_basic(
                self.lower_entries()[j],
                k,
            ) == rank_of(self.bits(), j * Self::lower_size() + k * Self::basic_size()) - rank_of(
                self.bits(),
                j * Self::lower_size(),
            ),
    {
    }

    pub(crate) fn lower_block_len() -> (r: usize)
        requires
            8 <= LOG2_LOWER_BLOCK_SIZE <= 10,
        ensures
            r == Self::lower_size(),
    {
        let r = 1usize << LOG2_LOWER_BLOCK_SIZE;
        proof {
            let s = LOG2_LOWER_BLOCK_SIZE;
            if s == 8 {
                assert(1usize << 8usize == 256usize) by (bit_vector);
            } else if s == 9 {
                assert(1usize << 9usize == 512usize) by (bit_vector);
            } else {
                assert(1usize << 10usize == 1024usize) by (bit_vector);
            }
        }
        r
    }

    pub(crate) fn upper_block_len_in_blocks(l: usize) -> (r: usize)
        requires
            l == Self::lower_size(),
            8 <= LOG2_LOWER_BLOCK_SIZE <= 10,
        ensures
            r == Self::blocks_per_upper(),
    {
        (0x1_0000_0000u64 / l as u64) as usize
    }

    /// Builds the counters over `bits`.
    pub fn new(bits: BitMap) -> (r: Self)
        requires
            bits.wf(),
            8 <= LOG2_LOWER_BLOCK_SIZE <= 10,
        ensures
            r.wf(),
            r.bits() == bits@,
    {
        let l = Self::lower_block_len();
        let bpu = Self::upper_block_len_in_blocks(l);
        let words_per_lower = l / 64;
        let words_per_basic = l / 256;
        let n = bits.len();
        let num_lower = n / l + 1;
        let ghost s = bits@;
        let mut upper: Vec<u64> = Vec::new();
        let mut lower: Vec<u64> = Vec::new();
        let mut ones: u64 = 0;
        let mut j: usize = 0;
        while j < num_lower
            invariant
                bits.wf(),
                s == bits@,
                8 <= LOG2_LOWER_BLOCK_SIZE <= 10,
                l == Self::lower_size(),
                bpu == Self::blocks_per_upper(),
                words_per_lower == l / 64,
                words_per_basic == l / 256,
                num_lower == s.len() as int / Self::lower_size() + 1,
                s.len() == n,
                j <= num_lower,
                lower@.len() == j,
                j == 0 ==> upper@.len() == 0,
                j > 0 ==> upper@.len() == (j - 1) / Self::blocks_per_upper() + 1,
                ones == rank_of(s, j * Self::lower_size()),
                forall|i: int| 0 <= i < upper@.len() ==> #[trigger] upper@[i] == rank_of(s, i * Self::blocks_per_upper() * Self::lower_size()),
                forall|i: int| 0 <= i < j ==> entry_absolute(#[trigger] lower@[i]) == rank_of(s, i * Self::lower_size())
                    - rank_of(s, (i / Self::blocks_per_upper()) * Self::blocks_per_upper() * Self::lower_size()),
                forall|i: int, k: int| 0 <= i < j && 1 <= k <= 3 ==> #[trigger] entry_basic(lower@[i], k)
                    == rank_of(s, i * Self::lower_size() + k * (Self::lower_size() / 4)) - rank_of(s, i * Self::lower_size()),
            decreases num_lower - j,
        {
            proof {
                lemma_block_arith(l as int, j as int);
                lemma_fundamental_div_mod(s.len() as int, l as int);
                assert(j * l <= s.len()) by (nonlinear_arith)
                    requires
                        j <= s.len() as int / l as int,
                        s.len() == l * (s.len() as int / l as int) + s.len() as int % l as int,
                        s.len() as int % l as int >= 0,
                        l > 0,
                ;
                lemma_rank_bounds(s, j * l, s.len() as int);
                lemma_rank_bounds(s, 0, j * l);
            }
            if j % bpu == 0 {
                upper.push(ones);
            }
            let base = upper[j / bpu];
            assert(j * words_per_lower == j as int * (l as int / 64));
            assert(64 * (j * words_per_lower) <= s.len());
            let first = j * words_per_lower;
            let c0 = bits.word_range_ones(first, first + words_per_basic);
            let c1 = bits.word_range_ones(first + words_per_basic, first + 2 * words_per_basic);
            let c2 = bits.word_range_ones(first + 2 * words_per_basic, first + 3 * words_per_basic);
            let c3 = bits.word_range_ones(first + 3 * words_per_basic, first + 4 * words_per_basic);
            let ghost b = l as int / 4;
            proof {
                let q = j as int / bpu as int;
                lemma_rank_bounds(s, q * bpu * l, j * l);
                lemma_rank_bounds(s, j * l, j * l + b);
                lemma_rank_bounds(s, j * l + b, j * l + 2 * b);
                lemma_rank_bounds(s, j * l + 2 * b, j * l + 3 * b);
                lemma_rank_bounds(s, j * l + 3 * b, j * l + 4 * b);
                lemma_rank_le_len(s, (j + 1) * l);
            }
            let sum1 = c0 as u64;
            let sum2 = sum1 + c1 as u64;
            let sum3 = sum2 + c2 as u64;
            let entry = (ones - base) | (sum1 << 32u64) | (sum2 << 42u64) | (sum3 << 52u64);
            proof {
                lemma_pack_entry((ones - base) as u64, sum1, sum2, sum3);
            }
            lower.push(entry);
            ones = ones + sum3 + c3 as u64;
            j += 1;
        }
        let r = Rank10 { bits, upper, lower };
        proof {
            lemma_block_arith(l as int, (num_lower - 1) as int);
        }
        r
    }

    /// The underlying bits.
    pub fn bit_map(&self) -> (r: &BitMap)
        requires
            self.wf(),
        ensures
            r.wf(),
            r@ == self.bits(),
    {
        &self.bits
    }

    /// The number of ones before upper block `i`.
    pub fn upper(&self, i: usize) -> (r: u64)
        requires
            self.wf(),
            i <= (self.num_lower() - 1) / Self::blocks_per_upper(),
        ensures
            r == rank_of(self.bits(), i * Self::blocks_per_upper() * Self::lower_size()),
    {
        self.upper[i]
    }

    /// The number of ones from the start of the upper block of lower block
    /// `j` to the start of lower block `j`.
    pub fn lower(&self, j: usize) -> (r: u64)
        requires
            self.wf(),
            j < self.num_lower(),
        ensures
            r == rank_of(self.bits(), j * Self::lower_size()) - rank_of(
                self.bits(),
                (j as int / Self::blocks_per_upper()) * Self::blocks_per_upper() * Self::lower_size(),
            ),
    {
        self.lower[j] & 0xffff_ffffu64
    }

    /// The number of ones in the first `k` basic blocks (1 to 3) of lower
    /// block `j`.
    pub fn basic(&self, j: usize, k: usize) -> (r: u64)
        requires
            self.wf(),
            j < self.num_lower(),
            1 <= k <= 3,
        ensures
            r == rank_of(self.bits(), j * Self::lower_size() + k * Self::basic_size()) - rank_of(
                self.bits(),
                j * Self::lower_size(),
            ),
    {
        let e = self.lower[j];
        proof {
            assert(entry_basic(e, k as int) == rank_of(
                self.bits(),
                j * Self::lower_size() + k * Self::basic_size(),
            ) - rank_of(self.bits(), j * Self::lower_size()));
        }
        if k == 1 {
            (e >> 32u64) & 0x3ffu64
        } else if k == 2 {
            (e >> 42u64) & 0x3ffu64
        } else {
            (e >> 52u64) & 0x3ffu64
        }
    }
}

impl<const LOG2_LOWER_BLOCK_SIZE: usize> BitLength for Rank10<LOG2_LOWER_BLOCK_SIZE> {
    closed spec fn bits(&self) -> Seq<bool> {
        self.bits@
    }

    closed spec fn wf(&self) -> bool {
        let l = Self::lower_size();
        let bpu = Self::blocks_per_upper();
        let s = self.bits@;
        &&& 8 <= LOG2_LOWER_BLOCK_SIZE <= 10
        &&& self.bits.wf()
        &&& self.lower@.len() == s.len() as int / l + 1
        &&& forall|i: int| 0 <= i < self.upper@.len() ==> #[trigger] self.upper@[i] == rank_of(s, i * bpu * l)
        &&& (self.lower@.len() - 1) / bpu < self.upper@.len()
        &&& forall|i: int| 0 <= i < self.lower@.len() ==> entry_absolute(#[trigger] self.lower@[i]) == rank_of(s, i * l)
            - rank_of(s, (i / bpu) * bpu * l)
        &&& forall|i: int, k: int| 0 <= i < self.lower@.len() && 1 <= k <= 3 ==> #[trigger] entry_basic(self.lower@[i], k)
            == rank_of(s, i * l + k * (l / 4)) - rank_of(s, i * l)
    }

    fn len(&self) -> (r: usize) {
        self.bits.len()
    }
}

impl<const LOG2_LOWER_BLOCK_SIZE: usize> BitCount for Rank10<LOG2_LOWER_BLOCK_SIZE> {
    fn count_ones(&self) -> (r: usize) {
        self.bits.count_ones()
    }
}

impl<const LOG2_LOWER_BLOCK_SIZE: usize> Rank for Rank10<LOG2_LOWER_BLOCK_SIZE> {
    fn rank_unchecked(&self, pos: usize) -> (r: usize) {
        let l = Self::lower_block_len();
        let bpu = Self::upper_block_len_in_blocks(l);
        let lower_idx = pos / l;
        let k = (pos % l) / (l / 4);
        proof {
            lemma_position_arith(l as int, pos as int);
            lemma_block_arith(l as int, lower_idx as int);
            lemma_div_is_ordered(pos as int, self.bits().len() as int, l as int);
            lemma_div_is_ordered(lower_idx as int, self.num_lower() - 1, bpu as int);
            lemma_rank_bounds(self.bits(), 0, lower_idx * l + k * (l / 4));
            lemma_rank_bounds(self.bits(), lower_idx * l + k * (l / 4), self.bits().len() as int);
            lemma_rank_bounds(self.bits(), (lower_idx / bpu) * bpu * l, lower_idx * l);
        }
        let mut hint_rank = self.upper(lower_idx / bpu) + self.lower(lower_idx);
        if k > 0 {
            proof {
                lemma_rank_bounds(self.bits(), lower_idx * l, lower_idx * l + k * (l / 4));
            }
            hint_rank = hint_rank + self.basic(lower_idx, k);
        }
        let hint_pos = lower_idx * (l / 64) + k * (l / 256);
        proof {
            assert(k == 0 ==> k * (l as int / 4) == 0) by (nonlinear_arith);
        }
        self.bits.rank_hinted_unchecked(pos, hint_pos, hint_rank as usize)
    }
}

impl<const LOG2_LOWER_BLOCK_SIZE: usize> RankZero for Rank10<LOG2_LOWER_BLOCK_SIZE> {

}

} // verus!
