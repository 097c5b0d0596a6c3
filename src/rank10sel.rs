//! Select on top of [`Rank10`]: an inventory of the positions of every
//! `2^LOG2_ONES_PER_INVENTORY`-th one narrows a query to a range of lower
//! blocks, whose counters then lead to the basic block that holds the answer.

use vstd::prelude::*;

use vstd::arithmetic::div_mod::{
    lemma_div_is_ordered, lemma_div_multiples_vanish, lemma_fundamental_div_mod,
    lemma_fundamental_div_mod_converse,
};
use vstd::arithmetic::power2::pow2;
use vstd::bits::{lemma_usize_pow2_no_overflow, lemma_usize_shl_is_mul};

use crate::bitmap::BitMap;
use crate::model::{
    is_selected, lemma_ones_before_word, lemma_rank_bounds, lemma_rank_saturates, ones_before,
    ones_of, rank_of, wbit,
};
use crate::rank10::Rank10;
use crate::traits::{BitCount, BitLength, Rank, RankZero, Select, SelectHinted};
use crate::word::{popcount, select_in_word, word_ones};

verus! {

/// The number of entries of an inventory that samples every `q`-th of `ones`
/// ones, with a final entry for the length.
pub open spec fn inventory_len(ones: int, q: int) -> int {
    (ones + q - 1) / q + 1
}

/// A position below `len` where the rank is still below the number of ones.
pub(crate) proof fn lemma_rank_below_ones(s: Seq<bool>, p: int)
    requires
        rank_of(s, p) < ones_of(s),
    ensures
        p < s.len(),
{
    if p >= s.len() {
        lemma_rank_saturates(s, p);
    }
}

/// The inventory entry of a rank below the number of ones, and the next
/// entry, exist.
pub(crate) proof fn lemma_inventory_index(n: int, q: int, rank: int)
    requires
        0 <= rank < n,
        q > 0,
    ensures
        rank / q + 1 < inventory_len(n, q),
{
    lemma_fundamental_div_mod(rank, q);
    let ii = rank / q;
    let rr = rank % q;
    assert(rank + q == (ii + 1) * q + rr) by (nonlinear_arith)
        requires
            rank == q * ii + rr,
    ;
    lemma_div_is_ordered(rank + q, n + q - 1, q);
    lemma_fundamental_div_mod_converse(rank + q, q, ii + 1, rr);
}

/// Starting from the lower block of the inventory entry of `rank`, the lower
/// block `(rank % q) / l` blocks further on starts no later than the one of
/// rank `rank`, so it lies inside the bits.
pub(crate) proof fn lemma_start_block(s: Seq<bool>, q: int, l: int, rank: int, inv_pos: int)
    requires
        0 <= rank < ones_of(s),
        q > 0,
        l == 256 || l == 512 || l == 1024,
        0 <= inv_pos,
        rank_of(s, inv_pos) == (rank / q) * q,
    ensures
        rank_of(s, (inv_pos / l + (rank % q) / l) * l) <= rank,
        (inv_pos / l + (rank % q) / l) * l < s.len(),
        inv_pos / l + (rank % q) / l <= s.len() as int / l,
{
    let b0 = inv_pos / l;
    let j0 = (rank % q) / l;
    lemma_fundamental_div_mod(rank, q);
    lemma_fundamental_div_mod(inv_pos, l);
    lemma_fundamental_div_mod(rank % q, l);
    assert(b0 * l <= inv_pos) by (nonlinear_arith)
        requires
            inv_pos == l * b0 + inv_pos % l,
            0 <= inv_pos % l,
    ;
    assert(j0 * l <= rank % q) by (nonlinear_arith)
        requires
            (rank % q) == l * j0 + (rank % q) % l,
            0 <= (rank % q) % l,
    ;
    assert((b0 + j0) * l == b0 * l + j0 * l) by (nonlinear_arith);
    assert((rank / q) * q == q * (rank / q)) by (nonlinear_arith);
    assert(0 <= b0 * l) by (nonlinear_arith)
        requires
            0 <= b0,
            0 < l,
    ;
    lemma_rank_bounds(s, b0 * l, inv_pos);
    lemma_rank_bounds(s, b0 * l, (b0 + j0) * l);
    lemma_rank_below_ones(s, (b0 + j0) * l);
    lemma_div_is_ordered((b0 + j0) * l, s.len() as int, l);
    lemma_div_multiples_vanish(b0 + j0, l);
    assert(l * (b0 + j0) == (b0 + j0) * l) by (nonlinear_arith);
}

/// Rank and select: [`Rank10`] with lower blocks of `2^LOG2_LOWER_BLOCK_SIZE`
/// bits, and an inventory of the position of every
/// `2^LOG2_ONES_PER_INVENTORY`-th one.
pub struct Rank10Sel<const LOG2_LOWER_BLOCK_SIZE: usize, const LOG2_ONES_PER_INVENTORY: usize> {
    rank10: Rank10<LOG2_LOWER_BLOCK_SIZE>,
    inventory: Vec<u64>,
}

impl<const LOG2_LOWER_BLOCK_SIZE: usize, const LOG2_ONES_PER_INVENTORY: usize> Rank10Sel<
    LOG2_LOWER_BLOCK_SIZE,
    LOG2_ONES_PER_INVENTORY,
> {
    /// The number of ones between consecutive inventory entries.
    pub open spec fn ones_per_inventory() -> int {
        pow2(LOG2_ONES_PER_INVENTORY as nat) as int
    }

    /// The inventory: entry `i` is the position of the one of rank
    /// `i * ones_per_inventory()`, and the last entry is the length.
    pub closed spec fn samples(&self) -> Seq<u64> {
        self.inventory@
    }

    /// Each inventory entry but the last is the position of the one whose
    /// rank is its index times the sampling quantum; the last is the length.
    pub proof fn lemma_samples(&self)
        requires
            self.wf(),
        ensures
            self.samples().len() == inventory_len(ones_of(self.bits()) as int, Self::ones_per_inventory()),
            forall|i: int| 0 <= i < self.samples().len() - 1 ==> is_selected(self.bits(), i * Self::ones_per_inventory(), #[trigger] self.samples()[i] as int),
            self.samples()[self.samples().len() - 1] == self.bits().len(),
    {
    }

    fn ones_per_inventory_len() -> (r: usize)
        requires
            LOG2_ONES_PER_INVENTORY < usize::BITS,
        ensures
            r == Self::ones_per_inventory(),
            r > 0,
    {
        proof {
            lemma_usize_pow2_no_overflow(LOG2_ONES_PER_INVENTORY as nat);
            lemma_usize_shl_is_mul(1, LOG2_ONES_PER_INVENTORY);
        }
        1usize << LOG2_ONES_PER_INVENTORY
    }

    /// Builds the rank counters and the inventory over `bits`.
    pub fn new(bits: BitMap) -> (r: Self)
        requires
            bits.wf(),
            8 <= LOG2_LOWER_BLOCK_SIZE <= 10,
            LOG2_ONES_PER_INVENTORY < usize::BITS,
        ensures
            r.wf(),
            r.bits() == bits@,
            r.samples().len() == inventory_len(ones_of(bits@) as int, Self::ones_per_inventory()),
            forall|i: int| 0 <= i < r.samples().len() - 1 ==> is_selected(bits@, i * Self::ones_per_inventory(), #[trigger] r.samples()[i] as int),
            r.samples()[r.samples().len() - 1] == bits@.len(),
    {
        let rank10 = Rank10::<LOG2_LOWER_BLOCK_SIZE>::new(bits);
        let q = Self::ones_per_inventory_len();
        let num_bits = rank10.len();
        let num_ones = rank10.count_ones();
        let ghost s = rank10.bits();
        let bm = rank10.bit_map();
        let words = bm.as_ref();
        let ghost ws = bm.words();
        proof {
            bm.lemma_words();
        }
        let mut inventory: Vec<u64> = Vec::new();
        let mut curr_num_ones: usize = 0;
        let mut next_quantum: usize = 0;
        let mut i: usize = 0;
        let ghost mut nq: int = 0;
        proof {
            assert(0 * q == 0) by (nonlinear_arith);
        }
        while i < words.len()
            invariant
                bm.wf(),
                bm@ == s,
                s.len() == num_bits,
                num_ones == ones_of(s),
                q == Self::ones_per_inventory(),
                q > 0,
                words@ == ws,
                ws == bm.words(),
                ws.len() == crate::bitmap::words_for(s.len()),
                forall|t: int| 0 <= t < s.len() ==> #[trigger] s[t] == wbit(ws, t),
                forall|t: int| s.len() <= t ==> !#[trigger] wbit(ws, t),
                forall|p: int| #[trigger] rank_of(s, p) == ones_before(ws, p),
                i <= words.len(),
                curr_num_ones == ones_before(ws, 64 * i),
                nq == inventory@.len() * q,
                curr_num_ones <= nq,
                nq < curr_num_ones + q,
                next_quantum == if nq <= usize::MAX {
                    nq
                } else {
                    usize::MAX as int
                },
                forall|t: int| 0 <= t < inventory@.len() ==> is_selected(s, t * q, #[trigger] inventory@[t] as int),
            decreases words.len() - i,
        {
            let word = words[i];
            let ones_in_word = popcount(word);
            proof {
                lemma_ones_before_word(ws, i as int, 64);
                crate::model::lemma_ones_before_bounds(ws, 64 * i + 64, 64 * ws.len() as int);
                crate::model::lemma_ones_before_past_end(ws, 64 * ws.len() as int);
                lemma_rank_bounds(s, 0, s.len() as int);
                assert(ones_before(ws, 64 * ws.len() as int) == ones_before(ws, s.len() as int)) by {
                    lemma_rank_saturates(s, 64 * ws.len() as int);
                }
            }
            while curr_num_ones + ones_in_word > next_quantum
                invariant
                    bm.wf(),
                    bm@ == s,
                    s.len() == num_bits,
                    q == Self::ones_per_inventory(),
                    q > 0,
                    words@ == ws,
                    i < ws.len(),
                    word == ws[i as int],
                    ones_in_word == word_ones(word, 64),
                    forall|t: int| 0 <= t < s.len() ==> #[trigger] s[t] == wbit(ws, t),
                    forall|t: int| s.len() <= t ==> !#[trigger] wbit(ws, t),
                    forall|p: int| #[trigger] rank_of(s, p) == ones_before(ws, p),
                    curr_num_ones == ones_before(ws, 64 * i),
                    ones_before(ws, 64 * i + 64) == curr_num_ones + ones_in_word,
                    curr_num_ones + ones_in_word <= usize::MAX,
                    nq == inventory@.len() * q,
                    curr_num_ones <= nq,
                    nq < curr_num_ones + ones_in_word + q,
                    next_quantum == if nq <= usize::MAX {
                        nq
                    } else {
                        usize::MAX as int
                    },
                    forall|t: int| 0 <= t < inventory@.len() ==> is_selected(s, t * q, #[trigger] inventory@[t] as int),
                decreases curr_num_ones + ones_in_word + q - nq,
            {
                let in_word_index = select_in_word(word, next_quantum - curr_num_ones);
                let ghost p = 64 * i + in_word_index;
                proof {
                    lemma_ones_before_word(ws, i as int, in_word_index as int);
                    assert(p / 64 == i && p % 64 == in_word_index);
                    assert(wbit(ws, p));
                    assert(p < s.len());
                    assert(rank_of(s, p) == nq);
                }
                let index = i * 64 + in_word_index;
                inventory.push(index as u64);
                proof {
                    let m = inventory@.len() - 1;
                    assert(nq + q == (m + 1) * q) by (nonlinear_arith)
                        requires
                            nq == m * q,
                    ;
                    nq = nq + q;
                }
                next_quantum = if next_quantum <= usize::MAX - q {
                    next_quantum + q
                } else {
                    usize::MAX
                };
            }
            curr_num_ones += ones_in_word;
            i += 1;
        }
        proof {
            crate::model::lemma_ones_before_past_end(ws, 64 * ws.len() as int);
            lemma_rank_saturates(s, 64 * ws.len() as int);
            let m = inventory@.len() as int;
            let n = num_ones as int;
            assert(m * q == q * m) by (nonlinear_arith);
            lemma_fundamental_div_mod_converse(n + q - 1, q as int, m, n + q - 1 - m * q);
        }
        inventory.push(num_bits as u64);
        Rank10Sel { rank10, inventory }
    }
}

impl<const LOG2_LOWER_BLOCK_SIZE: usize, const LOG2_ONES_PER_INVENTORY: usize> BitLength for Rank10Sel<
    LOG2_LOWER_BLOCK_SIZE,
    LOG2_ONES_PER_INVENTORY,
> {
    closed spec fn bits(&self) -> Seq<bool> {
        self.rank10.bits()
    }

    closed spec fn wf(&self) -> bool {
        let s = self.rank10.bits();
        let q = Self::ones_per_inventory();
        &&& self.rank10.wf()
        &&& 8 <= LOG2_LOWER_BLOCK_SIZE <= 10
        &&& LOG2_ONES_PER_INVENTORY < usize::BITS
        &&& self.inventory@.len() == inventory_len(ones_of(s) as int, q)
        &&& forall|i: int| 0 <= i < self.inventory@.len() - 1 ==> is_selected(s, i * q, #[trigger] self.inventory@[i] as int)
        &&& self.inventory@[self.inventory@.len() - 1] == s.len()
    }

    fn len(&self) -> (r: usize) {
        self.rank10.len()
    }
}

impl<const LOG2_LOWER_BLOCK_SIZE: usize, const LOG2_ONES_PER_INVENTORY: usize> BitCount for Rank10Sel<
    LOG2_LOWER_BLOCK_SIZE,
    LOG2_ONES_PER_INVENTORY,
> {
    fn count_ones(&self) -> (r: usize) {
        self.rank10.count_ones()
    }
}

impl<const LOG2_LOWER_BLOCK_SIZE: usize, const LOG2_ONES_PER_INVENTORY: usize> Rank for Rank10Sel<
    LOG2_LOWER_BLOCK_SIZE,
    LOG2_ONES_PER_INVENTORY,
> {
    fn rank_unchecked(&self, pos: usize) -> (r: usize) {
        self.rank10.rank_unchecked(pos)
    }

    fn rank(&self, pos: usize) -> (r: usize) {
        self.rank10.rank(pos)
    }
}

impl<const LOG2_LOWER_BLOCK_SIZE: usize, const LOG2_ONES_PER_INVENTORY: usize> RankZero for Rank10Sel<
    LOG2_LOWER_BLOCK_SIZE,
    LOG2_ONES_PER_INVENTORY,
> {

}

impl<const LOG2_LOWER_BLOCK_SIZE: usize, const LOG2_ONES_PER_INVENTORY: usize> Select for Rank10Sel<
    LOG2_LOWER_BLOCK_SIZE,
    LOG2_ONES_PER_INVENTORY,
> {
    fn select_unchecked(&self, rank: usize) -> (r: usize) {
        let ghost s = self.bits();
        let q = Self::ones_per_inventory_len();
        let l = Rank10::<LOG2_LOWER_BLOCK_SIZE>::lower_block_len();
        let bpu = Rank10::<LOG2_LOWER_BLOCK_SIZE>::upper_block_len_in_blocks(l);
        let basic = l / 4;
        let n_bits = self.len();
        let ghost len = n_bits as int;
        let ghost num_lower = self.rank10.num_lower();
        let inventory_index = rank / q;
        let jump = (rank % q) / l;
        proof {
            lemma_inventory_index(ones_of(s) as int, q as int, rank as int);
        }
        let num_samples = self.inventory.len();
        proof {
            assert(inventory_index + 1 < num_samples);
        }
        let inv_pos = self.inventory[inventory_index] as usize;
        let next_inv_pos = self.inventory[inventory_index + 1] as usize;
        proof {
            if inventory_index + 1 < self.inventory@.len() - 1 {
                assert(is_selected(s, (inventory_index + 1) * q, self.inventory@[inventory_index + 1] as int));
            }
            lemma_start_block(s, q as int, l as int, rank as int, inv_pos as int);
        }
        let last_lower_block = next_inv_pos / l;
        let mut lower_block_idx = inv_pos / l + jump;
        let upper_block_idx = lower_block_idx / bpu;
        proof {
            lemma_div_is_ordered(lower_block_idx as int, num_lower - 1, bpu as int);
            lemma_div_is_ordered(next_inv_pos as int, len, l as int);
        }
        let mut hint_rank = self.rank10.upper(upper_block_idx) + self.rank10.lower(lower_block_idx);
        loop
            invariant
                self.wf(),
                s == self.bits(),
                len == s.len(),
                len <= usize::MAX,
                rank < ones_of(s),
                l == Rank10::<LOG2_LOWER_BLOCK_SIZE>::lower_size(),
                bpu == Rank10::<LOG2_LOWER_BLOCK_SIZE>::blocks_per_upper(),
                num_lower == self.rank10.num_lower(),
                num_lower == len / l as int + 1,
                last_lower_block <= len / l as int,
                lower_block_idx < num_lower,
                hint_rank == rank_of(s, lower_block_idx * l),
                hint_rank <= rank,
            decreases last_lower_block - lower_block_idx,
        {
            if lower_block_idx + 1 >= last_lower_block {
                break;
            }
            let next_lower_block_idx = lower_block_idx + 1;
            let next_upper_block_idx = next_lower_block_idx / bpu;
            proof {
                lemma_div_is_ordered(next_lower_block_idx as int, num_lower - 1, bpu as int);
                crate::model::lemma_rank_le_len(s, next_lower_block_idx * l as int);
                crate::model::lemma_rank_le_len(s, (next_upper_block_idx as int) * bpu * l);
            }
            let next_rank = self.rank10.upper(next_upper_block_idx) + self.rank10.lower(
                next_lower_block_idx,
            );
            if next_rank > rank as u64 {
                break;
            }
            hint_rank = next_rank;
            lower_block_idx = next_lower_block_idx;
        }
        let ghost start = lower_block_idx * l;
        proof {
            lemma_rank_below_ones(s, start);
            lemma_rank_bounds(s, start, start + basic);
            lemma_rank_bounds(s, start + basic, start + 2 * basic);
            lemma_rank_bounds(s, start + 2 * basic, start + 3 * basic);
            lemma_rank_bounds(s, 0, start + 3 * basic);
        }
        let bits = self.rank10.bit_map();
        let b1 = self.rank10.basic(lower_block_idx, 1);
        if hint_rank + b1 > rank as u64 {
            let hint_pos = lower_block_idx * l;
            return bits.select_hinted_unchecked(rank, hint_pos, hint_rank as usize);
        }
        let b2 = self.rank10.basic(lower_block_idx, 2);
        if hint_rank + b2 > rank as u64 {
            proof {
                lemma_rank_below_ones(s, start + basic);
            }
            let hint_pos = lower_block_idx * l + basic;
            return bits.select_hinted_unchecked(rank, hint_pos, (hint_rank + b1) as usize);
        }
        let b3 = self.rank10.basic(lower_block_idx, 3);
        if hint_rank + b3 > rank as u64 {
            proof {
                lemma_rank_below_ones(s, start + 2 * basic);
            }
            let hint_pos = lower_block_idx * l + 2 * basic;
            return bits.select_hinted_unchecked(rank, hint_pos, (hint_rank + b2) as usize);
        }
        proof {
            lemma_rank_below_ones(s, start + 3 * basic);
        }
        let hint_pos = lower_block_idx * l + 3 * basic;
        bits.select_hinted_unchecked(rank, hint_pos, (hint_rank + b3) as usize)
    }
}

} // verus!
