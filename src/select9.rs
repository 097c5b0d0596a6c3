//! Select on top of [`Rank9`]: an inventory of the positions of every
//! `2^LOG2_ONES_PER_INVENTORY`-th one narrows a query to a range of blocks,
//! whose counts then lead to the word that holds the answer.

use vstd::prelude::*;

use vstd::arithmetic::div_mod::{lemma_div_is_ordered, lemma_fundamental_div_mod_converse};
use vstd::arithmetic::power2::pow2;
use vstd::bits::{lemma_usize_pow2_no_overflow, lemma_usize_shl_is_mul};

use crate::model::{is_selected, lemma_rank_bounds, lemma_rank_le_len, ones_of, rank_of};
use crate::rank10sel::{
    inventory_len, lemma_inventory_index, lemma_rank_below_ones, lemma_start_block,
};
use crate::rank9::Rank9;
use crate::traits::{BitCount, BitLength, Rank, RankZero, Select, SelectHinted};

verus! {

/// Rank and select: [`Rank9`] and an inventory of the position of every
/// `2^LOG2_ONES_PER_INVENTORY`-th one.
pub struct Select9<const LOG2_ONES_PER_INVENTORY: usize> {
    rank9: Rank9,
    inventory: Vec<u64>,
}

impl<const LOG2_ONES_PER_INVENTORY: usize> Select9<LOG2_ONES_PER_INVENTORY> {
    /// The number of ones between consecutive inventory entries.
    pub open spec fn ones_per_inventory() -> int {
        pow2(LOG2_ONES_PER_INVENTORY as nat) as int
    }

    /// The inventory: entry `i` is the position of the one of rank
    /// `i * ones_per_inventory()`, and the last entry is the length.
    pub closed spec fn samples(&self) -> Seq<u64> {
        self.inventory@
    }

    /// What the inventory holds after construction.
    pub proof fn lemma_samples(&self)
        requires
            self.wf(),
        ensures
            self.samples().len() == inventory_len(ones_of(self.bits()) as int, Self::ones_per_inventory()),
            forall|i: int| 0 <= i < self.samples().len() - 1 ==> is_selected(self.bits(), i * Self::ones_per_inventory(), #[trigger] self.samples()[i] as int),
            self.samples()[self.samples().len() - 1] == self.bits().len(),
    {
    }

    fn ones_per_inventory_len() -> (r: usize)
        requires
            LOG2_ONES_PER_INVENTORY < usize::BITS,
        ensures
            r == Self::ones_per_inventory(),
            r > 0,
    {
        proof {
            lemma_usize_pow2_no_overflow(LOG2_ONES_PER_INVENTORY as nat);
            lemma_usize_shl_is_mul(1, LOG2_ONES_PER_INVENTORY);
        }
        1usize << LOG2_ONES_PER_INVENTORY
    }

    /// Builds the inventory over the bits of `rank9`.
    pub fn new(rank9: Rank9) -> (r: Self)
        requires
            rank9.wf(),
            LOG2_ONES_PER_INVENTORY < usize::BITS,
        ensures
            r.wf(),
            r.bits() == rank9.bits(),
    {
        let q = Self::ones_per_inventory_len();
        let num_ones = rank9.count_ones();
        let len = rank9.len();
        let bits = rank9.bit_map();
        let ghost s = bits@;
        let mut inventory: Vec<u64> = Vec::new();
        let mut k: usize = 0;
        let mut pos: usize = 0;
        let mut pos_rank: usize = 0;
        let ghost mut nq: int = 0;
        proof {
            assert(0 * q == 0) by (nonlinear_arith);
        }
        while k < num_ones
            invariant
                bits.wf(),
                s == bits@,
                num_ones == ones_of(s),
                len == s.len(),
                q == Self::ones_per_inventory(),
                q > 0,
                nq == inventory@.len() * q,
                nq < num_ones + q,
                k == if nq < num_ones { nq } else { num_ones as int },
                pos <= len,
                pos_rank <= k,
                pos_rank == rank_of(s, pos as int),
                forall|t: int| 0 <= t < inventory@.len() ==> is_selected(s, t * q, #[trigger] inventory@[t] as int),
            decreases num_ones - k,
        {
            let p = bits.select_hinted_unchecked(k, pos, pos_rank);
            inventory.push(p as u64);
            pos = p;
            pos_rank = k;
            proof {
                let m = inventory@.len() - 1;
                assert(nq + q == (m + 1) * q) by (nonlinear_arith)
                    requires
                        nq == m * q,
                ;
                nq = nq + q;
            }
            k = if num_ones - k <= q { num_ones } else { k + q };
        }
        proof {
            let m = inventory@.len() as int;
            assert(m * q == q * m) by (nonlinear_arith);
            lemma_fundamental_div_mod_converse(num_ones + q - 1, q as int, m, num_ones + q - 1 - m * q);
        }
        inventory.push(len as u64);
        Select9 { rank9, inventory }
    }
}

impl<const LOG2_ONES_PER_INVENTORY: usize> BitLength for Select9<LOG2_ONES_PER_INVENTORY> {
    closed spec fn bits(&self) -> Seq<bool> {
        self.rank9.bits()
    }

    closed spec fn wf(&self) -> bool {
        let s = self.rank9.bits();
        let q = Self::ones_per_inventory();
        &&& self.rank9.wf()
        &&& LOG2_ONES_PER_INVENTORY < usize::BITS
        &&& self.inventory@.len() == inventory_len(ones_of(s) as int, q)
        &&& forall|i: int| 0 <= i < self.inventory@.len() - 1 ==> is_selected(s, i * q, #[trigger] self.inventory@[i] as int)
        &&& self.inventory@[self.inventory@.len() - 1] == s.len()
    }

    fn len(&self) -> (r: usize) {
        self.rank9.len()
    }
}

impl<const LOG2_ONES_PER_INVENTORY: usize> BitCount for Select9<LOG2_ONES_PER_INVENTORY> {
    fn count_ones(&self) -> (r: usize) {
        self.rank9.count_ones()
    }
}

impl<const LOG2_ONES_PER_INVENTORY: usize> Rank for Select9<LOG2_ONES_PER_INVENTORY> {
    fn rank_unchecked(&self, pos: usize) -> (r: usize) {
        self.rank9.rank_unchecked(pos)
    }
}

impl<const LOG2_ONES_PER_INVENTORY: usize> RankZero for Select9<LOG2_ONES_PER_INVENTORY> {

}

impl<const LOG2_ONES_PER_INVENTORY: usize> Select for Select9<LOG2_ONES_PER_INVENTORY> {
    fn select_unchecked(&self, rank: usize) -> (r: usize) {
        let ghost s = self.bits();
        let q = Self::ones_per_inventory_len();
        let n_bits = self.len();
        let ghost len = n_bits as int;
        let ghost num_blocks = self.rank9.num_blocks();
        let inventory_index = rank / q;
        let jump = (rank % q) / 512;
        proof {
            lemma_inventory_index(ones_of(s) as int, q as int, rank as int);
        }
        let num_samples = self.inventory.len();
        proof {
            assert(inventory_index + 1 < num_samples);
        }
        let inv_pos = self.inventory[inventory_index] as usize;
        let next_inv_pos = self.inventory[inventory_index + 1] as usize;
        proof {
            if inventory_index + 1 < self.inventory@.len() - 1 {
                assert(is_selected(s, (inventory_index + 1) * q, self.inventory@[inventory_index + 1] as int));
            }
            lemma_start_block(s, q as int, 512, rank as int, inv_pos as int);
        }
        let last_block = next_inv_pos / 512;
        let mut block = inv_pos / 512 + jump;
        proof {
            lemma_div_is_ordered(next_inv_pos as int, len, 512);
        }
        let mut hint_rank = self.rank9.block_count(block);
        loop
            invariant
                self.wf(),
                s == self.bits(),
                len == s.len(),
                len <= usize::MAX,
                rank < ones_of(s),
                num_blocks == self.rank9.num_blocks(),
                num_blocks == len / 512 + 1,
                last_block <= len / 512,
                block < num_blocks,
                hint_rank == rank_of(s, 512 * block),
                hint_rank <= rank,
            decreases last_block - block,
        {
            if block + 1 >= last_block {
                break;
            }
            let next_rank = self.rank9.block_count(block + 1);
            if next_rank > rank as u64 {
                break;
            }
            hint_rank = next_rank;
            block = block + 1;
        }
        let ghost start = 512 * block;
        let mut j: usize = 1;
        let mut word_rank: u64 = 0;
        while j < 8
            invariant
                self.wf(),
                s == self.bits(),
                len == s.len(),
                rank < ones_of(s),
                block < self.rank9.num_blocks(),
                start == 512 * block,
                hint_rank == rank_of(s, start),
                1 <= j <= 8,
                word_rank == rank_of(s, start + 64 * (j - 1)) - rank_of(s, start),
                hint_rank + word_rank <= rank,
            decreases 8 - j,
        {
            proof {
                lemma_rank_bounds(s, start, start + 64 * j);
                lemma_rank_le_len(s, start + 64 * j);
            }
            let c = self.rank9.word_count(block, j);
            if hint_rank + c > rank as u64 {
                break;
            }
            word_rank = c;
            j += 1;
        }
        proof {
            lemma_rank_below_ones(s, start + 64 * (j - 1));
        }
        let hint_pos = block * 512 + (j - 1) * 64;
        self.rank9.bit_map().select_hinted_unchecked(rank, hint_pos, (hint_rank + word_rank) as usize)
    }
}

} // verus!
