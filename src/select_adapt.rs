//! Adaptive select: a standalone two-level sampling index over a [`BitMap`].
//!
//! The primary inventory holds the position of every `q1`-th one (`q1` a
//! power of two) and ends with the length. The ones between two primary
//! entries form a span. A dense span, shorter than 2^16 bits, keeps the
//! position of every `q2`-th one of the span as a 16-bit offset from the
//! span start; a sparse span keeps every `q2s`-th position in full, with
//! `q2s` four times `q2` where possible so that both take as many bytes. A
//! query reads its span's sample and finishes with a hinted scan.

use vstd::prelude::*;

use vstd::arithmetic::div_mod::{lemma_fundamental_div_mod, lemma_fundamental_div_mod_converse};
use vstd::arithmetic::power2::{lemma_pow2_adds, lemma_pow2_pos, pow2};
use vstd::bits::{
    lemma_usize_low_bits_mask_is_mod, lemma_usize_pow2_no_overflow, lemma_usize_shl_is_mul,
    lemma_usize_shr_is_div, low_bits_mask,
};

use crate::bitmap::BitMap;
use crate::laws::law_select_monotonic;
use crate::model::{is_selected, ones_of};
use crate::traits::{BitCount, BitLength, Select, SelectHinted};

verus! {

/// The samples of one span of the primary inventory.
enum Span {
    /// Offsets from the span start, for a span shorter than 2^16 bits.
    Dense(Vec<u16>),
    /// Absolute positions, for a longer span.
    Sparse(Vec<u64>),
}

/// The number of ones between two samples of `span`.
spec fn quantum_of(span: Span, q2: int, q2s: int) -> int {
    match span {
        Span::Dense(_) => q2,
        Span::Sparse(_) => q2s,
    }
}

/// Sample `j` of span `i` is the position of the one of rank
/// `i * q1 + j * quantum`.
spec fn sample_at(s: Seq<bool>, inventory: Seq<u64>, span: Span, i: int, j: int, q1: int, q2: int, q2s: int) -> bool {
    match span {
        Span::Dense(v) => 0 <= j < v@.len() && is_selected(s, i * q1 + j * q2, inventory[i] + v@[j]),
        Span::Sparse(v) => 0 <= j < v@.len() && is_selected(s, i * q1 + j * q2s, v@[j] as int),
    }
}

/// The positions of the ones of rank `base + j * quantum` for every `j`
/// with `j * quantum < q1` and `base + j * quantum < ones`: the samples of
/// the span that starts at the one of rank `base`.
fn sample_positions(bits: &BitMap, base: usize, p0: usize, q1: usize, quantum: usize) -> (r: Vec<u64>)
    requires
        bits.wf(),
        base < ones_of(bits@),
        is_selected(bits@, base as int, p0 as int),
        0 < quantum <= q1,
        q1 % quantum == 0,
    ensures
        forall|j: int| 0 <= j < r@.len() ==> is_selected(bits@, base + j * quantum, #[trigger] r@[j] as int)
            && j * quantum < q1 && base + j * quantum < ones_of(bits@),
        r@.len() * quantum >= q1 || base + r@.len() * quantum >= ones_of(bits@),
{
    let ones = bits.count_ones();
    let mut r: Vec<u64> = Vec::new();
    let mut off: usize = 0;
    let mut pos = p0;
    let mut pos_rank = base;
    let ghost c = q1 / quantum;
    proof {
        lemma_fundamental_div_mod(q1 as int, quantum as int);
        assert(0 * quantum == 0) by (nonlinear_arith);
    }
    while off < q1 && off < ones - base
        invariant
            bits.wf(),
            ones == ones_of(bits@),
            base < ones,
            0 < quantum <= q1,
            q1 == quantum * c,
            off == r@.len() * quantum,
            off <= q1,
            pos_rank <= base + off,
            pos <= bits@.len(),
            pos_rank == crate::model::rank_of(bits@, pos as int),
            forall|j: int| 0 <= j < r@.len() ==> is_selected(bits@, base + j * quantum, #[trigger] r@[j] as int)
                && j * quantum < q1 && base + j * quantum < ones,
        decreases q1 - off,
    {
        let p = bits.select_hinted_unchecked(base + off, pos, pos_rank);
        r.push(p as u64);
        pos = p;
        pos_rank = base + off;
        proof {
            let t = r@.len() - 1;
            assert(off + quantum <= q1 && off + quantum == (t + 1) * quantum) by (nonlinear_arith)
                requires
                    off == t * quantum,
                    off < q1,
                    q1 == quantum * c,
                    quantum > 0,
            ;
        }
        off = off + quantum;
    }
    r
}

/// Adaptive select over a [`BitMap`], with a primary inventory every
/// `2^log2_ones_per_inventory` ones and span samples every
/// `2^(log2_ones_per_inventory - log2_u64_per_subinventory)` ones.
pub struct SelectAdapt {
    bits: BitMap,
    log2_ones_per_inventory: usize,
    log2_u64_per_subinventory: usize,
    inventory: Vec<u64>,
    spans: Vec<Span>,
}

impl SelectAdapt {
    /// The base-2 logarithm of the number of ones between primary entries.
    pub closed spec fn spec_log2_ones_per_inventory(&self) -> usize {
        self.log2_ones_per_inventory
    }

    /// The base-2 logarithm of the number of samples of a dense span.
    pub closed spec fn spec_log2_u64_per_subinventory(&self) -> usize {
        self.log2_u64_per_subinventory
    }

    /// The number of ones between primary entries.
    pub closed spec fn ones_per_inventory(&self) -> int {
        pow2(self.log2_ones_per_inventory as nat) as int
    }

    /// The primary inventory.
    pub closed spec fn primary(&self) -> Seq<u64> {
        self.inventory@
    }

    /// Each primary entry but the last is the position of the one whose rank
    /// is its index times the number of ones between entries; the last is
    /// the length, and the entries cover every one.
    pub proof fn lemma_primary(&self)
        requires
            self.wf(),
        ensures
            forall|t: int| 0 <= t < self.primary().len() - 1 ==> is_selected(self.bits(), t * self.ones_per_inventory(), #[trigger] self.primary()[t] as int),
            self.primary()[self.primary().len() - 1] == self.bits().len(),
            ones_of(self.bits()) <= (self.primary().len() - 1) * self.ones_per_inventory() < ones_of(self.bits()) + self.ones_per_inventory(),
    {
    }

    /// The number of ones between samples of a dense span.
    closed spec fn dense_quantum(&self) -> int {
        pow2((self.log2_ones_per_inventory - self.log2_u64_per_subinventory) as nat) as int
    }

    /// The number of ones between samples of a sparse span.
    closed spec fn sparse_quantum(&self) -> int {
        pow2(sparse_log2(self.log2_ones_per_inventory, self.log2_u64_per_subinventory) as nat) as int
    }

    /// Builds the index over `bits`: a primary entry every
    /// `2^log2_ones_per_inventory` ones, and `2^log2_u64_per_subinventory`
    /// samples in each dense span.
    pub fn with_inv(bits: BitMap, log2_ones_per_inventory: usize, log2_u64_per_subinventory: usize) -> (r: Self)
        requires
            bits.wf(),
            log2_ones_per_inventory < usize::BITS,
            log2_u64_per_subinventory <= log2_ones_per_inventory,
        ensures
            r.wf(),
            r.bits() == bits@,
            r.ones_per_inventory() == pow2(log2_ones_per_inventory as nat),
            r.spec_log2_ones_per_inventory() == log2_ones_per_inventory,
            r.spec_log2_u64_per_subinventory() == log2_u64_per_subinventory,
    {
        let a = log2_ones_per_inventory;
        let q1 = pow2_len(a);
        let q2 = pow2_len(a - log2_u64_per_subinventory);
        let q2s = pow2_len(sparse_log2_exec(a, log2_u64_per_subinventory));
        proof {
            lemma_quantum_divides(a as nat, (a - log2_u64_per_subinventory) as nat);
            lemma_quantum_divides(a as nat, sparse_log2(a, log2_u64_per_subinventory) as nat);
        }
        let num_ones = bits.count_ones();
        let len = bits.len();
        let ghost s = bits@;
        // Pass 1: the primary inventory.
        let mut inventory: Vec<u64> = Vec::new();
        let mut k: usize = 0;
        let mut pos: usize = 0;
        let mut pos_rank: usize = 0;
        let ghost mut nq: int = 0;
        proof {
            assert(0 * q1 == 0) by (nonlinear_arith);
        }
        while k < num_ones
            invariant
                bits.wf(),
                s == bits@,
                num_ones == ones_of(s),
                len == s.len(),
                q1 > 0,
                nq == inventory@.len() * q1,
                nq < num_ones + q1,
                k == if nq < num_ones { nq } else { num_ones as int },
                pos <= len,
                pos_rank <= k,
                pos_rank == crate::model::rank_of(s, pos as int),
                forall|t: int| 0 <= t < inventory@.len() ==> is_selected(s, t * q1, #[trigger] inventory@[t] as int),
            decreases num_ones - k,
        {
            let p = bits.select_hinted_unchecked(k, pos, pos_rank);
            inventory.push(p as u64);
            pos = p;
            pos_rank = k;
            proof {
                let m = inventory@.len() - 1;
                assert(nq + q1 == (m + 1) * q1) by (nonlinear_arith)
                    requires
                        nq == m * q1,
                ;
                nq = nq + q1;
            }
            k = if num_ones - k <= q1 { num_ones } else { k + q1 };
        }
        let m = inventory.len();
        proof {
            assert(m * q1 == q1 * m) by (nonlinear_arith);
            lemma_fundamental_div_mod_converse(num_ones + q1 - 1, q1 as int, m as int, num_ones + q1 - 1 - m * q1);
        }
        inventory.push(len as u64);
        // Pass 2: the samples of each span.
        let mut spans: Vec<Span> = Vec::new();
        let mut i: usize = 0;
        while i < m
            invariant
                bits.wf(),
                s == bits@,
                num_ones == ones_of(s),
                len == s.len(),
                q1 == pow2(a as nat),
                q2 == pow2((a - log2_u64_per_subinventory) as nat),
                q2s == pow2(sparse_log2(a, log2_u64_per_subinventory) as nat),
                0 < q2 <= q1,
                0 < q2s <= q1,
                q1 % q2 == 0,
                q1 % q2s == 0,
                m == inventory@.len() - 1,
                m * q1 < num_ones + q1,
                num_ones <= m * q1,
                forall|t: int| 0 <= t < m ==> is_selected(s, t * q1, #[trigger] inventory@[t] as int),
                inventory@[m as int] == len,
                i <= m,
                spans@.len() == i,
                forall|t: int, j: int| 0 <= t < i && 0 <= j && j * quantum_of(spans@[t], q2 as int, q2s as int) < q1
                    && t * q1 + j * quantum_of(spans@[t], q2 as int, q2s as int) < num_ones ==> #[trigger] sample_at(
                    s,
                    inventory@,
                    spans@[t],
                    t,
                    j,
                    q1 as int,
                    q2 as int,
                    q2s as int,
                ),
            decreases m - i,
        {
            let p0 = inventory[i] as usize;
            let p1 = inventory[i + 1] as usize;
            proof {
                // Every span but the last holds `q1` ones, and the last at
                // least one.
                assert((i + 1) * q1 <= m * q1 && i * q1 + q1 == (i + 1) * q1) by (nonlinear_arith)
                    requires
                        i + 1 <= m,
                        q1 > 0,
                ;
            }
            let base = i * q1;
            proof {
                assert(is_selected(s, i * q1, p0 as int));
                if i + 1 < m {
                    assert(is_selected(s, (i + 1) * q1, p1 as int));
                    assert(i * q1 < (i + 1) * q1) by (nonlinear_arith)
                        requires
                            q1 > 0,
                    ;
                    law_select_monotonic(s, i * q1, (i + 1) * q1, p0 as int, p1 as int);
                }
            }
            let ghost old_spans = spans@;
            if p1 - p0 < 0x10000 {
                let positions = sample_positions(&bits, base, p0, q1, q2);
                let mut offsets: Vec<u16> = Vec::new();
                let mut j: usize = 0;
                while j < positions.len()
                    invariant
                        bits.wf(),
                        s == bits@,
                        num_ones == ones_of(s),
                        len == s.len(),
                        i < m,
                        m == inventory@.len() - 1,
                        base == i * q1,
                        q1 > 0,
                        p0 == inventory@[i as int],
                        p1 == inventory@[i + 1],
                        p1 - p0 < 0x10000,
                        forall|t: int| 0 <= t < m ==> is_selected(s, t * q1, #[trigger] inventory@[t] as int),
                        inventory@[m as int] == len,
                        forall|t: int| 0 <= t < positions@.len() ==> is_selected(s, base + t * q2, #[trigger] positions@[t] as int)
                            && t * q2 < q1 && base + t * q2 < num_ones,
                        positions@.len() * q2 >= q1 || base + positions@.len() * q2 >= num_ones,
                        j <= positions@.len(),
                        offsets@.len() == j,
                        forall|t: int| 0 <= t < j ==> inventory@[i as int] + #[trigger] offsets@[t] == positions@[t] as int,
                    decreases positions.len() - j,
                {
                    proof {
                        let pj = positions@[j as int] as int;
                        let rj = base + j * q2;
                        assert(is_selected(s, rj, pj));
                        assert(is_selected(s, base as int, p0 as int));
                        if base < rj {
                            law_select_monotonic(s, base as int, rj, p0 as int, pj);
                        } else {
                            crate::model::lemma_select_unique(s, base as int, p0 as int, pj);
                        }
                        assert(rj < (i + 1) * q1) by (nonlinear_arith)
                            requires
                                rj == base + j * q2,
                                j * q2 < q1,
                                base == i * q1,
                        ;
                        if i + 1 < m {
                            assert(is_selected(s, (i + 1) * q1, p1 as int));
                            law_select_monotonic(s, rj, (i + 1) * q1, pj, p1 as int);
                        }
                    }
                    offsets.push((positions[j] as usize - p0) as u16);
                    j += 1;
                }
                spans.push(Span::Dense(offsets));
                proof {
                    lemma_new_span(s, inventory@, old_spans, spans@, positions@, i as int, q1 as int, q2 as int, q2s as int, num_ones as int);
                }
            } else {
                let positions = sample_positions(&bits, base, p0, q1, q2s);
                let ghost pos_seq = positions@;
                spans.push(Span::Sparse(positions));
                proof {
                    lemma_new_span(s, inventory@, old_spans, spans@, pos_seq, i as int, q1 as int, q2 as int, q2s as int, num_ones as int);
                }
            }
            i += 1;
        }
        SelectAdapt {
            bits,
            log2_ones_per_inventory,
            log2_u64_per_subinventory,
            inventory,
            spans,
        }
    }
}

impl BitLength for SelectAdapt {
    closed spec fn bits(&self) -> Seq<bool> {
        self.bits@
    }

    closed spec fn wf(&self) -> bool {
        let s = self.bits@;
        let q1 = self.ones_per_inventory();
        let q2 = self.dense_quantum();
        let q2s = self.sparse_quantum();
        let m = self.spans@.len() as int;
        &&& self.bits.wf()
        &&& self.log2_ones_per_inventory < usize::BITS
        &&& self.log2_u64_per_subinventory <= self.log2_ones_per_inventory
        &&& self.inventory@.len() == m + 1
        &&& ones_of(s) <= m * q1 < ones_of(s) + q1
        &&& forall|t: int| 0 <= t < m ==> is_selected(s, t * q1, #[trigger] self.inventory@[t] as int)
        &&& self.inventory@[m] == s.len()
        &&& forall|t: int, j: int| 0 <= t < m && 0 <= j && j * quantum_of(self.spans@[t], q2, q2s) < q1 && t * q1
            + j * quantum_of(self.spans@[t], q2, q2s) < ones_of(s) ==> #[trigger] sample_at(
            s,
            self.inventory@,
            self.spans@[t],
            t,
            j,
            q1,
            q2,
            q2s,
        )
    }

    fn len(&self) -> (r: usize) {
        self.bits.len()
    }
}

impl BitCount for SelectAdapt {
    fn count_ones(&self) -> (r: usize) {
        self.bits.count_ones()
    }
}

impl Select for SelectAdapt {
    fn select_unchecked(&self, rank: usize) -> (r: usize) {
        self.select_with(self.log2_ones_per_inventory, self.log2_u64_per_subinventory, rank)
    }
}

impl SelectAdapt {
    /// The query, with the two logarithms passed in so that a caller that
    /// knows them at compile time gets shifts and masks by constants.
    #[inline(always)]
    fn select_with(&self, a: usize, log2_u64_per_subinventory: usize, rank: usize) -> (r: usize)
        requires
            self.wf(),
            a == self.log2_ones_per_inventory,
            log2_u64_per_subinventory == self.log2_u64_per_subinventory,
            rank < ones_of(self.bits()),
        ensures
            is_selected(self.bits(), rank as int, r as int),
    {
        let ghost s = self.bits@;
        let q1 = pow2_len(a);
        let inv = rank >> a;
        let res = rank & (q1 - 1);
        let ghost m = self.spans@.len() as int;
        proof {
            lemma_usize_shr_is_div(rank, a);
            lemma_usize_low_bits_mask_is_mod(rank, a as nat);
            assert(low_bits_mask(a as nat) as usize == q1 - 1);
            lemma_fundamental_div_mod(rank as int, q1 as int);
            vstd::arithmetic::div_mod::lemma_mod_pos_bound(rank as int, q1 as int);
            assert(inv < m) by (nonlinear_arith)
                requires
                    rank == q1 * inv + res,
                    0 <= res,
                    rank < ones_of(s),
                    ones_of(s) <= m * q1,
                    q1 > 0,
            ;
        }
        proof {
            self.bits.lemma_words();
            assert(is_selected(s, inv * q1, self.inventory@[inv as int] as int));
        }
        let p0 = self.inventory[inv] as usize;
        match &self.spans[inv] {
            Span::Dense(offsets) => {
                let l2 = a - log2_u64_per_subinventory;
                let q2 = pow2_len(l2);
                let sub = res >> l2;
                proof {
                    lemma_usize_shr_is_div(res, l2);
                    lemma_fundamental_div_mod(res as int, q2 as int);
                    assert(sub * q2 <= res && inv * q1 + sub * q2 <= rank) by (nonlinear_arith)
                        requires
                            res == q2 * sub + res as int % q2 as int,
                            0 <= res as int % q2 as int,
                            rank == q1 * inv + res,
                    ;
                    assert(q2 == self.dense_quantum());
                    assert(sub * q2 < q1);
                    assert(sample_at(s, self.inventory@, self.spans@[inv as int], inv as int, sub as int, q1 as int, q2 as int, self.sparse_quantum()));
                }
                let hint_pos = p0 + offsets[sub] as usize;
                let hint_rank = inv * q1 + sub * q2;
                self.bits.select_hinted_unchecked(rank, hint_pos, hint_rank)
            },
            Span::Sparse(positions) => {
                let l2 = sparse_log2_exec(a, log2_u64_per_subinventory);
                let q2s = pow2_len(l2);
                let sub = res >> l2;
                proof {
                    lemma_usize_shr_is_div(res, l2);
                    lemma_fundamental_div_mod(res as int, q2s as int);
                    assert(sub * q2s <= res && inv * q1 + sub * q2s <= rank) by (nonlinear_arith)
                        requires
                            res == q2s * sub + res as int % q2s as int,
                            0 <= res as int % q2s as int,
                            rank == q1 * inv + res,
                    ;
                    assert(q2s == self.sparse_quantum());
                    assert(sub * q2s < q1);
                    assert(sample_at(s, self.inventory@, self.spans@[inv as int], inv as int, sub as int, q1 as int, self.dense_quantum(), q2s as int));
                }
                let hint_pos = positions[sub] as usize;
                let hint_rank = inv * q1 + sub * q2s;
                self.bits.select_hinted_unchecked(rank, hint_pos, hint_rank)
            },
        }
    }
}

/// Appending the samples of span `i` keeps every earlier span in place and
/// places the new one.
proof fn lemma_new_span(
    s: Seq<bool>,
    inventory: Seq<u64>,
    old_spans: Seq<Span>,
    spans: Seq<Span>,
    positions: Seq<u64>,
    i: int,
    q1: int,
    q2: int,
    q2s: int,
    ones: int,
)
    requires
        0 <= i,
        old_spans.len() == i,
        spans.len() == i + 1,
        forall|t: int| 0 <= t < i ==> spans[t] == old_spans[t],
        q2 > 0,
        q2s > 0,
        forall|t: int, j: int| 0 <= t < i && 0 <= j && j * quantum_of(old_spans[t], q2, q2s) < q1
            && t * q1 + j * quantum_of(old_spans[t], q2, q2s) < ones ==> #[trigger] sample_at(
            s,
            inventory,
            old_spans[t],
            t,
            j,
            q1,
            q2,
            q2s,
        ),
        ({
            let q = quantum_of(spans[i], q2, q2s);
            &&& positions.len() * q >= q1 || i * q1 + positions.len() * q >= ones
            &&& forall|t: int| 0 <= t < positions.len() ==> is_selected(s, i * q1 + t * q, #[trigger] positions[t] as int)
            &&& match spans[i] {
                Span::Dense(v) => v@.len() == positions.len() && forall|t: int| 0 <= t < v@.len() ==> inventory[i] + #[trigger] v@[t] == positions[t] as int,
                Span::Sparse(v) => v@ == positions,
            }
        }),
    ensures
        forall|t: int, j: int| 0 <= t < i + 1 && 0 <= j && j * quantum_of(spans[t], q2, q2s) < q1
            && t * q1 + j * quantum_of(spans[t], q2, q2s) < ones ==> #[trigger] sample_at(
            s,
            inventory,
            spans[t],
            t,
            j,
            q1,
            q2,
            q2s,
        ),
{
    assert forall|t: int, j: int| 0 <= t < i + 1 && 0 <= j && j * quantum_of(spans[t], q2, q2s) < q1
        && t * q1 + j * quantum_of(spans[t], q2, q2s) < ones implies #[trigger] sample_at(
        s,
        inventory,
        spans[t],
        t,
        j,
        q1,
        q2,
        q2s,
    ) by {
        if t < i {
            assert(spans[t] == old_spans[t]);
            assert(sample_at(s, inventory, old_spans[t], t, j, q1, q2, q2s));
        } else {
            let q = quantum_of(spans[i], q2, q2s);
            let len = positions.len() as int;
            if j >= len {
                assert(j * q >= len * q) by (nonlinear_arith)
                    requires
                        j >= len,
                        q > 0,
                ;
            }
            assert(is_selected(s, i * q1 + j * q, positions[j] as int));
        }
    }
}

/// [`SelectAdapt`] with both logarithms fixed by the type: primary entries
/// every `2^LOG2_ONES_PER_INVENTORY` ones and `2^LOG2_U64_PER_SUBINVENTORY`
/// samples per dense span.
pub struct SelectAdaptConst<const LOG2_ONES_PER_INVENTORY: usize, const LOG2_U64_PER_SUBINVENTORY: usize> {
    inner: SelectAdapt,
}

impl<const LOG2_ONES_PER_INVENTORY: usize, const LOG2_U64_PER_SUBINVENTORY: usize> SelectAdaptConst<
    LOG2_ONES_PER_INVENTORY,
    LOG2_U64_PER_SUBINVENTORY,
> {
    /// Builds the index over `bits`.
    pub fn new(bits: BitMap) -> (r: Self)
        requires
            bits.wf(),
            LOG2_ONES_PER_INVENTORY < usize::BITS,
            LOG2_U64_PER_SUBINVENTORY <= LOG2_ONES_PER_INVENTORY,
        ensures
            r.wf(),
            r.bits() == bits@,
    {
        SelectAdaptConst {
            inner: SelectAdapt::with_inv(bits, LOG2_ONES_PER_INVENTORY, LOG2_U64_PER_SUBINVENTORY),
        }
    }
}

impl<const LOG2_ONES_PER_INVENTORY: usize, const LOG2_U64_PER_SUBINVENTORY: usize> BitLength for SelectAdaptConst<
    LOG2_ONES_PER_INVENTORY,
    LOG2_U64_PER_SUBINVENTORY,
> {
    closed spec fn bits(&self) -> Seq<bool> {
        self.inner.bits()
    }

    closed spec fn wf(&self) -> bool {
        &&& self.inner.wf()
        &&& self.inner.log2_ones_per_inventory == LOG2_ONES_PER_INVENTORY
        &&& self.inner.log2_u64_per_subinventory == LOG2_U64_PER_SUBINVENTORY
    }

    fn len(&self) -> (r: usize) {
        self.inner.len()
    }
}

impl<const LOG2_ONES_PER_INVENTORY: usize, const LOG2_U64_PER_SUBINVENTORY: usize> BitCount for SelectAdaptConst<
    LOG2_ONES_PER_INVENTORY,
    LOG2_U64_PER_SUBINVENTORY,
> {
    fn count_ones(&self) -> (r: usize) {
        self.inner.count_ones()
    }
}

impl<const LOG2_ONES_PER_INVENTORY: usize, const LOG2_U64_PER_SUBINVENTORY: usize> Select for SelectAdaptConst<
    LOG2_ONES_PER_INVENTORY,
    LOG2_U64_PER_SUBINVENTORY,
> {
    fn select_unchecked(&self, rank: usize) -> (r: usize) {
        self.inner.select_with(LOG2_ONES_PER_INVENTORY, LOG2_U64_PER_SUBINVENTORY, rank)
    }
}

/// The base-2 logarithm of the sparse quantum: four times the dense one
/// where that stays within a primary span.
spec fn sparse_log2(a: usize, s: usize) -> usize {
    if s >= 2 {
        (a - s + 2) as usize
    } else {
        a
    }
}

fn sparse_log2_exec(a: usize, s: usize) -> (r: usize)
    requires
        s <= a,
    ensures
        r == sparse_log2(a, s),
        r <= a,
{
    if s >= 2 {
        a - s + 2
    } else {
        a
    }
}

/// `2^e`.
fn pow2_len(e: usize) -> (r: usize)
    requires
        e < usize::BITS,
    ensures
        r == pow2(e as nat),
        r > 0,
{
    proof {
        lemma_usize_pow2_no_overflow(e as nat);
        lemma_usize_shl_is_mul(1, e);
    }
    1usize << e
}

/// A smaller power of two divides a larger one.
proof fn lemma_quantum_divides(a: nat, b: nat)
    requires
        b <= a,
    ensures
        pow2(b) <= pow2(a),
        pow2(a) % pow2(b) == 0,
        pow2(b) > 0,
{
    lemma_pow2_adds(b, (a - b) as nat);
    lemma_pow2_pos(b);
    lemma_pow2_pos((a - b) as nat);
    let x = pow2(b) as int;
    let y = pow2((a - b) as nat) as int;
    assert(x * y >= x) by (nonlinear_arith)
        requires
            y >= 1,
            x > 0,
    ;
    lemma_fundamental_div_mod_converse(x * y, x, y, 0);
}

} // verus!
