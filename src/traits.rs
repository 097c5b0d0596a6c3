//! Capabilities of structures over a sequence of bits: length, counts, rank
//! and select, with and without hints.
//!
//! Each structure describes a sequence of bits, [`BitLength::bits`], and a
//! well-formedness condition, [`BitLength::wf`]; every operation is stated
//! over those.

use vstd::prelude::*;

use crate::model::{
    complement, is_selected, is_selected_from, is_zero_selected, lemma_rank_bounds,
    lemma_rank_complement, lemma_rank_saturates, ones_of, rank_of, zeros_of,
};

verus! {

/// A structure that exposes the length of the underlying bits.
pub trait BitLength {
    /// The bits that the structure describes.
    spec fn bits(&self) -> Seq<bool>;

    /// The internal invariant of the structure.
    spec fn wf(&self) -> bool;

    /// Returns the length in bits of the underlying bit vector.
    fn len(&self) -> (r: usize)
        requires
            self.wf(),
        ensures
            r == self.bits().len(),
    ;
}

/// A structure that exposes the number of ones and zeros of the underlying
/// bits.
pub trait BitCount: BitLength {
    /// Returns the number of ones in the underlying bit vector.
    fn count_ones(&self) -> (r: usize)
        requires
            self.wf(),
        ensures
            r == ones_of(self.bits()),
    ;

    /// Returns the number of zeros in the underlying bit vector.
    fn count_zeros(&self) -> (r: usize)
        requires
            self.wf(),
        ensures
            r == zeros_of(self.bits()),
    {
        let len = self.len();
        let ones = self.count_ones();
        proof {
            lemma_rank_bounds(self.bits(), 0, len as int);
        }
        len - ones
    }
}

/// Rank over a bit vector.
pub trait Rank: BitLength {
    /// Returns the number of ones preceding the specified position.
    ///
    /// The bit vector is virtually zero-extended: past its length the number
    /// of ones of the whole vector is returned.
    fn rank(&self, pos: usize) -> (r: usize)
        requires
            self.wf(),
        ensures
            r == rank_of(self.bits(), pos as int),
    {
        let len = self.len();
        if pos <= len {
            self.rank_unchecked(pos)
        } else {
            proof {
                lemma_rank_saturates(self.bits(), pos as int);
            }
            self.rank_unchecked(len)
        }
    }

    /// Returns the number of ones preceding the specified position, which
    /// must not exceed the length.
    fn rank_unchecked(&self, pos: usize) -> (r: usize)
        requires
            self.wf(),
            pos <= self.bits().len(),
        ensures
            r == rank_of(self.bits(), pos as int),
    ;
}

/// Rank of zeros, derived from [`Rank`].
pub trait RankZero: Rank {
    /// Returns the number of zeros preceding the specified position; past
    /// the length every position counts as a zero.
    fn rank_zero(&self, pos: usize) -> (r: usize)
        requires
            self.wf(),
        ensures
            r == pos - rank_of(self.bits(), pos as int),
    {
        let ones = self.rank(pos);
        proof {
            lemma_rank_bounds(self.bits(), 0, pos as int);
        }
        pos - ones
    }

    /// Returns the number of zeros preceding the specified position, which
    /// must not exceed the length.
    fn rank_zero_unchecked(&self, pos: usize) -> (r: usize)
        requires
            self.wf(),
            pos <= self.bits().len(),
        ensures
            r == pos - rank_of(self.bits(), pos as int),
            r == rank_of(complement(self.bits()), pos as int),
    {
        let ones = self.rank_unchecked(pos);
        proof {
            lemma_rank_bounds(self.bits(), 0, pos as int);
            lemma_rank_complement(self.bits(), pos as int);
        }
        pos - ones
    }
}

/// Rank over a bit vector, resuming from a known position and its rank.
///
/// The hint position is given in units of `HINT_BIT_SIZE` bits.
pub trait RankHinted<const HINT_BIT_SIZE: usize>: BitLength {
    /// Returns the number of ones preceding `pos`, given the number of ones
    /// `hint_rank` preceding position `hint_pos * HINT_BIT_SIZE <= pos`.
    fn rank_hinted_unchecked(&self, pos: usize, hint_pos: usize, hint_rank: usize) -> (r: usize)
        requires
            self.wf(),
            pos <= self.bits().len(),
            hint_pos * HINT_BIT_SIZE <= pos,
            hint_rank == rank_of(self.bits(), hint_pos * HINT_BIT_SIZE),
        ensures
            r == rank_of(self.bits(), pos as int),
    ;

    /// Returns `hint_rank` plus the number of ones from position
    /// `hint_pos * HINT_BIT_SIZE` to `pos`, or `None` if `pos` exceeds the
    /// length, the hint position exceeds `pos`, or the sum does not fit. With
    /// a correct hint it is the rank of `pos`.
    fn rank_hinted(&self, pos: usize, hint_pos: usize, hint_rank: usize) -> (r: Option<usize>)
        requires
            self.wf(),
        ensures
            r is Some <==> pos <= self.bits().len() && hint_pos * HINT_BIT_SIZE <= pos
                && hint_rank + rank_of(self.bits(), pos as int) - rank_of(
                self.bits(),
                hint_pos * HINT_BIT_SIZE,
            ) <= usize::MAX,
            r matches Some(v) ==> v == hint_rank + rank_of(self.bits(), pos as int) - rank_of(
                self.bits(),
                hint_pos * HINT_BIT_SIZE,
            ),
    ;
}

/// Select over a bit vector.
pub trait Select: BitCount {
    /// Returns the position of the one of given rank, or `None` if there are
    /// not that many ones.
    fn select(&self, rank: usize) -> (r: Option<usize>)
        requires
            self.wf(),
        ensures
            r is None <==> rank >= ones_of(self.bits()),
            r matches Some(p) ==> is_selected(self.bits(), rank as int, p as int),
    {
        if rank >= self.count_ones() {
            None
        } else {
            Some(self.select_unchecked(rank))
        }
    }

    /// Returns the position of the one of given rank, which must be less
    /// than the number of ones.
    fn select_unchecked(&self, rank: usize) -> (r: usize)
        requires
            self.wf(),
            rank < ones_of(self.bits()),
        ensures
            is_selected(self.bits(), rank as int, r as int),
    ;
}

/// Select of zeros over a bit vector.
pub trait SelectZero: BitCount {
    /// Returns the position of the zero of given rank, or `None` if there are
    /// not that many zeros.
    fn select_zero(&self, rank: usize) -> (r: Option<usize>)
        requires
            self.wf(),
        ensures
            r is None <==> rank >= zeros_of(self.bits()),
            r matches Some(p) ==> is_zero_selected(self.bits(), rank as int, p as int),
    {
        if rank >= self.count_zeros() {
            None
        } else {
            Some(self.select_zero_unchecked(rank))
        }
    }

    /// Returns the position of the zero of given rank, which must be less
    /// than the number of zeros.
    fn select_zero_unchecked(&self, rank: usize) -> (r: usize)
        requires
            self.wf(),
            rank < zeros_of(self.bits()),
        ensures
            is_zero_selected(self.bits(), rank as int, r as int),
    ;
}

/// Select over a bit vector, resuming from a known position and its rank.
pub trait SelectHinted: BitCount {
    /// Returns the position of the one of given rank, given the number of
    /// ones `hint_rank <= rank` preceding position `hint_pos`.
    fn select_hinted_unchecked(&self, rank: usize, hint_pos: usize, hint_rank: usize) -> (r: usize)
        requires
            self.wf(),
            rank < ones_of(self.bits()),
            hint_pos <= self.bits().len(),
            hint_rank == rank_of(self.bits(), hint_pos as int),
            hint_rank <= rank,
        ensures
            is_selected(self.bits(), rank as int, r as int),
    ;

    /// Returns the position of the one of rank `rank - hint_rank` among the
    /// ones at or after `hint_pos`, or `None` if there is none. With a
    /// correct hint it is the position of the one of rank `rank`.
    fn select_hinted(&self, rank: usize, hint_pos: usize, hint_rank: usize) -> (r: Option<usize>)
        requires
            self.wf(),
        ensures
            r is Some <==> hint_pos <= self.bits().len() && hint_rank <= rank && rank - hint_rank
                < ones_of(self.bits()) - rank_of(self.bits(), hint_pos as int),
            r matches Some(p) ==> is_selected_from(
                self.bits(),
                hint_pos as int,
                rank - hint_rank,
                p as int,
            ),
    ;
}

/// Select of zeros over a bit vector, resuming from a known position and its
/// rank among the zeros.
pub trait SelectZeroHinted: BitCount {
    /// Returns the position of the zero of given rank, given the number of
    /// zeros `hint_rank <= rank` preceding position `hint_pos`.
    fn select_zero_hinted_unchecked(&self, rank: usize, hint_pos: usize, hint_rank: usize) -> (r: usize)
        requires
            self.wf(),
            rank < zeros_of(self.bits()),
            hint_pos <= self.bits().len(),
            hint_rank == hint_pos - rank_of(self.bits(), hint_pos as int),
            hint_rank <= rank,
        ensures
            is_zero_selected(self.bits(), rank as int, r as int),
    ;

    /// Returns the position of the zero of rank `rank - hint_rank` among the
    /// zeros at or after `hint_pos`, or `None` if there is none. With a
    /// correct hint it is the position of the zero of rank `rank`.
    fn select_zero_hinted(&self, rank: usize, hint_pos: usize, hint_rank: usize) -> (r: Option<usize>)
        requires
            self.wf(),
        ensures
            r is Some <==> hint_pos <= self.bits().len() && hint_rank <= rank && rank - hint_rank
                < zeros_of(self.bits()) - (hint_pos - rank_of(self.bits(), hint_pos as int)),
            r matches Some(p) ==> is_selected_from(
                complement(self.bits()),
                hint_pos as int,
                rank - hint_rank,
                p as int,
            ),
    ;
}

} // verus!
