use sux::{
    BitCount, BitLength, BitMap, RankHinted, Select, SelectHinted, SelectZero, SelectZeroHinted,
};

fn bit_map_of(bits: &[bool]) -> BitMap {
    let mut b = BitMap::new(bits.len());
    for (i, &bit) in bits.iter().enumerate() {
        b.set(i, bit);
    }
    b
}

fn scenario_bits() -> BitMap {
    // Ones at positions 0, 2, 3 and 5 of eight bits.
    bit_map_of(&[true, false, true, true, false, true, false, false])
}

#[test]
fn new_is_all_zeros() {
    let b = BitMap::new(130);
    assert_eq!(b.len(), 130);
    assert_eq!(b.count_ones(), 0);
    assert_eq!(b.count_zeros(), 130);
    for i in 0..130 {
        assert!(!b.get(i));
    }
}

#[test]
fn empty_bit_map() {
    let b = BitMap::new(0);
    assert_eq!(b.len(), 0);
    assert_eq!(b.count_ones(), 0);
    assert_eq!(b.select(0), None);
    assert_eq!(b.select_zero(0), None);
}

#[test]
fn set_and_get_keep_count() {
    let mut b = BitMap::new(200);
    b.set(0, true);
    b.set(63, true);
    b.set(64, true);
    b.set(199, true);
    assert_eq!(b.count_ones(), 4);
    b.set(63, true);
    assert_eq!(b.count_ones(), 4);
    b.set(64, false);
    assert_eq!(b.count_ones(), 3);
    b.set(64, false);
    assert_eq!(b.count_ones(), 3);
    assert!(b.get(0));
    assert!(b.get(63));
    assert!(!b.get(64));
    assert!(b.get(199));
    assert!(!b.get(198));
    assert_eq!(b.count_zeros(), 197);
}

#[test]
fn select_small_scenario() {
    let b = scenario_bits();
    assert_eq!(b.select(0), Some(0));
    assert_eq!(b.select(1), Some(2));
    assert_eq!(b.select(2), Some(3));
    assert_eq!(b.select(3), Some(5));
    assert_eq!(b.select(4), None);
}

#[test]
fn select_zero_small_scenario() {
    let b = scenario_bits();
    assert_eq!(b.count_zeros(), 4);
    assert_eq!(b.select_zero(0), Some(1));
    assert_eq!(b.select_zero(1), Some(4));
    assert_eq!(b.select_zero(2), Some(6));
    assert_eq!(b.select_zero(3), Some(7));
    assert_eq!(b.select_zero(4), None);
}

#[test]
fn select_inside_a_word_uses_in_word_position() {
    let mut b = BitMap::new(64);
    b.set(5, true);
    b.set(9, true);
    b.set(40, true);
    assert_eq!(b.select(0), Some(5));
    assert_eq!(b.select(1), Some(9));
    assert_eq!(b.select(2), Some(40));
    assert_eq!(b.count_ones(), 3);
}

#[test]
fn select_across_words() {
    let mut b = BitMap::new(1000);
    for p in [0, 63, 64, 127, 128, 500, 999] {
        b.set(p, true);
    }
    let expected = [0, 63, 64, 127, 128, 500, 999];
    for (k, &p) in expected.iter().enumerate() {
        assert_eq!(b.select(k), Some(p));
        assert_eq!(b.select_unchecked(k), p);
    }
    assert_eq!(b.select(7), None);
}

#[test]
fn select_zero_ignores_padding() {
    // 70 ones: the zeros in the padding of the last word are not bits.
    let b = bit_map_of(&vec![true; 70]);
    assert_eq!(b.count_zeros(), 0);
    assert_eq!(b.select_zero(0), None);
    let mut c = bit_map_of(&vec![true; 70]);
    c.set(69, false);
    assert_eq!(c.select_zero(0), Some(69));
    assert_eq!(c.select_zero(1), None);
}

#[test]
fn select_hinted_from_a_known_one() {
    let b = scenario_bits();
    // Two ones precede position 3.
    assert_eq!(b.select_hinted_unchecked(3, 3, 2), 5);
    assert_eq!(b.select_hinted(3, 3, 2), Some(5));
    assert_eq!(b.select_hinted(2, 3, 2), Some(3));
    // Past the ones after the hint.
    assert_eq!(b.select_hinted(4, 3, 2), None);
    // A hint rank above the rank, and a hint position past the length.
    assert_eq!(b.select_hinted(1, 3, 2), None);
    assert_eq!(b.select_hinted(1, 9, 0), None);
}

#[test]
fn select_zero_hinted_from_a_known_zero() {
    let b = scenario_bits();
    // One zero precedes position 2.
    assert_eq!(b.select_zero_hinted_unchecked(2, 2, 1), 6);
    assert_eq!(b.select_zero_hinted(3, 2, 1), Some(7));
    assert_eq!(b.select_zero_hinted(4, 2, 1), None);
    assert_eq!(b.select_zero_hinted(0, 2, 1), None);
    assert_eq!(b.select_zero_hinted(0, 9, 0), None);
}

#[test]
fn rank_hinted_counts_from_the_hint_word() {
    let mut b = BitMap::new(300);
    for p in [1, 2, 70, 128, 129, 250] {
        b.set(p, true);
    }
    assert_eq!(RankHinted::<64>::rank_hinted_unchecked(&b, 0, 0, 0), 0);
    assert_eq!(RankHinted::<64>::rank_hinted_unchecked(&b, 2, 0, 0), 1);
    assert_eq!(RankHinted::<64>::rank_hinted_unchecked(&b, 129, 0, 0), 4);
    assert_eq!(RankHinted::<64>::rank_hinted_unchecked(&b, 129, 2, 3), 4);
    assert_eq!(RankHinted::<64>::rank_hinted_unchecked(&b, 300, 1, 2), 6);
    assert_eq!(RankHinted::<64>::rank_hinted(&b, 251, 2, 3), Some(6));
    assert_eq!(RankHinted::<64>::rank_hinted(&b, 251, 2, 100), Some(103));
    assert_eq!(RankHinted::<64>::rank_hinted(&b, 301, 0, 0), None);
    assert_eq!(RankHinted::<64>::rank_hinted(&b, 100, 2, 0), None);
    assert_eq!(RankHinted::<64>::rank_hinted(&b, 251, 2, usize::MAX), None);
}

#[test]
fn as_ref_exposes_the_words() {
    let mut b = BitMap::new(130);
    b.set(0, true);
    b.set(65, true);
    b.set(129, true);
    assert_eq!(b.as_ref(), &[1u64, 2u64, 2u64][..]);
}
