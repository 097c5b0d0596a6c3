use rand::rngs::SmallRng;
use rand::Rng;
use rand::SeedableRng;
use sux::{BitCount, BitLength, BitMap, Rank10Sel, Select, SelectAdapt, SelectAdaptConst};

fn bit_map_of(bits: &[bool]) -> BitMap {
    let mut b = BitMap::new(bits.len());
    for (i, &bit) in bits.iter().enumerate() {
        if bit {
            b.set(i, true);
        }
    }
    b
}

fn positions(bits: &[bool]) -> Vec<usize> {
    (0..bits.len()).filter(|&i| bits[i]).collect()
}

#[test]
fn select_adapt_small_scenario() {
    let b = bit_map_of(&[true, false, true, true, false, true, false, false]);
    let s = SelectAdapt::with_inv(b, 1, 1);
    assert_eq!(s.count_ones(), 4);
    assert_eq!(s.len(), 8);
    assert_eq!(s.select(0), Some(0));
    assert_eq!(s.select(1), Some(2));
    assert_eq!(s.select(2), Some(3));
    assert_eq!(s.select(3), Some(5));
    assert_eq!(s.select(4), None);
}

#[test]
fn select_adapt_empty_all_ones_all_zeros() {
    let e = SelectAdapt::with_inv(BitMap::new(0), 10, 3);
    assert_eq!(e.select(0), None);
    let len = 300_000;
    let ones = SelectAdapt::with_inv(bit_map_of(&vec![true; len]), 10, 3);
    assert_eq!(ones.select(0), Some(0));
    assert_eq!(ones.select(1), Some(1));
    assert_eq!(ones.select(299_999), Some(299_999));
    assert_eq!(ones.select(300_000), None);
    let zeros = SelectAdapt::with_inv(bit_map_of(&vec![false; len]), 10, 3);
    assert_eq!(zeros.select(0), None);
}

#[test]
fn select_adapt_sparse_spans() {
    // 64 ones spread over 2^20 bits: with a primary entry every 8 ones each
    // span is longer than 2^16 bits, so the samples are stored in full.
    let len = 1 << 20;
    let step = len / 64;
    let mut b = BitMap::new(len);
    for i in 0..64 {
        b.set(i * step, true);
    }
    let s = SelectAdapt::with_inv(b.clone(), 3, 1);
    assert_eq!(s.select(63), Some(63 * step));
    for k in 0..64 {
        assert_eq!(s.select(k), Some(k * step));
    }
    let c: SelectAdaptConst<3, 3> = SelectAdaptConst::new(b);
    assert_eq!(c.select(63), Some(63 * step));
    assert_eq!(c.select(64), None);
}

#[test]
fn select_adapt_non_uniform() {
    let len = 1 << 21;
    let mut rng = SmallRng::seed_from_u64(0);
    let mut v: Vec<bool> = (0..len / 2).map(|_| rng.gen_bool(0.005)).collect();
    v.extend((0..len / 2).map(|_| rng.gen_bool(0.495)));
    let pos = positions(&v);
    let b = bit_map_of(&v);
    let s = SelectAdapt::with_inv(b.clone(), 10, 2);
    let c: SelectAdaptConst<12, 3> = SelectAdaptConst::new(b);
    for (k, &p) in pos.iter().enumerate() {
        assert_eq!(s.select(k), Some(p));
        assert_eq!(c.select(k), Some(p));
    }
    assert_eq!(s.select(pos.len()), None);
    assert_eq!(c.select(pos.len()), None);
}

#[test]
fn select_adapt_agrees_with_rank10sel() {
    for (len, density, seed) in [(10_000, 0.5, 11), (200_000, 0.001, 12), (50_000, 0.97, 13)] {
        let mut rng = SmallRng::seed_from_u64(seed);
        let v: Vec<bool> = (0..len).map(|_| rng.gen_bool(density)).collect();
        let b = bit_map_of(&v);
        let a = SelectAdapt::with_inv(b.clone(), 8, 2);
        let z = SelectAdapt::with_inv(b.clone(), 0, 0);
        let c: SelectAdaptConst<9, 4> = SelectAdaptConst::new(b.clone());
        let r: Rank10Sel<8, 9> = Rank10Sel::new(b);
        let ones = r.count_ones();
        for k in 0..=ones {
            let expected = r.select(k);
            assert_eq!(a.select(k), expected);
            assert_eq!(z.select(k), expected);
            assert_eq!(c.select(k), expected);
        }
    }
}
