use rand::rngs::SmallRng;
use rand::Rng;
use rand::SeedableRng;
use sux::{
    BitCount, BitLength, BitMap, Rank, Rank10, Rank10Sel, RankZero, Select, SelectZero,
};

fn bit_map_of(bits: &[bool]) -> BitMap {
    let mut b = BitMap::new(bits.len());
    for (i, &bit) in bits.iter().enumerate() {
        if bit {
            b.set(i, true);
        }
    }
    b
}

fn random_bits(len: usize, density: f64, seed: u64) -> Vec<bool> {
    let mut rng = SmallRng::seed_from_u64(seed);
    (0..len).map(|_| rng.gen_bool(density)).collect()
}

fn naive_rank(bits: &[bool], p: usize) -> usize {
    bits.iter().take(p).filter(|&&b| b).count()
}

#[test]
fn scenario_rank_small() {
    let b = bit_map_of(&[true, false, true, true, false, true, false, false]);
    let r: Rank10Sel<8, 9> = Rank10Sel::new(b);
    assert_eq!(r.rank(0), 0);
    assert_eq!(r.rank(1), 1);
    assert_eq!(r.rank(3), 2);
    assert_eq!(r.rank(5), 3);
    assert_eq!(r.rank(6), 4);
    assert_eq!(r.rank(100), 4);
    assert_eq!(r.select(0), Some(0));
    assert_eq!(r.select(1), Some(2));
    assert_eq!(r.select(2), Some(3));
    assert_eq!(r.select(3), Some(5));
}

#[test]
fn scenario_all_ones_and_all_zeros() {
    let len = 300_000;
    let ones = bit_map_of(&vec![true; len]);
    assert_eq!(ones.select(0), Some(0));
    assert_eq!(ones.select(1), Some(1));
    assert_eq!(ones.select(299_999), Some(299_999));
    let r: Rank10Sel<9, 12> = Rank10Sel::new(ones);
    assert_eq!(r.select(0), Some(0));
    assert_eq!(r.select(1), Some(1));
    assert_eq!(r.select(299_999), Some(299_999));
    assert_eq!(r.select(300_000), None);
    let zeros = bit_map_of(&vec![false; len]);
    assert_eq!(zeros.select(0), None);
    let z: Rank10Sel<10, 12> = Rank10Sel::new(zeros);
    assert_eq!(z.select(0), None);
    assert_eq!(z.rank(len), 0);
}

#[test]
fn scenario_sparse_ones() {
    let len = 1 << 20;
    let step = len / 64;
    let mut b = BitMap::new(len);
    for i in 0..64 {
        b.set(i * step, true);
    }
    let r: Rank10Sel<8, 12> = Rank10Sel::new(b.clone());
    assert_eq!(r.select(63), Some(63 * step));
    assert_eq!(b.select(63), Some(63 * step));
    assert_eq!(r.count_ones(), 64);
}

#[test]
fn rank_select_duality() {
    let v = random_bits(5000, 0.3, 1);
    let r: Rank10Sel<8, 9> = Rank10Sel::new(bit_map_of(&v));
    let ones = r.count_ones();
    assert!(ones > 0);
    for k in 0..ones {
        let p = r.select(k).unwrap();
        assert_eq!(r.rank(p), k);
        assert!(v[p]);
    }
    for p in 0..v.len() {
        let k = r.rank(p);
        if k < ones {
            let q = r.select(k).unwrap();
            assert!(q >= p);
            if v[p] {
                assert_eq!(q, p);
            }
        }
    }
}

#[test]
fn rank_and_select_are_monotonic() {
    let v = random_bits(3000, 0.5, 2);
    let r: Rank10Sel<9, 9> = Rank10Sel::new(bit_map_of(&v));
    for p in 1..=v.len() {
        assert!(r.rank(p - 1) <= r.rank(p));
    }
    for k in 1..r.count_ones() {
        assert!(r.select(k - 1).unwrap() < r.select(k).unwrap());
    }
}

#[test]
fn rank_saturates_past_the_length() {
    let v = random_bits(777, 0.4, 3);
    let r: Rank10Sel<8, 9> = Rank10Sel::new(bit_map_of(&v));
    let ones = v.iter().filter(|&&b| b).count();
    assert_eq!(r.count_ones(), ones);
    assert_eq!(r.rank(777), ones);
    assert_eq!(r.rank(778), ones);
    assert_eq!(r.rank(usize::MAX), ones);
    assert_eq!(r.rank_zero(800), 800 - ones);
    assert_eq!(r.rank_zero_unchecked(777), 777 - ones);
}

#[test]
fn implementations_agree_on_select() {
    for (len, density, seed) in [(4097, 0.5, 4), (70_000, 0.01, 5), (20_000, 0.9, 6)] {
        let v = random_bits(len, density, seed);
        let b = bit_map_of(&v);
        let a: Rank10Sel<8, 9> = Rank10Sel::new(b.clone());
        let c: Rank10Sel<10, 12> = Rank10Sel::new(b.clone());
        let d: Rank10Sel<9, 4> = Rank10Sel::new(b.clone());
        let ones = b.count_ones();
        for k in (0..ones).step_by(7) {
            let expected = b.select(k);
            assert!(expected.is_some());
            assert_eq!(a.select(k), expected);
            assert_eq!(c.select(k), expected);
            assert_eq!(d.select(k), expected);
        }
        assert_eq!(a.select(ones), None);
        assert_eq!(c.select(ones), None);
        assert_eq!(d.select(ones), None);
    }
}

#[test]
fn select_zero_is_select_on_the_complement() {
    let v = random_bits(1000, 0.6, 7);
    let b = bit_map_of(&v);
    let flipped: Vec<bool> = v.iter().map(|&x| !x).collect();
    let c = bit_map_of(&flipped);
    assert_eq!(b.count_zeros(), c.count_ones());
    for k in 0..=b.count_zeros() {
        assert_eq!(b.select_zero(k), c.select(k));
    }
}

#[test]
fn build_counts_match_naive_counts() {
    for len in [0, 1, 63, 64, 65, 255, 256, 257, 1023, 1024, 1025, 4096, 10_001] {
        let v = random_bits(len, 0.5, len as u64);
        let b = bit_map_of(&v);
        assert_eq!(b.count_ones(), naive_rank(&v, len));
        let r: Rank10<8> = Rank10::new(b.clone());
        assert_eq!(r.count_ones(), naive_rank(&v, len));
        assert_eq!(r.len(), len);
        let mut block = 0;
        while block * 256 <= len {
            let upper = r.upper(0);
            let lower = r.lower(block);
            assert_eq!(upper as usize + lower as usize, naive_rank(&v, block * 256));
            for k in 1..=3 {
                let basic = r.basic(block, k);
                assert_eq!(
                    lower as usize + basic as usize,
                    naive_rank(&v, block * 256 + k * 64)
                );
            }
            block += 1;
        }
        for p in 0..=len {
            assert_eq!(r.rank(p), naive_rank(&v, p));
        }
    }
}

#[test]
fn single_one_at_boundaries() {
    for len in [1, 64, 65, 128, 513, 1025] {
        for p in [0, len - 1, 63, 64, 255, 256, 511, 512, 1023, 1024] {
            if p >= len {
                continue;
            }
            let mut b = BitMap::new(len);
            b.set(p, true);
            let r: Rank10Sel<8, 9> = Rank10Sel::new(b.clone());
            assert_eq!(r.count_ones(), 1);
            assert_eq!(r.select(0), Some(p));
            assert_eq!(r.select(1), None);
            assert_eq!(r.rank(p), 0);
            assert_eq!(r.rank(p + 1), 1);
            assert_eq!(b.select(0), Some(p));
        }
    }
}
