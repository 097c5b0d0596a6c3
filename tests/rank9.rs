use rand::rngs::SmallRng;
use rand::Rng;
use rand::SeedableRng;
use sux::{BitCount, BitLength, BitMap, Rank, Rank10Sel, Rank9, RankZero, Select, Select9};

fn bit_map_of(bits: &[bool]) -> BitMap {
    let mut b = BitMap::new(bits.len());
    for (i, &bit) in bits.iter().enumerate() {
        if bit {
            b.set(i, true);
        }
    }
    b
}

fn naive_rank(bits: &[bool], p: usize) -> usize {
    bits.iter().take(p).filter(|&&b| b).count()
}

#[test]
fn rank9_small_scenario() {
    let r = Rank9::new(bit_map_of(&[true, false, true, true, false, true, false, false]));
    assert_eq!(r.rank(0), 0);
    assert_eq!(r.rank(1), 1);
    assert_eq!(r.rank(3), 2);
    assert_eq!(r.rank(5), 3);
    assert_eq!(r.rank(6), 4);
    assert_eq!(r.rank(100), 4);
    assert_eq!(r.rank_zero(8), 4);
}

#[test]
fn rank9_counts_match_naive_counts() {
    for len in [0, 1, 63, 64, 511, 512, 513, 1024, 5000] {
        let mut rng = SmallRng::seed_from_u64(len as u64);
        let v: Vec<bool> = (0..len).map(|_| rng.gen_bool(0.5)).collect();
        let r = Rank9::new(bit_map_of(&v));
        assert_eq!(r.len(), len);
        assert_eq!(r.count_ones(), naive_rank(&v, len));
        for b in 0..=len / 512 {
            assert_eq!(r.block_count(b) as usize, naive_rank(&v, 512 * b));
            for j in 0..8 {
                assert_eq!(
                    r.block_count(b) as usize + r.word_count(b, j) as usize,
                    naive_rank(&v, 512 * b + 64 * j)
                );
            }
        }
        for p in 0..=len + 1 {
            assert_eq!(r.rank(p), naive_rank(&v, p));
        }
    }
}

#[test]
fn select9_small_scenario() {
    let r = Rank9::new(bit_map_of(&[true, false, true, true, false, true, false, false]));
    let s: Select9<12> = Select9::new(r);
    assert_eq!(s.select(0), Some(0));
    assert_eq!(s.select(1), Some(2));
    assert_eq!(s.select(2), Some(3));
    assert_eq!(s.select(3), Some(5));
    assert_eq!(s.select(4), None);
    assert_eq!(s.rank(6), 4);
}

#[test]
fn select9_boundaries() {
    let len = 300_000;
    let ones: Select9<12> = Select9::new(Rank9::new(bit_map_of(&vec![true; len])));
    assert_eq!(ones.select(0), Some(0));
    assert_eq!(ones.select(1), Some(1));
    assert_eq!(ones.select(299_999), Some(299_999));
    assert_eq!(ones.select(300_000), None);
    let zeros: Select9<12> = Select9::new(Rank9::new(bit_map_of(&vec![false; len])));
    assert_eq!(zeros.select(0), None);
    let empty: Select9<12> = Select9::new(Rank9::new(BitMap::new(0)));
    assert_eq!(empty.select(0), None);
    assert_eq!(empty.len(), 0);
}

#[test]
fn select9_agrees_with_rank10sel() {
    for (len, density, seed) in [(1 << 20, 0.0001, 21), (100_000, 0.5, 22), (30_000, 0.99, 23)] {
        let mut rng = SmallRng::seed_from_u64(seed);
        let v: Vec<bool> = (0..len).map(|_| rng.gen_bool(density)).collect();
        let b = bit_map_of(&v);
        let s: Select9<9> = Select9::new(Rank9::new(b.clone()));
        let t: Select9<4> = Select9::new(Rank9::new(b.clone()));
        let r: Rank10Sel<10, 12> = Rank10Sel::new(b);
        let ones = r.count_ones();
        assert_eq!(s.count_ones(), ones);
        for k in 0..=ones {
            let expected = r.select(k);
            assert_eq!(s.select(k), expected);
            assert_eq!(t.select(k), expected);
        }
    }
}
