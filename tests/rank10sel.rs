use rand::rngs::SmallRng;
use rand::Rng;
use rand::SeedableRng;
use sux::{BitCount, BitLength, BitMap, Rank10Sel, Select};

const TEST_LOG2_LOWER_BLOCK_SIZE: usize = 8;
const TEST_LOG2_ONES_PER_INVENTORY: usize = 9;

fn bit_map_of(bits: &[bool]) -> BitMap {
    let mut b = BitMap::new(bits.len());
    for (i, &bit) in bits.iter().enumerate() {
        if bit {
            b.set(i, true);
        }
    }
    b
}

fn positions_of_ones(bits: &BitMap) -> Vec<usize> {
    let mut pos = Vec::with_capacity(bits.count_ones());
    for i in 0..bits.len() {
        if bits.get(i) {
            pos.push(i);
        }
    }
    pos
}

#[test]
fn test_rank10sel() {
    let mut rng = SmallRng::seed_from_u64(0);
    let density = 0.5;
    let lens = (1..1000).chain((1000..10000).step_by(100));
    for len in lens {
        let v: Vec<bool> = (0..len).map(|_| rng.gen_bool(density)).collect();
        let bits = bit_map_of(&v);
        let rank10sel: Rank10Sel<TEST_LOG2_LOWER_BLOCK_SIZE, TEST_LOG2_ONES_PER_INVENTORY> =
            Rank10Sel::new(bits.clone());

        let ones = bits.count_ones();
        let pos = positions_of_ones(&bits);

        for i in 0..ones {
            assert_eq!(rank10sel.select(i), Some(pos[i]));
        }
        assert_eq!(rank10sel.select(ones + 1), None);
    }
}

#[test]
fn test_rank10sel_mult_usize() {
    let mut rng = SmallRng::seed_from_u64(0);
    let density = 0.5;
    for len in (1 << 10..1 << 15).step_by(usize::BITS as _) {
        let v: Vec<bool> = (0..len).map(|_| rng.gen_bool(density)).collect();
        let bits = bit_map_of(&v);
        let rank10sel: Rank10Sel<TEST_LOG2_LOWER_BLOCK_SIZE, TEST_LOG2_ONES_PER_INVENTORY> =
            Rank10Sel::new(bits.clone());

        let ones = bits.count_ones();
        let pos = positions_of_ones(&bits);

        for i in 0..ones {
            assert_eq!(rank10sel.select(i), Some(pos[i]));
        }
        assert_eq!(rank10sel.select(ones + 1), None);
    }
}

#[test]
fn test_rank10sel_empty() {
    let bits = BitMap::new(0);
    let rank10sel: Rank10Sel<TEST_LOG2_LOWER_BLOCK_SIZE, TEST_LOG2_ONES_PER_INVENTORY> =
        Rank10Sel::new(bits.clone());
    assert_eq!(rank10sel.count_ones(), 0);
    assert_eq!(rank10sel.len(), 0);
    assert_eq!(rank10sel.select(0), None);
}

#[test]
fn test_rank10sel_ones() {
    let len = 300_000;
    let bits = bit_map_of(&vec![true; len]);
    let rank10sel: Rank10Sel<TEST_LOG2_LOWER_BLOCK_SIZE, TEST_LOG2_ONES_PER_INVENTORY> =
        Rank10Sel::new(bits);
    assert_eq!(rank10sel.count_ones(), len);
    assert_eq!(rank10sel.len(), len);
    for i in 0..len {
        assert_eq!(rank10sel.select(i), Some(i));
    }
}

#[test]
fn test_rank10sel_zeros() {
    let len = 300_000;
    let bits = bit_map_of(&vec![false; len]);
    let rank10sel: Rank10Sel<TEST_LOG2_LOWER_BLOCK_SIZE, TEST_LOG2_ONES_PER_INVENTORY> =
        Rank10Sel::new(bits);
    assert_eq!(rank10sel.count_ones(), 0);
    assert_eq!(rank10sel.len(), len);
    assert_eq!(rank10sel.select(0), None);
}

#[test]
fn test_rank10sel_few_ones() {
    let lens = [1 << 18, 1 << 19, 1 << 20];
    for len in lens {
        for num_ones in [1, 2, 4, 8, 16, 32, 64, 128, 256] {
            let v: Vec<bool> = (0..len).map(|i| i % (len / num_ones) == 0).collect();
            let bits = bit_map_of(&v);
            let rank10sel: Rank10Sel<TEST_LOG2_LOWER_BLOCK_SIZE, TEST_LOG2_ONES_PER_INVENTORY> =
                Rank10Sel::new(bits);
            assert_eq!(rank10sel.count_ones(), num_ones);
            assert_eq!(rank10sel.len(), len);
            for i in 0..num_ones {
                assert_eq!(rank10sel.select(i), Some(i * (len / num_ones)));
            }
        }
    }
}

#[test]
fn test_rank10sel_non_uniform() {
    let lens = [1 << 18, 1 << 19, 1 << 20, 1 << 25];

    let mut rng = SmallRng::seed_from_u64(0);
    for len in lens {
        for density in [0.5] {
            let density0 = density * 0.01;
            let density1 = density * 0.99;

            let len1;
            let len2;
            if len % 2 != 0 {
                len1 = len / 2 + 1;
                len2 = len / 2;
            } else {
                len1 = len / 2;
                len2 = len / 2;
            }

            let first_half = loop {
                let b: Vec<bool> = (0..len1).map(|_| rng.gen_bool(density0)).collect();
                if b.iter().any(|&x| x) {
                    break b;
                }
            };
            let num_ones_first_half = first_half.iter().filter(|&&x| x).count();
            let second_half: Vec<bool> = (0..len2).map(|_| rng.gen_bool(density1)).collect();
            let num_ones_second_half = second_half.iter().filter(|&&x| x).count();

            assert!(num_ones_first_half > 0);
            assert!(num_ones_second_half > 0);

            let all: Vec<bool> = first_half.into_iter().chain(second_half).collect();
            let bits = bit_map_of(&all);

            assert_eq!(
                num_ones_first_half + num_ones_second_half,
                bits.count_ones()
            );

            assert_eq!(bits.len(), len as usize);

            let ones = bits.count_ones();
            let pos = positions_of_ones(&bits);

            let rank10sel: Rank10Sel<TEST_LOG2_LOWER_BLOCK_SIZE, TEST_LOG2_ONES_PER_INVENTORY> =
                Rank10Sel::new(bits);

            for i in 0..ones {
                assert!(rank10sel.select(i) == Some(pos[i]));
            }
            assert_eq!(rank10sel.select(ones + 1), None);
        }
    }
}
