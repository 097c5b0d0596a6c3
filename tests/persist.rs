use sux::{BitCount, BitLength, BitMap, Select};

fn scenario_bits() -> BitMap {
    let mut b = BitMap::new(8);
    for p in [0, 2, 3, 5] {
        b.set(p, true);
    }
    b
}

fn le(x: u64) -> Vec<u8> {
    x.to_le_bytes().to_vec()
}

#[test]
fn serialize_writes_length_count_and_words() {
    let bytes = scenario_bits().serialize();
    let mut expected = le(8);
    expected.extend(le(4));
    expected.extend(le(0b101101));
    assert_eq!(bytes, expected);
}

#[test]
fn serialize_empty() {
    let bytes = BitMap::new(0).serialize();
    assert_eq!(bytes, vec![0u8; 16]);
    let (b, used) = BitMap::deserialize(&bytes).unwrap();
    assert_eq!(used, 16);
    assert_eq!(b.len(), 0);
    assert_eq!(b.count_ones(), 0);
}

#[test]
fn deserialize_round_trip() {
    let mut b = BitMap::new(200);
    for p in [0, 1, 63, 64, 150, 199] {
        b.set(p, true);
    }
    let mut bytes = b.serialize();
    assert_eq!(bytes.len(), 16 + 8 * 4);
    bytes.extend([9u8, 9, 9]);
    let (c, used) = BitMap::deserialize(&bytes).unwrap();
    assert_eq!(used, 48);
    assert_eq!(c.len(), 200);
    assert_eq!(c.count_ones(), 6);
    assert_eq!(c.as_ref(), b.as_ref());
    assert_eq!(c.select(4), Some(150));
}

#[test]
fn deserialize_rejects_short_input() {
    assert!(BitMap::deserialize(&[0u8; 15]).is_none());
    let bytes = scenario_bits().serialize();
    assert!(BitMap::deserialize(&bytes[..23]).is_none());
}

#[test]
fn deserialize_rejects_ones_past_the_length() {
    let mut bytes = le(8);
    bytes.extend(le(5));
    bytes.extend(le(0b1_0010_1101));
    assert!(BitMap::deserialize(&bytes).is_none());
}

#[test]
fn deserialize_rejects_a_wrong_count() {
    let mut bytes = le(8);
    bytes.extend(le(3));
    bytes.extend(le(0b101101));
    assert!(BitMap::deserialize(&bytes).is_none());
}

#[test]
fn deserialize_rejects_a_huge_length() {
    let mut bytes = le(u64::MAX);
    bytes.extend(le(0));
    assert!(BitMap::deserialize(&bytes).is_none());
}

#[test]
fn from_raw_parts_takes_the_words() {
    let b = BitMap::from_raw_parts(vec![0b101101, 1], 65, 5);
    assert_eq!(b.len(), 65);
    assert_eq!(b.count_ones(), 5);
    assert_eq!(b.select(3), Some(5));
    assert_eq!(b.select(4), Some(64));
}
