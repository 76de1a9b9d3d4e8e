use merkle_path_auth::field::{pack_bits_into_fe, Fe, FE_BITS};
use merkle_path_auth::utils::{BitIteratorLe, GetBits, GetBitsFixed};

#[test]
fn zero_has_no_set_bits() {
    let z = Fe::zero();
    let bits = z.get_bits_le_fixed(FE_BITS);
    assert_eq!(bits.len(), FE_BITS);
    assert!(bits.iter().all(|b| !b));
}

#[test]
fn from_u64_matches_binary_expansion() {
    let x = Fe::from_u64(0b1011);
    let bits = x.get_bits_le_fixed(8);
    assert_eq!(bits, vec![true, true, false, true, false, false, false, false]);
}

#[test]
fn from_u128_splits_across_limbs() {
    let v: u128 = (1u128 << 100) | 0b101;
    let x = Fe::from_u128(v);
    let bits = x.get_bits_le_fixed(128);
    for i in 0..128 {
        assert_eq!(bits[i], (v >> i) & 1 == 1, "bit {}", i);
    }
}

#[test]
fn decompose_then_pack_round_trips() {
    // 684 == 0x2AC fits in ten bits.
    let x = Fe::from_u64(684);
    let bits = x.get_bits_le_fixed(10);
    assert_eq!(bits.len(), 10);
    let back = pack_bits_into_fe(&bits);
    assert!(back == x);
}

#[test]
fn fixed_length_pads_beyond_magnitude() {
    let x = Fe::from_u64(1);
    let bits = x.get_bits_le_fixed(300);
    assert_eq!(bits.len(), 300);
    assert!(bits[0]);
    assert!(bits[1..].iter().all(|b| !b));
}

#[test]
fn pack_empty_bits_is_zero() {
    let bits: Vec<bool> = Vec::new();
    let z = pack_bits_into_fe(&bits);
    assert!(z == Fe::zero());
}

#[test]
fn field_equality_is_by_value() {
    assert!(Fe::from_u64(7) == Fe::from_u64(7));
    assert!(Fe::from_u64(7) != Fe::from_u64(8));
}

#[test]
fn bit_iterator_walks_limbs_little_endian() {
    let mut it = BitIteratorLe::new(vec![5u64, 1u64]);
    assert_eq!(it.next(), Some(true));
    assert_eq!(it.next(), Some(false));
    assert_eq!(it.next(), Some(true));
    for _ in 3..64 {
        assert_eq!(it.next(), Some(false));
    }
    assert_eq!(it.next(), Some(true));
    for _ in 65..128 {
        assert_eq!(it.next(), Some(false));
    }
    assert_eq!(it.next(), None);
    assert_eq!(it.next(), None);
}

#[test]
fn u64_bits_are_of_the_successor() {
    let bits = 5u64.get_bits_le();
    assert_eq!(bits.len(), 16);
    // 6 == 0b110
    assert_eq!(bits[0], false);
    assert_eq!(bits[1], true);
    assert_eq!(bits[2], true);
    assert!(bits[3..].iter().all(|b| !b));
}
