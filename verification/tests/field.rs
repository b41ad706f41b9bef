use ip_proofs::element::{bytes_copy, bytes_equal, subtract, Element, Module};
use ip_proofs::field::Scalar;
use rand::rngs::StdRng;
use rand::SeedableRng;

// The largest canonical representative: the field order less one.
const TOP: [u64; 4] = [
    0xffff_ffff_0000_0000,
    0x53bd_a402_fffe_5bfe,
    0x3339_d808_09a1_d805,
    0x73ed_a753_299d_7d48,
];

// The field order itself.
const ORDER: [u64; 4] = [
    0xffff_ffff_0000_0001,
    0x53bd_a402_fffe_5bfe,
    0x3339_d808_09a1_d805,
    0x73ed_a753_299d_7d48,
];

#[test]
fn scalar_sum_and_product() {
    let three = Scalar::from_u64(3);
    let four = Scalar::from_u64(4);
    assert_eq!(three.add(&four), Scalar::from_u64(7));
    assert_eq!(three.mul(&four), Scalar::from_u64(12));
    assert_eq!(Scalar::from_u64(7).sub(&four), three);
    assert_eq!(three.scale(&four), Scalar::from_u64(12));
}

#[test]
fn scalar_arithmetic_wraps_at_the_field_order() {
    let top = Scalar::from_limbs(TOP).unwrap();
    assert_eq!(top, Scalar::minus_one());
    assert_eq!(top.add(&Scalar::one()), Scalar::zero());
    assert_eq!(Scalar::zero().sub(&Scalar::one()), top);
    assert_eq!(Scalar::one().neg(), top);
    assert_eq!(top.mul(&top), Scalar::one());
    assert_eq!(subtract(&Scalar::from_u64(5), &Scalar::from_u64(7)), Scalar::from_u64(2).neg());
}

#[test]
fn scalar_limbs_below_the_order_only() {
    assert!(Scalar::from_limbs(ORDER).is_none());
    assert!(Scalar::from_limbs([0, 0, 0, 0x73ed_a753_299d_7d49]).is_none());
    assert!(Scalar::from_limbs([u64::MAX, u64::MAX, u64::MAX, u64::MAX]).is_none());
    let top = Scalar::from_limbs(TOP).unwrap();
    assert_eq!(top.limbs(), TOP);
    assert_eq!(Scalar::from_limbs([9, 0, 0, 0]).unwrap(), Scalar::from_u64(9));
    assert_eq!(Scalar::from_u64(u64::MAX).limbs(), [u64::MAX, 0, 0, 0]);
}

#[test]
fn scalar_inverse() {
    let two = Scalar::from_u64(2);
    let half = two.inverse().unwrap();
    assert_eq!(half.mul(&two), Scalar::one());
    assert_ne!(half, two);
    assert_eq!(Scalar::one().inverse().unwrap(), Scalar::one());
    assert!(Scalar::zero().inverse().is_none());
    assert!(Scalar::zero().is_zero());
    assert!(!two.is_zero());
}

#[test]
fn scalar_bytes_are_little_endian() {
    let mut expected = vec![0u8; 32];
    expected[0] = 0x02;
    expected[1] = 0x01;
    assert_eq!(Scalar::from_u64(0x0102).to_bytes(), expected);

    let top = Scalar::minus_one().to_bytes();
    assert_eq!(top.len(), 32);
    assert_eq!(&top[0..8], &[0, 0, 0, 0, 0xff, 0xff, 0xff, 0xff]);
    assert_eq!(top[31], 0x73);
    assert_eq!(top[24], 0x48);
}

#[test]
fn scalar_from_random_bytes_reads_little_endian() {
    let mut bytes = vec![0u8; 32];
    assert_eq!(Scalar::from_random_bytes(&bytes).unwrap(), Scalar::zero());
    bytes[0] = 7;
    bytes[1] = 1;
    assert_eq!(Scalar::from_random_bytes(&bytes).unwrap(), Scalar::from_u64(263));
    // A number that is not below the field order is rejected
    let all = vec![0xffu8; 32];
    assert!(Scalar::from_random_bytes(&all).is_none());
    let top = Scalar::minus_one().to_bytes();
    assert_eq!(Scalar::from_random_bytes(&top).unwrap(), Scalar::minus_one());
}

#[test]
fn scalar_from_random_bytes_takes_32_bytes_without_the_highest_bit() {
    // nothing, and fewer than 32 bytes, are filled up with zeros
    assert_eq!(Scalar::from_random_bytes(&[]).unwrap(), Scalar::zero());
    assert_eq!(Scalar::from_random_bytes(&[5, 1]).unwrap(), Scalar::from_u64(261));
    // what follows the first 32 bytes is not read
    let mut long = vec![0u8; 64];
    long[0] = 9;
    long[32] = 0xff;
    long[40] = 1;
    assert_eq!(Scalar::from_random_bytes(&long).unwrap(), Scalar::from_u64(9));
    // the highest bit of the 32 bytes is cleared
    let mut high = vec![0u8; 32];
    high[0] = 3;
    high[31] = 0x80;
    assert_eq!(Scalar::from_random_bytes(&high).unwrap(), Scalar::from_u64(3));
    // the order itself is not below the order
    let mut order = Scalar::minus_one().to_bytes();
    order[0] += 1;
    assert!(Scalar::from_random_bytes(&order).is_none());
    let mut shifted = Scalar::minus_one().to_bytes();
    shifted[31] |= 0x80;
    assert_eq!(Scalar::from_random_bytes(&shifted).unwrap(), Scalar::minus_one());
}

#[test]
fn scalar_random_draws_differ() {
    let mut rng = StdRng::seed_from_u64(0u64);
    let first = Scalar::random(&mut rng);
    let second = Scalar::random(&mut rng);
    assert_ne!(first, second);
    let mut again = StdRng::seed_from_u64(0u64);
    assert_eq!(Scalar::random(&mut again), first);
}

#[test]
fn scalar_equality_and_copies() {
    let a = Scalar::from_u64(11);
    assert!(a.is_equal(&a.duplicate()));
    assert!(!a.is_equal(&Scalar::from_u64(12)));
    assert_eq!(Scalar::zero(), Scalar::from_u64(0));
}

#[test]
fn byte_strings_compare_and_copy() {
    assert!(bytes_equal(&[1, 2, 3], &[1, 2, 3]));
    assert!(!bytes_equal(&[1, 2, 3], &[1, 2, 4]));
    assert!(!bytes_equal(&[1, 2, 3], &[1, 2]));
    assert!(bytes_equal(&[], &[]));
    assert_eq!(bytes_copy(&[5, 6, 7]), vec![5, 6, 7]);
}
