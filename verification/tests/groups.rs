use ark_bls12_381::{Fq, Fq2, G1Affine, G2Affine};
use ark_ec::AffineRepr;
use ark_serialize::CanonicalSerialize;
use ip_proofs::element::{subtract, Element, Module};
use ip_proofs::field::Scalar;
use ip_proofs::gipa::InnerProductArgumentError;
use ip_proofs::groups::{multi_scalar_mul, pairing, Gt, G1, G2};
use rand::rngs::StdRng;
use rand::SeedableRng;

#[test]
fn g1_sums_and_multiples() {
    let g = G1::generator();
    let two = g.add(&g);
    assert_ne!(two, g);
    assert_eq!(two, g.scale(&Scalar::from_u64(2)));
    assert_eq!(two, G1::multiple_of_generator(&Scalar::from_u64(2)));
    assert_eq!(two.add(&g), G1::multiple_of_generator(&Scalar::from_u64(3)));
    assert_eq!(G1::zero().add(&g), g);
    assert_eq!(g.scale(&Scalar::zero()), G1::zero());
    assert_eq!(subtract(&two, &g), g);
    assert!(g.is_equal(&g.duplicate()));
    assert!(!g.is_equal(&two));
    assert_eq!(g.clone(), g);
}

#[test]
fn g2_sums_and_multiples() {
    let h = G2::generator();
    let two = h.add(&h);
    assert_ne!(two, h);
    assert_eq!(two, h.scale(&Scalar::from_u64(2)));
    assert_eq!(G2::multiple_of_generator(&Scalar::from_u64(5)), two.add(&two).add(&h));
    assert_eq!(G2::zero().add(&h), h);
    assert_eq!(subtract(&two, &h), h);
}

#[test]
fn gt_sums_and_multiples() {
    let e = Gt::generator();
    let two = e.add(&e);
    assert_ne!(two, e);
    assert_eq!(two, e.scale(&Scalar::from_u64(2)));
    assert_eq!(Gt::multiple_of_generator(&Scalar::from_u64(3)), two.add(&e));
    assert_eq!(Gt::zero().add(&e), e);
}

#[test]
fn pairing_is_bilinear() {
    let g = G1::generator();
    let h = G2::generator();
    assert_eq!(pairing(&g, &h), Gt::generator());
    let left = pairing(&g.scale(&Scalar::from_u64(2)), &h.scale(&Scalar::from_u64(3)));
    assert_eq!(left, Gt::multiple_of_generator(&Scalar::from_u64(6)));
    assert_eq!(pairing(&G1::zero(), &h), Gt::zero());
}

#[test]
fn elements_come_back_from_their_bytes() {
    let mut rng = StdRng::seed_from_u64(0u64);
    let p = G1::random(&mut rng);
    let q = G2::random(&mut rng);
    let t = pairing(&p, &q);
    assert_eq!(p.to_bytes().len(), 96);
    assert_eq!(q.to_bytes().len(), 192);
    assert_eq!(t.to_bytes().len(), 576);
    assert_eq!(G1::from_bytes(&p.to_bytes()).unwrap(), p);
    assert_eq!(G2::from_bytes(&q.to_bytes()).unwrap(), q);
    assert_eq!(Gt::from_bytes(&t.to_bytes()).unwrap(), t);
}

#[test]
fn bytes_that_encode_nothing_are_refused() {
    assert!(G1::from_bytes(&[]).is_none());
    assert!(G1::from_bytes(&[1u8; 96]).is_none());
    assert!(G2::from_bytes(&[1u8; 192]).is_none());
    assert!(Gt::from_bytes(&[1u8; 576]).is_none());
    let mut bytes = G1::generator().to_bytes();
    bytes[5] ^= 1;
    assert!(G1::from_bytes(&bytes).is_none());
}

#[test]
fn random_elements_differ() {
    let mut rng = StdRng::seed_from_u64(0u64);
    let first = G1::random(&mut rng);
    let second = G1::random(&mut rng);
    assert_ne!(first, second);
}

#[test]
fn multi_scalar_multiplication() {
    let g = G1::generator();
    let bases = vec![g.clone(), g.scale(&Scalar::from_u64(2))];
    let scalars = vec![Scalar::from_u64(3), Scalar::from_u64(4)];
    assert_eq!(
        multi_scalar_mul(&bases, &scalars).unwrap(),
        G1::multiple_of_generator(&Scalar::from_u64(11))
    );
    assert_eq!(multi_scalar_mul(&[], &[]).unwrap(), G1::zero());
    assert_eq!(
        multi_scalar_mul(&bases, &scalars[..1]),
        Err(InnerProductArgumentError::MessageLengthInvalid(2, 1))
    );
}

fn uncompressed<T: CanonicalSerialize>(point: &T) -> Vec<u8> {
    let mut bytes = Vec::new();
    point.serialize_uncompressed(&mut bytes).unwrap();
    bytes
}

#[test]
fn points_off_the_curve_are_refused() {
    // (s^2 x, s^3 y) for a point (x, y) of the curve lies on another curve
    let g = G1Affine::generator();
    let s = Fq::from(2u64);
    let moved = G1Affine::new_unchecked(s * s * g.x, s * s * s * g.y);
    assert!(!moved.is_on_curve());
    // the test of the subgroup alone does not tell
    assert!(moved.is_in_correct_subgroup_assuming_on_curve());
    let bytes = uncompressed(&moved);
    assert_eq!(bytes.len(), 96);
    assert!(G1::from_bytes(&bytes).is_none());

    let h = G2Affine::generator();
    let s = Fq2::from(2u64);
    let moved = G2Affine::new_unchecked(s * s * h.x, s * s * s * h.y);
    assert!(!moved.is_on_curve());
    assert!(moved.is_in_correct_subgroup_assuming_on_curve());
    let bytes = uncompressed(&moved);
    assert_eq!(bytes.len(), 192);
    assert!(G2::from_bytes(&bytes).is_none());

    // the generators and the neutral elements are read
    assert_eq!(G1::from_bytes(&G1::zero().to_bytes()).unwrap(), G1::zero());
    assert_eq!(G2::from_bytes(&G2::zero().to_bytes()).unwrap(), G2::zero());
    assert_eq!(G1::from_bytes(&uncompressed(&G1Affine::zero())).unwrap(), G1::zero());
    assert_eq!(G2::from_bytes(&uncompressed(&G2Affine::zero())).unwrap(), G2::zero());
    assert_eq!(G1::from_bytes(&uncompressed(&g)).unwrap(), G1::generator());
    assert_eq!(G2::from_bytes(&uncompressed(&h)).unwrap(), G2::generator());
}

#[test]
fn points_outside_the_subgroup_are_refused() {
    let mut x = Fq::from(1u64);
    let mut seen = 0;
    while seen < 3 {
        if let Some(point) = G1Affine::get_point_from_x_unchecked(x, false) {
            assert!(point.is_on_curve());
            if !point.is_in_correct_subgroup_assuming_on_curve() {
                assert!(G1::from_bytes(&uncompressed(&point)).is_none());
                seen += 1;
            }
        }
        x += Fq::from(1u64);
    }
    let mut x = Fq2::from(1u64);
    let mut seen = 0;
    while seen < 3 {
        if let Some(point) = G2Affine::get_point_from_x_unchecked(x, false) {
            assert!(point.is_on_curve());
            if !point.is_in_correct_subgroup_assuming_on_curve() {
                assert!(G2::from_bytes(&uncompressed(&point)).is_none());
                seen += 1;
            }
        }
        x += Fq2::from(1u64);
    }
}

#[test]
fn bytes_after_an_encoding_are_refused() {
    let mut bytes = G1::generator().to_bytes();
    bytes.push(0);
    assert!(G1::from_bytes(&bytes).is_none());
    let mut bytes = G2::generator().to_bytes();
    bytes.push(0);
    assert!(G2::from_bytes(&bytes).is_none());
    let bytes = G1::generator().to_bytes();
    assert!(G1::from_bytes(&bytes[..95]).is_none());
}
