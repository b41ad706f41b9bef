use ip_proofs::dh_commitments::afgho16::{AFGHOCommitmentG1, AFGHOCommitmentG2};
use ip_proofs::dh_commitments::identity::IdentityCommitment;
use ip_proofs::dh_commitments::pedersen::PedersenCommitment;
use ip_proofs::dh_commitments::{random_generators, DoublyHomomorphicCommitment};
use ip_proofs::element::{Element, Module};
use ip_proofs::field::Scalar;
use ip_proofs::groups::{Gt, G1, G2};
use ip_proofs::inner_products::{
    InnerProduct, MultiexponentiationInnerProduct, PairingInnerProduct, ScalarInnerProduct,
};
use ip_proofs::tipa::structured_scalar_message::structured_scalar_power;
use ip_proofs::tipa::TIPA;
use rand::rngs::StdRng;
use rand::SeedableRng;

type GC1 = AFGHOCommitmentG1;
type GC2 = AFGHOCommitmentG2;
type SC1 = PedersenCommitment<G1>;
type SC2 = PedersenCommitment<G2>;

const TEST_SIZE: usize = 8;

#[test]
fn pairing_inner_product_test() {
    type IP = PairingInnerProduct;
    type IPC = IdentityCommitment<Gt>;
    type PairingTIPA = TIPA<IP, GC1, GC2, IPC>;

    let mut rng = StdRng::seed_from_u64(0u64);
    let (srs, ck_t) = PairingTIPA::setup(&mut rng, TEST_SIZE).unwrap();
    let (ck_a, ck_b) = srs.get_commitment_keys();
    let v_srs = srs.get_verifier_key();
    let m_a: Vec<G1> = random_generators(&mut rng, TEST_SIZE);
    let m_b: Vec<G2> = random_generators(&mut rng, TEST_SIZE);
    let com_a = GC1::commit(&ck_a, &m_a).unwrap();
    let com_b = GC2::commit(&ck_b, &m_b).unwrap();
    let t = vec![IP::inner_product(&m_a, &m_b).unwrap()];
    let com_t = IPC::commit(&vec![ck_t.clone()], &t).unwrap();

    let proof = PairingTIPA::prove(&srs, (&m_a, &m_b), (&ck_a, &ck_b, &ck_t)).unwrap();

    assert!(PairingTIPA::verify(&v_srs, &ck_t, (&com_a, &com_b, &com_t), &proof).unwrap());
}

#[test]
fn multiexponentiation_inner_product_test() {
    type IP = MultiexponentiationInnerProduct<G1>;
    type IPC = IdentityCommitment<G1>;
    type MultiExpTIPA = TIPA<IP, GC1, SC1, IPC>;

    let mut rng = StdRng::seed_from_u64(0u64);
    let (srs, ck_t) = MultiExpTIPA::setup(&mut rng, TEST_SIZE).unwrap();
    let (ck_a, ck_b) = srs.get_commitment_keys();
    let v_srs = srs.get_verifier_key();
    let m_a: Vec<G1> = random_generators(&mut rng, TEST_SIZE);
    let mut m_b = Vec::new();
    for _ in 0..TEST_SIZE {
        m_b.push(Scalar::random(&mut rng));
    }
    let com_a = GC1::commit(&ck_a, &m_a).unwrap();
    let com_b = SC1::commit(&ck_b, &m_b).unwrap();
    let t = vec![IP::inner_product(&m_a, &m_b).unwrap()];
    let com_t = IPC::commit(&vec![ck_t.clone()], &t).unwrap();

    let proof = MultiExpTIPA::prove(&srs, (&m_a, &m_b), (&ck_a, &ck_b, &ck_t)).unwrap();

    assert!(MultiExpTIPA::verify(&v_srs, &ck_t, (&com_a, &com_b, &com_t), &proof).unwrap());
}

#[test]
fn scalar_inner_product_test() {
    type IP = ScalarInnerProduct;
    type IPC = IdentityCommitment<Scalar>;
    type ScalarTIPA = TIPA<IP, SC2, SC1, IPC>;

    let mut rng = StdRng::seed_from_u64(0u64);
    let (srs, ck_t) = ScalarTIPA::setup(&mut rng, TEST_SIZE).unwrap();
    let (ck_a, ck_b) = srs.get_commitment_keys();
    let v_srs = srs.get_verifier_key();
    let mut m_a = Vec::new();
    let mut m_b = Vec::new();
    for _ in 0..TEST_SIZE {
        m_a.push(Scalar::random(&mut rng));
        m_b.push(Scalar::random(&mut rng));
    }
    let com_a = SC2::commit(&ck_a, &m_a).unwrap();
    let com_b = SC1::commit(&ck_b, &m_b).unwrap();
    let t = vec![IP::inner_product(&m_a, &m_b).unwrap()];
    let com_t = IPC::commit(&vec![ck_t.clone()], &t).unwrap();

    let proof = ScalarTIPA::prove(&srs, (&m_a, &m_b), (&ck_a, &ck_b, &ck_t)).unwrap();

    assert!(ScalarTIPA::verify(&v_srs, &ck_t, (&com_a, &com_b, &com_t), &proof).unwrap());
}

#[test]
fn pairing_inner_product_with_srs_shift_test() {
    type IP = PairingInnerProduct;
    type IPC = IdentityCommitment<Gt>;
    type PairingTIPA = TIPA<IP, GC1, GC2, IPC>;

    let mut rng = StdRng::seed_from_u64(0u64);
    let (srs, ck_t) = PairingTIPA::setup(&mut rng, TEST_SIZE).unwrap();
    let (ck_a, ck_b) = srs.get_commitment_keys();
    let v_srs = srs.get_verifier_key();

    let m_a: Vec<G1> = random_generators(&mut rng, TEST_SIZE);
    let m_b: Vec<G2> = random_generators(&mut rng, TEST_SIZE);
    let com_a = GC1::commit(&ck_a, &m_a).unwrap();
    let com_b = GC2::commit(&ck_b, &m_b).unwrap();

    let r_scalar = Scalar::random(&mut rng);
    let r_vec = structured_scalar_power(TEST_SIZE, &r_scalar);
    let m_a_r = m_a
        .iter()
        .zip(&r_vec)
        .map(|(a, r)| a.scale(r))
        .collect::<Vec<G1>>();
    let ck_a_r = ck_a
        .iter()
        .zip(&r_vec)
        .map(|(ck, r)| ck.scale(&r.inverse().unwrap()))
        .collect::<Vec<G2>>();

    let t = vec![IP::inner_product(&m_a_r, &m_b).unwrap()];
    let com_t = IPC::commit(&vec![ck_t.clone()], &t).unwrap();

    assert_eq!(com_a, IP::inner_product(&m_a_r, &ck_a_r).unwrap());

    let proof = PairingTIPA::prove_with_srs_shift(
        &srs,
        (&m_a_r, &m_b),
        (&ck_a_r, &ck_b, &ck_t),
        &r_scalar,
    )
    .unwrap();

    assert!(PairingTIPA::verify_with_srs_shift(
        &v_srs,
        &ck_t,
        (&com_a, &com_b, &com_t),
        &proof,
        &r_scalar
    )
    .unwrap());
}
