use ip_proofs::dh_commitments::afgho16::{AFGHOCommitmentG1, AFGHOCommitmentG2};
use ip_proofs::dh_commitments::identity::IdentityCommitment;
use ip_proofs::dh_commitments::pedersen::PedersenCommitment;
use ip_proofs::dh_commitments::{random_generators, DoublyHomomorphicCommitment};
use ip_proofs::element::{Element, Module};
use ip_proofs::field::Scalar;
use ip_proofs::gipa::InnerProductArgumentError;
use ip_proofs::groups::{Gt, G1, G2};
use ip_proofs::inner_products::{InnerProduct, MultiexponentiationInnerProduct, PairingInnerProduct};
use ip_proofs::tipa::structured_scalar_message::structured_scalar_power;
use ip_proofs::tipa::{
    every_second, inverses, kzg_challenge_point, polynomial_coefficients_from_transcript,
    polynomial_evaluation_product_form_from_transcript, product_form_at,
    prove_commitment_key_kzg_opening, reversed, single, structured_generators_scalar_power,
    verify_commitment_key_g1_kzg_opening, verify_commitment_key_g2_kzg_opening, SRS, TIPA,
};
use rand::rngs::StdRng;
use rand::SeedableRng;

type PairingTIPA =
    TIPA<PairingInnerProduct, AFGHOCommitmentG1, AFGHOCommitmentG2, IdentityCommitment<Gt>>;
type MultiExpTIPA = TIPA<
    MultiexponentiationInnerProduct<G1>,
    AFGHOCommitmentG1,
    PedersenCommitment<G1>,
    IdentityCommitment<G1>,
>;

fn scalars(values: &[u64]) -> Vec<Scalar> {
    values.iter().map(|v| Scalar::from_u64(*v)).collect()
}

#[test]
fn structured_generators_are_multiples_by_powers() {
    let g = G1::generator();
    let powers = structured_generators_scalar_power(4, &g.scale(&Scalar::from_u64(2)), &Scalar::from_u64(3));
    let expected: Vec<G1> =
        [2u64, 6, 18, 54].iter().map(|v| G1::multiple_of_generator(&Scalar::from_u64(*v))).collect();
    assert_eq!(powers, expected);
    assert!(structured_generators_scalar_power(0, &g, &Scalar::from_u64(3)).is_empty());
    assert_eq!(structured_scalar_power(4, &Scalar::from_u64(3)), scalars(&[1, 3, 9, 27]));
    assert!(structured_scalar_power(0, &Scalar::from_u64(3)).is_empty());
}

#[test]
fn reference_string_is_structured() {
    let alpha = Scalar::from_u64(3);
    let beta = Scalar::from_u64(5);
    let srs = SRS::from_trapdoors(&alpha, &beta, 2);
    let g = |v: u64| G1::multiple_of_generator(&Scalar::from_u64(v));
    let h = |v: u64| G2::multiple_of_generator(&Scalar::from_u64(v));
    assert_eq!(srs.g_alpha_powers, vec![g(1), g(3), g(9)]);
    assert_eq!(srs.h_beta_powers, vec![h(1), h(5), h(25)]);
    assert_eq!(srs.g_beta, g(5));
    assert_eq!(srs.h_alpha, h(3));

    // the commitment keys are the even powers
    let (ck_a, ck_b) = srs.get_commitment_keys();
    assert_eq!(ck_a, vec![h(1), h(25)]);
    assert_eq!(ck_b, vec![g(1), g(9)]);

    let v_srs = srs.get_verifier_key();
    assert_eq!(v_srs.g, g(1));
    assert_eq!(v_srs.h, h(1));
    assert_eq!(v_srs.g_beta, g(5));
    assert_eq!(v_srs.h_alpha, h(3));
}

#[test]
fn setup_gives_a_string_of_the_right_size() {
    let mut rng = StdRng::seed_from_u64(0u64);
    let (srs, ck_t) = PairingTIPA::setup(&mut rng, 4).unwrap();
    assert_eq!(srs.g_alpha_powers.len(), 7);
    assert_eq!(srs.h_beta_powers.len(), 7);
    assert_eq!(srs.g_alpha_powers[0], G1::generator());
    assert_eq!(srs.h_beta_powers[0], G2::generator());
    assert_eq!(ck_t, Scalar::one());
    let (ck_a, ck_b) = srs.get_commitment_keys();
    assert_eq!(ck_a.len(), 4);
    assert_eq!(ck_b.len(), 4);
}

#[test]
fn every_second_element() {
    assert_eq!(every_second(&scalars(&[1, 2, 3, 4, 5])), scalars(&[1, 3, 5]));
    assert_eq!(every_second(&scalars(&[1, 2, 3, 4])), scalars(&[1, 3]));
    assert_eq!(every_second(&scalars(&[7])), scalars(&[7]));
    assert!(every_second::<Scalar>(&[]).is_empty());
    assert_eq!(single(&Scalar::from_u64(9)), scalars(&[9]));
}

#[test]
fn key_polynomial_of_a_transcript() {
    // (1 + 2 * (3 X)) * (1 + 5 * (3 X)^2), with zeros between the coefficients
    let coeffs = polynomial_coefficients_from_transcript(&scalars(&[2, 5]), &Scalar::from_u64(3));
    assert_eq!(coeffs, scalars(&[1, 0, 6, 0, 45, 0, 270]));
    assert_eq!(
        polynomial_coefficients_from_transcript(&scalars(&[]), &Scalar::from_u64(3)),
        scalars(&[1])
    );
    assert_eq!(
        polynomial_coefficients_from_transcript(&scalars(&[4]), &Scalar::one()),
        scalars(&[1, 0, 4])
    );
}

#[test]
fn value_of_the_key_polynomial_from_its_factors() {
    // at z = 2 with shift 3: (1 + 2 * 12) * (1 + 5 * 144)
    let value = polynomial_evaluation_product_form_from_transcript(
        &scalars(&[2, 5]),
        &Scalar::from_u64(2),
        &Scalar::from_u64(3),
    );
    assert_eq!(value, Scalar::from_u64(18025));
    // which is the value of the polynomial with the coefficients above
    assert_eq!(1 + 6 * 4 + 45 * 16 + 270 * 64, 18025);
    assert_eq!(product_form_at(&scalars(&[2, 5]), &Scalar::from_u64(12)), Scalar::from_u64(18025));
    assert_eq!(product_form_at(&[], &Scalar::from_u64(12)), Scalar::one());
}

#[test]
fn transcripts_in_reverse_and_inverted() {
    assert_eq!(reversed(&scalars(&[1, 2, 3])), scalars(&[3, 2, 1]));
    assert!(reversed(&[]).is_empty());
    let inverted = inverses(&scalars(&[1, 2])).unwrap();
    assert_eq!(inverted[0], Scalar::one());
    assert_eq!(inverted[1].mul(&Scalar::from_u64(2)), Scalar::one());
    assert!(inverses(&scalars(&[1, 0, 2])).is_none());
}

#[test]
fn openings_of_key_polynomials_verify() {
    let alpha = Scalar::from_u64(3);
    let beta = Scalar::from_u64(5);
    let srs = SRS::from_trapdoors(&alpha, &beta, 4);
    let v_srs = srs.get_verifier_key();
    let transcript = scalars(&[2, 7]);
    let shift = Scalar::from_u64(11);
    let z = Scalar::from_u64(13);

    // the polynomial has seven coefficients; its commitment is its value at beta
    let coeffs = polynomial_coefficients_from_transcript(&transcript, &shift);
    let in_g2 = MultiexponentiationInnerProduct::<G2>::inner_product(&srs.h_beta_powers, &coeffs).unwrap();
    let opening = prove_commitment_key_kzg_opening(&srs.h_beta_powers, &transcript, &shift, &z).unwrap();
    assert!(verify_commitment_key_g2_kzg_opening(&v_srs, &in_g2, &opening, &transcript, &shift, &z));
    assert!(!verify_commitment_key_g2_kzg_opening(
        &v_srs,
        &in_g2.add(&G2::generator()),
        &opening,
        &transcript,
        &shift,
        &z
    ));
    assert!(!verify_commitment_key_g2_kzg_opening(
        &v_srs,
        &in_g2,
        &opening,
        &transcript,
        &shift,
        &Scalar::from_u64(14)
    ));

    let in_g1 = MultiexponentiationInnerProduct::<G1>::inner_product(&srs.g_alpha_powers, &coeffs).unwrap();
    let opening = prove_commitment_key_kzg_opening(&srs.g_alpha_powers, &transcript, &shift, &z).unwrap();
    assert!(verify_commitment_key_g1_kzg_opening(&v_srs, &in_g1, &opening, &transcript, &shift, &z));
    assert!(!verify_commitment_key_g1_kzg_opening(
        &v_srs,
        &in_g1,
        &opening.add(&G1::generator()),
        &transcript,
        &shift,
        &z
    ));
}

#[test]
fn opening_needs_a_power_for_each_coefficient() {
    let srs = SRS::from_trapdoors(&Scalar::from_u64(3), &Scalar::from_u64(5), 2);
    let opening = prove_commitment_key_kzg_opening(
        &srs.g_alpha_powers,
        &scalars(&[2, 7]),
        &Scalar::one(),
        &Scalar::from_u64(13),
    );
    assert_eq!(opening, Err(InnerProductArgumentError::MessageLengthInvalid(3, 7)));
}

#[test]
fn point_of_the_openings_depends_on_transcript_and_keys() {
    let g = G1::generator();
    let h = G2::generator();
    let first = kzg_challenge_point(&scalars(&[2, 7]), &h, &g).unwrap();
    assert_eq!(first, kzg_challenge_point(&scalars(&[2, 9]), &h, &g).unwrap());
    assert_ne!(first, kzg_challenge_point(&scalars(&[3, 7]), &h, &g).unwrap());
    assert_ne!(first, kzg_challenge_point(&scalars(&[2, 7]), &h.add(&h), &g).unwrap());
    // without a round the first challenge counts as zero
    assert_eq!(
        kzg_challenge_point(&scalars(&[]), &h, &g).unwrap(),
        kzg_challenge_point(&scalars(&[0]), &h, &g).unwrap()
    );
}

struct Pairings {
    srs: SRS,
    ck_t: Scalar,
    m_a: Vec<G1>,
    m_b: Vec<G2>,
    com_a: Gt,
    com_b: Gt,
    com_t: Gt,
}

fn pairings(n: usize) -> Pairings {
    let mut rng = StdRng::seed_from_u64(0u64);
    let (srs, ck_t) = PairingTIPA::setup(&mut rng, n).unwrap();
    let (ck_a, ck_b) = srs.get_commitment_keys();
    let m_a: Vec<G1> = random_generators(&mut rng, n);
    let m_b: Vec<G2> = random_generators(&mut rng, n);
    let com_a = AFGHOCommitmentG1::commit(&ck_a, &m_a).unwrap();
    let com_b = AFGHOCommitmentG2::commit(&ck_b, &m_b).unwrap();
    let com_t = PairingInnerProduct::inner_product(&m_a, &m_b).unwrap();
    Pairings { srs, ck_t, m_a, m_b, com_a, com_b, com_t }
}

#[test]
fn argument_for_vectors_of_one_element() {
    let p = pairings(1);
    let (ck_a, ck_b) = p.srs.get_commitment_keys();
    let v_srs = p.srs.get_verifier_key();
    let proof = PairingTIPA::prove(&p.srs, (&p.m_a, &p.m_b), (&ck_a, &ck_b, &p.ck_t)).unwrap();
    assert!(proof.gipa_proof.r_commitment_steps.is_empty());
    assert!(PairingTIPA::verify(&v_srs, &p.ck_t, (&p.com_a, &p.com_b, &p.com_t), &proof).unwrap());
}

#[test]
fn argument_is_refused_for_other_commitments() {
    let p = pairings(4);
    let (ck_a, ck_b) = p.srs.get_commitment_keys();
    let v_srs = p.srs.get_verifier_key();
    let proof = PairingTIPA::prove(&p.srs, (&p.m_a, &p.m_b), (&ck_a, &ck_b, &p.ck_t)).unwrap();
    assert!(PairingTIPA::verify(&v_srs, &p.ck_t, (&p.com_a, &p.com_b, &p.com_t), &proof).unwrap());
    let other = p.com_t.add(&Gt::generator());
    assert!(!PairingTIPA::verify(&v_srs, &p.ck_t, (&p.com_a, &p.com_b, &other), &proof).unwrap());
    let other = p.com_a.add(&Gt::generator());
    assert!(!PairingTIPA::verify(&v_srs, &p.ck_t, (&other, &p.com_b, &p.com_t), &proof).unwrap());
    let other = p.com_b.add(&Gt::generator());
    assert!(!PairingTIPA::verify(&v_srs, &p.ck_t, (&p.com_a, &other, &p.com_t), &proof).unwrap());
}

#[test]
fn tampered_argument_is_refused() {
    let p = pairings(4);
    let (ck_a, ck_b) = p.srs.get_commitment_keys();
    let v_srs = p.srs.get_verifier_key();
    let com = (&p.com_a, &p.com_b, &p.com_t);

    let mut proof = PairingTIPA::prove(&p.srs, (&p.m_a, &p.m_b), (&ck_a, &ck_b, &p.ck_t)).unwrap();
    proof.final_ck_proof.0 = proof.final_ck_proof.0.add(&G2::generator());
    assert!(!PairingTIPA::verify(&v_srs, &p.ck_t, com, &proof).unwrap());

    let mut proof = PairingTIPA::prove(&p.srs, (&p.m_a, &p.m_b), (&ck_a, &ck_b, &p.ck_t)).unwrap();
    proof.final_ck.1 = proof.final_ck.1.add(&G1::generator());
    assert!(!PairingTIPA::verify(&v_srs, &p.ck_t, com, &proof).unwrap());

    let mut proof = PairingTIPA::prove(&p.srs, (&p.m_a, &p.m_b), (&ck_a, &ck_b, &p.ck_t)).unwrap();
    proof.gipa_proof.r_base.0 = proof.gipa_proof.r_base.0.add(&G1::generator());
    assert!(!PairingTIPA::verify(&v_srs, &p.ck_t, com, &proof).unwrap());

    let mut proof = PairingTIPA::prove(&p.srs, (&p.m_a, &p.m_b), (&ck_a, &ck_b, &p.ck_t)).unwrap();
    proof.gipa_proof.r_commitment_steps[1].1 .0 =
        proof.gipa_proof.r_commitment_steps[1].1 .0.add(&Gt::generator());
    assert!(!PairingTIPA::verify(&v_srs, &p.ck_t, com, &proof).unwrap());
}

#[test]
fn argument_needs_a_power_of_two() {
    let p = pairings(4);
    let (ck_a, ck_b) = p.srs.get_commitment_keys();
    let proof = PairingTIPA::prove(&p.srs, (&p.m_a[..3], &p.m_b[..3]), (&ck_a[..3], &ck_b[..3], &p.ck_t));
    assert_eq!(proof.err(), Some(InnerProductArgumentError::MessageLengthInvalid(3, 3)));
    let proof = PairingTIPA::prove(&p.srs, (&p.m_a, &p.m_b[..2]), (&ck_a, &ck_b, &p.ck_t));
    assert_eq!(proof.err(), Some(InnerProductArgumentError::MessageLengthInvalid(4, 2)));
}

#[test]
fn argument_needs_a_reference_string_of_the_size_of_the_vectors() {
    let p = pairings(4);
    let (ck_a, ck_b) = p.srs.get_commitment_keys();
    // the powers in G1 are those for two elements, the powers in G2 those for four
    let small = SRS::from_trapdoors(&Scalar::from_u64(3), &Scalar::from_u64(5), 2);
    let mixed = SRS {
        g_alpha_powers: small.g_alpha_powers,
        h_beta_powers: p.srs.h_beta_powers.clone(),
        g_beta: small.g_beta,
        h_alpha: small.h_alpha,
    };
    assert_eq!(mixed.g_alpha_powers.len(), 3);
    assert_eq!(mixed.h_beta_powers.len(), 7);
    let proof = PairingTIPA::prove(&mixed, (&p.m_a[..2], &p.m_b[..2]), (&ck_a[..2], &ck_b[..2], &p.ck_t));
    assert_eq!(proof.err(), Some(InnerProductArgumentError::MessageLengthInvalid(7, 3)));
}

#[test]
fn shift_must_not_be_zero() {
    let p = pairings(2);
    let (ck_a, ck_b) = p.srs.get_commitment_keys();
    let v_srs = p.srs.get_verifier_key();
    let proof = PairingTIPA::prove_with_srs_shift(
        &p.srs,
        (&p.m_a, &p.m_b),
        (&ck_a, &ck_b, &p.ck_t),
        &Scalar::zero(),
    );
    assert_eq!(proof.err(), Some(InnerProductArgumentError::InverseOfZero));
    let proof = PairingTIPA::prove(&p.srs, (&p.m_a, &p.m_b), (&ck_a, &ck_b, &p.ck_t)).unwrap();
    assert_eq!(
        PairingTIPA::verify_with_srs_shift(
            &v_srs,
            &p.ck_t,
            (&p.com_a, &p.com_b, &p.com_t),
            &proof,
            &Scalar::zero()
        ),
        Err(InnerProductArgumentError::InverseOfZero)
    );
}

#[test]
fn shifted_argument_verifies_with_its_shift_only() {
    let n = 4;
    let p = pairings(n);
    let (ck_a, ck_b) = p.srs.get_commitment_keys();
    let v_srs = p.srs.get_verifier_key();
    let r_scalar = Scalar::from_u64(7);
    let r_vec = structured_scalar_power(n, &r_scalar);
    let m_a_r: Vec<G1> = p.m_a.iter().zip(&r_vec).map(|(a, r)| a.scale(r)).collect();
    let ck_a_r: Vec<G2> =
        ck_a.iter().zip(&r_vec).map(|(ck, r)| ck.scale(&r.inverse().unwrap())).collect();
    let com_t = PairingInnerProduct::inner_product(&m_a_r, &p.m_b).unwrap();
    let com = (&p.com_a, &p.com_b, &com_t);

    let proof =
        PairingTIPA::prove_with_srs_shift(&p.srs, (&m_a_r, &p.m_b), (&ck_a_r, &ck_b, &p.ck_t), &r_scalar)
            .unwrap();
    assert!(PairingTIPA::verify_with_srs_shift(&v_srs, &p.ck_t, com, &proof, &r_scalar).unwrap());
    assert!(!PairingTIPA::verify(&v_srs, &p.ck_t, com, &proof).unwrap());
    assert!(
        !PairingTIPA::verify_with_srs_shift(&v_srs, &p.ck_t, com, &proof, &Scalar::from_u64(8)).unwrap()
    );
}

#[test]
fn argument_is_deterministic() {
    let p = pairings(4);
    let (ck_a, ck_b) = p.srs.get_commitment_keys();
    let first = PairingTIPA::prove(&p.srs, (&p.m_a, &p.m_b), (&ck_a, &ck_b, &p.ck_t)).unwrap();
    let second = PairingTIPA::prove(&p.srs, (&p.m_a, &p.m_b), (&ck_a, &ck_b, &p.ck_t)).unwrap();
    assert_eq!(first.gipa_proof.r_commitment_steps, second.gipa_proof.r_commitment_steps);
    assert_eq!(first.gipa_proof.r_base, second.gipa_proof.r_base);
    assert_eq!(first.final_ck, second.final_ck);
    assert_eq!(first.final_ck_proof, second.final_ck_proof);
    assert_eq!(first.final_ck_proof.0.to_bytes(), second.final_ck_proof.0.to_bytes());
    assert_eq!(first.to_bytes(), second.to_bytes());
}

#[test]
fn argument_is_written_rounds_first() {
    let p = pairings(4);
    let (ck_a, ck_b) = p.srs.get_commitment_keys();
    let proof = PairingTIPA::prove(&p.srs, (&p.m_a, &p.m_b), (&ck_a, &ck_b, &p.ck_t)).unwrap();
    let bytes = proof.to_bytes();
    // two rounds of six elements of Gt, two messages, two keys, two openings
    assert_eq!(bytes.len(), 2 * 6 * 576 + (96 + 192) + (192 + 96) + (192 + 96));
    let first = &proof.gipa_proof.r_commitment_steps[0];
    assert_eq!(&bytes[..576], &first.0 .0.to_bytes()[..]);
    assert_eq!(&bytes[3 * 576..4 * 576], &first.1 .0.to_bytes()[..]);
    let halving = proof.gipa_proof.to_bytes();
    assert_eq!(&bytes[..halving.len()], &halving[..]);
    assert_eq!(&halving[12 * 576..12 * 576 + 96], &proof.gipa_proof.r_base.0.to_bytes()[..]);
    assert_eq!(&bytes[bytes.len() - 96..], &proof.final_ck_proof.1.to_bytes()[..]);
}

#[test]
fn argument_with_structured_right_vector() {
    let n = 4;
    let mut rng = StdRng::seed_from_u64(0u64);
    let (srs, ck_t) = MultiExpTIPA::setup(&mut rng, n).unwrap();
    let (ck_a, ck_b) = srs.get_commitment_keys();
    let v_srs = srs.get_verifier_key();
    let m_a: Vec<G1> = random_generators(&mut rng, n);
    let x = Scalar::from_u64(3);
    let m_b = structured_scalar_power(n, &x);
    let com_a = AFGHOCommitmentG1::commit(&ck_a, &m_a).unwrap();
    let com_t = MultiexponentiationInnerProduct::<G1>::inner_product(&m_a, &m_b).unwrap();

    let proof =
        MultiExpTIPA::prove_with_structured_scalar_message(&srs, (&m_a, &m_b), (&ck_a, &ck_b, &ck_t))
            .unwrap();
    assert_eq!(proof.r_commitment_steps.len(), 2);
    assert!(MultiExpTIPA::verify_with_structured_scalar_message(
        &v_srs,
        &ck_t,
        (&com_a, &com_t),
        &x,
        &proof
    )
    .unwrap());
    // not for the powers of another scalar
    assert!(!MultiExpTIPA::verify_with_structured_scalar_message(
        &v_srs,
        &ck_t,
        (&com_a, &com_t),
        &Scalar::from_u64(4),
        &proof
    )
    .unwrap());
    // nor for another inner product
    assert!(!MultiExpTIPA::verify_with_structured_scalar_message(
        &v_srs,
        &ck_t,
        (&com_a, &com_t.add(&G1::generator())),
        &x,
        &proof
    )
    .unwrap());
    assert_eq!(
        MultiExpTIPA::prove_with_structured_scalar_message(
            &srs,
            (&m_a[..3], &m_b[..3]),
            (&ck_a[..3], &ck_b[..3], &ck_t)
        )
        .err(),
        Some(InnerProductArgumentError::MessageLengthInvalid(3, 3))
    );
}
