use ip_proofs::dh_commitments::afgho16::{AFGHOCommitmentG1, AFGHOCommitmentG2};
use ip_proofs::dh_commitments::identity::IdentityCommitment;
use ip_proofs::dh_commitments::pedersen::PedersenCommitment;
use ip_proofs::dh_commitments::{random_generators, DoublyHomomorphicCommitment};
use ip_proofs::element::{Element, Module};
use ip_proofs::field::Scalar;
use ip_proofs::gipa::{
    fold_elements, mul_helper, power_of_two, GIPAProof, InnerProductArgumentError, GIPA,
};
use ip_proofs::groups::{pairing, Gt, G1, G2};
use ip_proofs::inner_products::{
    InnerProduct, MultiexponentiationInnerProduct, PairingInnerProduct, ScalarInnerProduct,
};
use ip_proofs::transcript::{append_bytes, derive_challenge, derive_invertible_challenge};
use rand::rngs::StdRng;
use rand::SeedableRng;

type ScalarGIPA =
    GIPA<ScalarInnerProduct, PedersenCommitment<G2>, PedersenCommitment<G1>, IdentityCommitment<Scalar>>;

fn scalars(values: &[u64]) -> Vec<Scalar> {
    values.iter().map(|v| Scalar::from_u64(*v)).collect()
}

#[test]
fn scalar_inner_product_is_the_sum_of_products() {
    let a = scalars(&[1, 2, 3]);
    let b = scalars(&[4, 5, 6]);
    assert_eq!(ScalarInnerProduct::inner_product(&a, &b).unwrap(), Scalar::from_u64(32));
    assert_eq!(ScalarInnerProduct::inner_product(&[], &[]).unwrap(), Scalar::zero());
    assert_eq!(ScalarInnerProduct::product(&a[1], &b[2]), Scalar::from_u64(12));
}

#[test]
fn inner_product_of_vectors_of_different_length() {
    let a = scalars(&[1, 2, 3]);
    let b = scalars(&[4, 5]);
    assert_eq!(
        ScalarInnerProduct::inner_product(&a, &b),
        Err(InnerProductArgumentError::MessageLengthInvalid(3, 2))
    );
}

#[test]
fn multiexponentiation_inner_product_is_the_sum_of_multiples() {
    let g = G1::generator();
    let points = vec![g.clone(), g.scale(&Scalar::from_u64(5))];
    let factors = scalars(&[7, 3]);
    let sum = MultiexponentiationInnerProduct::<G1>::inner_product(&points, &factors).unwrap();
    assert_eq!(sum, G1::multiple_of_generator(&Scalar::from_u64(22)));
}

#[test]
fn pairing_inner_product_is_the_sum_of_pairings() {
    let g = G1::generator();
    let h = G2::generator();
    let left = vec![g.scale(&Scalar::from_u64(2)), g.scale(&Scalar::from_u64(3))];
    let right = vec![h.scale(&Scalar::from_u64(5)), h.scale(&Scalar::from_u64(7))];
    let sum = PairingInnerProduct::inner_product(&left, &right).unwrap();
    assert_eq!(sum, Gt::multiple_of_generator(&Scalar::from_u64(31)));
    assert_eq!(sum, pairing(&left[0], &right[0]).add(&pairing(&left[1], &right[1])));
}

#[test]
fn pedersen_commitment_is_linear() {
    let g = G1::generator();
    let keys = vec![g.clone(), g.scale(&Scalar::from_u64(10))];
    let com = PedersenCommitment::<G1>::commit(&keys, &scalars(&[3, 4])).unwrap();
    assert_eq!(com, G1::multiple_of_generator(&Scalar::from_u64(43)));
    assert!(PedersenCommitment::<G1>::verify(&keys, &scalars(&[3, 4]), &com).unwrap());
    assert!(!PedersenCommitment::<G1>::verify(&keys, &scalars(&[3, 5]), &com).unwrap());
    assert_eq!(
        PedersenCommitment::<G1>::commit(&keys, &scalars(&[3])),
        Err(InnerProductArgumentError::MessageLengthInvalid(2, 1))
    );
    assert_eq!(
        PedersenCommitment::<G1>::verify(&keys[..1], &scalars(&[3, 4]), &com),
        Err(InnerProductArgumentError::MessageLengthInvalid(1, 2))
    );
}

#[test]
fn afgho_commitments_pair_messages_with_keys() {
    let g = G1::generator();
    let h = G2::generator();
    let in_g1 = vec![g.scale(&Scalar::from_u64(2)), g.scale(&Scalar::from_u64(3))];
    let in_g2 = vec![h.scale(&Scalar::from_u64(5)), h.scale(&Scalar::from_u64(7))];
    let expected = Gt::multiple_of_generator(&Scalar::from_u64(31));
    assert_eq!(AFGHOCommitmentG1::commit(&in_g2, &in_g1).unwrap(), expected);
    assert_eq!(AFGHOCommitmentG2::commit(&in_g1, &in_g2).unwrap(), expected);
    assert_eq!(
        AFGHOCommitmentG1::commit(&in_g2, &in_g1[..1]),
        Err(InnerProductArgumentError::MessageLengthInvalid(2, 1))
    );
}

#[test]
fn identity_commitment_returns_the_message() {
    let mut rng = StdRng::seed_from_u64(0u64);
    let keys = IdentityCommitment::<G1>::setup(&mut rng, 1).unwrap();
    assert_eq!(keys, vec![Scalar::one()]);
    let message = vec![G1::random(&mut rng)];
    assert_eq!(IdentityCommitment::<G1>::commit(&keys, &message).unwrap(), message[0]);
    assert!(IdentityCommitment::<G1>::verify(&keys, &message, &message[0]).unwrap());
}

#[test]
fn setup_hands_out_as_many_keys_as_asked() {
    let mut rng = StdRng::seed_from_u64(0u64);
    assert_eq!(PedersenCommitment::<G2>::setup(&mut rng, 3).unwrap().len(), 3);
    assert_eq!(AFGHOCommitmentG1::setup(&mut rng, 2).unwrap().len(), 2);
    assert_eq!(AFGHOCommitmentG2::setup(&mut rng, 0).unwrap().len(), 0);
    let generators: Vec<G1> = random_generators(&mut rng, 4);
    assert_eq!(generators.len(), 4);
    assert_ne!(generators[0], generators[1]);
}

#[test]
fn powers_of_two_are_recognised() {
    for n in [1usize, 2, 4, 8, 1024, 1 << 40] {
        assert!(power_of_two(n));
    }
    for n in [0usize, 3, 5, 6, 7, 12, 1023, (1 << 40) + 1, usize::MAX] {
        assert!(!power_of_two(n));
    }
}

#[test]
fn folding_multiplies_the_upper_half() {
    let folded = fold_elements(&scalars(&[1, 2, 3, 4]), &Scalar::from_u64(10));
    assert_eq!(folded, scalars(&[31, 42]));
    assert_eq!(mul_helper(&Scalar::from_u64(6), &Scalar::from_u64(7)), Scalar::from_u64(42));
}

#[test]
fn challenges_depend_on_the_payload_alone() {
    let first = derive_challenge(b"payload").unwrap();
    let again = derive_challenge(b"payload").unwrap();
    let other = derive_challenge(b"another payload").unwrap();
    assert_eq!(first, again);
    assert_ne!(first, other);
    let (c, c_inv) = derive_invertible_challenge(b"payload").unwrap();
    assert_eq!(c.mul(&c_inv), Scalar::one());
    assert_eq!(c, first);
    let mut bytes = vec![1u8, 2];
    append_bytes(&mut bytes, &[3, 4]);
    assert_eq!(bytes, vec![1, 2, 3, 4]);
}

struct Instance {
    a: Vec<Scalar>,
    b: Vec<Scalar>,
    t: Scalar,
    ck_a: Vec<G2>,
    ck_b: Vec<G1>,
    ck_t: Scalar,
    com_a: G2,
    com_b: G1,
    com_t: Scalar,
}

fn instance(n: usize) -> Instance {
    let mut rng = StdRng::seed_from_u64(0u64);
    let a: Vec<Scalar> = (0..n).map(|_| Scalar::random(&mut rng)).collect();
    let b: Vec<Scalar> = (0..n).map(|_| Scalar::random(&mut rng)).collect();
    let ck_a = PedersenCommitment::<G2>::setup(&mut rng, n).unwrap();
    let ck_b = PedersenCommitment::<G1>::setup(&mut rng, n).unwrap();
    let ck_t = Scalar::one();
    let t = ScalarInnerProduct::inner_product(&a, &b).unwrap();
    let com_a = PedersenCommitment::<G2>::commit(&ck_a, &a).unwrap();
    let com_b = PedersenCommitment::<G1>::commit(&ck_b, &b).unwrap();
    let com_t = t.clone();
    Instance { a, b, t, ck_a, ck_b, ck_t, com_a, com_b, com_t }
}

fn prove(
    i: &Instance,
) -> Result<(Vec<((G2, G1, Scalar), (G2, G1, Scalar))>, (Scalar, Scalar), Vec<Scalar>), InnerProductArgumentError>
{
    ScalarGIPA::prove(
        (&i.a, &i.b, &i.t),
        (&i.ck_a, &i.ck_b, &i.ck_t),
        (&i.com_a, &i.com_b, &i.com_t),
    )
}

#[test]
fn halving_argument_has_one_round_for_each_halving() {
    for (n, rounds) in [(1usize, 0usize), (2, 1), (4, 2), (8, 3)] {
        let i = instance(n);
        let (steps, _, transcript) = prove(&i).unwrap();
        assert_eq!(steps.len(), rounds);
        assert_eq!(transcript.len(), rounds);
    }
}

#[test]
fn halving_argument_on_one_element_returns_the_messages() {
    let i = instance(1);
    let (steps, base, transcript) = prove(&i).unwrap();
    assert!(steps.is_empty());
    assert!(transcript.is_empty());
    assert_eq!(base, (i.a[0], i.b[0]));
}

#[test]
fn recursion_appends_the_last_round_first() {
    let i = instance(8);
    let (steps, base, transcript) = prove(&i).unwrap();
    let mut emitted = Vec::new();
    let mut challenges = Vec::new();
    let (left, _) = ScalarGIPA::recursive_prove(
        (&i.a, &i.b),
        (&i.ck_a, &i.ck_b, &i.ck_t),
        &Scalar::zero(),
        &mut emitted,
        &mut challenges,
    )
    .unwrap();
    assert_eq!(left, base);
    assert_eq!(emitted.len(), 3);
    // the record of the first halving is the last that is appended
    assert_eq!(emitted[2].0 .0, PedersenCommitment::<G2>::commit(&i.ck_a[..4], &i.a[4..]).unwrap());
    assert_eq!(emitted[2].1 .0, PedersenCommitment::<G2>::commit(&i.ck_a[4..], &i.a[..4]).unwrap());
    assert_eq!(emitted[2], steps[0]);
    assert_eq!(emitted[1], steps[1]);
    assert_eq!(emitted[0], steps[2]);
    let mut reversed = challenges.clone();
    reversed.reverse();
    assert_eq!(reversed, transcript);
    // what was there before stays in front
    let before = emitted.len();
    ScalarGIPA::recursive_prove(
        (&i.a[..2], &i.b[..2]),
        (&i.ck_a[..2], &i.ck_b[..2], &i.ck_t),
        &Scalar::zero(),
        &mut emitted,
        &mut challenges,
    )
    .unwrap();
    assert_eq!(emitted.len(), before + 1);
    assert_eq!(emitted[2], steps[0]);
}

#[test]
fn round_of_the_first_halving_comes_first_in_the_argument() {
    // left messages 0, 0, 1, 0 under keys that are the generator
    let a = scalars(&[0, 0, 1, 0]);
    let b = scalars(&[1, 1, 1, 1]);
    let ck_a = vec![G2::generator(); 4];
    let ck_b = vec![G1::generator(); 4];
    let ck_t = Scalar::one();
    let t = ScalarInnerProduct::inner_product(&a, &b).unwrap();
    let com = (
        PedersenCommitment::<G2>::commit(&ck_a, &a).unwrap(),
        PedersenCommitment::<G1>::commit(&ck_b, &b).unwrap(),
        t,
    );
    let (steps, _, _) =
        ScalarGIPA::prove((&a, &b, &t), (&ck_a, &ck_b, &ck_t), (&com.0, &com.1, &com.2)).unwrap();
    assert_eq!(steps.len(), 2);
    // the first halving commits to the upper half 1, 0 under the first two keys
    assert_eq!(steps[0].0 .0, G2::generator());
    assert_eq!(steps[0].1 .0, G2::zero());
    let mut emitted = Vec::new();
    let mut challenges = Vec::new();
    ScalarGIPA::recursive_prove(
        (&a, &b),
        (&ck_a, &ck_b, &ck_t),
        &Scalar::zero(),
        &mut emitted,
        &mut challenges,
    )
    .unwrap();
    assert_eq!(emitted[1].0 .0, G2::generator());
    assert_eq!(emitted[1], steps[0]);
    assert_eq!(emitted[0], steps[1]);
}

#[test]
fn first_round_commits_to_the_cross_terms() {
    let i = instance(2);
    let (steps, base, transcript) = prove(&i).unwrap();
    let (left, right) = &steps[0];
    // left: upper half of a under lower keys, lower half of b under upper keys
    assert_eq!(left.0, i.ck_a[0].scale(&i.a[1]));
    assert_eq!(left.1, i.ck_b[1].scale(&i.b[0]));
    assert_eq!(left.2, i.a[1].mul(&i.b[0]));
    assert_eq!(right.0, i.ck_a[1].scale(&i.a[0]));
    assert_eq!(right.1, i.ck_b[0].scale(&i.b[1]));
    assert_eq!(right.2, i.a[0].mul(&i.b[1]));
    // the messages left are the folds by the challenge and its inverse
    let c = transcript[0];
    let c_inv = c.inverse().unwrap();
    assert_eq!(base.0, c.mul(&i.a[1]).add(&i.a[0]));
    assert_eq!(base.1, c_inv.mul(&i.b[1]).add(&i.b[0]));
}

#[test]
fn verifier_arrives_at_the_commitments_to_what_is_left() {
    let i = instance(8);
    let (proof, aux) =
        ScalarGIPA::prove_with_aux((&i.a, &i.b), (&i.ck_a, &i.ck_b, &i.ck_t)).unwrap();
    let (folded, transcript) =
        ScalarGIPA::verify_recursive_challenge_transcript((&i.com_a, &i.com_b, &i.com_t), &proof)
            .unwrap();
    assert_eq!(transcript, aux.r_transcript);
    assert_eq!(folded.0, aux.ck_base.0.scale(&proof.r_base.0));
    assert_eq!(folded.1, aux.ck_base.1.scale(&proof.r_base.1));
    assert_eq!(folded.2, proof.r_base.0.mul(&proof.r_base.1));
    let (again, _) = ScalarGIPA::replay_rounds(
        (&i.com_a, &i.com_b, &i.com_t),
        &proof.r_commitment_steps,
    )
    .unwrap();
    assert_eq!(again, folded);
}

#[test]
fn prover_refuses_a_length_that_is_no_power_of_two() {
    for n in [0usize, 3, 5, 6] {
        let i = instance(n);
        assert_eq!(prove(&i).err(), Some(InnerProductArgumentError::MessageLengthInvalid(n, n)));
        assert_eq!(
            ScalarGIPA::prove_with_aux((&i.a, &i.b), (&i.ck_a, &i.ck_b, &i.ck_t)).err(),
            Some(InnerProductArgumentError::MessageLengthInvalid(n, n))
        );
    }
    // also where the claimed inner product is wrong
    let mut i = instance(3);
    i.t = i.t.add(&Scalar::one());
    assert_eq!(prove(&i).err(), Some(InnerProductArgumentError::MessageLengthInvalid(3, 3)));
}

#[test]
fn prover_refuses_vectors_and_keys_that_do_not_fit() {
    let mut i = instance(4);
    i.b.pop();
    assert_eq!(prove(&i).err(), Some(InnerProductArgumentError::MessageLengthInvalid(4, 3)));
    let mut i = instance(4);
    i.ck_a.pop();
    assert_eq!(prove(&i).err(), Some(InnerProductArgumentError::MessageLengthInvalid(3, 4)));
    let mut i = instance(4);
    i.ck_b.push(G1::generator());
    assert_eq!(prove(&i).err(), Some(InnerProductArgumentError::MessageLengthInvalid(5, 4)));
}

#[test]
fn prover_refuses_what_does_not_fit_the_vectors() {
    let mut i = instance(4);
    i.t = i.t.add(&Scalar::one());
    assert_eq!(prove(&i).err(), Some(InnerProductArgumentError::InnerProductInvalid));

    let mut i = instance(4);
    i.com_a = i.com_a.add(&G2::generator());
    assert_eq!(prove(&i).err(), Some(InnerProductArgumentError::InnerProductInvalid));

    let mut i = instance(4);
    i.com_b = i.com_b.add(&G1::generator());
    assert_eq!(prove(&i).err(), Some(InnerProductArgumentError::InnerProductInvalid));

    let mut i = instance(4);
    i.com_t = i.com_t.add(&Scalar::one());
    assert_eq!(prove(&i).err(), Some(InnerProductArgumentError::InnerProductInvalid));

    // a message changed after committing
    let mut i = instance(8);
    i.a[3] = i.a[3].add(&Scalar::one());
    assert!(prove(&i).is_err());
}

#[test]
fn prover_is_deterministic() {
    let i = instance(8);
    let first = prove(&i).unwrap();
    let second = prove(&i).unwrap();
    assert_eq!(first, second);
    let bytes = |p: &(Vec<((G2, G1, Scalar), (G2, G1, Scalar))>, (Scalar, Scalar), Vec<Scalar>)| {
        let mut out = Vec::new();
        for (l, r) in &p.0 {
            out.extend(l.0.to_bytes());
            out.extend(l.1.to_bytes());
            out.extend(l.2.to_bytes());
            out.extend(r.0.to_bytes());
            out.extend(r.1.to_bytes());
            out.extend(r.2.to_bytes());
        }
        out.extend(p.1 .0.to_bytes());
        out.extend(p.1 .1.to_bytes());
        out
    };
    assert_eq!(bytes(&first), bytes(&second));
}

#[test]
fn errors_say_what_went_wrong() {
    assert_eq!(
        InnerProductArgumentError::MessageLengthInvalid(3, 4).message(),
        "left length, right length: 3, 4"
    );
    assert_eq!(
        InnerProductArgumentError::InnerProductInvalid.message(),
        "inner product not sound"
    );
    assert_eq!(InnerProductArgumentError::InverseOfZero.message(), "inverse of zero");
    assert_eq!(
        InnerProductArgumentError::SerializationError.message(),
        "no field element could be read from a transcript"
    );
}

#[test]
fn length_error_gives_both_lengths_in_decimal() {
    assert_eq!(
        InnerProductArgumentError::MessageLengthInvalid(0, 10).message(),
        "left length, right length: 0, 10"
    );
    assert_eq!(
        InnerProductArgumentError::MessageLengthInvalid(1024, 65537).message(),
        "left length, right length: 1024, 65537"
    );
    assert_eq!(
        InnerProductArgumentError::MessageLengthInvalid(9, 100).message(),
        "left length, right length: 9, 100"
    );
}

#[test]
fn tampered_rounds_change_the_challenges() {
    let i = instance(4);
    let (proof, _) =
        ScalarGIPA::prove_with_aux((&i.a, &i.b), (&i.ck_a, &i.ck_b, &i.ck_t)).unwrap();
    let (_, transcript) =
        ScalarGIPA::verify_recursive_challenge_transcript((&i.com_a, &i.com_b, &i.com_t), &proof)
            .unwrap();
    let mut steps = proof.r_commitment_steps;
    steps[0].0 .2 = steps[0].0 .2.add(&Scalar::one());
    let tampered: GIPAProof<
        ScalarInnerProduct,
        PedersenCommitment<G2>,
        PedersenCommitment<G1>,
        IdentityCommitment<Scalar>,
    > = GIPAProof { r_commitment_steps: steps, r_base: proof.r_base, _gipa: Default::default() };
    let (_, other) = ScalarGIPA::verify_recursive_challenge_transcript(
        (&i.com_a, &i.com_b, &i.com_t),
        &tampered,
    )
    .unwrap();
    assert_ne!(transcript, other);
}

#[test]
fn halving_argument_is_accepted_by_its_verifier() {
    for n in [1usize, 2, 8] {
        let i = instance(n);
        let (proof, _) =
            ScalarGIPA::prove_with_aux((&i.a, &i.b), (&i.ck_a, &i.ck_b, &i.ck_t)).unwrap();
        let com = (&i.com_a, &i.com_b, &i.com_t);
        assert!(ScalarGIPA::verify((&i.ck_a, &i.ck_b, &i.ck_t), com, &proof).unwrap());
        // not for another commitment
        let other = i.com_t.add(&Scalar::one());
        assert!(!ScalarGIPA::verify(
            (&i.ck_a, &i.ck_b, &i.ck_t),
            (&i.com_a, &i.com_b, &other),
            &proof
        )
        .unwrap());
    }
}

#[test]
fn verifier_refuses_keys_that_do_not_fit() {
    let i = instance(4);
    let (proof, _) =
        ScalarGIPA::prove_with_aux((&i.a, &i.b), (&i.ck_a, &i.ck_b, &i.ck_t)).unwrap();
    let com = (&i.com_a, &i.com_b, &i.com_t);
    assert_eq!(
        ScalarGIPA::verify((&i.ck_a[..3], &i.ck_b, &i.ck_t), com, &proof),
        Err(InnerProductArgumentError::MessageLengthInvalid(3, 4))
    );
    assert_eq!(
        ScalarGIPA::verify((&i.ck_a[..3], &i.ck_b[..3], &i.ck_t), com, &proof),
        Err(InnerProductArgumentError::MessageLengthInvalid(3, 3))
    );
    // keys for another number of rounds than the argument has
    assert_eq!(ScalarGIPA::verify((&i.ck_a[..2], &i.ck_b[..2], &i.ck_t), com, &proof), Ok(false));
    let more = instance(8);
    assert_eq!(ScalarGIPA::verify((&more.ck_a, &more.ck_b, &i.ck_t), com, &proof), Ok(false));
}
