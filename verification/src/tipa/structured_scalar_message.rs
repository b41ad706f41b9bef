//! The argument where the right vector is the sequence of the powers of a
//! public scalar.

use crate::algebra::lemma_dot_single;
use crate::dh_commitments::DoublyHomomorphicCommitment;
use crate::element::{values, Element};
use crate::field::{finv, fmul, lemma_fmul_commutative, scalar_encoding, Scalar};
use crate::gipa::{
    lemma_replay_challenges, lemma_run_challenges, prove_with_aux_spec, replay, steps_values,
    InnerProductArgumentError, Round, GIPA,
};
use crate::groups::{G1, G2};
use crate::inner_products::InnerProduct;
use crate::polynomial::fpow;
use crate::tipa::{
    first_challenge, g2_opening_holds, inverse_values, inverses, kzg_opening_spec, product_form,
    product_form_at, prove_commitment_key_kzg_opening, reversed, single,
    verify_commitment_key_g2_kzg_opening, TIPACompatibleSetup, VerifierSRS, SRS, TIPA,
};
use crate::transcript::{append_bytes, challenge, derive_challenge};
use vstd::prelude::*;

verus! {

/// The powers of a scalar: `1, s, s^2, ...`, from the power zero on.
pub open spec fn structured_powers(num: nat, s: nat) -> Seq<nat> {
    Seq::new(num, |i: int| fpow(s, i as nat))
}

/// The first `num` powers of `s`, from the power zero on.
pub fn structured_scalar_power(num: usize, s: &Scalar) -> (r: Vec<Scalar>)
    ensures
        values(r@) == structured_powers(num as nat, s.value()),
{
    let mut powers: Vec<Scalar> = Vec::new();
    let mut pow_s = Scalar::one();
    let mut i: usize = 0;
    while i < num
        invariant
            i <= num,
            powers@.len() == i,
            pow_s.value() == fpow(s.value(), i as nat),
            forall|j: int| 0 <= j < i ==> (#[trigger] powers@[j]).value() == fpow(s.value(), j as nat),
        decreases num - i,
    {
        proof {
            lemma_fmul_commutative(pow_s.value(), s.value());
        }
        powers.push(pow_s.duplicate());
        pow_s = pow_s.mul(s);
        i += 1;
    }
    assert(values(powers@) =~= structured_powers(num as nat, s.value()));
    powers
}

/// The argument where the right vector is structured: the commitments of
/// each round, first round first, the message of the left vector that the
/// prover is left with, its key, and the opening that shows the key well
/// formed. The message and the key of the right vector are left out: the
/// verifier works them out.
pub struct TIPAWithSSMProof<IP, LMC, RMC, IPC> where
    IP: InnerProduct<
        LeftMessage = LMC::Message,
        RightMessage = RMC::Message,
        Output = IPC::Message,
    >,
    LMC: DoublyHomomorphicCommitment<Key = G2> + TIPACompatibleSetup,
    RMC: DoublyHomomorphicCommitment<Key = G1, Message = Scalar> + TIPACompatibleSetup,
    IPC: DoublyHomomorphicCommitment,
 {
    pub r_commitment_steps: Vec<
        (
            (LMC::Output, RMC::Output, IPC::Output),
            (LMC::Output, RMC::Output, IPC::Output),
        ),
    >,
    pub r_base: LMC::Message,
    pub final_ck: G2,
    pub final_ck_proof: G2,
    pub _inner_product: core::marker::PhantomData<IP>,
}

/// An argument with a structured right vector, by the indices of its
/// elements.
pub struct SSMProofValues {
    pub rounds: Seq<Round>,
    pub base: nat,
    pub final_ck: nat,
    pub final_ck_proof: nat,
}

impl<IP, LMC, RMC, IPC> TIPAWithSSMProof<IP, LMC, RMC, IPC> where
    IP: InnerProduct<
        LeftMessage = LMC::Message,
        RightMessage = RMC::Message,
        Output = IPC::Message,
    >,
    LMC: DoublyHomomorphicCommitment<Key = G2> + TIPACompatibleSetup,
    RMC: DoublyHomomorphicCommitment<Key = G1, Message = Scalar> + TIPACompatibleSetup,
    IPC: DoublyHomomorphicCommitment,
 {
    pub open spec fn view(&self) -> SSMProofValues {
        SSMProofValues {
            rounds: steps_values(self.r_commitment_steps@),
            base: self.r_base.value(),
            final_ck: self.final_ck.value(),
            final_ck_proof: self.final_ck_proof.value(),
        }
    }
}

/// What is hashed for the point of the opening: the first challenge, then
/// the key of the left vector that the prover is left with.
pub open spec fn ssm_kzg_payload(c: nat, ck: nat) -> Seq<u8> {
    scalar_encoding(c) + G2::encoding(ck)
}

/// What `prove_with_structured_scalar_message` returns, by the indices of
/// all elements.
pub open spec fn ssm_prove_spec<A: Element, B: Element, C: Element>(
    h_beta_powers: Seq<nat>,
    a: Seq<nat>,
    b: Seq<nat>,
    ka: Seq<nat>,
    kb: Seq<nat>,
    kt: nat,
) -> Result<SSMProofValues, InnerProductArgumentError> {
    match prove_with_aux_spec::<A, B, C>(a, b, ka, kb, kt) {
        Err(e) => Err(e),
        Ok(run) => match challenge(
            ssm_kzg_payload(first_challenge(run.challenges), run.ck_base.0),
            false,
        ) {
            None => Err(InnerProductArgumentError::SerializationError),
            Some(z) => match kzg_opening_spec(
                h_beta_powers,
                inverse_values(run.challenges.reverse()),
                1,
                z,
            ) {
                Err(e) => Err(e),
                Ok(opening) => Ok(
                    SSMProofValues {
                        rounds: run.rounds,
                        base: run.base.0,
                        final_ck: run.ck_base.0,
                        final_ck_proof: opening,
                    },
                ),
            },
        },
    }
}

/// What `verify_with_structured_scalar_message` returns, by the indices of
/// all elements: whether the opening holds and the folded commitments are
/// those to the message of the argument under its key, and to the product
/// of that message with what the powers of `x` fold to.
pub open spec fn ssm_verify_spec<A: Element, B: Element, C: Element>(
    v_srs: (nat, nat, nat, nat),
    kt: nat,
    com: (nat, nat),
    x: nat,
    proof: SSMProofValues,
) -> Result<bool, InnerProductArgumentError> {
    match replay::<A, B, C>((com.0, 0, com.1), proof.rounds, 0) {
        None => Err(InnerProductArgumentError::SerializationError),
        Some(folded) => match challenge(
            ssm_kzg_payload(first_challenge(folded.1), proof.final_ck),
            false,
        ) {
            None => Err(InnerProductArgumentError::SerializationError),
            Some(z) => Ok(
                g2_opening_holds(
                    v_srs,
                    proof.final_ck,
                    proof.final_ck_proof,
                    product_form(inverse_values(folded.1.reverse()), fmul(fmul(z, z), 1)),
                    z,
                ) && fmul(proof.final_ck, proof.base) == folded.0.0 && fmul(
                    kt,
                    fmul(proof.base, product_form(inverse_values(folded.1.reverse()), x)),
                ) == folded.0.2,
            ),
        },
    }
}

/// The point of the opening, from the transcript and the key of the left
/// vector that the prover is left with.
pub fn ssm_kzg_challenge_point(transcript: &Vec<Scalar>, ck_a_final: &G2) -> (r: Option<Scalar>)
    ensures
        r is None <==> challenge(
            ssm_kzg_payload(first_challenge(values(transcript@)), ck_a_final.value()),
            false,
        ) is None,
        r matches Some(z) ==> challenge(
            ssm_kzg_payload(first_challenge(values(transcript@)), ck_a_final.value()),
            false,
        ) == Some(z.value()),
{
    let mut payload = if transcript.len() == 0 {
        Scalar::zero().to_bytes()
    } else {
        transcript[0].to_bytes()
    };
    let left = ck_a_final.to_bytes();
    append_bytes(&mut payload, left.as_slice());
    assert(payload@ =~= ssm_kzg_payload(
        first_challenge(values(transcript@)),
        ck_a_final.value(),
    ));
    derive_challenge(payload.as_slice())
}

impl<IP, LMC, RMC, IPC> TIPA<IP, LMC, RMC, IPC> where
    IP: InnerProduct<
        LeftMessage = LMC::Message,
        RightMessage = RMC::Message,
        Output = IPC::Message,
    >,
    LMC: DoublyHomomorphicCommitment<Key = G2> + TIPACompatibleSetup,
    RMC: DoublyHomomorphicCommitment<Key = G1, Message = Scalar> + TIPACompatibleSetup,
    IPC: DoublyHomomorphicCommitment,
 {
    /// Produces the argument for a left vector and a right vector that is
    /// the sequence of the powers of a scalar.
    pub fn prove_with_structured_scalar_message(
        srs: &SRS,
        values: (&[IP::LeftMessage], &[IP::RightMessage]),
        ck: (&[LMC::Key], &[RMC::Key], &IPC::Key),
    ) -> (r: Result<TIPAWithSSMProof<IP, LMC, RMC, IPC>, InnerProductArgumentError>)
        ensures
            match r {
                Ok(proof) => ssm_prove_spec::<LMC::Output, RMC::Output, IPC::Output>(
                    crate::element::values(srs.h_beta_powers@),
                    crate::element::values(values.0@),
                    crate::element::values(values.1@),
                    crate::element::values(ck.0@),
                    crate::element::values(ck.1@),
                    ck.2.value(),
                ) == Ok::<SSMProofValues, InnerProductArgumentError>(proof@),
                Err(e) => ssm_prove_spec::<LMC::Output, RMC::Output, IPC::Output>(
                    crate::element::values(srs.h_beta_powers@),
                    crate::element::values(values.0@),
                    crate::element::values(values.1@),
                    crate::element::values(ck.0@),
                    crate::element::values(ck.1@),
                    ck.2.value(),
                ) == Err::<SSMProofValues, InnerProductArgumentError>(e),
            },
    {
        // Run GIPA
        let (proof, aux) = GIPA::<IP, LMC, RMC, IPC>::prove_with_aux(values, ck)?;
        let ghost run = prove_with_aux_spec::<LMC::Output, RMC::Output, IPC::Output>(
            crate::element::values(values.0@),
            crate::element::values(values.1@),
            crate::element::values(ck.0@),
            crate::element::values(ck.1@),
            ck.2.value(),
        )->Ok_0;
        proof {
            lemma_run_challenges::<LMC::Output, RMC::Output, IPC::Output>(
                crate::element::values(values.0@),
                crate::element::values(values.1@),
                crate::element::values(ck.0@),
                crate::element::values(ck.1@),
                ck.2.value(),
                0,
            );
        }

        // Prove final commitment key is wellformed
        let ck_a_final = aux.ck_base.0;
        let transcript = aux.r_transcript;
        let transcript_reverse = reversed(transcript.as_slice());

        // KZG challenge point
        let c = match ssm_kzg_challenge_point(&transcript, &ck_a_final) {
            Some(c) => c,
            None => {
                return Err(InnerProductArgumentError::SerializationError);
            },
        };
        let transcript_inverse = match inverses(transcript_reverse.as_slice()) {
            Some(inv) => inv,
            None => {
                proof {
                    let i = choose|i: int|
                        0 <= i < transcript_reverse@.len() && (
                        #[trigger] transcript_reverse@[i]).value() == 0;
                    let c = run.challenges[run.challenges.len() - 1 - i];
                    assert(crate::element::values(transcript_reverse@)[i] == c);
                    assert(0 * finv(c) == 0);
                }
                return Err(InnerProductArgumentError::InverseOfZero);
            },
        };

        // Complete KZG proof
        let ck_a_kzg_opening = prove_commitment_key_kzg_opening(
            srs.h_beta_powers.as_slice(),
            &transcript_inverse,
            &Scalar::one(),
            &c,
        )?;

        Ok(
            TIPAWithSSMProof {
                r_commitment_steps: proof.r_commitment_steps,
                r_base: proof.r_base.0,
                final_ck: ck_a_final,
                final_ck_proof: ck_a_kzg_opening,
                _inner_product: core::marker::PhantomData,
            },
        )
    }

    /// Checks an argument for a right vector that is the sequence of the
    /// powers of `scalar_b`, against the commitments to the left vector and
    /// to the inner product.
    pub fn verify_with_structured_scalar_message(
        v_srs: &VerifierSRS,
        ck_t: &IPC::Key,
        com: (&LMC::Output, &IPC::Output),
        scalar_b: &Scalar,
        proof: &TIPAWithSSMProof<IP, LMC, RMC, IPC>,
    ) -> (r: Result<bool, InnerProductArgumentError>)
        ensures
            r == ssm_verify_spec::<LMC::Output, RMC::Output, IPC::Output>(
                v_srs@,
                ck_t.value(),
                (com.0.value(), com.1.value()),
                scalar_b.value(),
                proof@,
            ),
    {
        let unused = RMC::Output::zero();
        let (base_com, transcript) = GIPA::<IP, LMC, RMC, IPC>::replay_rounds(
            (com.0, &unused, com.1),
            &proof.r_commitment_steps,
        )?;
        let ghost folded = replay::<LMC::Output, RMC::Output, IPC::Output>(
            (com.0.value(), 0, com.1.value()),
            steps_values(proof.r_commitment_steps@),
            0,
        )->0;
        proof {
            lemma_replay_challenges::<LMC::Output, RMC::Output, IPC::Output>(
                (com.0.value(), 0, com.1.value()),
                steps_values(proof.r_commitment_steps@),
                0,
            );
        }
        let transcript_reverse = reversed(transcript.as_slice());

        // KZG challenge point
        let c = match ssm_kzg_challenge_point(&transcript, &proof.final_ck) {
            Some(c) => c,
            None => {
                return Err(InnerProductArgumentError::SerializationError);
            },
        };
        let transcript_inverse = match inverses(transcript_reverse.as_slice()) {
            Some(inv) => inv,
            None => {
                proof {
                    let i = choose|i: int|
                        0 <= i < transcript_reverse@.len() && (
                        #[trigger] transcript_reverse@[i]).value() == 0;
                    assert(crate::element::values(transcript@) == folded.1);
                    assert(crate::element::values(transcript_reverse@).len()
                        == transcript_reverse@.len());
                    let c = folded.1[folded.1.len() - 1 - i];
                    assert(crate::element::values(transcript_reverse@)[i] == c);
                    assert(0 * finv(c) == 0);
                }
                return Err(InnerProductArgumentError::InverseOfZero);
            },
        };

        // Check commitment key
        let ck_a_valid = verify_commitment_key_g2_kzg_opening(
            v_srs,
            &proof.final_ck,
            &proof.final_ck_proof,
            &transcript_inverse,
            &Scalar::one(),
            &c,
        );

        // Compute final scalar
        let b_base = single(&product_form_at(transcript_inverse.as_slice(), scalar_b));

        // Verify base inner product commitment
        let a_base = single(&proof.r_base);
        let t_base = single(&IP::inner_product(a_base.as_slice(), b_base.as_slice())?);
        let key_a = single(&proof.final_ck);
        let key_t = single(ck_t);
        proof {
            lemma_dot_single(
                crate::element::values(a_base@),
                crate::element::values(b_base@),
            );
            lemma_dot_single(
                crate::element::values(key_a@),
                crate::element::values(a_base@),
            );
            lemma_dot_single(
                crate::element::values(key_t@),
                crate::element::values(t_base@),
            );
        }
        let left_valid = LMC::verify(key_a.as_slice(), a_base.as_slice(), &base_com.0)?;
        let product_valid = IPC::verify(key_t.as_slice(), t_base.as_slice(), &base_com.2)?;

        Ok(ck_a_valid && left_valid && product_valid)
    }
}

} // verus!
