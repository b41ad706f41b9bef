//! The inner pairing product argument with a structured reference string:
//! the halving argument, and beside it two openings of polynomial
//! commitments which show that the prover folded the commitment keys as the
//! challenges demand.

use crate::algebra::dot;
use crate::dh_commitments::afgho16::{AFGHOCommitmentG1, AFGHOCommitmentG2};
use crate::dh_commitments::pedersen::PedersenCommitment;
use crate::dh_commitments::DoublyHomomorphicCommitment;
use crate::element::{lemma_values_push, subtract, values, Element, Module};
use crate::field::{
    fadd, finv, fmul, fsub, lemma_fmul_commutative, modulus, scalar_encoding, Scalar,
};
use crate::gipa::{
    is_power_of_two, mul_helper, proof_encoding, prove_with_aux_spec, replay, triple_values,
    GIPAProof, InnerProductArgumentError, Round, Run, GIPA,
};
use crate::groups::{pairing, G1, G2};
use crate::inner_products::{InnerProduct, MultiexponentiationInnerProduct};
use crate::polynomial::{
    divide_by_linear_factor, fpow, interleave_with_zeros, interleaved, linear_quotient, resized,
    scalar_powers, zeros,
};
use crate::transcript::{append_bytes, challenge, derive_challenge};
use rand::rngs::StdRng;
use std::marker::PhantomData;
use vstd::arithmetic::div_mod::lemma_small_mod;
use vstd::prelude::*;

pub mod completeness;
pub mod structured_scalar_message;

verus! {

/// The commitment schemes whose keys the structured reference string can
/// hand out.
pub trait TIPACompatibleSetup {

}

impl<G: Module> TIPACompatibleSetup for PedersenCommitment<G> {

}

impl TIPACompatibleSetup for AFGHOCommitmentG1 {

}

impl TIPACompatibleSetup for AFGHOCommitmentG2 {

}

/// The structured reference string of the prover: the multiples of the
/// generator of G1 by the powers of a scalar `alpha`, those of the generator
/// of G2 by the powers of a scalar `beta`, and the multiples of the two
/// generators by the other scalar.
pub struct SRS {
    pub g_alpha_powers: Vec<G1>,
    pub h_beta_powers: Vec<G2>,
    pub g_beta: G1,
    pub h_alpha: G2,
}

/// The part of the structured reference string that the verifier needs.
pub struct VerifierSRS {
    pub g: G1,
    pub h: G2,
    pub g_beta: G1,
    pub h_alpha: G2,
}

/// The elements at the even positions of a sequence.
pub open spec fn even_indexed(s: Seq<nat>) -> Seq<nat> {
    Seq::new(((s.len() + 1) / 2) as nat, |j: int| s[2 * j])
}

impl SRS {
    /// Whether this is the reference string for vectors of `size` elements
    /// from the scalars `alpha` and `beta`.
    pub open spec fn structured(&self, size: nat, alpha: nat, beta: nat) -> bool {
        &&& values(self.g_alpha_powers@) == scalar_powers((2 * size - 1) as nat, 1, alpha)
        &&& values(self.h_beta_powers@) == scalar_powers((2 * size - 1) as nat, 1, beta)
        &&& self.g_beta.value() == beta % modulus()
        &&& self.h_alpha.value() == alpha % modulus()
    }

    /// Whether this is a reference string for vectors of `size` elements,
    /// from whatever scalars.
    pub open spec fn well_formed(&self, size: nat) -> bool {
        exists|alpha: nat, beta: nat| #[trigger] self.structured(size, alpha, beta)
    }

    /// The reference string for vectors of `size` elements from the scalars
    /// `alpha` and `beta`, which the caller forgets.
    pub fn from_trapdoors(alpha: &Scalar, beta: &Scalar, size: usize) -> (r: SRS)
        requires
            1 <= size <= usize::MAX / 2,
        ensures
            r.structured(size as nat, alpha.value(), beta.value()),
    {
        let g = G1::generator();
        let h = G2::generator();
        proof {
            alpha.lemma_value_reduced();
            beta.lemma_value_reduced();
            lemma_small_mod(alpha.value(), modulus());
            lemma_small_mod(beta.value(), modulus());
            lemma_fmul_commutative(alpha.value(), 1);
            lemma_fmul_commutative(beta.value(), 1);
        }
        SRS {
            g_alpha_powers: structured_generators_scalar_power(2 * size - 1, &g, alpha),
            h_beta_powers: structured_generators_scalar_power(2 * size - 1, &h, beta),
            g_beta: mul_helper(&g, beta),
            h_alpha: mul_helper(&h, alpha),
        }
    }

    /// The commitment keys: the elements at the even positions of the two
    /// sequences of powers, those of G2 for the left vector and those of G1
    /// for the right vector.
    pub fn get_commitment_keys(&self) -> (r: (Vec<G2>, Vec<G1>))
        ensures
            values(r.0@) == even_indexed(values(self.h_beta_powers@)),
            values(r.1@) == even_indexed(values(self.g_alpha_powers@)),
    {
        let ck_1 = every_second(self.h_beta_powers.as_slice());
        let ck_2 = every_second(self.g_alpha_powers.as_slice());
        (ck_1, ck_2)
    }

    /// The verifier's part: the two generators and the two single multiples.
    pub fn get_verifier_key(&self) -> (r: VerifierSRS)
        requires
            self.g_alpha_powers@.len() > 0,
            self.h_beta_powers@.len() > 0,
        ensures
            r.g.value() == self.g_alpha_powers@[0].value(),
            r.h.value() == self.h_beta_powers@[0].value(),
            r.g_beta.value() == self.g_beta.value(),
            r.h_alpha.value() == self.h_alpha.value(),
    {
        VerifierSRS {
            g: self.g_alpha_powers[0].duplicate(),
            h: self.h_beta_powers[0].duplicate(),
            g_beta: self.g_beta.duplicate(),
            h_alpha: self.h_alpha.duplicate(),
        }
    }
}

/// The elements at the even positions of a vector.
pub fn every_second<T: Element>(v: &[T]) -> (r: Vec<T>)
    ensures
        values(r@) == even_indexed(values(v@)),
{
    let count: usize = v.len() / 2 + v.len() % 2;
    let mut out: Vec<T> = Vec::new();
    let mut j: usize = 0;
    while j < count
        invariant
            j <= count,
            count == (v.len() + 1) / 2,
            out@.len() == j,
            forall|k: int| 0 <= k < out@.len() ==> (#[trigger] out@[k]).value() == v@[2 * k].value(),
        decreases count - j,
    {
        out.push(v[2 * j].duplicate());
        j += 1;
    }
    assert(values(out@) =~= even_indexed(values(v@)));
    out
}

/// The multiples of `g` by the powers of `s`, from the power zero on.
pub fn structured_generators_scalar_power<G: Module>(num: usize, g: &G, s: &Scalar) -> (r: Vec<G>)
    ensures
        values(r@) == scalar_powers(num as nat, g.value(), s.value()),
{
    let mut generators: Vec<G> = Vec::new();
    let mut pow_s = Scalar::one();
    let mut i: usize = 0;
    while i < num
        invariant
            i <= num,
            generators@.len() == i,
            pow_s.value() == fpow(s.value(), i as nat),
            forall|j: int|
                0 <= j < i ==> (#[trigger] generators@[j]).value() == fmul(
                    g.value(),
                    fpow(s.value(), j as nat),
                ),
        decreases num - i,
    {
        proof {
            lemma_fmul_commutative(g.value(), pow_s.value());
            lemma_fmul_commutative(pow_s.value(), s.value());
        }
        generators.push(mul_helper(g, &pow_s));
        pow_s = pow_s.mul(s);
        i += 1;
    }
    assert(values(generators@) =~= scalar_powers(num as nat, g.value(), s.value()));
    generators
}

/// The power `w^(2^i)`: `w` squared `i` times.
pub open spec fn repeated_square(w: nat, i: nat) -> nat
    decreases i,
{
    if i == 0 {
        w
    } else {
        fmul(repeated_square(w, (i - 1) as nat), repeated_square(w, (i - 1) as nat))
    }
}

/// The product of the factors `1 + t[i] * w^(2^i)`.
pub open spec fn product_form(t: Seq<nat>, w: nat) -> nat
    decreases t.len(),
{
    if t.len() == 0 {
        1
    } else {
        fmul(
            product_form(t.drop_last(), w),
            fadd(1, fmul(t.last(), repeated_square(w, (t.len() - 1) as nat))),
        )
    }
}

/// A sequence with every element multiplied by `m`.
pub open spec fn scaled(s: Seq<nat>, m: nat) -> Seq<nat> {
    Seq::new(s.len(), |i: int| fmul(s[i], m))
}

/// The coefficients of the product of the factors `1 + t[i] * (r X)^(2^i)`,
/// from the constant term upwards: with each factor the coefficients so far
/// are followed by their multiples by `t[i] * r^(2^i)`.
pub open spec fn coefficients(t: Seq<nat>, r: nat) -> Seq<nat>
    decreases t.len(),
{
    if t.len() == 0 {
        seq![1nat]
    } else {
        let before = coefficients(t.drop_last(), r);
        before + scaled(
            before,
            fmul(t.last(), repeated_square(r, (t.len() - 1) as nat)),
        )
    }
}

/// The polynomial whose commitment under the powers of the reference string
/// a folded key is: the coefficients of the product, with zeros between
/// them, since the commitment keys are the even powers only.
pub open spec fn key_polynomial(t: Seq<nat>, r: nat) -> Seq<nat> {
    interleaved(coefficients(t, r), zeros((coefficients(t, r).len() - 1) as nat))
}

/// The product of the factors `1 + transcript[i] * w^(2^i)`.
pub fn product_form_at(transcript: &[Scalar], w: &Scalar) -> (r: Scalar)
    ensures
        r.value() == product_form(values(transcript@), w.value()),
{
    let mut power = w.duplicate();
    let mut product = Scalar::one();
    let one = Scalar::one();
    let mut i: usize = 0;
    proof {
        assert(values(transcript@).take(0) =~= Seq::<nat>::empty());
    }
    while i < transcript.len()
        invariant
            i <= transcript@.len(),
            one.value() == 1,
            power.value() == repeated_square(w.value(), i as nat),
            product.value() == product_form(values(transcript@).take(i as int), w.value()),
        decreases transcript@.len() - i,
    {
        let factor = one.add(&transcript[i].mul(&power));
        product = product.mul(&factor);
        power = power.mul(&power);
        i += 1;
        proof {
            let t = values(transcript@).take(i as int);
            assert(t.drop_last() =~= values(transcript@).take(i - 1));
        }
    }
    proof {
        assert(values(transcript@).take(i as int) =~= values(transcript@));
    }
    product
}

/// The value of the key polynomial of a transcript at the point `z`, from
/// its factors: the product of the `1 + t[i] * (z^2 * r)^(2^i)`.
pub fn polynomial_evaluation_product_form_from_transcript(
    transcript: &Vec<Scalar>,
    z: &Scalar,
    r_shift: &Scalar,
) -> (r: Scalar)
    ensures
        r.value() == product_form(
            values(transcript@),
            fmul(fmul(z.value(), z.value()), r_shift.value()),
        ),
{
    let power_2_zr = z.mul(z).mul(r_shift);
    product_form_at(transcript.as_slice(), &power_2_zr)
}

/// The coefficients of the key polynomial of a transcript, from the
/// constant term upwards, with the zeros between them.
pub fn polynomial_coefficients_from_transcript(transcript: &Vec<Scalar>, r_shift: &Scalar) -> (r:
    Vec<Scalar>)
    ensures
        values(r@) == key_polynomial(values(transcript@), r_shift.value()),
        r@.len() > 0,
{
    let mut coeffs: Vec<Scalar> = Vec::new();
    coeffs.push(Scalar::one());
    let mut power_2_r = r_shift.duplicate();
    let mut i: usize = 0;
    proof {
        assert(values(transcript@).take(0) =~= Seq::<nat>::empty());
        assert(values(coeffs@) =~= seq![1nat]);
    }
    while i < transcript.len()
        invariant
            i <= transcript@.len(),
            power_2_r.value() == repeated_square(r_shift.value(), i as nat),
            coeffs@.len() > 0,
            values(coeffs@) == coefficients(values(transcript@).take(i as int), r_shift.value()),
        decreases transcript@.len() - i,
    {
        let factor = transcript[i].mul(&power_2_r);
        let count = coeffs.len();
        let ghost before = values(coeffs@);
        let mut j: usize = 0;
        while j < count
            invariant
                j <= count,
                count <= coeffs@.len(),
                coeffs@.len() == count + j,
                values(coeffs@).take(count as int) == before,
                before.len() == count,
                forall|k: int|
                    0 <= k < j ==> (#[trigger] coeffs@[count + k]).value() == fmul(
                        before[k],
                        factor.value(),
                    ),
            decreases count - j,
        {
            let ghost old_values = values(coeffs@);
            let term = coeffs[j].mul(&factor);
            proof {
                assert(old_values.take(count as int)[j as int] == old_values[j as int]);
                lemma_values_push(coeffs@, term);
            }
            coeffs.push(term);
            proof {
                assert(values(coeffs@).take(count as int) =~= old_values.take(count as int));
            }
            j += 1;
        }
        power_2_r = power_2_r.mul(&power_2_r);
        i += 1;
        proof {
            let t = values(transcript@).take(i as int);
            assert(t.drop_last() =~= values(transcript@).take(i - 1));
            let after = values(coeffs@);
            assert forall|k: int| 0 <= k < after.len() implies after[k] == (before + scaled(
                before,
                factor.value(),
            ))[k] by {
                if k < count {
                    assert(after.take(count as int)[k] == after[k]);
                } else {
                    assert(coeffs@[count + (k - count)].value() == fmul(
                        before[k - count],
                        factor.value(),
                    ));
                }
            }
            assert(after =~= before + scaled(before, factor.value()));
        }
    }
    proof {
        assert(values(transcript@).take(i as int) =~= values(transcript@));
    }
    let interleaved = interleave_with_zeros(coeffs.as_slice());
    assert(values(interleaved@).len() == interleaved@.len());
    interleaved
}

/// The inverses of the elements of a sequence.
pub open spec fn inverse_values(s: Seq<nat>) -> Seq<nat> {
    Seq::new(s.len(), |i: int| finv(s[i]))
}

/// The dividend of an opening: the key polynomial less its value at `z`.
pub open spec fn opening_numerator(t: Seq<nat>, r: nat, z: nat) -> Seq<nat> {
    key_polynomial(t, r).update(
        0,
        fsub(key_polynomial(t, r)[0], product_form(t, fmul(fmul(z, z), r))),
    )
}

/// The opening at `z` of the commitment under `powers` to the key polynomial
/// of a transcript: the commitment to the quotient of the polynomial, less
/// its value at `z`, by `X - z`. There must be as many powers as the
/// polynomial has coefficients.
pub open spec fn kzg_opening_spec(powers: Seq<nat>, t: Seq<nat>, r: nat, z: nat) -> Result<
    nat,
    InnerProductArgumentError,
> {
    if powers.len() != key_polynomial(t, r).len() {
        Err(
            InnerProductArgumentError::MessageLengthInvalid(
                powers.len() as usize,
                key_polynomial(t, r).len() as usize,
            ),
        )
    } else {
        Ok(
            dot(
                powers,
                resized(linear_quotient(opening_numerator(t, r, z), z), powers.len()),
            ),
        )
    }
}

/// A copy of a vector of scalars in reverse order.
pub fn reversed(v: &[Scalar]) -> (r: Vec<Scalar>)
    ensures
        values(r@) == values(v@).reverse(),
{
    let mut out: Vec<Scalar> = Vec::new();
    let mut i: usize = v.len();
    while i > 0
        invariant
            i <= v@.len(),
            out@.len() == v@.len() - i,
            forall|j: int|
                0 <= j < out@.len() ==> (#[trigger] out@[j]).value() == v@[v@.len() - 1 - j].value(),
        decreases i,
    {
        i -= 1;
        out.push(v[i].duplicate());
    }
    assert(values(out@) =~= values(v@).reverse());
    out
}

/// The inverses of a vector of scalars, if none of them is zero.
pub fn inverses(v: &[Scalar]) -> (r: Option<Vec<Scalar>>)
    ensures
        r is Some <==> (forall|i: int| 0 <= i < v@.len() ==> (#[trigger] v@[i]).value() != 0),
        r matches Some(w) ==> values(w@) == inverse_values(values(v@)),
{
    let mut out: Vec<Scalar> = Vec::new();
    let mut i: usize = 0;
    while i < v.len()
        invariant
            i <= v@.len(),
            out@.len() == i,
            forall|j: int| 0 <= j < i ==> (#[trigger] v@[j]).value() != 0,
            forall|j: int| 0 <= j < i ==> (#[trigger] out@[j]).value() == finv(v@[j].value()),
        decreases v@.len() - i,
    {
        match v[i].inverse() {
            Some(inv) => {
                out.push(inv);
            },
            None => {
                return None;
            },
        }
        i += 1;
    }
    assert(values(out@) =~= inverse_values(values(v@)));
    Some(out)
}

/// Opens the commitment under `srs_powers` to the key polynomial of a
/// transcript at the point `kzg_challenge`.
pub fn prove_commitment_key_kzg_opening<G: Module>(
    srs_powers: &[G],
    transcript: &Vec<Scalar>,
    r_shift: &Scalar,
    kzg_challenge: &Scalar,
) -> (r: Result<G, InnerProductArgumentError>)
    ensures
        match r {
            Ok(opening) => kzg_opening_spec(
                values(srs_powers@),
                values(transcript@),
                r_shift.value(),
                kzg_challenge.value(),
            ) == Ok::<nat, InnerProductArgumentError>(opening.value()),
            Err(e) => kzg_opening_spec(
                values(srs_powers@),
                values(transcript@),
                r_shift.value(),
                kzg_challenge.value(),
            ) == Err::<nat, InnerProductArgumentError>(e),
        },
{
    let mut ck_polynomial = polynomial_coefficients_from_transcript(transcript, r_shift);
    if srs_powers.len() != ck_polynomial.len() {
        return Err(
            InnerProductArgumentError::MessageLengthInvalid(srs_powers.len(), ck_polynomial.len()),
        );
    }
    let ck_polynomial_c_eval = polynomial_evaluation_product_form_from_transcript(
        transcript,
        kzg_challenge,
        r_shift,
    );
    let ghost polynomial = values(ck_polynomial@);
    let constant = ck_polynomial[0].sub(&ck_polynomial_c_eval);
    ck_polynomial.set(0, constant);
    assert(values(ck_polynomial@) =~= opening_numerator(
        values(transcript@),
        r_shift.value(),
        kzg_challenge.value(),
    ));
    let quotient_coeffs = divide_by_linear_factor(
        ck_polynomial.as_slice(),
        kzg_challenge,
        srs_powers.len(),
    );
    MultiexponentiationInnerProduct::<G>::inner_product(srs_powers, quotient_coeffs.as_slice())
}

/// What the check of an opening in G2 compares, by indices: the pairing of
/// the generator of G1 with the key less the claimed value, and the pairing
/// of the opening with `beta - z` in G1.
pub open spec fn g2_opening_holds(
    srs: (nat, nat, nat, nat),
    ck_final: nat,
    ck_opening: nat,
    eval: nat,
    z: nat,
) -> bool {
    fmul(srs.0, fsub(ck_final, fmul(eval, srs.1))) == fmul(
        fsub(srs.2, fmul(z, srs.0)),
        ck_opening,
    )
}

/// What the check of an opening in G1 compares, by indices.
pub open spec fn g1_opening_holds(
    srs: (nat, nat, nat, nat),
    ck_final: nat,
    ck_opening: nat,
    eval: nat,
    z: nat,
) -> bool {
    fmul(fsub(ck_final, fmul(eval, srs.0)), srs.1) == fmul(
        ck_opening,
        fsub(srs.3, fmul(z, srs.1)),
    )
}

impl VerifierSRS {
    /// The indices of the four elements: `g`, `h`, `g_beta`, `h_alpha`.
    pub open spec fn view(&self) -> (nat, nat, nat, nat) {
        (self.g.value(), self.h.value(), self.g_beta.value(), self.h_alpha.value())
    }
}

/// Checks an opening in G2 of the commitment to the key polynomial of a
/// transcript: that `ck_final` commits to a polynomial with the value of
/// that polynomial at `kzg_challenge`.
pub fn verify_commitment_key_g2_kzg_opening(
    v_srs: &VerifierSRS,
    ck_final: &G2,
    ck_opening: &G2,
    transcript: &Vec<Scalar>,
    r_shift: &Scalar,
    kzg_challenge: &Scalar,
) -> (r: bool)
    ensures
        r == g2_opening_holds(
            v_srs@,
            ck_final.value(),
            ck_opening.value(),
            product_form(
                values(transcript@),
                fmul(fmul(kzg_challenge.value(), kzg_challenge.value()), r_shift.value()),
            ),
            kzg_challenge.value(),
        ),
{
    let ck_polynomial_c_eval = polynomial_evaluation_product_form_from_transcript(
        transcript,
        kzg_challenge,
        r_shift,
    );
    let left = pairing(&v_srs.g, &subtract(ck_final, &mul_helper(&v_srs.h, &ck_polynomial_c_eval)));
    let right = pairing(&subtract(&v_srs.g_beta, &mul_helper(&v_srs.g, kzg_challenge)), ck_opening);
    left.is_equal(&right)
}

/// Checks an opening in G1 of the commitment to the key polynomial of a
/// transcript.
pub fn verify_commitment_key_g1_kzg_opening(
    v_srs: &VerifierSRS,
    ck_final: &G1,
    ck_opening: &G1,
    transcript: &Vec<Scalar>,
    r_shift: &Scalar,
    kzg_challenge: &Scalar,
) -> (r: bool)
    ensures
        r == g1_opening_holds(
            v_srs@,
            ck_final.value(),
            ck_opening.value(),
            product_form(
                values(transcript@),
                fmul(fmul(kzg_challenge.value(), kzg_challenge.value()), r_shift.value()),
            ),
            kzg_challenge.value(),
        ),
{
    let ck_polynomial_c_eval = polynomial_evaluation_product_form_from_transcript(
        transcript,
        kzg_challenge,
        r_shift,
    );
    let left = pairing(&subtract(ck_final, &mul_helper(&v_srs.g, &ck_polynomial_c_eval)), &v_srs.h);
    let right = pairing(ck_opening, &subtract(&v_srs.h_alpha, &mul_helper(&v_srs.h, kzg_challenge)));
    left.is_equal(&right)
}

/// The argument for the inner product `IP` with the commitment schemes
/// `LMC`, `RMC` and `IPC`, whose keys for the two vectors come from a
/// structured reference string.
pub struct TIPA<IP, LMC, RMC, IPC> {
    _inner_product: PhantomData<IP>,
    _left_commitment: PhantomData<LMC>,
    _right_commitment: PhantomData<RMC>,
    _inner_product_commitment: PhantomData<IPC>,
}

/// The argument: that of the halving protocol, the two keys that the prover
/// is left with, and the openings that show them well formed.
pub struct TIPAProof<IP, LMC, RMC, IPC> where
    IP: InnerProduct<
        LeftMessage = LMC::Message,
        RightMessage = RMC::Message,
        Output = IPC::Message,
    >,
    LMC: DoublyHomomorphicCommitment<Key = G2> + TIPACompatibleSetup,
    RMC: DoublyHomomorphicCommitment<Key = G1> + TIPACompatibleSetup,
    IPC: DoublyHomomorphicCommitment,
 {
    pub gipa_proof: GIPAProof<IP, LMC, RMC, IPC>,
    pub final_ck: (G2, G1),
    pub final_ck_proof: (G2, G1),
}

/// An argument by the indices of its elements.
pub struct TIPAProofValues {
    pub rounds: Seq<Round>,
    pub base: (nat, nat),
    pub final_ck: (nat, nat),
    pub final_ck_proof: (nat, nat),
}

impl<IP, LMC, RMC, IPC> TIPAProof<IP, LMC, RMC, IPC> where
    IP: InnerProduct<
        LeftMessage = LMC::Message,
        RightMessage = RMC::Message,
        Output = IPC::Message,
    >,
    LMC: DoublyHomomorphicCommitment<Key = G2> + TIPACompatibleSetup,
    RMC: DoublyHomomorphicCommitment<Key = G1> + TIPACompatibleSetup,
    IPC: DoublyHomomorphicCommitment,
 {
    pub open spec fn view(&self) -> TIPAProofValues {
        TIPAProofValues {
            rounds: self.gipa_proof.rounds(),
            base: self.gipa_proof.base(),
            final_ck: (self.final_ck.0.value(), self.final_ck.1.value()),
            final_ck_proof: (self.final_ck_proof.0.value(), self.final_ck_proof.1.value()),
        }
    }

    /// The bytes of the argument: the rounds, first round first, the two
    /// messages left at the end, the two keys left at the end, and the two
    /// openings.
    pub fn to_bytes(&self) -> (bytes: Vec<u8>)
        ensures
            bytes@ == tipa_proof_encoding::<
                LMC::Output,
                RMC::Output,
                IPC::Output,
                LMC::Message,
                RMC::Message,
            >(self@),
    {
        let mut out = self.gipa_proof.to_bytes();
        let key_a = self.final_ck.0.to_bytes();
        let key_b = self.final_ck.1.to_bytes();
        let opening_a = self.final_ck_proof.0.to_bytes();
        let opening_b = self.final_ck_proof.1.to_bytes();
        append_bytes(&mut out, key_a.as_slice());
        append_bytes(&mut out, key_b.as_slice());
        append_bytes(&mut out, opening_a.as_slice());
        append_bytes(&mut out, opening_b.as_slice());
        out
    }
}

/// The bytes of an argument: those of the halving argument, then the two
/// keys left at the end, then the two openings.
pub open spec fn tipa_proof_encoding<A: Element, B: Element, C: Element, M: Element, N: Element>(
    proof: TIPAProofValues,
) -> Seq<u8> {
    proof_encoding::<A, B, C, M, N>(proof.rounds, proof.base) + G2::encoding(proof.final_ck.0)
        + G1::encoding(proof.final_ck.1) + G2::encoding(proof.final_ck_proof.0) + G1::encoding(
        proof.final_ck_proof.1,
    )
}

/// Determinism. No randomness enters the prover: two arguments that it
/// produces for the same vectors, keys and shift are the same, byte for
/// byte.
pub proof fn lemma_prover_deterministic<A: Element, B: Element, C: Element, M: Element, N: Element>(
    g_alpha_powers: Seq<nat>,
    h_beta_powers: Seq<nat>,
    a: Seq<nat>,
    b: Seq<nat>,
    ka: Seq<nat>,
    kb: Seq<nat>,
    kt: nat,
    r: nat,
    first: TIPAProofValues,
    second: TIPAProofValues,
)
    requires
        tipa_prove_spec::<A, B, C>(g_alpha_powers, h_beta_powers, a, b, ka, kb, kt, r) == Ok::<
            TIPAProofValues,
            InnerProductArgumentError,
        >(first),
        tipa_prove_spec::<A, B, C>(g_alpha_powers, h_beta_powers, a, b, ka, kb, kt, r) == Ok::<
            TIPAProofValues,
            InnerProductArgumentError,
        >(second),
    ensures
        first == second,
        tipa_proof_encoding::<A, B, C, M, N>(first) == tipa_proof_encoding::<A, B, C, M, N>(second),
{
}

/// The first challenge of a transcript, or zero where there was no round.
pub open spec fn first_challenge(challenges: Seq<nat>) -> nat {
    if challenges.len() == 0 {
        0
    } else {
        challenges[0]
    }
}

/// What is hashed for the point of the openings: the first challenge, then
/// the two keys that the prover is left with.
pub open spec fn kzg_payload(c: nat, ck: (nat, nat)) -> Seq<u8> {
    scalar_encoding(c) + G2::encoding(ck.0) + G1::encoding(ck.1)
}

/// What `prove_with_srs_shift` returns, by the indices of all elements. The
/// openings are made for the transcript in reverse, last round first: the
/// key of the left vector was folded with the inverses of the challenges and
/// is shifted by the inverse of `r`, that of the right vector was folded
/// with the challenges.
pub open spec fn tipa_prove_spec<A: Element, B: Element, C: Element>(
    g_alpha_powers: Seq<nat>,
    h_beta_powers: Seq<nat>,
    a: Seq<nat>,
    b: Seq<nat>,
    ka: Seq<nat>,
    kb: Seq<nat>,
    kt: nat,
    r: nat,
) -> Result<TIPAProofValues, InnerProductArgumentError> {
    match prove_with_aux_spec::<A, B, C>(a, b, ka, kb, kt) {
        Err(e) => Err(e),
        Ok(run) => if r == 0 {
            Err(InnerProductArgumentError::InverseOfZero)
        } else {
            match challenge(kzg_payload(first_challenge(run.challenges), run.ck_base), false) {
                None => Err(InnerProductArgumentError::SerializationError),
                Some(z) => match kzg_opening_spec(
                    h_beta_powers,
                    inverse_values(run.challenges.reverse()),
                    finv(r),
                    z,
                ) {
                    Err(e) => Err(e),
                    Ok(left) => match kzg_opening_spec(
                        g_alpha_powers,
                        run.challenges.reverse(),
                        1,
                        z,
                    ) {
                        Err(e) => Err(e),
                        Ok(right) => Ok(
                            TIPAProofValues {
                                rounds: run.rounds,
                                base: run.base,
                                final_ck: run.ck_base,
                                final_ck_proof: (left, right),
                            },
                        ),
                    },
                },
            }
        },
    }
}

/// What `verify_with_srs_shift` returns, by the indices of all elements:
/// whether the two openings hold and the three folded commitments are those
/// to the two messages of the argument, under the two keys of the argument,
/// and to their product.
pub open spec fn tipa_verify_spec<A: Element, B: Element, C: Element>(
    v_srs: (nat, nat, nat, nat),
    kt: nat,
    com: (nat, nat, nat),
    proof: TIPAProofValues,
    r: nat,
) -> Result<bool, InnerProductArgumentError> {
    match replay::<A, B, C>(com, proof.rounds, 0) {
        None => Err(InnerProductArgumentError::SerializationError),
        Some(folded) => if r == 0 {
            Err(InnerProductArgumentError::InverseOfZero)
        } else {
            match challenge(kzg_payload(first_challenge(folded.1), proof.final_ck), false) {
                None => Err(InnerProductArgumentError::SerializationError),
                Some(z) => Ok(
                    g2_opening_holds(
                        v_srs,
                        proof.final_ck.0,
                        proof.final_ck_proof.0,
                        product_form(
                            inverse_values(folded.1.reverse()),
                            fmul(fmul(z, z), finv(r)),
                        ),
                        z,
                    ) && g1_opening_holds(
                        v_srs,
                        proof.final_ck.1,
                        proof.final_ck_proof.1,
                        product_form(folded.1.reverse(), fmul(fmul(z, z), 1)),
                        z,
                    ) && fmul(proof.final_ck.0, proof.base.0) == folded.0.0 && fmul(
                        proof.final_ck.1,
                        proof.base.1,
                    ) == folded.0.1 && fmul(kt, fmul(proof.base.0, proof.base.1)) == folded.0.2,
                ),
            }
        },
    }
}

/// The point of the openings, from the transcript and the two keys that the
/// prover is left with.
pub fn kzg_challenge_point(transcript: &Vec<Scalar>, ck_a_final: &G2, ck_b_final: &G1) -> (r:
    Option<Scalar>)
    ensures
        r is None <==> challenge(
            kzg_payload(
                first_challenge(values(transcript@)),
                (ck_a_final.value(), ck_b_final.value()),
            ),
            false,
        ) is None,
        r matches Some(z) ==> challenge(
            kzg_payload(
                first_challenge(values(transcript@)),
                (ck_a_final.value(), ck_b_final.value()),
            ),
            false,
        ) == Some(z.value()),
{
    let mut payload = if transcript.len() == 0 {
        Scalar::zero().to_bytes()
    } else {
        transcript[0].to_bytes()
    };
    let left = ck_a_final.to_bytes();
    let right = ck_b_final.to_bytes();
    append_bytes(&mut payload, left.as_slice());
    append_bytes(&mut payload, right.as_slice());
    assert(payload@ =~= kzg_payload(
        first_challenge(values(transcript@)),
        (ck_a_final.value(), ck_b_final.value()),
    ));
    derive_challenge(payload.as_slice())
}

/// A vector of one element.
pub fn single<T: Element>(x: &T) -> (r: Vec<T>)
    ensures
        r@.len() == 1,
        values(r@) == seq![x.value()],
{
    let mut v: Vec<T> = Vec::new();
    v.push(x.duplicate());
    assert(values(v@) =~= seq![x.value()]);
    v
}

impl<IP, LMC, RMC, IPC> TIPA<IP, LMC, RMC, IPC> where
    IP: InnerProduct<
        LeftMessage = LMC::Message,
        RightMessage = RMC::Message,
        Output = IPC::Message,
    >,
    LMC: DoublyHomomorphicCommitment<Key = G2> + TIPACompatibleSetup,
    RMC: DoublyHomomorphicCommitment<Key = G1> + TIPACompatibleSetup,
    IPC: DoublyHomomorphicCommitment,
 {
    /// A fresh reference string for vectors of `size` elements, from two
    /// random scalars that are forgotten, and a key for the commitment to
    /// the inner product.
    pub fn setup(rng: &mut StdRng, size: usize) -> (r: Result<
        (SRS, IPC::Key),
        InnerProductArgumentError,
    >)
        requires
            1 <= size <= usize::MAX / 2,
        ensures
            r is Ok,
            r->Ok_0.0.well_formed(size as nat),
    {
        let alpha = Scalar::random(rng);
        let beta = Scalar::random(rng);
        let srs = SRS::from_trapdoors(&alpha, &beta, size);
        let mut keys = IPC::setup(rng, 1)?;
        match keys.pop() {
            Some(ck_t) => {
                assert(srs.structured(size as nat, alpha.value(), beta.value()));
                Ok((srs, ck_t))
            },
            None => Err(InnerProductArgumentError::MessageLengthInvalid(0, 1)),
        }
    }

    /// Produces the argument for two vectors under their keys. For vectors
    /// and keys of one length, a power of two, the reference string must be
    /// the one for that length: its powers in G1 are one less than twice
    /// as many.
    pub fn prove(
        srs: &SRS,
        values: (&[IP::LeftMessage], &[IP::RightMessage]),
        ck: (&[LMC::Key], &[RMC::Key], &IPC::Key),
    ) -> (r: Result<TIPAProof<IP, LMC, RMC, IPC>, InnerProductArgumentError>)
        requires
            values.0@.len() == values.1@.len() && is_power_of_two(values.0@.len()) && ck.0@.len()
                == values.0@.len() && ck.1@.len() == values.0@.len()
                ==> srs.g_alpha_powers@.len() == 2 * values.0@.len() - 1,
        ensures
            match r {
                Ok(proof) => tipa_prove_spec::<LMC::Output, RMC::Output, IPC::Output>(
                    crate::element::values(srs.g_alpha_powers@),
                    crate::element::values(srs.h_beta_powers@),
                    crate::element::values(values.0@),
                    crate::element::values(values.1@),
                    crate::element::values(ck.0@),
                    crate::element::values(ck.1@),
                    ck.2.value(),
                    1,
                ) == Ok::<TIPAProofValues, InnerProductArgumentError>(proof@),
                Err(e) => tipa_prove_spec::<LMC::Output, RMC::Output, IPC::Output>(
                    crate::element::values(srs.g_alpha_powers@),
                    crate::element::values(srs.h_beta_powers@),
                    crate::element::values(values.0@),
                    crate::element::values(values.1@),
                    crate::element::values(ck.0@),
                    crate::element::values(ck.1@),
                    ck.2.value(),
                    1,
                ) == Err::<TIPAProofValues, InnerProductArgumentError>(e),
            },
    {
        Self::prove_with_srs_shift(srs, values, ck, &Scalar::one())
    }

    /// Produces the argument for two vectors under their keys, where the
    /// keys of the left vector were shifted by the powers of the inverse of
    /// `r_shift`, for composition with aggregation protocols. For vectors
    /// and keys of one length, a power of two, the reference string must be
    /// the one for that length: its powers in G1 are one less than twice
    /// as many.
    pub fn prove_with_srs_shift(
        srs: &SRS,
        values: (&[IP::LeftMessage], &[IP::RightMessage]),
        ck: (&[LMC::Key], &[RMC::Key], &IPC::Key),
        r_shift: &Scalar,
    ) -> (r: Result<TIPAProof<IP, LMC, RMC, IPC>, InnerProductArgumentError>)
        requires
            values.0@.len() == values.1@.len() && is_power_of_two(values.0@.len()) && ck.0@.len()
                == values.0@.len() && ck.1@.len() == values.0@.len()
                ==> srs.g_alpha_powers@.len() == 2 * values.0@.len() - 1,
        ensures
            match r {
                Ok(proof) => tipa_prove_spec::<LMC::Output, RMC::Output, IPC::Output>(
                    crate::element::values(srs.g_alpha_powers@),
                    crate::element::values(srs.h_beta_powers@),
                    crate::element::values(values.0@),
                    crate::element::values(values.1@),
                    crate::element::values(ck.0@),
                    crate::element::values(ck.1@),
                    ck.2.value(),
                    r_shift.value(),
                ) == Ok::<TIPAProofValues, InnerProductArgumentError>(proof@),
                Err(e) => tipa_prove_spec::<LMC::Output, RMC::Output, IPC::Output>(
                    crate::element::values(srs.g_alpha_powers@),
                    crate::element::values(srs.h_beta_powers@),
                    crate::element::values(values.0@),
                    crate::element::values(values.1@),
                    crate::element::values(ck.0@),
                    crate::element::values(ck.1@),
                    ck.2.value(),
                    r_shift.value(),
                ) == Err::<TIPAProofValues, InnerProductArgumentError>(e),
            },
    {
        // Run GIPA
        let (proof, aux) = GIPA::<IP, LMC, RMC, IPC>::prove_with_aux(values, ck)?;
        let ghost run = prove_with_aux_spec::<LMC::Output, RMC::Output, IPC::Output>(
            crate::element::values(values.0@),
            crate::element::values(values.1@),
            crate::element::values(ck.0@),
            crate::element::values(ck.1@),
            ck.2.value(),
        )->Ok_0;
        proof {
            crate::gipa::lemma_run_challenges::<LMC::Output, RMC::Output, IPC::Output>(
                crate::element::values(values.0@),
                crate::element::values(values.1@),
                crate::element::values(ck.0@),
                crate::element::values(ck.1@),
                ck.2.value(),
                0,
            );
        }

        // Prove final commitment keys are wellformed
        let ck_a_final = aux.ck_base.0;
        let ck_b_final = aux.ck_base.1;
        let transcript = aux.r_transcript;
        let r_inverse = match r_shift.inverse() {
            Some(inv) => inv,
            None => {
                return Err(InnerProductArgumentError::InverseOfZero);
            },
        };
        let transcript_reverse = reversed(transcript.as_slice());
        let transcript_inverse = match inverses(transcript_reverse.as_slice()) {
            Some(inv) => inv,
            None => {
                proof {
                    let i = choose|i: int|
                        0 <= i < transcript_reverse@.len() && (
                        #[trigger] transcript_reverse@[i]).value() == 0;
                    let c = run.challenges[run.challenges.len() - 1 - i];
                    assert(crate::element::values(transcript_reverse@)[i] == c);
                    assert(0 * finv(c) == 0);
                }
                return Err(InnerProductArgumentError::InverseOfZero);
            },
        };

        // KZG challenge point
        let c = match kzg_challenge_point(&transcript, &ck_a_final, &ck_b_final) {
            Some(c) => c,
            None => {
                return Err(InnerProductArgumentError::SerializationError);
            },
        };

        // Complete KZG proofs
        let ck_a_kzg_opening = prove_commitment_key_kzg_opening(
            srs.h_beta_powers.as_slice(),
            &transcript_inverse,
            &r_inverse,
            &c,
        )?;
        let ck_b_kzg_opening = prove_commitment_key_kzg_opening(
            srs.g_alpha_powers.as_slice(),
            &transcript_reverse,
            &Scalar::one(),
            &c,
        )?;

        Ok(
            TIPAProof {
                gipa_proof: proof,
                final_ck: (ck_a_final, ck_b_final),
                final_ck_proof: (ck_a_kzg_opening, ck_b_kzg_opening),
            },
        )
    }

    /// Checks an argument against the three commitments.
    pub fn verify(
        v_srs: &VerifierSRS,
        ck_t: &IPC::Key,
        com: (&LMC::Output, &RMC::Output, &IPC::Output),
        proof: &TIPAProof<IP, LMC, RMC, IPC>,
    ) -> (r: Result<bool, InnerProductArgumentError>)
        ensures
            r == tipa_verify_spec::<LMC::Output, RMC::Output, IPC::Output>(
                v_srs@,
                ck_t.value(),
                triple_values((*com.0, *com.1, *com.2)),
                proof@,
                1,
            ),
    {
        Self::verify_with_srs_shift(v_srs, ck_t, com, proof, &Scalar::one())
    }

    /// Checks an argument that was made with keys of the left vector
    /// shifted by the powers of the inverse of `r_shift`.
    pub fn verify_with_srs_shift(
        v_srs: &VerifierSRS,
        ck_t: &IPC::Key,
        com: (&LMC::Output, &RMC::Output, &IPC::Output),
        proof: &TIPAProof<IP, LMC, RMC, IPC>,
        r_shift: &Scalar,
    ) -> (r: Result<bool, InnerProductArgumentError>)
        ensures
            r == tipa_verify_spec::<LMC::Output, RMC::Output, IPC::Output>(
                v_srs@,
                ck_t.value(),
                triple_values((*com.0, *com.1, *com.2)),
                proof@,
                r_shift.value(),
            ),
    {
        let (base_com, transcript) = GIPA::<
            IP,
            LMC,
            RMC,
            IPC,
        >::verify_recursive_challenge_transcript(com, &proof.gipa_proof)?;
        let ghost folded = replay::<LMC::Output, RMC::Output, IPC::Output>(
            triple_values((*com.0, *com.1, *com.2)),
            proof.gipa_proof.rounds(),
            0,
        )->0;
        proof {
            crate::gipa::lemma_replay_challenges::<LMC::Output, RMC::Output, IPC::Output>(
                triple_values((*com.0, *com.1, *com.2)),
                proof.gipa_proof.rounds(),
                0,
            );
        }
        let r_inverse = match r_shift.inverse() {
            Some(inv) => inv,
            None => {
                return Err(InnerProductArgumentError::InverseOfZero);
            },
        };
        let transcript_reverse = reversed(transcript.as_slice());
        let transcript_inverse = match inverses(transcript_reverse.as_slice()) {
            Some(inv) => inv,
            None => {
                proof {
                    let i = choose|i: int|
                        0 <= i < transcript_reverse@.len() && (
                        #[trigger] transcript_reverse@[i]).value() == 0;
                    assert(crate::element::values(transcript@) == folded.1);
                    assert(crate::element::values(transcript_reverse@).len()
                        == transcript_reverse@.len());
                    let c = folded.1[folded.1.len() - 1 - i];
                    assert(crate::element::values(transcript_reverse@)[i] == c);
                    assert(0 * finv(c) == 0);
                }
                return Err(InnerProductArgumentError::InverseOfZero);
            },
        };

        // Verify commitment keys wellformed
        let ck_a_final = &proof.final_ck.0;
        let ck_b_final = &proof.final_ck.1;
        let ck_a_proof = &proof.final_ck_proof.0;
        let ck_b_proof = &proof.final_ck_proof.1;

        // KZG challenge point
        let c = match kzg_challenge_point(&transcript, ck_a_final, ck_b_final) {
            Some(c) => c,
            None => {
                return Err(InnerProductArgumentError::SerializationError);
            },
        };

        let ck_a_valid = verify_commitment_key_g2_kzg_opening(
            v_srs,
            ck_a_final,
            ck_a_proof,
            &transcript_inverse,
            &r_inverse,
            &c,
        );
        let ck_b_valid = verify_commitment_key_g1_kzg_opening(
            v_srs,
            ck_b_final,
            ck_b_proof,
            &transcript_reverse,
            &Scalar::one(),
            &c,
        );

        // Verify base inner product commitment
        let a_base = single(&proof.gipa_proof.r_base.0);
        let b_base = single(&proof.gipa_proof.r_base.1);
        let t_base = single(&IP::inner_product(a_base.as_slice(), b_base.as_slice())?);
        let key_a = single(ck_a_final);
        let key_b = single(ck_b_final);
        let key_t = single(ck_t);
        proof {
            crate::algebra::lemma_dot_single(
                crate::element::values(a_base@),
                crate::element::values(b_base@),
            );
            crate::algebra::lemma_dot_single(
                crate::element::values(key_a@),
                crate::element::values(a_base@),
            );
            crate::algebra::lemma_dot_single(
                crate::element::values(key_b@),
                crate::element::values(b_base@),
            );
            crate::algebra::lemma_dot_single(
                crate::element::values(key_t@),
                crate::element::values(t_base@),
            );
        }
        let left_valid = LMC::verify(key_a.as_slice(), a_base.as_slice(), &base_com.0)?;
        let right_valid = RMC::verify(key_b.as_slice(), b_base.as_slice(), &base_com.1)?;
        let product_valid = IPC::verify(key_t.as_slice(), t_base.as_slice(), &base_com.2)?;

        Ok(ck_a_valid && ck_b_valid && left_valid && right_valid && product_valid)
    }
}

} // verus!
