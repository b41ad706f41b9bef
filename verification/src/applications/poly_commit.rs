//! Polynomial commitments whose openings are short for polynomials of high
//! degree: a polynomial in two variables is committed to row by row, and the
//! commitments to the rows are committed to in turn. An opening shows, by an
//! inner product argument, what the rows add up to at the first coordinate,
//! and opens that sum at the second.

use crate::algebra::dot;
use crate::dh_commitments::afgho16::AFGHOCommitmentG1;
use crate::dh_commitments::identity::IdentityCommitment;
use crate::dh_commitments::pedersen::PedersenCommitment;
use crate::dh_commitments::DoublyHomomorphicCommitment;
use crate::element::{copy_elements, subtract, values, Element};
use crate::field::{fadd, fmul, lemma_fmul_commutative, Scalar};
use crate::gipa::{is_power_of_two, mul_helper, InnerProductArgumentError};
use crate::groups::{multi_scalar_mul, pairing, Gt, G1};
use crate::inner_products::MultiexponentiationInnerProduct;
use crate::polynomial::{
    divide_by_linear_factor, evaluate, fpow, lemma_significant_len_bound, linear_quotient,
    poly_eval, powers_needed, resized, significant_length,
};
use crate::tipa::structured_scalar_message::{
    ssm_prove_spec, ssm_verify_spec, structured_powers, structured_scalar_power, SSMProofValues,
    TIPAWithSSMProof,
};
use crate::tipa::{even_indexed, g1_opening_holds, VerifierSRS, SRS, TIPA};
use rand::rngs::StdRng;
use vstd::prelude::*;
use vstd::slice::slice_subrange;

verus! {

/// A polynomial in one variable, by its coefficients from the constant term
/// upwards.
pub struct UnivariatePolynomial {
    pub coeffs: Vec<Scalar>,
}

impl UnivariatePolynomial {
    /// The coefficients, by their values.
    pub open spec fn view(&self) -> Seq<nat> {
        values(self.coeffs@)
    }

    pub fn from_coefficients_slice(coeffs: &[Scalar]) -> (r: UnivariatePolynomial)
        ensures
            r@ == values(coeffs@),
    {
        let mut copy: Vec<Scalar> = Vec::new();
        let mut i: usize = 0;
        while i < coeffs.len()
            invariant
                i <= coeffs@.len(),
                copy@.len() == i,
                forall|j: int| 0 <= j < i ==> (#[trigger] copy@[j]).value() == coeffs@[j].value(),
            decreases coeffs@.len() - i,
        {
            copy.push(coeffs[i].duplicate());
            i += 1;
        }
        assert(values(copy@) =~= values(coeffs@));
        UnivariatePolynomial { coeffs: copy }
    }

    pub fn from_coefficients_vec(coeffs: Vec<Scalar>) -> (r: UnivariatePolynomial)
        ensures
            r@ == values(coeffs@),
    {
        UnivariatePolynomial { coeffs }
    }

    /// The polynomial zero, without coefficients.
    pub fn zero() -> (r: UnivariatePolynomial)
        ensures
            r@ == Seq::<nat>::empty(),
    {
        let r = UnivariatePolynomial { coeffs: Vec::new() };
        assert(r@ =~= Seq::<nat>::empty());
        r
    }

    /// The degree: the place of the last coefficient that is not zero, and
    /// zero for the polynomial zero.
    pub fn degree(&self) -> (r: usize)
        ensures
            r + 1 == powers_needed(self@),
    {
        let significant = significant_length(self.coeffs.as_slice());
        if significant == 0 {
            0
        } else {
            significant - 1
        }
    }

    /// The value of the polynomial at a point.
    pub fn evaluate(&self, point: &Scalar) -> (r: Scalar)
        ensures
            r.value() == poly_eval(self@, point.value()),
    {
        evaluate(self.coeffs.as_slice(), point)
    }
}

/// The coefficients of a polynomial cut or filled up with zeros to `len`.
pub fn padded_coefficients(coeffs: &[Scalar], len: usize) -> (r: Vec<Scalar>)
    ensures
        values(r@) == resized(values(coeffs@), len as nat),
{
    let mut out: Vec<Scalar> = Vec::new();
    let mut i: usize = 0;
    while i < len
        invariant
            i <= len,
            out@.len() == i,
            forall|j: int|
                0 <= j < i ==> (#[trigger] out@[j]).value() == (if j < coeffs@.len() {
                    coeffs@[j].value()
                } else {
                    0nat
                }),
        decreases len - i,
    {
        if i < coeffs.len() {
            out.push(coeffs[i].duplicate());
        } else {
            out.push(Scalar::zero());
        }
        i += 1;
    }
    assert(values(out@) =~= resized(values(coeffs@), len as nat));
    out
}

/// The commitment scheme of Kate, Zaverucha and Goldberg for polynomials in
/// one variable, over the powers of a reference string in G1.
pub struct KZG {}

/// The commitment to a polynomial under powers: the sum of the multiples of
/// the powers by the coefficients, filled up with zeros.
pub open spec fn kzg_commit_spec(powers: Seq<nat>, coeffs: Seq<nat>) -> nat {
    dot(powers, resized(coeffs, powers.len()))
}

/// The opening of a commitment at a point: the commitment to the quotient
/// of the polynomial by `X - point`, the remainder being the value.
pub open spec fn kzg_open_spec(powers: Seq<nat>, coeffs: Seq<nat>, point: nat) -> nat {
    dot(powers, resized(linear_quotient(coeffs, point), powers.len()))
}

impl KZG {
    /// Commits to a polynomial under the powers of the reference string,
    /// of which there must be one more than the degree.
    pub fn commit(powers: &[G1], polynomial: &UnivariatePolynomial) -> (r: Result<
        G1,
        InnerProductArgumentError,
    >)
        requires
            powers@.len() >= powers_needed(polynomial@),
        ensures
            r matches Ok(com) && com.value() == kzg_commit_spec(values(powers@), polynomial@),
    {
        let coeffs = padded_coefficients(polynomial.coeffs.as_slice(), powers.len());
        assert(values(coeffs@).len() == coeffs@.len());
        assert(values(powers@).len() == powers@.len());
        multi_scalar_mul(powers, coeffs.as_slice())
    }

    /// Opens the commitment to a polynomial at a point, under the powers of
    /// the reference string, of which there must be one more than the
    /// degree.
    pub fn open(powers: &[G1], polynomial: &UnivariatePolynomial, point: &Scalar) -> (r: Result<
        G1,
        InnerProductArgumentError,
    >)
        requires
            powers@.len() >= powers_needed(polynomial@),
        ensures
            r matches Ok(opening) && opening.value() == kzg_open_spec(
                values(powers@),
                polynomial@,
                point.value(),
            ),
    {
        // The quotient of p(x) by (x - z) is that of p(x) - p(z): the
        // remainder is p(z)
        let quotient_coeffs = divide_by_linear_factor(
            polynomial.coeffs.as_slice(),
            point,
            powers.len(),
        );
        assert(values(quotient_coeffs@).len() == quotient_coeffs@.len());
        assert(values(powers@).len() == powers@.len());
        multi_scalar_mul(powers, quotient_coeffs.as_slice())
    }

    /// Checks an opening: that the polynomial committed to by `com` has the
    /// value `eval` at `point`.
    pub fn verify(
        v_srs: &VerifierSRS,
        com: &G1,
        point: &Scalar,
        eval: &Scalar,
        proof: &G1,
    ) -> (r: Result<bool, InnerProductArgumentError>)
        ensures
            r == Ok::<bool, InnerProductArgumentError>(
                g1_opening_holds(v_srs@, com.value(), proof.value(), eval.value(), point.value()),
            ),
    {
        let left = pairing(&subtract(com, &mul_helper(&v_srs.g, eval)), &v_srs.h);
        let right = pairing(proof, &subtract(&v_srs.h_alpha, &mul_helper(&v_srs.h, point)));
        Ok(left.is_equal(&right))
    }
}

/// A polynomial in two variables `X` and `Y`, as the sum of the products of
/// the powers of `X` with polynomials in `Y`: row `i` goes with `X^i`.
pub struct BivariatePolynomial {
    pub y_polynomials: Vec<UnivariatePolynomial>,
}

/// The value at `(x, y)` of the polynomial with the given rows.
pub open spec fn bivariate_eval(rows: Seq<Seq<nat>>, x: nat, y: nat) -> nat
    decreases rows.len(),
{
    if rows.len() == 0 {
        0
    } else {
        fadd(
            bivariate_eval(rows.drop_last(), x, y),
            fmul(fpow(x, (rows.len() - 1) as nat), poly_eval(rows.last(), y)),
        )
    }
}

/// The coefficient of `X^i Y^j`, zero where the rows do not reach.
pub open spec fn coefficient(rows: Seq<Seq<nat>>, i: int, j: int) -> nat {
    if 0 <= i < rows.len() && 0 <= j < rows[i].len() {
        rows[i][j]
    } else {
        0
    }
}

/// The coefficient of `Y^j` in the polynomial in `Y` that the first `m` rows
/// add up to when `X` takes the value whose powers are `powers`.
pub open spec fn column_value(rows: Seq<Seq<nat>>, powers: Seq<nat>, j: int, m: nat) -> nat
    decreases m,
{
    if m == 0 {
        0
    } else {
        fadd(
            column_value(rows, powers, j, (m - 1) as nat),
            fmul(powers[m - 1], coefficient(rows, m - 1, j)),
        )
    }
}

/// The coefficients of the polynomial in `Y` that the first `m` rows add up
/// to, up to the power `n - 1`.
pub open spec fn folded_rows(rows: Seq<Seq<nat>>, powers: Seq<nat>, m: nat, n: nat) -> Seq<nat> {
    Seq::new(n, |j: int| column_value(rows, powers, j, m))
}

impl BivariatePolynomial {
    /// The rows, by the values of their coefficients.
    pub open spec fn view(&self) -> Seq<Seq<nat>> {
        Seq::new(self.y_polynomials@.len(), |i: int| self.y_polynomials@[i]@)
    }

    /// The value of the polynomial at a point `(x, y)`.
    pub fn evaluate(&self, point: &(Scalar, Scalar)) -> (r: Scalar)
        ensures
            r.value() == bivariate_eval(self@, point.0.value(), point.1.value()),
    {
        let x = &point.0;
        let y = &point.1;
        let mut cur = Scalar::one();
        let mut sum = Scalar::zero();
        let mut i: usize = 0;
        proof {
            assert(self@.take(0) =~= Seq::<Seq<nat>>::empty());
        }
        while i < self.y_polynomials.len()
            invariant
                i <= self.y_polynomials@.len(),
                cur.value() == fpow(x.value(), i as nat),
                sum.value() == bivariate_eval(self@.take(i as int), x.value(), y.value()),
            decreases self.y_polynomials@.len() - i,
        {
            let term = cur.mul(&self.y_polynomials[i].evaluate(y));
            sum = sum.add(&term);
            proof {
                lemma_fmul_commutative(cur.value(), x.value());
                let rows = self@.take(i + 1);
                assert(rows.drop_last() =~= self@.take(i as int));
                assert(rows.last() == self.y_polynomials@[i as int]@);
            }
            cur = cur.mul(x);
            i += 1;
        }
        proof {
            assert(self@.take(i as int) =~= self@);
        }
        sum
    }

    /// The coefficient of `X^i Y^j`, zero where the rows do not reach.
    pub fn coefficient_at(&self, i: usize, j: usize) -> (r: Scalar)
        ensures
            r.value() == coefficient(self@, i as int, j as int),
    {
        if i < self.y_polynomials.len() {
            let row = &self.y_polynomials[i];
            if j < row.coeffs.len() {
                return row.coeffs[j].duplicate();
            }
        }
        Scalar::zero()
    }

    /// The coefficients of the polynomial in `Y` that the first `m` rows add
    /// up to when `X` takes the value whose powers are given, up to the
    /// power `n - 1` of `Y`.
    pub fn fold_rows(&self, powers: &[Scalar], m: usize, n: usize) -> (r: Vec<Scalar>)
        requires
            m <= powers@.len(),
        ensures
            values(r@) == folded_rows(self@, values(powers@), m as nat, n as nat),
    {
        let mut out: Vec<Scalar> = Vec::new();
        let mut j: usize = 0;
        while j < n
            invariant
                j <= n,
                m <= powers@.len(),
                out@.len() == j,
                forall|k: int|
                    0 <= k < j ==> (#[trigger] out@[k]).value() == column_value(
                        self@,
                        values(powers@),
                        k,
                        m as nat,
                    ),
            decreases n - j,
        {
            let mut sum = Scalar::zero();
            let mut i: usize = 0;
            while i < m
                invariant
                    i <= m,
                    m <= powers@.len(),
                    sum.value() == column_value(self@, values(powers@), j as int, i as nat),
                decreases m - i,
            {
                let term = powers[i].mul(&self.coefficient_at(i, j));
                sum = sum.add(&term);
                i += 1;
            }
            out.push(sum);
            j += 1;
        }
        assert(values(out@) =~= folded_rows(self@, values(powers@), m as nat, n as nat));
        out
    }
}

/// The argument behind an opening: for the multiples of elements of G1 by
/// scalars, with the commitments to the rows as the left vector and the
/// powers of the first coordinate as the right vector.
pub type PolynomialEvaluationSecondTierIPA = TIPA<
    MultiexponentiationInnerProduct<G1>,
    AFGHOCommitmentG1,
    PedersenCommitment<G1>,
    IdentityCommitment<G1>,
>;

/// An opening: the argument that the commitments to the rows add up, at the
/// first coordinate, to `y_eval_comm`, and the opening of `y_eval_comm` at
/// the second coordinate.
pub struct OpeningProof {
    pub ip_proof: TIPAWithSSMProof<
        MultiexponentiationInnerProduct<G1>,
        AFGHOCommitmentG1,
        PedersenCommitment<G1>,
        IdentityCommitment<G1>,
    >,
    pub y_eval_comm: G1,
    pub kzg_proof: G1,
}

/// An opening by the indices of its elements.
pub struct OpeningValues {
    pub ip_proof: SSMProofValues,
    pub y_eval_comm: nat,
    pub kzg_proof: nat,
}

impl OpeningProof {
    pub open spec fn view(&self) -> OpeningValues {
        OpeningValues {
            ip_proof: self.ip_proof@,
            y_eval_comm: self.y_eval_comm.value(),
            kzg_proof: self.kzg_proof.value(),
        }
    }
}

/// Row `i` of a polynomial, the polynomial zero where the rows do not reach.
pub open spec fn row(rows: Seq<Seq<nat>>, i: int) -> Seq<nat> {
    if 0 <= i < rows.len() {
        rows[i]
    } else {
        Seq::empty()
    }
}

/// The commitments to the first `n` rows.
pub open spec fn row_commitments(powers: Seq<nat>, rows: Seq<Seq<nat>>, n: nat) -> Seq<nat> {
    Seq::new(n, |i: int| kzg_commit_spec(powers, row(rows, i)))
}

/// What `commit` returns, by indices: the commitment under the keys `ck` to
/// the commitments to the rows, and those commitments, one for each key.
pub open spec fn bivariate_commit_spec(ck: Seq<nat>, powers: Seq<nat>, rows: Seq<Seq<nat>>) -> (
    nat,
    Seq<nat>,
) {
    (dot(ck, row_commitments(powers, rows, ck.len())), row_commitments(powers, rows, ck.len()))
}

/// What `open` returns, by indices.
pub open spec fn bivariate_open_spec(
    h_beta_powers: Seq<nat>,
    ck_1: Seq<nat>,
    ck_2: Seq<nat>,
    powers: Seq<nat>,
    rows: Seq<Seq<nat>>,
    coms: Seq<nat>,
    x: nat,
    y: nat,
) -> Result<OpeningValues, InnerProductArgumentError> {
    let powers_of_x = structured_powers(ck_1.len(), x);
    let y_eval = folded_rows(rows, powers_of_x, ck_1.len(), powers.len());
    match ssm_prove_spec::<Gt, G1, G1>(h_beta_powers, coms, powers_of_x, ck_1, ck_2, 1) {
        Err(e) => Err(e),
        Ok(ip_proof) => Ok(
            OpeningValues {
                ip_proof,
                y_eval_comm: dot(powers, y_eval),
                kzg_proof: kzg_open_spec(powers, y_eval, y),
            },
        ),
    }
}

/// What `verify` returns, by indices: whether the argument holds for the
/// commitment and the first coordinate, and the opening for the second
/// coordinate and the value.
pub open spec fn bivariate_verify_spec(
    v_srs: (nat, nat, nat, nat),
    com: nat,
    x: nat,
    y: nat,
    eval: nat,
    proof: OpeningValues,
) -> Result<bool, InnerProductArgumentError> {
    match ssm_verify_spec::<Gt, G1, G1>(v_srs, 1, (com, proof.y_eval_comm), x, proof.ip_proof) {
        Err(e) => Err(e),
        Ok(ip_valid) => Ok(
            ip_valid && g1_opening_holds(v_srs, proof.y_eval_comm, proof.kzg_proof, eval, y),
        ),
    }
}

/// The commitment scheme for polynomials in two variables.
pub struct BivariatePolynomialCommitment {}

impl BivariatePolynomialCommitment {
    /// A fresh reference string for polynomials of the given degrees, and
    /// the powers over which the rows are committed to. The degree in `Y`
    /// may be at most twice that in `X`.
    pub fn setup(rng: &mut StdRng, x_degree: usize, y_degree: usize) -> (r: Result<
        (SRS, Vec<G1>),
        InnerProductArgumentError,
    >)
        requires
            x_degree < usize::MAX / 2,
            y_degree <= 2 * x_degree,
        ensures
            r is Ok,
            r->Ok_0.0.well_formed((x_degree + 1) as nat),
            values(r->Ok_0.1@) == values(r->Ok_0.0.g_alpha_powers@).take(y_degree + 1),
    {
        let (srs, _) = PolynomialEvaluationSecondTierIPA::setup(rng, x_degree + 1)?;
        proof {
            let (alpha, beta) = choose|alpha: nat, beta: nat| #[trigger]
                srs.structured((x_degree + 1) as nat, alpha, beta);
            assert(values(srs.g_alpha_powers@).len() == srs.g_alpha_powers@.len());
        }
        let kzg_srs = copy_elements(slice_subrange(srs.g_alpha_powers.as_slice(), 0, y_degree + 1));
        assert(values(kzg_srs@) =~= values(srs.g_alpha_powers@).take(y_degree + 1));
        Ok((srs, kzg_srs))
    }

    /// Commits to a polynomial: to each row over the powers, and to those
    /// commitments under the keys of the reference string. Rows that the
    /// polynomial lacks count as zero. There must be a key for each row,
    /// and powers for each row: one more than its degree.
    pub fn commit(srs: &(SRS, Vec<G1>), bivariate_polynomial: &BivariatePolynomial) -> (r: Result<
        (Gt, Vec<G1>),
        InnerProductArgumentError,
    >)
        requires
            bivariate_polynomial.y_polynomials@.len() <= (srs.0.h_beta_powers@.len() + 1) / 2,
            forall|i: int|
                0 <= i < (srs.0.h_beta_powers@.len() + 1) / 2 ==> powers_needed(
                    #[trigger] row(bivariate_polynomial@, i),
                ) <= srs.1@.len(),
        ensures
            r matches Ok(pair) && (pair.0.value(), values(pair.1@)) == bivariate_commit_spec(
                even_indexed(values(srs.0.h_beta_powers@)),
                values(srs.1@),
                bivariate_polynomial@,
            ),
    {
        let ip_srs = &srs.0;
        let kzg_srs = &srs.1;
        let (ck, _) = ip_srs.get_commitment_keys();
        assert(values(ck@).len() == ck@.len());
        assert(values(srs.0.h_beta_powers@).len() == srs.0.h_beta_powers@.len());
        // Create KZG commitments to Y polynomials
        let zero = UnivariatePolynomial::zero();
        let mut y_polynomial_coms: Vec<G1> = Vec::new();
        let mut i: usize = 0;
        while i < ck.len()
            invariant
                i <= ck@.len(),
                y_polynomial_coms@.len() == i,
                zero@ == Seq::<nat>::empty(),
                ck@.len() == (srs.0.h_beta_powers@.len() + 1) / 2,
                ck@.len() >= bivariate_polynomial.y_polynomials@.len(),
                kzg_srs == &srs.1,
                forall|j: int|
                    0 <= j < ck@.len() ==> powers_needed(#[trigger] row(bivariate_polynomial@, j))
                        <= srs.1@.len(),
                forall|j: int|
                    0 <= j < i ==> (#[trigger] y_polynomial_coms@[j]).value() == kzg_commit_spec(
                        values(kzg_srs@),
                        row(bivariate_polynomial@, j),
                    ),
            decreases ck@.len() - i,
        {
            let y_polynomial = if i < bivariate_polynomial.y_polynomials.len() {
                &bivariate_polynomial.y_polynomials[i]
            } else {
                &zero
            };
            assert(y_polynomial@ == row(bivariate_polynomial@, i as int));
            let com = KZG::commit(kzg_srs.as_slice(), y_polynomial)?;
            y_polynomial_coms.push(com);
            i += 1;
        }
        assert(values(y_polynomial_coms@) =~= row_commitments(
            values(kzg_srs@),
            bivariate_polynomial@,
            ck@.len(),
        ));
        // Create AFGHO commitment to Y polynomial commitments
        let com = AFGHOCommitmentG1::commit(ck.as_slice(), y_polynomial_coms.as_slice())?;
        Ok((com, y_polynomial_coms))
    }

    /// Opens a commitment at a point `(x, y)`. There must be a key for each
    /// row, and one power at least.
    pub fn open(
        srs: &(SRS, Vec<G1>),
        bivariate_polynomial: &BivariatePolynomial,
        y_polynomial_comms: &Vec<G1>,
        point: &(Scalar, Scalar),
    ) -> (r: Result<OpeningProof, InnerProductArgumentError>)
        requires
            bivariate_polynomial.y_polynomials@.len() <= (srs.0.h_beta_powers@.len() + 1) / 2,
            srs.1@.len() >= 1,
        ensures
            match r {
                Ok(proof) => bivariate_open_spec(
                    values(srs.0.h_beta_powers@),
                    even_indexed(values(srs.0.h_beta_powers@)),
                    even_indexed(values(srs.0.g_alpha_powers@)),
                    values(srs.1@),
                    bivariate_polynomial@,
                    values(y_polynomial_comms@),
                    point.0.value(),
                    point.1.value(),
                ) == Ok::<OpeningValues, InnerProductArgumentError>(proof@),
                Err(e) => bivariate_open_spec(
                    values(srs.0.h_beta_powers@),
                    even_indexed(values(srs.0.h_beta_powers@)),
                    even_indexed(values(srs.0.g_alpha_powers@)),
                    values(srs.1@),
                    bivariate_polynomial@,
                    values(y_polynomial_comms@),
                    point.0.value(),
                    point.1.value(),
                ) == Err::<OpeningValues, InnerProductArgumentError>(e),
            },
    {
        let x = &point.0;
        let y = &point.1;
        let ip_srs = &srs.0;
        let kzg_srs = &srs.1;
        let (ck_1, ck_2) = ip_srs.get_commitment_keys();
        let powers_of_x = structured_scalar_power(ck_1.len(), x);
        let y_eval_coeffs = bivariate_polynomial.fold_rows(
            powers_of_x.as_slice(),
            ck_1.len(),
            kzg_srs.len(),
        );
        let y_eval_comm = multi_scalar_mul(kzg_srs.as_slice(), y_eval_coeffs.as_slice())?;

        let ip_proof = PolynomialEvaluationSecondTierIPA::prove_with_structured_scalar_message(
            ip_srs,
            (y_polynomial_comms.as_slice(), powers_of_x.as_slice()),
            (ck_1.as_slice(), ck_2.as_slice(), &Scalar::one()),
        )?;
        proof {
            lemma_significant_len_bound(values(y_eval_coeffs@));
        }
        let kzg_proof = KZG::open(
            kzg_srs.as_slice(),
            &UnivariatePolynomial::from_coefficients_vec(y_eval_coeffs),
            y,
        )?;

        Ok(OpeningProof { ip_proof, y_eval_comm, kzg_proof })
    }

    /// Checks an opening: that the polynomial committed to by `com` has the
    /// value `eval` at `point`.
    pub fn verify(
        v_srs: &VerifierSRS,
        com: &Gt,
        point: &(Scalar, Scalar),
        eval: &Scalar,
        proof: &OpeningProof,
    ) -> (r: Result<bool, InnerProductArgumentError>)
        ensures
            r == bivariate_verify_spec(
                v_srs@,
                com.value(),
                point.0.value(),
                point.1.value(),
                eval.value(),
                proof@,
            ),
    {
        let x = &point.0;
        let y = &point.1;
        let ip_proof_valid =
            PolynomialEvaluationSecondTierIPA::verify_with_structured_scalar_message(
            v_srs,
            &Scalar::one(),
            (com, &proof.y_eval_comm),
            x,
            &proof.ip_proof,
        )?;
        let kzg_proof_valid = KZG::verify(v_srs, &proof.y_eval_comm, y, eval, &proof.kzg_proof)?;
        Ok(ip_proof_valid && kzg_proof_valid)
    }
}

/// The power `x^n`.
pub fn power(x: &Scalar, n: usize) -> (r: Scalar)
    ensures
        r.value() == fpow(x.value(), n as nat),
{
    let mut acc = Scalar::one();
    let mut i: usize = 0;
    while i < n
        invariant
            i <= n,
            acc.value() == fpow(x.value(), i as nat),
        decreases n - i,
    {
        acc = x.mul(&acc);
        i += 1;
    }
    acc
}

/// The rows of the polynomial in two variables that stands for a polynomial
/// in one variable: `width` rows of `width` coefficients each, row after
/// row, with zeros where the coefficients end.
pub open spec fn bivariate_rows(coeffs: Seq<nat>, width: nat) -> Seq<Seq<nat>> {
    Seq::new(
        width,
        |i: int|
            Seq::new(
                width,
                |j: int|
                    if i * width + j < coeffs.len() {
                        coeffs[i * width + j]
                    } else {
                        0nat
                    },
            ),
    )
}

/// The commitment scheme for polynomials in one variable `Z`, which takes a
/// polynomial of degree `d` for one in two variables with `X = Z^b` and
/// `Y = Z`, where `b` is the least power of two whose square exceeds `d`.
pub struct UnivariatePolynomialCommitment {}

impl UnivariatePolynomialCommitment {
    /// The degree in each variable of the polynomial in two variables that
    /// stands for one of the given degree: one less than the least power of
    /// two whose square exceeds the degree.
    pub fn bivariate_degrees(univariate_degree: usize) -> (r: usize)
        ensures
            is_power_of_two((r + 1) as nat),
            (r + 1) * (r + 1) > univariate_degree,
            r > 0 ==> ((r + 1) / 2) * ((r + 1) / 2) <= univariate_degree,
            r < usize::MAX / 2,
    {
        let degree: u128 = univariate_degree as u128;
        let mut b: u128 = 1;
        let mut square: u128 = 1;
        while square <= degree
            invariant
                degree == univariate_degree,
                1 <= b,
                square == b * b,
                square <= 4 * degree + 1,
                is_power_of_two(b as nat),
                b > 1 ==> (b / 2) * (b / 2) <= degree,
            decreases 4 * degree + 2 - square,
        {
            assert((2 * b) * (2 * b) == 4 * (b * b)) by (nonlinear_arith);
            assert(b <= b * b) by (nonlinear_arith)
                requires
                    b >= 1,
            ;
            b = b * 2;
            square = square * 4;
        }
        proof {
            reveal_with_fuel(is_power_of_two, 4);
            let half = b / 2;
            if b >= 8 {
                assert(4 * half <= half * half) by (nonlinear_arith)
                    requires
                        half >= 4,
                ;
            }
        }
        (b - 1) as usize
    }

    /// The polynomial in two variables that stands for a polynomial in one.
    pub fn bivariate_form(bivariate_degree: usize, polynomial: &UnivariatePolynomial) -> (r:
        BivariatePolynomial)
        requires
            bivariate_degree < usize::MAX,
            (bivariate_degree + 1) * (bivariate_degree + 1) <= usize::MAX,
        ensures
            r@ == bivariate_rows(polynomial@, (bivariate_degree + 1) as nat),
    {
        let width: usize = bivariate_degree + 1;
        let mut y_polynomials: Vec<UnivariatePolynomial> = Vec::new();
        let mut i: usize = 0;
        while i < width
            invariant
                i <= width,
                width * width <= usize::MAX,
                y_polynomials@.len() == i,
                forall|k: int|
                    0 <= k < i ==> (#[trigger] y_polynomials@[k])@ == bivariate_rows(
                        polynomial@,
                        width as nat,
                    )[k],
            decreases width - i,
        {
            let mut y_polynomial_coeffs: Vec<Scalar> = Vec::new();
            let mut j: usize = 0;
            assert(i * width + width <= width * width) by (nonlinear_arith)
                requires
                    i < width,
            ;
            while j < width
                invariant
                    j <= width,
                    i < width,
                    i * width + width <= usize::MAX,
                    y_polynomial_coeffs@.len() == j,
                    forall|k: int|
                        0 <= k < j ==> (#[trigger] y_polynomial_coeffs@[k]).value() == (if i * width
                            + k < polynomial.coeffs@.len() {
                            polynomial.coeffs@[i * width + k].value()
                        } else {
                            0nat
                        }),
                decreases width - j,
            {
                let index: usize = i * width + j;
                if index < polynomial.coeffs.len() {
                    y_polynomial_coeffs.push(polynomial.coeffs[index].duplicate());
                } else {
                    y_polynomial_coeffs.push(Scalar::zero());
                }
                j += 1;
            }
            let y_polynomial = UnivariatePolynomial::from_coefficients_vec(y_polynomial_coeffs);
            assert(y_polynomial@ =~= bivariate_rows(polynomial@, width as nat)[i as int]);
            y_polynomials.push(y_polynomial);
            i += 1;
        }
        let r = BivariatePolynomial { y_polynomials };
        assert(r@ =~= bivariate_rows(polynomial@, width as nat));
        r
    }

    /// A fresh reference string for polynomials of the given degree.
    pub fn setup(rng: &mut StdRng, degree: usize) -> (r: Result<
        (SRS, Vec<G1>),
        InnerProductArgumentError,
    >)
        ensures
            r is Ok,
            r->Ok_0.1@.len() * r->Ok_0.1@.len() > degree,
            r->Ok_0.1@.len() > 1 ==> (r->Ok_0.1@.len() / 2) * (r->Ok_0.1@.len() / 2) <= degree,
            is_power_of_two(r->Ok_0.1@.len()),
            r->Ok_0.0.well_formed(r->Ok_0.1@.len()),
            values(r->Ok_0.1@) == values(r->Ok_0.0.g_alpha_powers@).take(r->Ok_0.1@.len() as int),
    {
        let bivariate_degree = Self::bivariate_degrees(degree);
        let r = BivariatePolynomialCommitment::setup(rng, bivariate_degree, bivariate_degree);
        proof {
            if let Ok(pair) = &r {
                assert(values(pair.1@).len() == pair.1@.len());
                assert(values(pair.0.g_alpha_powers@).len() == pair.0.g_alpha_powers@.len());
                let (alpha, beta) = choose|alpha: nat, beta: nat| #[trigger]
                    pair.0.structured((bivariate_degree + 1) as nat, alpha, beta);
            }
        }
        r
    }

    /// Commits to a polynomial, whose form in two variables the number of
    /// powers in the reference string fixes.
    pub fn commit(srs: &(SRS, Vec<G1>), polynomial: &UnivariatePolynomial) -> (r: Result<
        (Gt, Vec<G1>),
        InnerProductArgumentError,
    >)
        requires
            srs.1@.len() >= 1,
            srs.1@.len() * srs.1@.len() <= usize::MAX,
            srs.1@.len() <= (srs.0.h_beta_powers@.len() + 1) / 2,
        ensures
            r matches Ok(pair) && (pair.0.value(), values(pair.1@)) == bivariate_commit_spec(
                even_indexed(values(srs.0.h_beta_powers@)),
                values(srs.1@),
                bivariate_rows(polynomial@, srs.1@.len()),
            ),
    {
        let bivariate_degree = srs.1.len() - 1;
        let form = Self::bivariate_form(bivariate_degree, polynomial);
        proof {
            assert(form@.len() == form.y_polynomials@.len());
            assert forall|i: int|
                0 <= i < (srs.0.h_beta_powers@.len() + 1) / 2 implies powers_needed(
                #[trigger] row(form@, i),
            ) <= srs.1@.len() by {
                lemma_significant_len_bound(row(form@, i));
            }
        }
        BivariatePolynomialCommitment::commit(srs, &form)
    }

    /// Opens a commitment at a point `z`: the commitment to the form in two
    /// variables at `(z^b, z)`.
    pub fn open(
        srs: &(SRS, Vec<G1>),
        polynomial: &UnivariatePolynomial,
        y_polynomial_comms: &Vec<G1>,
        point: &Scalar,
    ) -> (r: Result<OpeningProof, InnerProductArgumentError>)
        requires
            srs.1@.len() >= 1,
            srs.1@.len() * srs.1@.len() <= usize::MAX,
            srs.1@.len() <= (srs.0.h_beta_powers@.len() + 1) / 2,
        ensures
            match r {
                Ok(proof) => bivariate_open_spec(
                    values(srs.0.h_beta_powers@),
                    even_indexed(values(srs.0.h_beta_powers@)),
                    even_indexed(values(srs.0.g_alpha_powers@)),
                    values(srs.1@),
                    bivariate_rows(polynomial@, srs.1@.len()),
                    values(y_polynomial_comms@),
                    fpow(point.value(), srs.1@.len()),
                    point.value(),
                ) == Ok::<OpeningValues, InnerProductArgumentError>(proof@),
                Err(e) => bivariate_open_spec(
                    values(srs.0.h_beta_powers@),
                    even_indexed(values(srs.0.h_beta_powers@)),
                    even_indexed(values(srs.0.g_alpha_powers@)),
                    values(srs.1@),
                    bivariate_rows(polynomial@, srs.1@.len()),
                    values(y_polynomial_comms@),
                    fpow(point.value(), srs.1@.len()),
                    point.value(),
                ) == Err::<OpeningValues, InnerProductArgumentError>(e),
            },
    {
        let bivariate_degree = srs.1.len() - 1;
        let y = point.duplicate();
        let x = power(point, bivariate_degree + 1);
        let form = Self::bivariate_form(bivariate_degree, polynomial);
        assert(form@.len() == form.y_polynomials@.len());
        BivariatePolynomialCommitment::open(srs, &form, y_polynomial_comms, &(x, y))
    }

    /// Checks an opening at a point `z` of a commitment to a polynomial
    /// whose form in two variables has the given degree in each.
    pub fn verify(
        v_srs: &VerifierSRS,
        bivariate_degree: usize,
        com: &Gt,
        point: &Scalar,
        eval: &Scalar,
        proof: &OpeningProof,
    ) -> (r: Result<bool, InnerProductArgumentError>)
        requires
            bivariate_degree < usize::MAX,
        ensures
            r == bivariate_verify_spec(
                v_srs@,
                com.value(),
                fpow(point.value(), (bivariate_degree + 1) as nat),
                point.value(),
                eval.value(),
                proof@,
            ),
    {
        let y = point.duplicate();
        let x = power(&y, bivariate_degree + 1);
        BivariatePolynomialCommitment::verify(v_srs, com, &(x, y), eval, proof)
    }
}

} // verus!
