use ip_proofs::applications::poly_commit::{
    BivariatePolynomial, BivariatePolynomialCommitment, UnivariatePolynomial,
    UnivariatePolynomialCommitment,
};
use ip_proofs::element::Element;
use ip_proofs::field::Scalar;
use rand::rngs::StdRng;
use rand::SeedableRng;

const BIVARIATE_X_DEGREE: usize = 7;
const BIVARIATE_Y_DEGREE: usize = 7;
const UNIVARIATE_DEGREE: usize = 56;

type TestBivariatePolyCommitment = BivariatePolynomialCommitment;
type TestUnivariatePolyCommitment = UnivariatePolynomialCommitment;

#[test]
fn bivariate_poly_commit_test() {
    let mut rng = StdRng::seed_from_u64(0u64);
    let srs =
        TestBivariatePolyCommitment::setup(&mut rng, BIVARIATE_X_DEGREE, BIVARIATE_Y_DEGREE)
            .unwrap();
    let v_srs = srs.0.get_verifier_key();

    let mut y_polynomials = Vec::new();
    for _ in 0..BIVARIATE_X_DEGREE + 1 {
        let mut y_polynomial_coeffs = vec![];
        for _ in 0..BIVARIATE_Y_DEGREE + 1 {
            y_polynomial_coeffs.push(Scalar::random(&mut rng));
        }
        y_polynomials.push(UnivariatePolynomial::from_coefficients_slice(
            &y_polynomial_coeffs,
        ));
    }
    let bivariate_polynomial = BivariatePolynomial { y_polynomials };

    // Commit to polynomial
    let (com, y_polynomial_comms) =
        TestBivariatePolyCommitment::commit(&srs, &bivariate_polynomial).unwrap();

    // Evaluate at challenge point
    let point = (Scalar::random(&mut rng), Scalar::random(&mut rng));
    let eval_proof = TestBivariatePolyCommitment::open(
        &srs,
        &bivariate_polynomial,
        &y_polynomial_comms,
        &point,
    )
    .unwrap();
    let eval = bivariate_polynomial.evaluate(&point);

    // Verify proof
    assert!(
        TestBivariatePolyCommitment::verify(&v_srs, &com, &point, &eval, &eval_proof).unwrap()
    );
}

#[test]
fn univariate_poly_commit_test() {
    let mut rng = StdRng::seed_from_u64(0u64);
    let srs = TestUnivariatePolyCommitment::setup(&mut rng, UNIVARIATE_DEGREE).unwrap();
    let v_srs = srs.0.get_verifier_key();

    let mut polynomial_coeffs = vec![];
    for _ in 0..UNIVARIATE_DEGREE + 1 {
        polynomial_coeffs.push(Scalar::random(&mut rng));
    }
    let polynomial = UnivariatePolynomial::from_coefficients_slice(&polynomial_coeffs);

    // Commit to polynomial
    let (com, y_polynomial_comms) =
        TestUnivariatePolyCommitment::commit(&srs, &polynomial).unwrap();

    // Evaluate at challenge point
    let point = Scalar::random(&mut rng);
    let eval_proof =
        TestUnivariatePolyCommitment::open(&srs, &polynomial, &y_polynomial_comms, &point)
            .unwrap();
    let eval = polynomial.evaluate(&point);

    // Verify proof
    assert!(TestUnivariatePolyCommitment::verify(
        &v_srs,
        BIVARIATE_X_DEGREE,
        &com,
        &point,
        &eval,
        &eval_proof
    )
    .unwrap());
}
