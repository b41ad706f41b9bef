use ip_proofs::applications::poly_commit::{
    padded_coefficients, power, BivariatePolynomial, BivariatePolynomialCommitment,
    UnivariatePolynomial, UnivariatePolynomialCommitment, KZG,
};
use ip_proofs::element::{copy_elements, Element};
use ip_proofs::field::Scalar;
use ip_proofs::groups::G1;
use ip_proofs::polynomial::{divide_by_linear_factor, evaluate, interleave_with_zeros};
use ip_proofs::tipa::SRS;
use rand::rngs::StdRng;
use rand::SeedableRng;

fn scalars(values: &[u64]) -> Vec<Scalar> {
    values.iter().map(|v| Scalar::from_u64(*v)).collect()
}

fn polynomial(values: &[u64]) -> UnivariatePolynomial {
    UnivariatePolynomial::from_coefficients_vec(scalars(values))
}

#[test]
fn value_of_a_polynomial() {
    // 1 + 2 x + 3 x^2 at 2
    assert_eq!(evaluate(&scalars(&[1, 2, 3]), &Scalar::from_u64(2)), Scalar::from_u64(17));
    assert_eq!(evaluate(&[], &Scalar::from_u64(2)), Scalar::zero());
    assert_eq!(evaluate(&scalars(&[9]), &Scalar::from_u64(2)), Scalar::from_u64(9));
    assert_eq!(polynomial(&[1, 2, 3]).evaluate(&Scalar::from_u64(2)), Scalar::from_u64(17));
    assert_eq!(UnivariatePolynomial::zero().evaluate(&Scalar::from_u64(2)), Scalar::zero());
    assert_eq!(
        UnivariatePolynomial::from_coefficients_slice(&scalars(&[1, 2, 3])).coeffs,
        scalars(&[1, 2, 3])
    );
}

#[test]
fn quotient_by_a_linear_factor() {
    // (x^2 - 1) / (x - 1) = x + 1
    let minus_one = Scalar::one().neg();
    let square_less_one = vec![minus_one, Scalar::zero(), Scalar::one()];
    assert_eq!(divide_by_linear_factor(&square_less_one, &Scalar::one(), 2), scalars(&[1, 1]));
    // filled up with zeros, or cut
    assert_eq!(divide_by_linear_factor(&square_less_one, &Scalar::one(), 4), scalars(&[1, 1, 0, 0]));
    assert_eq!(divide_by_linear_factor(&square_less_one, &Scalar::one(), 1), scalars(&[1]));
    // (1 + 2 x + 3 x^2) = (3 x + 8) (x - 2) + 17
    assert_eq!(divide_by_linear_factor(&scalars(&[1, 2, 3]), &Scalar::from_u64(2), 2), scalars(&[8, 3]));
    // constants and zero have the quotient zero
    assert_eq!(divide_by_linear_factor(&scalars(&[5]), &Scalar::from_u64(2), 2), scalars(&[0, 0]));
    assert_eq!(divide_by_linear_factor(&[], &Scalar::from_u64(2), 1), scalars(&[0]));
    assert_eq!(divide_by_linear_factor(&scalars(&[5, 0, 0]), &Scalar::from_u64(2), 2), scalars(&[0, 0]));
}

#[test]
fn zeros_between_coefficients() {
    assert_eq!(interleave_with_zeros(&scalars(&[1, 2, 3])), scalars(&[1, 0, 2, 0, 3]));
    assert_eq!(interleave_with_zeros(&scalars(&[7])), scalars(&[7]));
}

#[test]
fn coefficients_are_cut_or_filled_up() {
    assert_eq!(padded_coefficients(&scalars(&[1, 2]), 4), scalars(&[1, 2, 0, 0]));
    assert_eq!(padded_coefficients(&scalars(&[1, 2, 3]), 2), scalars(&[1, 2]));
    assert_eq!(copy_elements(&scalars(&[1, 2, 3])), scalars(&[1, 2, 3]));
    assert_eq!(power(&Scalar::from_u64(3), 4), Scalar::from_u64(81));
    assert_eq!(power(&Scalar::from_u64(3), 0), Scalar::one());
}

#[test]
fn kzg_commitment_opens_at_a_point() {
    let srs = SRS::from_trapdoors(&Scalar::from_u64(3), &Scalar::from_u64(5), 2);
    let v_srs = srs.get_verifier_key();
    let powers = srs.g_alpha_powers;
    let p = polynomial(&[1, 2, 4]);
    // the commitment is the multiple of the generator by p(alpha) = 1 + 6 + 36
    let com = KZG::commit(&powers, &p).unwrap();
    assert_eq!(com, G1::multiple_of_generator(&Scalar::from_u64(43)));
    let point = Scalar::from_u64(10);
    let eval = p.evaluate(&point);
    assert_eq!(eval, Scalar::from_u64(421));
    // the quotient is 4 x + 42, at alpha 54
    let opening = KZG::open(&powers, &p, &point).unwrap();
    assert_eq!(opening, G1::multiple_of_generator(&Scalar::from_u64(54)));
    assert!(KZG::verify(&v_srs, &com, &point, &eval, &opening).unwrap());
    assert!(!KZG::verify(&v_srs, &com, &point, &Scalar::from_u64(422), &opening).unwrap());
    assert!(!KZG::verify(&v_srs, &com, &Scalar::from_u64(11), &eval, &opening).unwrap());
    // a shorter polynomial is filled up with zeros
    assert_eq!(KZG::commit(&powers, &polynomial(&[7])).unwrap(), G1::multiple_of_generator(&Scalar::from_u64(7)));
}

#[test]
fn degree_is_the_place_of_the_last_coefficient_that_is_not_zero() {
    assert_eq!(polynomial(&[1, 2, 4, 8]).degree(), 3);
    assert_eq!(polynomial(&[1, 2, 4, 0, 0]).degree(), 2);
    assert_eq!(polynomial(&[0, 0, 0, 1, 0]).degree(), 3);
    assert_eq!(polynomial(&[1, 2, 4, 0, 8, 0]).degree(), 4);
    assert_eq!(polynomial(&[7]).degree(), 0);
    // the polynomial zero has the degree zero
    assert_eq!(polynomial(&[0, 0, 0]).degree(), 0);
    assert_eq!(UnivariatePolynomial::zero().degree(), 0);
}

#[test]
fn kzg_counts_coefficients_up_to_the_last_that_is_not_zero() {
    let srs = SRS::from_trapdoors(&Scalar::from_u64(3), &Scalar::from_u64(5), 2);
    let v_srs = srs.get_verifier_key();
    let powers = srs.g_alpha_powers;
    assert_eq!(powers.len(), 3);
    // five coefficients, of which the last two are zero: the same as 1 + 2 x + 4 x^2
    let p = polynomial(&[1, 2, 4, 0, 0]);
    assert_eq!(p.coeffs.len(), 5);
    let com = KZG::commit(&powers, &p).unwrap();
    assert_eq!(com, G1::multiple_of_generator(&Scalar::from_u64(43)));
    assert_eq!(com, KZG::commit(&powers, &polynomial(&[1, 2, 4])).unwrap());
    let point = Scalar::from_u64(10);
    let opening = KZG::open(&powers, &p, &point).unwrap();
    assert_eq!(opening, G1::multiple_of_generator(&Scalar::from_u64(54)));
    assert!(KZG::verify(&v_srs, &com, &point, &p.evaluate(&point), &opening).unwrap());
    // nothing but zeros is the zero polynomial
    let none = polynomial(&[0, 0, 0, 0, 0]);
    assert_eq!(KZG::commit(&powers, &none).unwrap(), G1::zero());
    assert_eq!(KZG::open(&powers, &none, &point).unwrap(), G1::zero());
    assert_eq!(KZG::commit(&powers[..1], &none).unwrap(), G1::zero());
}

#[test]
fn value_of_a_polynomial_in_two_variables() {
    // (1 + 2 y) + x (3 + 4 y) at (5, 7)
    let p = BivariatePolynomial { y_polynomials: vec![polynomial(&[1, 2]), polynomial(&[3, 4])] };
    assert_eq!(p.evaluate(&(Scalar::from_u64(5), Scalar::from_u64(7))), Scalar::from_u64(170));
    assert_eq!(p.coefficient_at(1, 0), Scalar::from_u64(3));
    assert_eq!(p.coefficient_at(1, 2), Scalar::zero());
    assert_eq!(p.coefficient_at(2, 0), Scalar::zero());
    // the rows added up at x = 5: (1 + 15) + (2 + 20) y
    assert_eq!(p.fold_rows(&scalars(&[1, 5]), 2, 3), scalars(&[16, 22, 0]));
    let none = BivariatePolynomial { y_polynomials: vec![] };
    assert_eq!(none.evaluate(&(Scalar::from_u64(5), Scalar::from_u64(7))), Scalar::zero());
}

#[test]
fn degree_in_each_of_two_variables() {
    for (degree, expected) in
        [(0usize, 0usize), (1, 1), (2, 1), (3, 1), (4, 3), (15, 3), (16, 7), (56, 7), (63, 7), (64, 15)]
    {
        assert_eq!(UnivariatePolynomialCommitment::bivariate_degrees(degree), expected);
    }
}

#[test]
fn form_in_two_variables_is_row_after_row() {
    let p = polynomial(&[1, 2, 3, 4, 5]);
    let form = UnivariatePolynomialCommitment::bivariate_form(3, &p);
    assert_eq!(form.y_polynomials.len(), 4);
    assert_eq!(form.y_polynomials[0].coeffs, scalars(&[1, 2, 3, 4]));
    assert_eq!(form.y_polynomials[1].coeffs, scalars(&[5, 0, 0, 0]));
    assert_eq!(form.y_polynomials[3].coeffs, scalars(&[0, 0, 0, 0]));
    // the polynomial at z is its form at (z^4, z)
    let z = Scalar::from_u64(3);
    assert_eq!(form.evaluate(&(power(&z, 4), z)), p.evaluate(&z));
}

#[test]
fn bivariate_commitment_with_fewer_rows_than_keys() {
    let mut rng = StdRng::seed_from_u64(0u64);
    let srs = BivariatePolynomialCommitment::setup(&mut rng, 3, 2).unwrap();
    assert_eq!(srs.1.len(), 3);
    assert_eq!(srs.1, srs.0.g_alpha_powers[..3].to_vec());
    let v_srs = srs.0.get_verifier_key();
    let p = BivariatePolynomial { y_polynomials: vec![polynomial(&[1, 2, 3]), polynomial(&[4])] };
    let (com, row_coms) = BivariatePolynomialCommitment::commit(&srs, &p).unwrap();
    assert_eq!(row_coms.len(), 4);
    assert_eq!(row_coms[2], G1::zero());
    assert_eq!(row_coms[0], KZG::commit(&srs.1, &p.y_polynomials[0]).unwrap());

    let point = (Scalar::from_u64(5), Scalar::from_u64(7));
    let proof = BivariatePolynomialCommitment::open(&srs, &p, &row_coms, &point).unwrap();
    let eval = p.evaluate(&point);
    assert!(BivariatePolynomialCommitment::verify(&v_srs, &com, &point, &eval, &proof).unwrap());
    let wrong = eval.add(&Scalar::one());
    assert!(!BivariatePolynomialCommitment::verify(&v_srs, &com, &point, &wrong, &proof).unwrap());
    let elsewhere = (Scalar::from_u64(6), Scalar::from_u64(7));
    assert!(!BivariatePolynomialCommitment::verify(&v_srs, &com, &elsewhere, &eval, &proof).unwrap());
}

#[test]
fn zeros_between_coefficients_as_the_outside_interleaving() {
    let a = scalars(&[3, 5, 7, 11]);
    let zeros = scalars(&[0, 0, 0]);
    let expected: Vec<Scalar> = itertools::interleave(a.iter(), zeros.iter()).cloned().collect();
    assert_eq!(interleave_with_zeros(&a), expected);
    assert_eq!(interleave_with_zeros(&a), scalars(&[3, 0, 5, 0, 7, 0, 11]));
    assert_eq!(interleave_with_zeros(&scalars(&[9])), scalars(&[9]));
}

#[test]
fn univariate_commitment_of_a_small_polynomial() {
    let mut rng = StdRng::seed_from_u64(0u64);
    let srs = UnivariatePolynomialCommitment::setup(&mut rng, 10).unwrap();
    assert_eq!(srs.1.len(), 4);
    let v_srs = srs.0.get_verifier_key();
    let p = polynomial(&[1, 2, 3, 4, 5, 6, 7, 8, 9, 10, 11]);
    let (com, row_coms) = UnivariatePolynomialCommitment::commit(&srs, &p).unwrap();
    let point = Scalar::from_u64(2);
    let proof = UnivariatePolynomialCommitment::open(&srs, &p, &row_coms, &point).unwrap();
    let eval = p.evaluate(&point);
    assert!(UnivariatePolynomialCommitment::verify(&v_srs, 3, &com, &point, &eval, &proof).unwrap());
    let wrong = eval.add(&Scalar::one());
    assert!(!UnivariatePolynomialCommitment::verify(&v_srs, 3, &com, &point, &wrong, &proof).unwrap());
}
