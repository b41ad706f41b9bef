//! Why an honest opening of a polynomial commitment is accepted: the
//! commitment to what the rows add up to is what the commitments to the rows
//! add up to, and its value at the second coordinate is the value of the
//! polynomial.

use crate::algebra::{dot, lemma_dot_add, lemma_dot_scaled, lemma_dot_zero};
use crate::applications::poly_commit::{
    bivariate_commit_spec, bivariate_eval, bivariate_open_spec, bivariate_rows,
    bivariate_verify_spec, coefficient, folded_rows, kzg_open_spec, row, row_commitments,
};
use crate::field::{
    fadd, fmul, fsub, lemma_fadd_reduce, lemma_fadd_zero, lemma_fmul_commutative, lemma_fmul_one,
    lemma_fmul_reduce, lemma_fmul_zero, lemma_fsub_fadd, lemma_fsub_fadd_exchange,
    lemma_fsub_reduce, modulus,
};
use crate::gipa::InnerProductArgumentError;
use crate::groups::{Gt, G1};
use crate::polynomial::{
    fpow, lemma_dot_powers, lemma_fpow_add, lemma_fpow_reduced, lemma_linear_quotient,
    lemma_poly_eval_add, lemma_poly_eval_concat, lemma_poly_eval_cut, lemma_poly_eval_reduced,
    lemma_poly_eval_resized, lemma_poly_eval_scaled, lemma_poly_eval_zeros,
    lemma_significant_len_bound, linear_quotient, poly_eval, resized, scalar_powers,
    significant_len, zeros,
};
use crate::tipa::completeness::{lemma_commitment_keys, lemma_ssm_complete};
use crate::tipa::structured_scalar_message::{ssm_prove_spec, structured_powers};
use crate::tipa::{even_indexed, g1_opening_holds};
use vstd::arithmetic::div_mod::lemma_small_mod;
use vstd::prelude::*;

verus! {

/// The row `i` of a polynomial, filled up with zeros, times a factor.
pub open spec fn scaled_row(rows: Seq<Seq<nat>>, i: int, n: nat, factor: nat) -> Seq<nat> {
    Seq::new(n, |j: int| fmul(factor, resized(row(rows, i), n)[j]))
}

/// The commitment to what the rows add up to is what the commitments to the
/// rows add up to: the inner product of the commitments with the factors.
pub proof fn lemma_folded_commitment(
    powers: Seq<nat>,
    rows: Seq<Seq<nat>>,
    factors: Seq<nat>,
    coms: Seq<nat>,
    m: nat,
)
    requires
        m <= factors.len(),
        m <= coms.len(),
        forall|i: int|
            0 <= i < m ==> #[trigger] coms[i] == dot(
                powers,
                resized(row(rows, i), powers.len()),
            ),
    ensures
        dot(powers, folded_rows(rows, factors, m, powers.len())) == dot(
            coms.take(m as int),
            factors.take(m as int),
        ),
    decreases m,
{
    let n = powers.len();
    let folded = folded_rows(rows, factors, m, n);
    if m == 0 {
        lemma_dot_zero(powers, folded);
        assert(coms.take(0).len() == 0);
    } else {
        let k = (m - 1) as nat;
        let before = folded_rows(rows, factors, k, n);
        let last = scaled_row(rows, k as int, n, factors[k as int]);
        lemma_folded_commitment(powers, rows, factors, coms, k);
        lemma_dot_scaled(powers, resized(row(rows, k as int), n), last, factors[k as int]);
        assert forall|j: int| 0 <= j < n implies #[trigger] folded[j] == fadd(
            before[j],
            last[j],
        ) by {
            assert(coefficient(rows, k as int, j) == resized(row(rows, k as int), n)[j]);
        }
        lemma_dot_add(powers, before, last, folded);
        assert(coms.take(m as int).drop_last() =~= coms.take(k as int));
        assert(factors.take(m as int).drop_last() =~= factors.take(k as int));
        lemma_fmul_commutative(factors[k as int], coms[k as int]);
    }
}

/// The sum of the values at `y` of the first `m` rows, each times its
/// factor.
pub open spec fn rows_sum(rows: Seq<Seq<nat>>, factors: Seq<nat>, y: nat, m: nat, n: nat) -> nat
    decreases m,
{
    if m == 0 {
        0
    } else {
        fadd(
            rows_sum(rows, factors, y, (m - 1) as nat, n),
            fmul(factors[m - 1], poly_eval(resized(row(rows, m - 1), n), y)),
        )
    }
}

/// The value at `y` of what the rows add up to is the sum of the values of
/// the rows, each times its factor.
pub proof fn lemma_folded_value(
    rows: Seq<Seq<nat>>,
    factors: Seq<nat>,
    y: nat,
    m: nat,
    n: nat,
)
    requires
        m <= factors.len(),
    ensures
        poly_eval(folded_rows(rows, factors, m, n), y) == rows_sum(rows, factors, y, m, n),
    decreases m,
{
    let folded = folded_rows(rows, factors, m, n);
    if m == 0 {
        assert(folded =~= zeros(n));
        lemma_poly_eval_zeros(n, y);
    } else {
        let k = (m - 1) as nat;
        let before = folded_rows(rows, factors, k, n);
        let filled = resized(row(rows, k as int), n);
        let last = scaled_row(rows, k as int, n, factors[k as int]);
        lemma_folded_value(rows, factors, y, k, n);
        assert forall|j: int| 0 <= j < n implies #[trigger] last[j] == fmul(
            filled[j],
            factors[k as int],
        ) by {
            lemma_fmul_commutative(factors[k as int], filled[j]);
        }
        lemma_poly_eval_scaled(filled, last, factors[k as int], y);
        lemma_fmul_commutative(poly_eval(filled, y), factors[k as int]);
        assert forall|j: int| 0 <= j < n implies #[trigger] folded[j] == fadd(
            before[j],
            last[j],
        ) by {
            assert(coefficient(rows, k as int, j) == filled[j]);
        }
        lemma_poly_eval_add(before, last, folded, y);
    }
}

/// The sum of the values of the rows is reduced.
pub proof fn lemma_rows_sum_reduced(rows: Seq<Seq<nat>>, factors: Seq<nat>, y: nat, m: nat, n: nat)
    ensures
        rows_sum(rows, factors, y, m, n) < modulus(),
    decreases m,
{
    if m > 0 {
        lemma_fadd_reduce(
            rows_sum(rows, factors, y, (m - 1) as nat, n),
            fmul(factors[m - 1], poly_eval(resized(row(rows, m - 1), n), y)),
        );
    }
}

/// With the powers of `x` as factors, the sum of the values of the rows is
/// the value of the polynomial at `(x, y)`, for rows that have no more than
/// `n` coefficients each.
pub proof fn lemma_rows_sum_is_value(
    rows: Seq<Seq<nat>>,
    x: nat,
    y: nat,
    k: nat,
    m: nat,
    n: nat,
)
    requires
        k <= rows.len(),
        k <= m,
        forall|i: int| 0 <= i < rows.len() ==> significant_len(#[trigger] rows[i]) <= n,
    ensures
        rows_sum(rows, structured_powers(m, x), y, k, n) == bivariate_eval(rows.take(k as int), x, y),
    decreases k,
{
    if k > 0 {
        let j = (k - 1) as nat;
        lemma_rows_sum_is_value(rows, x, y, j, m, n);
        assert(rows.take(k as int).drop_last() =~= rows.take(j as int));
        assert(rows.take(k as int).last() == rows[j as int]);
        assert(significant_len(rows[j as int]) <= n);
        lemma_poly_eval_cut(rows[j as int], n, y);
    }
}

/// Rows that the polynomial lacks add nothing.
pub proof fn lemma_rows_sum_beyond(
    rows: Seq<Seq<nat>>,
    factors: Seq<nat>,
    y: nat,
    m: nat,
    n: nat,
)
    requires
        rows.len() <= m,
    ensures
        rows_sum(rows, factors, y, m, n) == rows_sum(rows, factors, y, rows.len(), n),
    decreases m,
{
    if m > rows.len() {
        let k = (m - 1) as nat;
        lemma_rows_sum_beyond(rows, factors, y, k, n);
        assert(resized(row(rows, k as int), n) =~= zeros(n));
        lemma_poly_eval_zeros(n, y);
        lemma_fmul_zero(factors[k as int]);
        lemma_rows_sum_reduced(rows, factors, y, k, n);
        lemma_fadd_zero(rows_sum(rows, factors, y, k, n));
        lemma_small_mod(rows_sum(rows, factors, y, k, n), modulus());
    }
}

/// The powers of `x` from one on are the multiples of one by the powers.
pub proof fn lemma_structured_powers(num: nat, x: nat)
    ensures
        structured_powers(num, x) == scalar_powers(num, 1, x),
{
    assert forall|i: int| 0 <= i < num implies structured_powers(num, x)[i] == scalar_powers(
        num,
        1,
        x,
    )[i] by {
        lemma_fpow_reduced(x, i as nat);
        lemma_fmul_one(fpow(x, i as nat));
        lemma_small_mod(fpow(x, i as nat), modulus());
    }
    assert(structured_powers(num, x) =~= scalar_powers(num, 1, x));
}

/// A difference taken from a sum leaves the other summand.
pub proof fn lemma_fsub_of_fadd(q: nat, e: nat)
    ensures
        fsub(fadd(q, e), e) == q % modulus(),
{
    lemma_fsub_fadd_exchange(q, e, e);
    lemma_fsub_fadd(q, e);
}

/// The opening of a commitment to a polynomial over the powers of `alpha`
/// passes the check of the verifier for the value of the polynomial.
pub proof fn lemma_kzg_complete(coeffs: Seq<nat>, alpha: nat, y: nat)
    requires
        coeffs.len() >= 1,
    ensures
        ({
            let powers = scalar_powers(coeffs.len(), 1, alpha);
            g1_opening_holds(
                (1, 1, 0, alpha % modulus()),
                dot(powers, coeffs),
                kzg_open_spec(powers, coeffs, y),
                poly_eval(coeffs, y),
                y,
            )
        }),
{
    let n = coeffs.len();
    let powers = scalar_powers(n, 1, alpha);
    let q = linear_quotient(coeffs, y);
    let com = dot(powers, coeffs);
    lemma_significant_len_bound(coeffs);
    let opening = dot(powers, resized(q, n));
    let eval = poly_eval(coeffs, y);
    assert(resized(coeffs, n) =~= coeffs);
    lemma_dot_powers(n, 1, alpha, coeffs);
    lemma_dot_powers(n, 1, alpha, q);
    lemma_poly_eval_reduced(coeffs, alpha);
    lemma_poly_eval_reduced(coeffs, y);
    lemma_poly_eval_reduced(q, alpha);
    let pa = poly_eval(coeffs, alpha);
    let qa = poly_eval(q, alpha);
    lemma_fmul_one(pa);
    lemma_fmul_one(qa);
    lemma_small_mod(pa, modulus());
    lemma_small_mod(qa, modulus());
    assert(com == pa);
    assert(opening == qa);
    lemma_linear_quotient(coeffs, y, alpha);
    lemma_fsub_of_fadd(fmul(qa, fsub(alpha, y)), eval);
    lemma_fmul_reduce(qa, fsub(alpha, y));
    lemma_small_mod(fmul(qa, fsub(alpha, y)), modulus());
    assert(fsub(pa, eval) == fmul(qa, fsub(alpha, y)));
    lemma_fmul_one(eval);
    lemma_small_mod(eval, modulus());
    lemma_fsub_reduce(pa, eval);
    lemma_fmul_one(fsub(pa, eval));
    lemma_small_mod(fsub(pa, eval), modulus());
    lemma_fmul_one(y);
    lemma_fsub_reduce(alpha, y);
    lemma_fsub_reduce(alpha % modulus(), y);
}

/// Polynomial round trip. For the reference string of whatever scalars
/// `alpha` and `beta` with `size` commitment keys and `n` powers for the
/// rows, whatever opening is produced at a point `(x, y)` for a polynomial
/// with no more rows than keys, none of a degree of `n` or more, and the
/// commitments to its rows is accepted by the verifier for the
/// commitment to the polynomial, the point, and the value of the polynomial
/// at the point.
#[verifier::rlimit(40)]
pub proof fn lemma_polynomial_round_trip(
    size: nat,
    n: nat,
    alpha: nat,
    beta: nat,
    rows: Seq<Seq<nat>>,
    x: nat,
    y: nat,
)
    requires
        size >= 1,
        1 <= n <= 2 * size - 1,
        rows.len() <= size,
        forall|i: int| 0 <= i < rows.len() ==> significant_len(#[trigger] rows[i]) <= n,
        bivariate_open_spec(
            scalar_powers((2 * size - 1) as nat, 1, beta),
            even_indexed(scalar_powers((2 * size - 1) as nat, 1, beta)),
            even_indexed(scalar_powers((2 * size - 1) as nat, 1, alpha)),
            scalar_powers((2 * size - 1) as nat, 1, alpha).take(n as int),
            rows,
            bivariate_commit_spec(
                even_indexed(scalar_powers((2 * size - 1) as nat, 1, beta)),
                scalar_powers((2 * size - 1) as nat, 1, alpha).take(n as int),
                rows,
            ).1,
            x,
            y,
        ) is Ok,
    ensures
        ({
            let g_alpha_powers = scalar_powers((2 * size - 1) as nat, 1, alpha);
            let h_beta_powers = scalar_powers((2 * size - 1) as nat, 1, beta);
            let ck_1 = even_indexed(h_beta_powers);
            let ck_2 = even_indexed(g_alpha_powers);
            let powers = g_alpha_powers.take(n as int);
            let committed = bivariate_commit_spec(ck_1, powers, rows);
            let proof = bivariate_open_spec(
                h_beta_powers,
                ck_1,
                ck_2,
                powers,
                rows,
                committed.1,
                x,
                y,
            )->Ok_0;
            bivariate_verify_spec(
                (g_alpha_powers[0], h_beta_powers[0], beta % modulus(), alpha % modulus()),
                committed.0,
                x,
                y,
                bivariate_eval(rows, x, y),
                proof,
            ) == Ok::<bool, InnerProductArgumentError>(true)
        }),
{
    let ga = scalar_powers((2 * size - 1) as nat, 1, alpha);
    let hb = scalar_powers((2 * size - 1) as nat, 1, beta);
    let ck_1 = even_indexed(hb);
    let ck_2 = even_indexed(ga);
    let powers = ga.take(n as int);
    let committed = bivariate_commit_spec(ck_1, powers, rows);
    let com = committed.0;
    let coms = committed.1;
    let proof = bivariate_open_spec(hb, ck_1, ck_2, powers, rows, coms, x, y)->Ok_0;
    let px = structured_powers(size, x);
    let y_eval = folded_rows(rows, px, size, n);
    let eval = bivariate_eval(rows, x, y);
    let v_srs = (ga[0], hb[0], beta % modulus(), alpha % modulus());

    lemma_commitment_keys(size, alpha);
    lemma_commitment_keys(size, beta);
    lemma_structured_powers(size, x);
    assert(fpow(alpha, 0) == 1);
    assert(fpow(beta, 0) == 1);
    assert(ga[0] == 1);
    assert(hb[0] == 1);
    assert(powers =~= scalar_powers(n, 1, alpha));
    assert(ck_1.len() == size);

    // The commitments to the rows
    assert(coms == row_commitments(powers, rows, size));
    assert(com == dot(ck_1, coms));
    assert forall|i: int| 0 <= i < size implies #[trigger] coms[i] == dot(
        powers,
        resized(row(rows, i), powers.len()),
    ) by {
        assert(coms.index(i) == dot(powers, resized(row(rows, i), powers.len())));
    }
    lemma_folded_commitment(powers, rows, px, coms, size);
    assert(coms.take(size as int) =~= coms);
    assert(px.take(size as int) =~= px);
    assert(proof.y_eval_comm == dot(coms, px));

    // The argument
    assert(ssm_prove_spec::<Gt, G1, G1>(hb, coms, px, ck_1, ck_2, 1) is Ok);
    assert(proof.ip_proof == ssm_prove_spec::<Gt, G1, G1>(hb, coms, px, ck_1, ck_2, 1)->Ok_0);
    lemma_ssm_complete::<Gt, G1, G1>(size, alpha, beta, coms, x, 1);
    assert(fmul(1, dot(coms, px)) == dot(coms, px)) by {
        crate::algebra::lemma_dot_reduced(coms, px);
        lemma_fmul_one(dot(coms, px));
        lemma_small_mod(dot(coms, px), modulus());
    }

    // The opening at the second coordinate
    assert(y_eval.len() == n);
    assert(proof.kzg_proof == kzg_open_spec(powers, y_eval, y));
    lemma_kzg_complete(y_eval, alpha, y);
    assert(poly_eval(y_eval, y) == eval) by {
        lemma_folded_value(rows, px, y, size, n);
        lemma_rows_sum_beyond(rows, px, y, size, n);
        lemma_rows_sum_is_value(rows, x, y, rows.len(), size, n);
        assert(rows.take(rows.len() as int) =~= rows);
    }
}

/// The power of a power is the power of the product of the exponents.
pub proof fn lemma_fpow_mul(z: nat, b: nat, k: nat)
    ensures
        fpow(z, b * k) == fpow(fpow(z, b), k),
    decreases k,
{
    if k == 0 {
        assert(b * 0 == 0);
    } else {
        let j = (k - 1) as nat;
        lemma_fpow_mul(z, b, j);
        assert(b * k == b + b * j) by (nonlinear_arith)
            requires
                k == j + 1,
        ;
        lemma_fpow_add(z, b, b * j);
    }
}

/// The first `k` rows of the form in two variables of a polynomial, at
/// `(z^width, z)`, add up to the value at `z` of the polynomial cut after
/// `k * width` coefficients.
pub proof fn lemma_univariate_rows(coeffs: Seq<nat>, width: nat, z: nat, k: nat)
    requires
        k <= width,
    ensures
        bivariate_eval(bivariate_rows(coeffs, width).take(k as int), fpow(z, width), z)
            == poly_eval(resized(coeffs, k * width), z),
    decreases k,
{
    let rows = bivariate_rows(coeffs, width);
    if k == 0 {
        assert(0 * width == 0);
        assert(resized(coeffs, 0) =~= Seq::<nat>::empty());
        assert(rows.take(0) =~= Seq::<Seq<nat>>::empty());
    } else {
        let j = (k - 1) as nat;
        lemma_univariate_rows(coeffs, width, z, j);
        let before = resized(coeffs, j * width);
        let all = resized(coeffs, k * width);
        assert(k * width == j * width + width) by (nonlinear_arith)
            requires
                k == j + 1,
        ;
        assert(all =~= before + rows[j as int]) by {
            assert forall|i: int| 0 <= i < all.len() implies all[i] == (before + rows[j as int])[i] by {
                if i >= j * width {
                    assert((j as int) * (width as int) + (i - j * width) == i);
                }
            }
        }
        lemma_poly_eval_concat(before, rows[j as int], z);
        lemma_fpow_mul(z, width, j);
        assert(width * j == j * width) by (nonlinear_arith);
        assert(rows.take(k as int).drop_last() =~= rows.take(j as int));
        assert(rows.take(k as int).last() == rows[j as int]);
    }
}

/// The univariate reduction. The form in two variables of a polynomial
/// with no more than `width * width` coefficients has, at `(z^width, z)`,
/// the value of the polynomial at `z`.
pub proof fn lemma_univariate_value(coeffs: Seq<nat>, width: nat, z: nat)
    requires
        coeffs.len() <= width * width,
    ensures
        bivariate_eval(bivariate_rows(coeffs, width), fpow(z, width), z) == poly_eval(coeffs, z),
{
    let rows = bivariate_rows(coeffs, width);
    lemma_univariate_rows(coeffs, width, z, width);
    assert(rows.take(width as int) =~= rows);
    lemma_poly_eval_resized(coeffs, width * width, z);
}

/// Univariate round trip. For the reference string of whatever scalars
/// `alpha` and `beta` with `size` commitment keys and `n` powers for the
/// rows, whatever opening is produced at a point `z` for a polynomial with
/// no more than `n * n` coefficients and the commitments to the rows of its
/// form in two variables is accepted by the verifier for the commitment to
/// the polynomial, the point, and the value of the polynomial at the point.
pub proof fn lemma_univariate_round_trip(
    size: nat,
    n: nat,
    alpha: nat,
    beta: nat,
    coeffs: Seq<nat>,
    z: nat,
)
    requires
        size >= 1,
        1 <= n <= 2 * size - 1,
        coeffs.len() <= n * n,
        n <= size,
        bivariate_open_spec(
            scalar_powers((2 * size - 1) as nat, 1, beta),
            even_indexed(scalar_powers((2 * size - 1) as nat, 1, beta)),
            even_indexed(scalar_powers((2 * size - 1) as nat, 1, alpha)),
            scalar_powers((2 * size - 1) as nat, 1, alpha).take(n as int),
            bivariate_rows(coeffs, n),
            bivariate_commit_spec(
                even_indexed(scalar_powers((2 * size - 1) as nat, 1, beta)),
                scalar_powers((2 * size - 1) as nat, 1, alpha).take(n as int),
                bivariate_rows(coeffs, n),
            ).1,
            fpow(z, n),
            z,
        ) is Ok,
    ensures
        ({
            let g_alpha_powers = scalar_powers((2 * size - 1) as nat, 1, alpha);
            let h_beta_powers = scalar_powers((2 * size - 1) as nat, 1, beta);
            let ck_1 = even_indexed(h_beta_powers);
            let ck_2 = even_indexed(g_alpha_powers);
            let powers = g_alpha_powers.take(n as int);
            let rows = bivariate_rows(coeffs, n);
            let committed = bivariate_commit_spec(ck_1, powers, rows);
            let proof = bivariate_open_spec(
                h_beta_powers,
                ck_1,
                ck_2,
                powers,
                rows,
                committed.1,
                fpow(z, n),
                z,
            )->Ok_0;
            bivariate_verify_spec(
                (g_alpha_powers[0], h_beta_powers[0], beta % modulus(), alpha % modulus()),
                committed.0,
                fpow(z, n),
                z,
                poly_eval(coeffs, z),
                proof,
            ) == Ok::<bool, InnerProductArgumentError>(true)
        }),
{
    lemma_univariate_value(coeffs, n, z);
    assert forall|i: int| 0 <= i < bivariate_rows(coeffs, n).len() implies significant_len(
        #[trigger] bivariate_rows(coeffs, n)[i],
    ) <= n by {
        lemma_significant_len_bound(bivariate_rows(coeffs, n)[i]);
    }
    lemma_polynomial_round_trip(size, n, alpha, beta, bivariate_rows(coeffs, n), fpow(z, n), z);
}

} // verus!
