//! Why honest arguments are accepted: the keys that the prover is left with
//! are the values of the key polynomials at the scalars of the reference
//! string, and the openings of those polynomials verify.

use crate::algebra::{dot, fold_halves, lower, upper};
use crate::element::Element;
use crate::field::{
    fadd, finv, fmul, fsub, is_inverse, lemma_congruent_equal, lemma_congruent_fadd,
    lemma_congruent_fmul, lemma_fadd_reduce, lemma_fmul_commutative, lemma_fmul_one,
    lemma_fmul_reduce, lemma_fsub_injective, lemma_fsub_reduce, lemma_fsub_self, modulus,
};
use crate::gipa::{
    cross_commitments, is_power_of_two, lemma_gipa_complete, lemma_replay_componentwise,
    lemma_run_base, lemma_run_unfold, prove_with_aux_spec, replay, round_payload, run,
    InnerProductArgumentError,
};
use crate::polynomial::{
    fpow, lemma_dot_powers, lemma_fpow_add, lemma_fpow_reduced, lemma_linear_quotient,
    lemma_poly_eval_concat, lemma_poly_eval_interleaved, lemma_poly_eval_lowered,
    lemma_poly_eval_reduced, lemma_poly_eval_scaled, linear_quotient, poly_eval, resized,
    scalar_powers,
};
use crate::tipa::structured_scalar_message::{ssm_kzg_payload, ssm_prove_spec, ssm_verify_spec};
use crate::tipa::{
    coefficients, even_indexed, first_challenge, g1_opening_holds, g2_opening_holds,
    inverse_values, key_polynomial, kzg_payload, opening_numerator, product_form,
    repeated_square, scaled, tipa_prove_spec, tipa_verify_spec,
};
use crate::transcript::challenge;
use vstd::arithmetic::div_mod::lemma_small_mod;
use vstd::arithmetic::power2::{lemma_pow2_unfold, pow2};
use vstd::prelude::*;

verus! {

/// Squaring `i` times is raising to the power `2^i`.
pub proof fn lemma_repeated_square(w: nat, i: nat)
    ensures
        repeated_square(w, i) % modulus() == fpow(w, pow2(i)),
    decreases i,
{
    if i == 0 {
        assert(pow2(0) == 1) by {
            vstd::arithmetic::power2::lemma2_to64();
        }
        assert(fpow(w, 0) == 1);
        assert(fpow(w, 1) == fmul(w, fpow(w, 0)));
        lemma_fmul_one(w);
    } else {
        let p = repeated_square(w, (i - 1) as nat);
        let half = pow2((i - 1) as nat);
        lemma_repeated_square(w, (i - 1) as nat);
        lemma_pow2_unfold(i);
        assert(pow2(i) == half + half);
        lemma_fpow_add(w, half, half);
        lemma_fmul_reduce(p, p);
        lemma_fmul_reduce(p % modulus(), p);
        assert(fmul(p, p) == fmul(fpow(w, half), fpow(w, half)));
        lemma_small_mod(fmul(p, p), modulus());
    }
}

/// Squaring a product is multiplying the squares.
pub proof fn lemma_repeated_square_product(a: nat, b: nat, i: nat)
    ensures
        repeated_square(fmul(a, b), i) == fmul(repeated_square(a, i), repeated_square(b, i)),
    decreases i,
{
    if i > 0 {
        let x = repeated_square(a, (i - 1) as nat);
        let y = repeated_square(b, (i - 1) as nat);
        lemma_repeated_square_product(a, b, (i - 1) as nat);
        let xi = x as int;
        let yi = y as int;
        lemma_congruent_fmul(x, y, xi, yi);
        lemma_congruent_fmul(fmul(x, y), fmul(x, y), xi * yi, xi * yi);
        lemma_congruent_fmul(x, x, xi, xi);
        lemma_congruent_fmul(y, y, yi, yi);
        lemma_congruent_fmul(fmul(x, x), fmul(y, y), xi * xi, yi * yi);
        assert((xi * yi) * (xi * yi) == (xi * xi) * (yi * yi)) by (nonlinear_arith);
        lemma_fmul_reduce(fmul(x, y), fmul(x, y));
        lemma_fmul_reduce(fmul(x, x), fmul(y, y));
        lemma_congruent_equal(
            fmul(fmul(x, y), fmul(x, y)),
            fmul(fmul(x, x), fmul(y, y)),
            (xi * yi) * (xi * yi),
        );
    }
}

/// A transcript of `k` challenges has `2^k` coefficients.
pub proof fn lemma_coefficients_len(t: Seq<nat>, r: nat)
    ensures
        coefficients(t, r).len() == pow2(t.len()),
    decreases t.len(),
{
    if t.len() == 0 {
        assert(pow2(0) == 1) by {
            vstd::arithmetic::power2::lemma2_to64();
        }
    } else {
        lemma_coefficients_len(t.drop_last(), r);
        lemma_pow2_unfold(t.len());
    }
}

/// The value at `y` of the polynomial with the coefficients of a transcript
/// is the product of its factors.
#[verifier::rlimit(40)]
pub proof fn lemma_coefficients_eval(t: Seq<nat>, r: nat, y: nat)
    ensures
        poly_eval(coefficients(t, r), y) == product_form(t, fmul(y, r)),
    decreases t.len(),
{
    let w = fmul(y, r);
    if t.len() == 0 {
        let c = seq![1nat];
        assert(c.drop_first() =~= Seq::<nat>::empty());
        assert(poly_eval(c.drop_first(), y) == 0);
        assert(poly_eval(c, y) == fadd(1, fmul(y, 0)));
    } else {
        let front = t.drop_last();
        let i = front.len();
        let before = coefficients(front, r);
        let m = fmul(t.last(), repeated_square(r, i));
        lemma_coefficients_eval(front, r, y);
        lemma_coefficients_len(front, r);
        lemma_poly_eval_concat(before, scaled(before, m), y);
        lemma_poly_eval_scaled(before, scaled(before, m), m, y);
        lemma_repeated_square(y, i);
        lemma_repeated_square_product(y, r, i);
        let e = poly_eval(before, y);
        let py = fpow(y, pow2(i));
        let sy = repeated_square(y, i);
        let sr = repeated_square(r, i);
        let x = t.last();
        assert(poly_eval(coefficients(t, r), y) == fadd(e, fmul(py, fmul(e, m))));
        assert(product_form(t, w) == fmul(e, fadd(1, fmul(x, fmul(sy, sr)))));
        lemma_fpow_reduced(y, pow2(i));
        lemma_small_mod(py, modulus());
        lemma_coefficient_step(e, py, sy, sr, x);
    }
}

/// `e + p * (e * (x * r)) == e * (1 + x * (s * r))` where `p` and `s` are
/// congruent.
pub proof fn lemma_coefficient_step(e: nat, p: nat, s: nat, r: nat, x: nat)
    requires
        p % modulus() == s % modulus(),
    ensures
        fadd(e, fmul(p, fmul(e, fmul(x, r)))) == fmul(e, fadd(1, fmul(x, fmul(s, r)))),
{
    let ei = e as int;
    let xi = x as int;
    let si = s as int;
    let ri = r as int;
    lemma_congruent_fmul(x, r, xi, ri);
    lemma_congruent_fmul(e, fmul(x, r), ei, xi * ri);
    lemma_congruent_fmul(p, fmul(e, fmul(x, r)), si, ei * (xi * ri));
    lemma_congruent_fadd(e, fmul(p, fmul(e, fmul(x, r))), ei, si * (ei * (xi * ri)));
    lemma_congruent_fmul(s, r, si, ri);
    lemma_congruent_fmul(x, fmul(s, r), xi, si * ri);
    lemma_congruent_fadd(1, fmul(x, fmul(s, r)), 1, xi * (si * ri));
    lemma_congruent_fmul(e, fadd(1, fmul(x, fmul(s, r))), ei, 1 + xi * (si * ri));
    assert(ei + si * (ei * (xi * ri)) == ei * (1 + xi * (si * ri))) by (nonlinear_arith);
    lemma_fadd_reduce(e, fmul(p, fmul(e, fmul(x, r))));
    lemma_fmul_reduce(e, fadd(1, fmul(x, fmul(s, r))));
    lemma_congruent_equal(
        fadd(e, fmul(p, fmul(e, fmul(x, r)))),
        fmul(e, fadd(1, fmul(x, fmul(s, r)))),
        ei * (1 + xi * (si * ri)),
    );
}

/// The value of the key polynomial of a transcript at a point is the
/// product of its factors at the square of the point, times the shift.
pub proof fn lemma_key_polynomial_eval(t: Seq<nat>, r: nat, x: nat)
    ensures
        poly_eval(key_polynomial(t, r), x) == product_form(t, fmul(fmul(x, x), r)),
{
    lemma_coefficients_len(t, r);
    assert(pow2(t.len()) > 0) by {
        vstd::arithmetic::power2::lemma_pow2_pos(t.len());
    }
    lemma_poly_eval_interleaved(coefficients(t, r), x);
    lemma_coefficients_eval(t, r, fmul(x, x));
}

/// Folding a geometric sequence in halves gives a geometric sequence: the
/// fold of `s * y^j` by `d` is `s * (1 + d * y^h) * y^j`, with `h` half the
/// length.
pub proof fn lemma_fold_geometric(s: nat, y: nat, h: nat, d: nat)
    ensures
        fold_halves(scalar_powers(2 * h, s, y), d) == scalar_powers(
            h,
            fmul(s, fadd(1, fmul(d, fpow(y, h)))),
            y,
        ),
{
    let whole = scalar_powers(2 * h, s, y);
    let folded = fold_halves(whole, d);
    let factor = fmul(s, fadd(1, fmul(d, fpow(y, h))));
    let target = scalar_powers(h, factor, y);
    assert forall|j: int| 0 <= j < h implies folded[j] == target[j] by {
        let yh = fpow(y, h);
        let yj = fpow(y, j as nat);
        lemma_fpow_add(y, h, j as nat);
        assert(upper(whole)[j] == whole[h + j]);
        assert(lower(whole)[j] == whole[j]);
        let di = d as int;
        let si = s as int;
        let hi = yh as int;
        let ji = yj as int;
        lemma_congruent_fmul(yh, yj, hi, ji);
        lemma_congruent_fmul(s, fmul(yh, yj), si, hi * ji);
        lemma_congruent_fmul(d, fmul(s, fmul(yh, yj)), di, si * (hi * ji));
        lemma_congruent_fmul(s, yj, si, ji);
        lemma_congruent_fadd(
            fmul(d, fmul(s, fmul(yh, yj))),
            fmul(s, yj),
            di * (si * (hi * ji)),
            si * ji,
        );
        lemma_congruent_fmul(d, yh, di, hi);
        lemma_congruent_fadd(1, fmul(d, yh), 1, di * hi);
        lemma_congruent_fmul(s, fadd(1, fmul(d, yh)), si, 1 + di * hi);
        lemma_congruent_fmul(factor, yj, si * (1 + di * hi), ji);
        assert(di * (si * (hi * ji)) + si * ji == (si * (1 + di * hi)) * ji) by (nonlinear_arith);
        lemma_fadd_reduce(fmul(d, fmul(s, fmul(yh, yj))), fmul(s, yj));
        lemma_fmul_reduce(factor, yj);
        lemma_congruent_equal(
            fadd(fmul(d, fmul(s, fmul(yh, yj))), fmul(s, yj)),
            fmul(factor, yj),
            (si * (1 + di * hi)) * ji,
        );
    }
    assert(folded =~= target);
}

/// A run on vectors of `2^k` elements has `k` rounds.
pub proof fn lemma_run_length<A: Element, B: Element, C: Element>(
    a: Seq<nat>,
    b: Seq<nat>,
    ka: Seq<nat>,
    kb: Seq<nat>,
    kt: nat,
    prev: nat,
)
    requires
        is_power_of_two(a.len()),
        run::<A, B, C>(a, b, ka, kb, kt, prev) is Some,
    ensures
        pow2(run::<A, B, C>(a, b, ka, kb, kt, prev)->0.challenges.len()) == a.len(),
    decreases a.len(),
{
    if a.len() <= 1 {
        lemma_run_base::<A, B, C>(a, b, ka, kb, kt, prev);
        assert(pow2(0) == 1) by {
            vstd::arithmetic::power2::lemma2_to64();
        }
    } else {
        lemma_run_unfold::<A, B, C>(a, b, ka, kb, kt, prev);
        let round = cross_commitments(a, b, ka, kb, kt);
        let c = challenge(round_payload::<A, B, C>(prev, round), true)->0;
        let d = finv(c);
        lemma_run_length::<A, B, C>(
            fold_halves(a, c),
            fold_halves(b, d),
            fold_halves(ka, d),
            fold_halves(kb, c),
            kt,
            c,
        );
        let rest = run::<A, B, C>(
            fold_halves(a, c),
            fold_halves(b, d),
            fold_halves(ka, d),
            fold_halves(kb, c),
            kt,
            c,
        )->0;
        lemma_pow2_unfold((rest.challenges.len() + 1) as nat);
    }
}

/// The product of the factors of a transcript with one more challenge.
pub proof fn lemma_product_form_push(t: Seq<nat>, x: nat, w: nat)
    ensures
        product_form(t.push(x), w) == fmul(
            product_form(t, w),
            fadd(1, fmul(x, repeated_square(w, t.len()))),
        ),
{
    assert(t.push(x).drop_last() =~= t);
}

/// The keys that the prover is left with, where the keys are geometric
/// sequences: the multiples of `sa` by the powers of `ya`, and of `sb` by
/// the powers of `yb`. The key of the left vector is `sa` times the product
/// of the factors of the inverses of the challenges, last round first, at
/// `ya`; that of the right vector is `sb` times the product of the factors
/// of the challenges at `yb`.
#[verifier::rlimit(40)]
pub proof fn lemma_run_keys<A: Element, B: Element, C: Element>(
    a: Seq<nat>,
    b: Seq<nat>,
    sa: nat,
    ya: nat,
    sb: nat,
    yb: nat,
    kt: nat,
    prev: nat,
)
    requires
        is_power_of_two(a.len()),
        run::<A, B, C>(
            a,
            b,
            scalar_powers(a.len(), sa, ya),
            scalar_powers(a.len(), sb, yb),
            kt,
            prev,
        ) is Some,
    ensures
        ({
            let r = run::<A, B, C>(
                a,
                b,
                scalar_powers(a.len(), sa, ya),
                scalar_powers(a.len(), sb, yb),
                kt,
                prev,
            )->0;
            &&& r.ck_base.0 == fmul(
                sa,
                product_form(inverse_values(r.challenges.reverse()), ya),
            )
            &&& r.ck_base.1 == fmul(sb, product_form(r.challenges.reverse(), yb))
        }),
    decreases a.len(),
{
    let n = a.len();
    let ka = scalar_powers(n, sa, ya);
    let kb = scalar_powers(n, sb, yb);
    let r = run::<A, B, C>(a, b, ka, kb, kt, prev)->0;
    if n == 1 {
        lemma_run_base::<A, B, C>(a, b, ka, kb, kt, prev);
        assert(r.challenges.reverse() =~= Seq::<nat>::empty());
        assert(inverse_values(r.challenges.reverse()) =~= Seq::<nat>::empty());
        assert(fpow(ya, 0) == 1);
        assert(fpow(yb, 0) == 1);
        assert(r.ck_base.0 == ka[0]);
        assert(r.ck_base.1 == kb[0]);
    } else {
        let h = n / 2;
        assert(n == 2 * h);
        lemma_run_unfold::<A, B, C>(a, b, ka, kb, kt, prev);
        let round = cross_commitments(a, b, ka, kb, kt);
        let c = challenge(round_payload::<A, B, C>(prev, round), true)->0;
        let d = finv(c);
        let fa = fmul(sa, fadd(1, fmul(d, fpow(ya, h))));
        let fb = fmul(sb, fadd(1, fmul(c, fpow(yb, h))));
        let a2 = fold_halves(a, c);
        let b2 = fold_halves(b, d);
        let ka2 = fold_halves(ka, d);
        let kb2 = fold_halves(kb, c);
        assert(ka2 == scalar_powers(h, fa, ya)) by {
            lemma_fold_geometric(sa, ya, h, d);
        }
        assert(kb2 == scalar_powers(h, fb, yb)) by {
            lemma_fold_geometric(sb, yb, h, c);
        }
        assert(a2.len() == h);
        let rest = run::<A, B, C>(a2, b2, ka2, kb2, kt, c)->0;
        assert(run::<A, B, C>(a2, b2, ka2, kb2, kt, c) is Some);
        assert(r.challenges == seq![c] + rest.challenges);
        assert(r.ck_base == rest.ck_base);
        lemma_run_keys::<A, B, C>(a2, b2, fa, ya, fb, yb, kt, c);
        lemma_run_length::<A, B, C>(a2, b2, ka2, kb2, kt, c);
        let k = rest.challenges.len();
        let ta = inverse_values(rest.challenges.reverse());
        let tb = rest.challenges.reverse();
        assert(pow2(k) == h);
        assert(r.challenges.reverse() =~= tb.push(c));
        assert(inverse_values(r.challenges.reverse()) =~= ta.push(d));
        assert(r.ck_base.0 == fmul(sa, product_form(ta.push(d), ya))) by {
            lemma_product_form_push(ta, d, ya);
            lemma_repeated_square(ya, k);
            lemma_key_step(sa, d, fpow(ya, h), repeated_square(ya, k), product_form(ta, ya));
        }
        assert(r.ck_base.1 == fmul(sb, product_form(tb.push(c), yb))) by {
            lemma_product_form_push(tb, c, yb);
            lemma_repeated_square(yb, k);
            lemma_key_step(sb, c, fpow(yb, h), repeated_square(yb, k), product_form(tb, yb));
        }
    }
}

/// `(s * (1 + d * p)) * f == s * (f * (1 + d * q))` where `p` and `q` are
/// congruent.
pub proof fn lemma_key_step(s: nat, d: nat, p: nat, q: nat, f: nat)
    requires
        q % modulus() == p % modulus(),
    ensures
        fmul(fmul(s, fadd(1, fmul(d, p))), f) == fmul(s, fmul(f, fadd(1, fmul(d, q)))),
{
    let si = s as int;
    let di = d as int;
    let pi = p as int;
    let fi = f as int;
    lemma_congruent_fmul(d, p, di, pi);
    lemma_congruent_fadd(1, fmul(d, p), 1, di * pi);
    lemma_congruent_fmul(s, fadd(1, fmul(d, p)), si, 1 + di * pi);
    lemma_congruent_fmul(fmul(s, fadd(1, fmul(d, p))), f, si * (1 + di * pi), fi);
    lemma_congruent_fmul(d, q, di, pi);
    lemma_congruent_fadd(1, fmul(d, q), 1, di * pi);
    lemma_congruent_fmul(f, fadd(1, fmul(d, q)), fi, 1 + di * pi);
    lemma_congruent_fmul(s, fmul(f, fadd(1, fmul(d, q))), si, fi * (1 + di * pi));
    assert((si * (1 + di * pi)) * fi == si * (fi * (1 + di * pi))) by (nonlinear_arith);
    lemma_fmul_reduce(fmul(s, fadd(1, fmul(d, p))), f);
    lemma_fmul_reduce(s, fmul(f, fadd(1, fmul(d, q))));
    lemma_congruent_equal(
        fmul(fmul(s, fadd(1, fmul(d, p))), f),
        fmul(s, fmul(f, fadd(1, fmul(d, q)))),
        si * (fi * (1 + di * pi)),
    );
}

/// The opening of a polynomial commitment is sound to make: for a
/// polynomial `f`, the quotient `q` of `f - f(z)` by `X - z` satisfies
/// `f(x) - f(z) == q(x) * (x - z)` at every `x`.
pub proof fn lemma_opening_quotient(f: Seq<nat>, z: nat, x: nat)
    requires
        f.len() > 0,
    ensures
        fsub(poly_eval(f, x), poly_eval(f, z)) == fmul(
            poly_eval(
                linear_quotient(f.update(0, fsub(f[0], poly_eval(f, z))), z),
                x,
            ),
            fsub(x, z),
        ),
{
    let e = poly_eval(f, z);
    let lowered = f.update(0, fsub(f[0], e));
    let q = linear_quotient(lowered, z);
    lemma_poly_eval_lowered(f, e, x);
    lemma_poly_eval_lowered(f, e, z);
    lemma_fsub_self(e);
    lemma_linear_quotient(lowered, z, x);
    lemma_poly_eval_reduced(lowered, x);
    lemma_small_mod(poly_eval(lowered, x), modulus());
    lemma_fmul_reduce(poly_eval(q, x), fsub(x, z));
    lemma_small_mod(fmul(poly_eval(q, x), fsub(x, z)), modulus());
}

/// An honest opening passes the check. For the key polynomial of a
/// transcript, committed to under the powers of `x`, the opening at `z`
/// times `x - z` is the commitment less the value at `z`.
pub proof fn lemma_opening_check(t: Seq<nat>, rho: nat, z: nat, x: nat)
    ensures
        ({
            let f = key_polynomial(t, rho);
            let opening = dot(
                scalar_powers(f.len(), 1, x),
                resized(linear_quotient(opening_numerator(t, rho, z), z), f.len()),
            );
            let ck = product_form(t, fmul(fmul(x, x), rho));
            let eval = product_form(t, fmul(fmul(z, z), rho));
            &&& fsub(ck, eval) == fmul(opening, fsub(x, z))
            &&& ck < modulus()
            &&& eval < modulus()
            &&& opening < modulus()
        }),
{
    let f = key_polynomial(t, rho);
    let q = linear_quotient(opening_numerator(t, rho, z), z);
    lemma_coefficients_len(t, rho);
    assert(pow2(t.len()) > 0) by {
        vstd::arithmetic::power2::lemma_pow2_pos(t.len());
    }
    assert(f.len() > 0);
    lemma_key_polynomial_eval(t, rho, x);
    lemma_key_polynomial_eval(t, rho, z);
    lemma_poly_eval_reduced(f, x);
    lemma_poly_eval_reduced(f, z);
    lemma_opening_quotient(f, z, x);
    lemma_dot_powers(f.len(), 1, x, q);
    lemma_poly_eval_reduced(q, x);
    lemma_fmul_one(poly_eval(q, x));
    lemma_small_mod(poly_eval(q, x), modulus());
}

/// Completeness of the argument, with or without a shift. Let the
/// reference string be that of the scalars `alpha` and `beta` for vectors
/// of `size` elements, the keys of the right vector the even powers of
/// `alpha`, and the keys of the left vector the even powers of `beta`,
/// the `j`-th divided by the `j`-th power of the shift `r`, which has an
/// inverse. Then whatever argument the prover produces for two vectors, the
/// verifier accepts it for the commitments to the vectors and to their
/// inner product. Without a shift `r` is one.
#[verifier::rlimit(40)]
pub proof fn lemma_tipa_complete<A: Element, B: Element, C: Element>(
    size: nat,
    alpha: nat,
    beta: nat,
    a: Seq<nat>,
    b: Seq<nat>,
    kt: nat,
    r: nat,
)
    requires
        size >= 1,
        is_inverse(r, finv(r)),
        tipa_prove_spec::<A, B, C>(
            scalar_powers((2 * size - 1) as nat, 1, alpha),
            scalar_powers((2 * size - 1) as nat, 1, beta),
            a,
            b,
            scalar_powers(size, 1, fmul(fmul(beta, beta), finv(r))),
            scalar_powers(size, 1, fmul(alpha, alpha)),
            kt,
            r,
        ) is Ok,
    ensures
        ({
            let ka = scalar_powers(size, 1, fmul(fmul(beta, beta), finv(r)));
            let kb = scalar_powers(size, 1, fmul(alpha, alpha));
            let proof = tipa_prove_spec::<A, B, C>(
                scalar_powers((2 * size - 1) as nat, 1, alpha),
                scalar_powers((2 * size - 1) as nat, 1, beta),
                a,
                b,
                ka,
                kb,
                kt,
                r,
            )->Ok_0;
            tipa_verify_spec::<A, B, C>(
                (1, 1, beta % modulus(), alpha % modulus()),
                kt,
                (dot(ka, a), dot(kb, b), fmul(kt, dot(a, b))),
                proof,
                r,
            ) == Ok::<bool, InnerProductArgumentError>(true)
        }),
{
    let ga = scalar_powers((2 * size - 1) as nat, 1, alpha);
    let hb = scalar_powers((2 * size - 1) as nat, 1, beta);
    let rho = finv(r);
    let ya = fmul(fmul(beta, beta), rho);
    let yb = fmul(alpha, alpha);
    let ka = scalar_powers(size, 1, ya);
    let kb = scalar_powers(size, 1, yb);
    let proof = tipa_prove_spec::<A, B, C>(ga, hb, a, b, ka, kb, kt, r)->Ok_0;
    let com = (dot(ka, a), dot(kb, b), fmul(kt, dot(a, b)));
    let v_srs = (1nat, 1nat, beta % modulus(), alpha % modulus());

    // The halving argument
    assert(prove_with_aux_spec::<A, B, C>(a, b, ka, kb, kt) is Ok);
    assert(a.len() == size);
    let the_run = run::<A, B, C>(a, b, ka, kb, kt, 0)->0;
    assert(run::<A, B, C>(a, b, ka, kb, kt, 0) is Some);
    lemma_gipa_complete::<A, B, C>(a, b, ka, kb, kt, 0);
    lemma_run_keys::<A, B, C>(a, b, 1, ya, 1, yb, kt, 0);
    let folded = replay::<A, B, C>(com, the_run.rounds, 0)->0;
    assert(folded.1 == the_run.challenges);

    // The openings
    let ta = inverse_values(the_run.challenges.reverse());
    let tb = the_run.challenges.reverse();
    let z = challenge(kzg_payload(first_challenge(the_run.challenges), the_run.ck_base), false)->0;
    assert(r != 0) by {
        assert(0 * finv(r) == 0);
    }
    assert(proof.rounds == the_run.rounds);
    assert(proof.final_ck == the_run.ck_base);
    assert(proof.base == the_run.base);
    let fa = key_polynomial(ta, rho);
    let fb = key_polynomial(tb, 1);
    assert(hb.len() == fa.len());
    assert(ga.len() == fb.len());
    lemma_opening_check(ta, rho, z, beta);
    lemma_opening_check(tb, 1, z, alpha);
    let eval_a = product_form(ta, fmul(fmul(z, z), rho));
    let eval_b = product_form(tb, fmul(fmul(z, z), 1));
    let ck_a = product_form(ta, fmul(fmul(beta, beta), rho));
    let ck_b = product_form(tb, fmul(fmul(alpha, alpha), 1));
    assert(the_run.ck_base.0 == ck_a) by {
        lemma_fmul_one(ck_a);
        lemma_small_mod(ck_a, modulus());
    }
    assert(the_run.ck_base.1 == ck_b) by {
        lemma_fmul_one(yb);
        lemma_fmul_reduce(alpha, alpha);
        lemma_small_mod(yb, modulus());
        lemma_fmul_one(ck_b);
        lemma_small_mod(ck_b, modulus());
    }
    assert(g2_opening_holds(v_srs, ck_a, proof.final_ck_proof.0, eval_a, z)) by {
        lemma_fmul_one(eval_a);
        lemma_small_mod(eval_a, modulus());
        lemma_fsub_reduce(ck_a, eval_a);
        lemma_fmul_one(fsub(ck_a, eval_a));
        lemma_small_mod(fsub(ck_a, eval_a), modulus());
        lemma_fmul_one(z);
        lemma_fsub_reduce(beta, z);
        lemma_fsub_reduce(beta % modulus(), z);
        lemma_fmul_commutative(fsub(beta, z), proof.final_ck_proof.0);
    }
    assert(g1_opening_holds(v_srs, ck_b, proof.final_ck_proof.1, eval_b, z)) by {
        lemma_fmul_one(eval_b);
        lemma_small_mod(eval_b, modulus());
        lemma_fsub_reduce(ck_b, eval_b);
        lemma_fmul_one(fsub(ck_b, eval_b));
        lemma_small_mod(fsub(ck_b, eval_b), modulus());
        lemma_fmul_one(z);
        lemma_fsub_reduce(alpha, z);
        lemma_fsub_reduce(alpha % modulus(), z);
    }
}

/// The commitment keys are geometric: the elements at the even positions of
/// the powers of `x` are the powers of the square of `x`.
pub proof fn lemma_commitment_keys(size: nat, x: nat)
    requires
        size >= 1,
    ensures
        even_indexed(scalar_powers((2 * size - 1) as nat, 1, x)) == scalar_powers(
            size,
            1,
            fmul(x, x),
        ),
{
    let keys = even_indexed(scalar_powers((2 * size - 1) as nat, 1, x));
    let target = scalar_powers(size, 1, fmul(x, x));
    assert forall|j: int| 0 <= j < size implies keys[j] == target[j] by {
        lemma_square_power(x, j as nat);
    }
    assert(keys =~= target);
}

/// The power `2 * j` of `x` is the power `j` of its square.
pub proof fn lemma_square_power(x: nat, j: nat)
    ensures
        fpow(x, 2 * j) == fpow(fmul(x, x), j),
    decreases j,
{
    if j > 0 {
        lemma_square_power(x, (j - 1) as nat);
        lemma_fpow_add(x, 2, (2 * (j - 1)) as nat);
        assert(fpow(x, 0) == 1);
        assert(fpow(x, 1) == fmul(x, fpow(x, 0)));
        assert(fpow(x, 2) == fmul(x, fpow(x, 1)));
        lemma_fmul_one(x);
        lemma_fmul_reduce(x, x);
        lemma_fmul_reduce(fmul(x, x), fpow(fmul(x, x), (j - 1) as nat));
    }
}

/// One is its own inverse.
pub proof fn lemma_inverse_of_one()
    ensures
        is_inverse(1, 1),
        finv(1) == 1,
{
    assert(fmul(1, 1) == 1);
    crate::field::lemma_finv(1, 1);
}

/// Completeness. For the reference string of whatever scalars `alpha` and
/// `beta` for vectors of `size` elements, with the commitment keys that it
/// hands out, whatever argument the prover produces for two vectors is
/// accepted by the verifier, under the verifier's part of the reference
/// string, for the commitments to the two vectors and to their inner
/// product.
pub proof fn lemma_completeness<A: Element, B: Element, C: Element>(
    size: nat,
    alpha: nat,
    beta: nat,
    a: Seq<nat>,
    b: Seq<nat>,
    kt: nat,
)
    requires
        size >= 1,
        tipa_prove_spec::<A, B, C>(
            scalar_powers((2 * size - 1) as nat, 1, alpha),
            scalar_powers((2 * size - 1) as nat, 1, beta),
            a,
            b,
            even_indexed(scalar_powers((2 * size - 1) as nat, 1, beta)),
            even_indexed(scalar_powers((2 * size - 1) as nat, 1, alpha)),
            kt,
            1,
        ) is Ok,
    ensures
        ({
            let g_alpha_powers = scalar_powers((2 * size - 1) as nat, 1, alpha);
            let h_beta_powers = scalar_powers((2 * size - 1) as nat, 1, beta);
            let ka = even_indexed(h_beta_powers);
            let kb = even_indexed(g_alpha_powers);
            let proof = tipa_prove_spec::<A, B, C>(
                g_alpha_powers,
                h_beta_powers,
                a,
                b,
                ka,
                kb,
                kt,
                1,
            )->Ok_0;
            tipa_verify_spec::<A, B, C>(
                (g_alpha_powers[0], h_beta_powers[0], beta % modulus(), alpha % modulus()),
                kt,
                (dot(ka, a), dot(kb, b), fmul(kt, dot(a, b))),
                proof,
                1,
            ) == Ok::<bool, InnerProductArgumentError>(true)
        }),
{
    lemma_commitment_keys(size, alpha);
    lemma_commitment_keys(size, beta);
    lemma_inverse_of_one();
    lemma_fmul_one(fmul(beta, beta));
    lemma_fmul_reduce(beta, beta);
    lemma_small_mod(fmul(beta, beta), modulus());
    assert(fpow(alpha, 0) == 1);
    assert(fpow(beta, 0) == 1);
    lemma_tipa_complete::<A, B, C>(size, alpha, beta, a, b, kt, 1);
}

/// The message of the right vector that the prover is left with, where the
/// right vector is a geometric sequence, the multiples of `s` by the powers
/// of `x`: `s` times the product of the factors of the inverses of the
/// challenges, last round first, at `x`.
#[verifier::rlimit(40)]
pub proof fn lemma_run_structured_message<A: Element, B: Element, C: Element>(
    a: Seq<nat>,
    s: nat,
    x: nat,
    ka: Seq<nat>,
    kb: Seq<nat>,
    kt: nat,
    prev: nat,
)
    requires
        is_power_of_two(a.len()),
        run::<A, B, C>(a, scalar_powers(a.len(), s, x), ka, kb, kt, prev) is Some,
    ensures
        ({
            let r = run::<A, B, C>(a, scalar_powers(a.len(), s, x), ka, kb, kt, prev)->0;
            r.base.1 == fmul(s, product_form(inverse_values(r.challenges.reverse()), x))
        }),
    decreases a.len(),
{
    let n = a.len();
    let b = scalar_powers(n, s, x);
    let r = run::<A, B, C>(a, b, ka, kb, kt, prev)->0;
    if n == 1 {
        lemma_run_base::<A, B, C>(a, b, ka, kb, kt, prev);
        assert(r.challenges.reverse() =~= Seq::<nat>::empty());
        assert(inverse_values(r.challenges.reverse()) =~= Seq::<nat>::empty());
        assert(fpow(x, 0) == 1);
        assert(r.base.1 == b[0]);
    } else {
        let h = n / 2;
        assert(n == 2 * h);
        lemma_run_unfold::<A, B, C>(a, b, ka, kb, kt, prev);
        let round = cross_commitments(a, b, ka, kb, kt);
        let c = challenge(round_payload::<A, B, C>(prev, round), true)->0;
        let d = finv(c);
        let f = fmul(s, fadd(1, fmul(d, fpow(x, h))));
        let a2 = fold_halves(a, c);
        let b2 = fold_halves(b, d);
        let ka2 = fold_halves(ka, d);
        let kb2 = fold_halves(kb, c);
        assert(b2 == scalar_powers(h, f, x)) by {
            lemma_fold_geometric(s, x, h, d);
        }
        assert(a2.len() == h);
        let rest = run::<A, B, C>(a2, b2, ka2, kb2, kt, c)->0;
        lemma_run_structured_message::<A, B, C>(a2, f, x, ka2, kb2, kt, c);
        lemma_run_length::<A, B, C>(a2, b2, ka2, kb2, kt, c);
        let k = rest.challenges.len();
        let t = inverse_values(rest.challenges.reverse());
        assert(pow2(k) == h);
        assert(r.challenges.reverse() =~= rest.challenges.reverse().push(c));
        assert(inverse_values(r.challenges.reverse()) =~= t.push(d));
        assert(r.base.1 == fmul(s, product_form(t.push(d), x))) by {
            lemma_product_form_push(t, d, x);
            lemma_repeated_square(x, k);
            lemma_key_step(s, d, fpow(x, h), repeated_square(x, k), product_form(t, x));
        }
    }
}

/// Completeness of the argument with a structured right vector. For the
/// reference string of whatever scalars `alpha` and `beta` for vectors of
/// `size` elements, with the commitment keys that it hands out, whatever
/// argument the prover produces for a left vector and the powers of a scalar
/// `x` is accepted by the verifier for `x` and the commitments to the left
/// vector and to the inner product.
#[verifier::rlimit(40)]
pub proof fn lemma_ssm_complete<A: Element, B: Element, C: Element>(
    size: nat,
    alpha: nat,
    beta: nat,
    a: Seq<nat>,
    x: nat,
    kt: nat,
)
    requires
        size >= 1,
        ssm_prove_spec::<A, B, C>(
            scalar_powers((2 * size - 1) as nat, 1, beta),
            a,
            scalar_powers(size, 1, x),
            scalar_powers(size, 1, fmul(beta, beta)),
            scalar_powers(size, 1, fmul(alpha, alpha)),
            kt,
        ) is Ok,
    ensures
        ({
            let b = scalar_powers(size, 1, x);
            let ka = scalar_powers(size, 1, fmul(beta, beta));
            let kb = scalar_powers(size, 1, fmul(alpha, alpha));
            let proof = ssm_prove_spec::<A, B, C>(
                scalar_powers((2 * size - 1) as nat, 1, beta),
                a,
                b,
                ka,
                kb,
                kt,
            )->Ok_0;
            ssm_verify_spec::<A, B, C>(
                (1, 1, beta % modulus(), alpha % modulus()),
                kt,
                (dot(ka, a), fmul(kt, dot(a, b))),
                x,
                proof,
            ) == Ok::<bool, InnerProductArgumentError>(true)
        }),
{
    let hb = scalar_powers((2 * size - 1) as nat, 1, beta);
    let b = scalar_powers(size, 1, x);
    let ya = fmul(beta, beta);
    let yb = fmul(alpha, alpha);
    let ka = scalar_powers(size, 1, ya);
    let kb = scalar_powers(size, 1, yb);
    let proof = ssm_prove_spec::<A, B, C>(hb, a, b, ka, kb, kt)->Ok_0;
    let v_srs = (1nat, 1nat, beta % modulus(), alpha % modulus());

    // The halving argument
    assert(prove_with_aux_spec::<A, B, C>(a, b, ka, kb, kt) is Ok);
    assert(a.len() == size);
    let the_run = run::<A, B, C>(a, b, ka, kb, kt, 0)->0;
    assert(run::<A, B, C>(a, b, ka, kb, kt, 0) is Some);
    lemma_gipa_complete::<A, B, C>(a, b, ka, kb, kt, 0);
    lemma_run_keys::<A, B, C>(a, b, 1, ya, 1, yb, kt, 0);
    lemma_run_structured_message::<A, B, C>(a, 1, x, ka, kb, kt, 0);
    let com = (dot(ka, a), dot(kb, b), fmul(kt, dot(a, b)));
    let given = (dot(ka, a), 0nat, fmul(kt, dot(a, b)));
    lemma_replay_componentwise::<A, B, C>(com, given, the_run.rounds, 0);
    let folded = replay::<A, B, C>(given, the_run.rounds, 0)->0;
    assert(folded.1 == the_run.challenges);

    // The opening
    let t = inverse_values(the_run.challenges.reverse());
    let z = challenge(
        ssm_kzg_payload(first_challenge(the_run.challenges), the_run.ck_base.0),
        false,
    )->0;
    assert(proof.rounds == the_run.rounds);
    assert(proof.final_ck == the_run.ck_base.0);
    assert(proof.base == the_run.base.0);
    let f = key_polynomial(t, 1);
    assert(hb.len() == f.len());
    lemma_opening_check(t, 1, z, beta);
    let eval = product_form(t, fmul(fmul(z, z), 1));
    let ck = product_form(t, fmul(fmul(beta, beta), 1));
    assert(the_run.ck_base.0 == ck) by {
        lemma_fmul_one(ya);
        lemma_fmul_reduce(beta, beta);
        lemma_small_mod(ya, modulus());
        lemma_fmul_one(ck);
        lemma_small_mod(ck, modulus());
    }
    assert(g2_opening_holds(v_srs, ck, proof.final_ck_proof, eval, z)) by {
        lemma_fmul_one(eval);
        lemma_small_mod(eval, modulus());
        lemma_fsub_reduce(ck, eval);
        lemma_fmul_one(fsub(ck, eval));
        lemma_small_mod(fsub(ck, eval), modulus());
        lemma_fmul_one(z);
        lemma_fsub_reduce(beta, z);
        lemma_fsub_reduce(beta % modulus(), z);
        lemma_fmul_commutative(fsub(beta, z), proof.final_ck_proof);
    }
    // The message of the right vector that is left
    assert(the_run.base.1 == product_form(t, x)) by {
        lemma_product_form_reduced(t, x);
        lemma_fmul_one(product_form(t, x));
        lemma_small_mod(product_form(t, x), modulus());
    }
}

/// The product of the factors of a transcript is reduced.
pub proof fn lemma_product_form_reduced(t: Seq<nat>, w: nat)
    ensures
        product_form(t, w) < modulus(),
    decreases t.len(),
{
    if t.len() > 0 {
        lemma_fmul_reduce(
            product_form(t.drop_last(), w),
            fadd(1, fmul(t.last(), repeated_square(w, (t.len() - 1) as nat))),
        );
    }
}

/// The value of the key polynomial of the left vector that the verifier
/// works out for an argument under a shift `r`, at the point of the
/// openings; zero where the verifier does not get that far.
pub open spec fn left_key_value<A: Element, B: Element, C: Element>(
    com: (nat, nat, nat),
    proof: crate::tipa::TIPAProofValues,
    r: nat,
) -> nat {
    match replay::<A, B, C>(com, proof.rounds, 0) {
        None => 0,
        Some(folded) => match challenge(
            kzg_payload(first_challenge(folded.1), proof.final_ck),
            false,
        ) {
            None => 0,
            Some(z) => product_form(inverse_values(folded.1.reverse()), fmul(fmul(z, z), finv(r))),
        },
    }
}

/// An argument made with a shift is refused under another shift. Let the
/// reference string, the keys and the argument be as for completeness with
/// the shift `r`, and let `other` be a shift with an inverse. Then the
/// verifier refuses the argument under `other`, unless the key polynomial
/// of the left vector has the same value at the point of the openings under
/// both shifts: then no check tells the shifts apart.
pub proof fn lemma_wrong_shift_refused<A: Element, B: Element, C: Element>(
    size: nat,
    alpha: nat,
    beta: nat,
    a: Seq<nat>,
    b: Seq<nat>,
    kt: nat,
    r: nat,
    other: nat,
)
    requires
        size >= 1,
        is_inverse(r, finv(r)),
        is_inverse(other, finv(other)),
        tipa_prove_spec::<A, B, C>(
            scalar_powers((2 * size - 1) as nat, 1, alpha),
            scalar_powers((2 * size - 1) as nat, 1, beta),
            a,
            b,
            scalar_powers(size, 1, fmul(fmul(beta, beta), finv(r))),
            scalar_powers(size, 1, fmul(alpha, alpha)),
            kt,
            r,
        ) is Ok,
        ({
            let ka = scalar_powers(size, 1, fmul(fmul(beta, beta), finv(r)));
            let kb = scalar_powers(size, 1, fmul(alpha, alpha));
            let proof = tipa_prove_spec::<A, B, C>(
                scalar_powers((2 * size - 1) as nat, 1, alpha),
                scalar_powers((2 * size - 1) as nat, 1, beta),
                a,
                b,
                ka,
                kb,
                kt,
                r,
            )->Ok_0;
            let com = (dot(ka, a), dot(kb, b), fmul(kt, dot(a, b)));
            left_key_value::<A, B, C>(com, proof, other) != left_key_value::<A, B, C>(com, proof, r)
        }),
    ensures
        ({
            let ka = scalar_powers(size, 1, fmul(fmul(beta, beta), finv(r)));
            let kb = scalar_powers(size, 1, fmul(alpha, alpha));
            let proof = tipa_prove_spec::<A, B, C>(
                scalar_powers((2 * size - 1) as nat, 1, alpha),
                scalar_powers((2 * size - 1) as nat, 1, beta),
                a,
                b,
                ka,
                kb,
                kt,
                r,
            )->Ok_0;
            tipa_verify_spec::<A, B, C>(
                (1, 1, beta % modulus(), alpha % modulus()),
                kt,
                (dot(ka, a), dot(kb, b), fmul(kt, dot(a, b))),
                proof,
                other,
            ) == Ok::<bool, InnerProductArgumentError>(false)
        }),
{
    let ka = scalar_powers(size, 1, fmul(fmul(beta, beta), finv(r)));
    let kb = scalar_powers(size, 1, fmul(alpha, alpha));
    let proof = tipa_prove_spec::<A, B, C>(
        scalar_powers((2 * size - 1) as nat, 1, alpha),
        scalar_powers((2 * size - 1) as nat, 1, beta),
        a,
        b,
        ka,
        kb,
        kt,
        r,
    )->Ok_0;
    let com = (dot(ka, a), dot(kb, b), fmul(kt, dot(a, b)));
    let v_srs = (1nat, 1nat, beta % modulus(), alpha % modulus());
    lemma_tipa_complete::<A, B, C>(size, alpha, beta, a, b, kt, r);
    assert(r != 0) by {
        assert(0 * finv(r) == 0);
    }
    assert(other != 0) by {
        assert(0 * finv(other) == 0);
    }
    let folded = replay::<A, B, C>(com, proof.rounds, 0)->0;
    let z = challenge(kzg_payload(first_challenge(folded.1), proof.final_ck), false)->0;
    let t = inverse_values(folded.1.reverse());
    let honest = product_form(t, fmul(fmul(z, z), finv(r)));
    let wrong = product_form(t, fmul(fmul(z, z), finv(other)));
    assert(g2_opening_holds(v_srs, proof.final_ck.0, proof.final_ck_proof.0, honest, z));
    assert(!g2_opening_holds(v_srs, proof.final_ck.0, proof.final_ck_proof.0, wrong, z)) by {
        lemma_product_form_reduced(t, fmul(fmul(z, z), finv(r)));
        lemma_product_form_reduced(t, fmul(fmul(z, z), finv(other)));
        lemma_fmul_one(honest);
        lemma_fmul_one(wrong);
        lemma_small_mod(honest, modulus());
        lemma_small_mod(wrong, modulus());
        lemma_fsub_reduce(proof.final_ck.0, honest);
        lemma_fsub_reduce(proof.final_ck.0, wrong);
        lemma_fmul_one(fsub(proof.final_ck.0, honest));
        lemma_fmul_one(fsub(proof.final_ck.0, wrong));
        lemma_small_mod(fsub(proof.final_ck.0, honest), modulus());
        lemma_small_mod(fsub(proof.final_ck.0, wrong), modulus());
        if fsub(proof.final_ck.0, wrong) == fsub(proof.final_ck.0, honest) {
            lemma_fsub_injective(proof.final_ck.0, wrong, honest);
        }
    }
}

/// The point of the openings that the verifier works out for an argument;
/// zero where the verifier does not get that far.
pub open spec fn opening_point<A: Element, B: Element, C: Element>(
    com: (nat, nat, nat),
    proof: crate::tipa::TIPAProofValues,
) -> nat {
    match replay::<A, B, C>(com, proof.rounds, 0) {
        None => 0,
        Some(folded) => match challenge(
            kzg_payload(first_challenge(folded.1), proof.final_ck),
            false,
        ) {
            None => 0,
            Some(z) => z,
        },
    }
}

/// An accepted argument whose two openings are changed is refused, unless
/// each change is told by neither check: the change of the first times
/// `beta - z` and the change of the second times `alpha - z` are both zero,
/// where `z` is the point of the openings and `alpha`, `beta` are the
/// scalars of the reference string.
pub proof fn lemma_changed_opening_refused<A: Element, B: Element, C: Element>(
    v_srs: (nat, nat, nat, nat),
    kt: nat,
    com: (nat, nat, nat),
    proof: crate::tipa::TIPAProofValues,
    r: nat,
    openings: (nat, nat),
)
    requires
        tipa_verify_spec::<A, B, C>(v_srs, kt, com, proof, r) == Ok::<
            bool,
            InnerProductArgumentError,
        >(true),
        fmul(
            fsub(v_srs.2, fmul(opening_point::<A, B, C>(com, proof), v_srs.0)),
            fsub(openings.0, proof.final_ck_proof.0),
        ) != 0 || fmul(
            fsub(v_srs.3, fmul(opening_point::<A, B, C>(com, proof), v_srs.1)),
            fsub(openings.1, proof.final_ck_proof.1),
        ) != 0,
    ensures
        tipa_verify_spec::<A, B, C>(
            v_srs,
            kt,
            com,
            crate::tipa::TIPAProofValues {
                rounds: proof.rounds,
                base: proof.base,
                final_ck: proof.final_ck,
                final_ck_proof: openings,
            },
            r,
        ) == Ok::<bool, InnerProductArgumentError>(false),
{
    let z = opening_point::<A, B, C>(com, proof);
    let left = fsub(v_srs.2, fmul(z, v_srs.0));
    let right = fsub(v_srs.3, fmul(z, v_srs.1));
    if fmul(left, openings.0) == fmul(left, proof.final_ck_proof.0) {
        crate::algebra::lemma_fmul_difference(left, openings.0, proof.final_ck_proof.0);
    }
    lemma_fmul_commutative(openings.1, right);
    lemma_fmul_commutative(proof.final_ck_proof.1, right);
    if fmul(right, openings.1) == fmul(right, proof.final_ck_proof.1) {
        crate::algebra::lemma_fmul_difference(right, openings.1, proof.final_ck_proof.1);
    }
}

/// An accepted argument whose two messages are changed is refused, unless
/// the commitments tell neither change: the change of each message times
/// the key that the argument holds for it is zero.
pub proof fn lemma_changed_base_refused<A: Element, B: Element, C: Element>(
    v_srs: (nat, nat, nat, nat),
    kt: nat,
    com: (nat, nat, nat),
    proof: crate::tipa::TIPAProofValues,
    r: nat,
    messages: (nat, nat),
)
    requires
        tipa_verify_spec::<A, B, C>(v_srs, kt, com, proof, r) == Ok::<
            bool,
            InnerProductArgumentError,
        >(true),
        fmul(proof.final_ck.0, fsub(messages.0, proof.base.0)) != 0 || fmul(
            proof.final_ck.1,
            fsub(messages.1, proof.base.1),
        ) != 0,
    ensures
        tipa_verify_spec::<A, B, C>(
            v_srs,
            kt,
            com,
            crate::tipa::TIPAProofValues {
                rounds: proof.rounds,
                base: messages,
                final_ck: proof.final_ck,
                final_ck_proof: proof.final_ck_proof,
            },
            r,
        ) == Ok::<bool, InnerProductArgumentError>(false),
{
    if fmul(proof.final_ck.0, messages.0) == fmul(proof.final_ck.0, proof.base.0) {
        crate::algebra::lemma_fmul_difference(proof.final_ck.0, messages.0, proof.base.0);
    }
    if fmul(proof.final_ck.1, messages.1) == fmul(proof.final_ck.1, proof.base.1) {
        crate::algebra::lemma_fmul_difference(proof.final_ck.1, messages.1, proof.base.1);
    }
}

} // verus!
