//! Polynomials over the scalar field, as vectors of coefficients from the
//! constant term upwards.

use crate::element::{values, Element};
use crate::algebra::dot;
use crate::field::{
    fadd, fmul, fsub, lemma_fadd_associative, lemma_fadd_commutative, lemma_fadd_reduce,
    lemma_fadd_zero, lemma_fmul_associative, lemma_fmul_commutative, lemma_fmul_distributive,
    lemma_fmul_one, lemma_fmul_reduce, lemma_fmul_zero, lemma_fsub_fadd, lemma_fsub_fadd_exchange,
    lemma_fsub_negation, modulus, Scalar,
};
use vstd::arithmetic::div_mod::lemma_small_mod;
use ark_bls12_381::Fr;
use ark_ff::{BigInt, PrimeField};
use ark_poly::univariate::{DenseOrSparsePolynomial, DensePolynomial};
use ark_poly::DenseUVPolynomial;
use vstd::prelude::*;

verus! {

/// The power `x^n`, modulo the field order.
pub open spec fn fpow(x: nat, n: nat) -> nat
    decreases n,
{
    if n == 0 {
        1
    } else {
        fmul(x, fpow(x, (n - 1) as nat))
    }
}

/// The value at `x` of the polynomial with the given coefficients.
pub open spec fn poly_eval(coeffs: Seq<nat>, x: nat) -> nat
    decreases coeffs.len(),
{
    if coeffs.len() == 0 {
        0
    } else {
        fadd(coeffs[0], fmul(x, poly_eval(coeffs.drop_first(), x)))
    }
}

/// The value of a polynomial at a point, by Horner's rule.
pub fn evaluate(coeffs: &[Scalar], x: &Scalar) -> (r: Scalar)
    ensures
        r.value() == poly_eval(values(coeffs@), x.value()),
{
    let mut acc = Scalar::zero();
    let mut i: usize = coeffs.len();
    proof {
        assert(values(coeffs@).skip(i as int) =~= Seq::<nat>::empty());
    }
    while i > 0
        invariant
            i <= coeffs@.len(),
            acc.value() == poly_eval(values(coeffs@).skip(i as int), x.value()),
        decreases i,
    {
        i -= 1;
        proof {
            let rest = values(coeffs@).skip(i as int);
            assert(rest.drop_first() =~= values(coeffs@).skip(i + 1));
            assert(rest[0] == coeffs@[i as int].value());
        }
        acc = coeffs[i].add(&x.mul(&acc));
    }
    proof {
        assert(values(coeffs@).skip(0) =~= values(coeffs@));
    }
    acc
}

/// A sequence cut or filled up with zeros to `n` elements.
pub open spec fn resized(q: Seq<nat>, n: nat) -> Seq<nat> {
    Seq::new(n, |i: int| if i < q.len() { q[i] } else { 0nat })
}

/// The coefficients of the quotient of a polynomial by `X - z`: coefficient
/// `i` is the value at `z` of the polynomial whose coefficients are those
/// after coefficient `i`. The remainder is the value of the polynomial at
/// `z`.
pub open spec fn linear_quotient(coeffs: Seq<nat>, z: nat) -> Seq<nat> {
    Seq::new(
        if coeffs.len() == 0 {
            0nat
        } else {
            (coeffs.len() - 1) as nat
        },
        |i: int| poly_eval(coeffs.skip(i + 1), z),
    )
}

/// `ark_poly::univariate::DenseOrSparsePolynomial::divide_with_q_and_r` on
/// dense polynomials over `ark_bls12_381::Fr`, for a divisor `X + d`: the
/// quotient of the division with remainder, which is the quotient by
/// `X - z` for `z = -d`. The outside polynomial has no trailing zero
/// coefficients, so the coefficients agree where both have them and are
/// zero where one of them ends.
#[verifier::external_body]
fn divide_with_q_and_r(num: &[Scalar], den: &[Scalar]) -> (r: Vec<Scalar>)
    requires
        den@.len() == 2,
        den@[1].value() == 1,
    ensures
        r@.len() <= num@.len(),
        resized(values(r@), num@.len() as nat) == resized(
            linear_quotient(values(num@), fsub(0, den@[0].value())),
            num@.len() as nat,
        ),
{
    let fr = |s: &Scalar| Fr::from_bigint(BigInt::new(s.limbs())).unwrap();
    let n = DensePolynomial::from_coefficients_vec(num.iter().map(fr).collect());
    let d = DensePolynomial::from_coefficients_vec(den.iter().map(fr).collect());
    let (q, _) = DenseOrSparsePolynomial::from(&n).divide_with_q_and_r(&(&d).into()).unwrap();
    q.coeffs.iter().map(|x| Scalar::from_limbs(x.into_bigint().0).unwrap()).collect()
}

/// The quotient of a polynomial by `X - point`, cut or filled up with zeros
/// to `len` coefficients.
pub fn divide_by_linear_factor(num: &[Scalar], point: &Scalar, len: usize) -> (r: Vec<Scalar>)
    ensures
        values(r@) == resized(linear_quotient(values(num@), point.value()), len as nat),
{
    let mut divisor: Vec<Scalar> = Vec::new();
    divisor.push(point.neg());
    divisor.push(Scalar::one());
    proof {
        point.lemma_value_reduced();
        lemma_fsub_negation(point.value());
    }
    let quotient = divide_with_q_and_r(num, divisor.as_slice());
    let ghost exact = linear_quotient(values(num@), point.value());
    let mut out: Vec<Scalar> = Vec::new();
    let mut i: usize = 0;
    while i < len
        invariant
            i <= len,
            out@.len() == i,
            quotient@.len() <= num@.len(),
            exact == linear_quotient(values(num@), point.value()),
            resized(values(quotient@), num@.len() as nat) == resized(exact, num@.len() as nat),
            forall|j: int| 0 <= j < i ==> (#[trigger] out@[j]).value() == resized(exact, len as nat)[j],
        decreases len - i,
    {
        let next = if i < quotient.len() {
            quotient[i].duplicate()
        } else {
            Scalar::zero()
        };
        proof {
            assert(exact.len() <= values(num@).len());
            if i < num@.len() {
                assert(resized(values(quotient@), num@.len() as nat)[i as int] == resized(
                    exact,
                    num@.len() as nat,
                )[i as int]);
            }
            assert(next.value() == resized(exact, len as nat)[i as int]);
        }
        out.push(next);
        i += 1;
    }
    assert(values(out@) =~= resized(exact, len as nat));
    out
}

/// `n` zeros.
pub open spec fn zeros(n: nat) -> Seq<nat> {
    Seq::new(n, |i: int| 0nat)
}

/// Two sequences in turns, the first one element longer than the second.
pub open spec fn interleaved(a: Seq<nat>, b: Seq<nat>) -> Seq<nat> {
    Seq::new(a.len() + b.len(), |i: int| if i % 2 == 0 { a[i / 2] } else { b[i / 2] })
}

/// Two vectors of scalars in turns, the first of the first vector first.
/// The first vector is one longer than the second.
fn interleave_scalars(a: &[Scalar], b: &[Scalar]) -> (r: Vec<Scalar>)
    requires
        a@.len() == b@.len() + 1,
    ensures
        values(r@) == interleaved(values(a@), values(b@)),
{
    let mut out: Vec<Scalar> = Vec::new();
    out.push(a[0].duplicate());
    let mut i: usize = 0;
    while i < b.len()
        invariant
            i <= b@.len(),
            a@.len() == b@.len() + 1,
            out@.len() == 2 * i + 1,
            forall|j: int|
                0 <= j < out@.len() ==> (#[trigger] out@[j]).value() == (if j % 2 == 0 {
                    a@[j / 2].value()
                } else {
                    b@[j / 2].value()
                }),
        decreases b@.len() - i,
    {
        out.push(b[i].duplicate());
        out.push(a[i + 1].duplicate());
        i += 1;
    }
    assert(values(out@) =~= interleaved(values(a@), values(b@)));
    out
}

/// The vector with a zero put between each two neighbours.
pub fn interleave_with_zeros(a: &[Scalar]) -> (r: Vec<Scalar>)
    requires
        a@.len() > 0,
    ensures
        values(r@) == interleaved(values(a@), zeros((a@.len() - 1) as nat)),
{
    let mut padding: Vec<Scalar> = Vec::new();
    let mut i: usize = 1;
    while i < a.len()
        invariant
            1 <= i <= a@.len(),
            padding@.len() == i - 1,
            forall|j: int| 0 <= j < padding@.len() ==> (#[trigger] padding@[j]).value() == 0,
        decreases a@.len() - i,
    {
        padding.push(Scalar::zero());
        i += 1;
    }
    assert(values(padding@) =~= zeros((a@.len() - 1) as nat));
    interleave_scalars(a, padding.as_slice())
}

/// The value of a polynomial is reduced.
pub proof fn lemma_poly_eval_reduced(coeffs: Seq<nat>, x: nat)
    ensures
        poly_eval(coeffs, x) < modulus(),
    decreases coeffs.len(),
{
    if coeffs.len() > 0 {
        lemma_fadd_reduce(coeffs[0], fmul(x, poly_eval(coeffs.drop_first(), x)));
    }
}

/// A power is reduced.
pub proof fn lemma_fpow_reduced(x: nat, n: nat)
    ensures
        fpow(x, n) < modulus(),
    decreases n,
{
    if n > 0 {
        lemma_fmul_reduce(x, fpow(x, (n - 1) as nat));
    }
}

/// The power of a sum of exponents is the product of the powers.
pub proof fn lemma_fpow_add(x: nat, m: nat, n: nat)
    ensures
        fpow(x, m + n) == fmul(fpow(x, m), fpow(x, n)),
    decreases m,
{
    if m == 0 {
        lemma_fpow_reduced(x, n);
        lemma_fmul_one(fpow(x, n));
        lemma_small_mod(fpow(x, n), modulus());
    } else {
        lemma_fpow_add(x, (m - 1) as nat, n);
        lemma_fmul_associative(x, fpow(x, (m - 1) as nat), fpow(x, n));
    }
}

/// The value of a polynomial whose coefficients are those of `a` followed by
/// those of `b`.
pub proof fn lemma_poly_eval_concat(a: Seq<nat>, b: Seq<nat>, x: nat)
    ensures
        poly_eval(a + b, x) == fadd(poly_eval(a, x), fmul(fpow(x, a.len()), poly_eval(b, x))),
    decreases a.len(),
{
    if a.len() == 0 {
        assert(a + b =~= b);
        lemma_poly_eval_reduced(b, x);
        lemma_fmul_one(poly_eval(b, x));
        lemma_fadd_zero(poly_eval(b, x));
        lemma_small_mod(poly_eval(b, x), modulus());
    } else {
        assert((a + b).drop_first() =~= a.drop_first() + b);
        lemma_poly_eval_concat(a.drop_first(), b, x);
        let rest = poly_eval(a.drop_first(), x);
        let tail = fmul(fpow(x, (a.len() - 1) as nat), poly_eval(b, x));
        // x * (rest + tail) = x * rest + x^len * b(x)
        lemma_fmul_distributive(x, rest, tail);
        lemma_fmul_associative(x, fpow(x, (a.len() - 1) as nat), poly_eval(b, x));
        lemma_fadd_associative(a[0], fmul(x, rest), fmul(x, tail));
    }
}

/// The value of a polynomial with every coefficient multiplied by `m`.
pub proof fn lemma_poly_eval_scaled(coeffs: Seq<nat>, scaled: Seq<nat>, m: nat, x: nat)
    requires
        scaled.len() == coeffs.len(),
        forall|i: int| 0 <= i < coeffs.len() ==> #[trigger] scaled[i] == fmul(coeffs[i], m),
    ensures
        poly_eval(scaled, x) == fmul(poly_eval(coeffs, x), m),
    decreases coeffs.len(),
{
    if coeffs.len() == 0 {
        lemma_fmul_zero(m);
    } else {
        assert forall|i: int| 0 <= i < coeffs.drop_first().len() implies #[trigger] scaled.drop_first()[i]
            == fmul(coeffs.drop_first()[i], m) by {
            assert(scaled[i + 1] == fmul(coeffs[i + 1], m));
        }
        lemma_poly_eval_scaled(coeffs.drop_first(), scaled.drop_first(), m, x);
        let rest = poly_eval(coeffs.drop_first(), x);
        lemma_fmul_distributive(m, coeffs[0], fmul(x, rest));
        lemma_fmul_associative(x, rest, m);
        assert(scaled[0] == fmul(coeffs[0], m));
    }
}

/// The value at `x` of a polynomial with zeros between its coefficients is
/// the value of the polynomial at the square of `x`.
pub proof fn lemma_poly_eval_interleaved(coeffs: Seq<nat>, x: nat)
    requires
        coeffs.len() > 0,
    ensures
        poly_eval(interleaved(coeffs, zeros((coeffs.len() - 1) as nat)), x) == poly_eval(
            coeffs,
            fmul(x, x),
        ),
    decreases coeffs.len(),
{
    let whole = interleaved(coeffs, zeros((coeffs.len() - 1) as nat));
    if coeffs.len() == 1 {
        assert(whole.drop_first() =~= Seq::<nat>::empty());
        assert(coeffs.drop_first() =~= Seq::<nat>::empty());
        assert(whole[0] == coeffs[0]);
        lemma_fmul_zero(x);
        lemma_fmul_zero(fmul(x, x));
        assert(poly_eval(whole, x) == fadd(
            whole[0],
            fmul(x, poly_eval(whole.drop_first(), x)),
        ));
        assert(poly_eval(coeffs, fmul(x, x)) == fadd(
            coeffs[0],
            fmul(fmul(x, x), poly_eval(coeffs.drop_first(), fmul(x, x))),
        ));
    } else {
        let rest = coeffs.drop_first();
        let inner = interleaved(rest, zeros((rest.len() - 1) as nat));
        lemma_poly_eval_interleaved(rest, x);
        assert(whole[0] == coeffs[0]);
        assert(whole.drop_first()[0] == 0);
        assert(whole.drop_first().drop_first() =~= inner) by {
            assert forall|i: int| 0 <= i < inner.len() implies whole.drop_first().drop_first()[i]
                == inner[i] by {
                assert(whole.drop_first().drop_first()[i] == whole[i + 2]);
                assert((i + 2) % 2 == i % 2);
                assert((i + 2) / 2 == i / 2 + 1);
            }
        }
        let v = poly_eval(inner, x);
        lemma_poly_eval_reduced(inner, x);
        assert(poly_eval(whole, x) == fadd(
            whole[0],
            fmul(x, poly_eval(whole.drop_first(), x)),
        ));
        assert(poly_eval(whole.drop_first(), x) == fadd(
            whole.drop_first()[0],
            fmul(x, poly_eval(whole.drop_first().drop_first(), x)),
        ));
        assert(poly_eval(coeffs, fmul(x, x)) == fadd(
            coeffs[0],
            fmul(fmul(x, x), poly_eval(rest, fmul(x, x))),
        ));
        // whole(x) = c0 + x * (0 + x * inner(x))
        lemma_fadd_zero(fmul(x, v));
        lemma_fmul_reduce(x, v);
        lemma_small_mod(fmul(x, v), modulus());
        lemma_fmul_associative(x, x, v);
    }
}

/// Division by `X - z`: a polynomial is its quotient times `X - z`, plus its
/// value at `z`.
pub proof fn lemma_linear_quotient(coeffs: Seq<nat>, z: nat, x: nat)
    ensures
        poly_eval(coeffs, x) % modulus() == fadd(
            fmul(poly_eval(linear_quotient(coeffs, z), x), fsub(x, z)),
            poly_eval(coeffs, z),
        ),
    decreases coeffs.len(),
{
    let q = linear_quotient(coeffs, z);
    if coeffs.len() == 0 {
        lemma_fmul_zero(fsub(x, z));
    } else if coeffs.len() == 1 {
        assert(coeffs.drop_first() =~= Seq::<nat>::empty());
        assert(poly_eval(coeffs.drop_first(), x) == 0);
        assert(poly_eval(coeffs.drop_first(), z) == 0);
        assert(poly_eval(coeffs, x) == fadd(coeffs[0], fmul(x, 0)));
        assert(poly_eval(coeffs, z) == fadd(coeffs[0], fmul(z, 0)));
        assert(poly_eval(q, x) == 0);
        lemma_fmul_zero(fsub(x, z));
        lemma_fmul_zero(x);
        lemma_fmul_zero(z);
        lemma_fadd_zero(coeffs[0]);
        lemma_fadd_reduce(coeffs[0], 0);
        lemma_fadd_reduce(0, fadd(coeffs[0], 0));
        lemma_fadd_commutative(coeffs[0], 0);
        lemma_small_mod(fadd(coeffs[0], 0), modulus());
    } else {
        let rest = coeffs.drop_first();
        let qr = linear_quotient(rest, z);
        lemma_linear_quotient(rest, z, x);
        assert(q.drop_first() =~= qr) by {
            assert forall|i: int| 0 <= i < qr.len() implies q.drop_first()[i] == qr[i] by {
                assert(coeffs.skip(i + 2) =~= rest.skip(i + 1));
            }
        }
        assert(coeffs.skip(1) =~= rest);
        assert(q[0] == poly_eval(rest, z));
        let rz = poly_eval(rest, z);
        let rx = poly_eval(rest, x);
        let qx = poly_eval(qr, x);
        let d = fsub(x, z);
        lemma_poly_eval_reduced(rest, x);
        lemma_poly_eval_reduced(rest, z);
        lemma_small_mod(rx, modulus());
        lemma_linear_step(coeffs[0], rx, rz, qx, x, z);
        assert(poly_eval(coeffs, x) == fadd(coeffs[0], fmul(x, rx)));
        assert(poly_eval(coeffs, z) == fadd(coeffs[0], fmul(z, rz)));
        assert(poly_eval(q, x) == fadd(q[0], fmul(x, poly_eval(q.drop_first(), x))));
    }
}

/// The step of the division by `X - z`: with `rx = qx * (x - z) + rz`,
/// `c + x * rx = (rz + x * qx) * (x - z) + (c + z * rz)`.
pub proof fn lemma_linear_step(c: nat, rx: nat, rz: nat, qx: nat, x: nat, z: nat)
    requires
        rx == fadd(fmul(qx, fsub(x, z)), rz),
    ensures
        fadd(c, fmul(x, rx)) % modulus() == fadd(
            fmul(fadd(rz, fmul(x, qx)), fsub(x, z)),
            fadd(c, fmul(z, rz)),
        ),
{
    let d = fsub(x, z);
    lemma_fsub_fadd(x, z);
    // x = d + z (mod m)
    lemma_fadd_reduce(c, fmul(x, rx));
    lemma_small_mod(fadd(c, fmul(x, rx)), modulus());
    // left: c + x * (qx * d + rz) = c + x * qx * d + x * rz
    lemma_fmul_distributive(x, fmul(qx, d), rz);
    lemma_fmul_associative(x, qx, d);
    // x * rz = (d + z) * rz = d * rz + z * rz
    lemma_fmul_reduce(x, rz);
    lemma_fmul_distributive(rz, d, z);
    lemma_fmul_commutative(rz, d);
    lemma_fmul_commutative(rz, z);
    lemma_fmul_commutative(fadd(d, z), rz);
    // right: (rz + x * qx) * d + (c + z * rz) = rz * d + x * qx * d + c + z * rz
    lemma_fmul_distributive(d, rz, fmul(x, qx));
    lemma_fmul_commutative(d, rz);
    let a = fmul(fmul(x, qx), d);
    let b = fmul(rz, d);
    let e = fmul(z, rz);
    // c + (a + (b + e)) == (b + a) + (c + e)
    lemma_fadd_associative(b, a, fadd(c, e));
    lemma_fadd_commutative(a, fadd(c, e));
    lemma_fadd_associative(c, e, a);
    lemma_fadd_commutative(e, a);
    lemma_fadd_associative(b, c, fadd(a, e));
    lemma_fadd_commutative(b, c);
    lemma_fadd_associative(c, b, fadd(a, e));
    lemma_fadd_associative(b, a, e);
    lemma_fadd_commutative(b, a);
    lemma_fadd_associative(a, b, e);
}

/// The sequence `g, g * x, g * x^2, ...` of `num` elements.
pub open spec fn scalar_powers(num: nat, g: nat, x: nat) -> Seq<nat> {
    Seq::new(num, |i: int| fmul(g, fpow(x, i as nat)))
}

/// The value of a polynomial with one more coefficient at the top.
pub proof fn lemma_poly_eval_push(coeffs: Seq<nat>, c: nat, x: nat)
    ensures
        poly_eval(coeffs.push(c), x) == fadd(poly_eval(coeffs, x), fmul(fpow(x, coeffs.len()), c)),
{
    assert(coeffs.push(c) =~= coeffs + seq![c]);
    lemma_poly_eval_concat(coeffs, seq![c], x);
    assert(seq![c].drop_first() =~= Seq::<nat>::empty());
    assert(poly_eval(seq![c].drop_first(), x) == 0);
    assert(poly_eval(seq![c], x) == fadd(c, fmul(x, 0)));
    lemma_fmul_zero(x);
    lemma_fadd_zero(c);
    lemma_fmul_reduce(fpow(x, coeffs.len()), c);
}

/// The commitment to a polynomial under the multiples of `g` by the powers
/// of `x` is the multiple of `g` by the value of the polynomial at `x`.
pub proof fn lemma_dot_powers(m: nat, g: nat, x: nat, q: Seq<nat>)
    requires
        q.len() <= m,
    ensures
        dot(scalar_powers(m, g, x), resized(q, m)) == fmul(g, poly_eval(q, x)),
    decreases m,
{
    let powers = scalar_powers(m, g, x);
    let filled = resized(q, m);
    if m == 0 {
        assert(q =~= Seq::<nat>::empty());
        lemma_fmul_zero(g);
    } else {
        let k = (m - 1) as nat;
        assert(powers.drop_last() =~= scalar_powers(k, g, x));
        if q.len() < m {
            assert(filled.drop_last() =~= resized(q, k));
            lemma_dot_powers(k, g, x, q);
            lemma_fmul_zero(powers.last());
            lemma_fmul_reduce(g, poly_eval(q, x));
            lemma_fadd_zero(fmul(g, poly_eval(q, x)));
            lemma_small_mod(fmul(g, poly_eval(q, x)), modulus());
        } else {
            let front = q.drop_last();
            assert(filled.drop_last() =~= resized(front, k));
            lemma_dot_powers(k, g, x, front);
            assert(q =~= front.push(q.last()));
            lemma_poly_eval_push(front, q.last(), x);
            lemma_fmul_distributive(g, poly_eval(front, x), fmul(fpow(x, k), q.last()));
            lemma_fmul_associative(g, fpow(x, k), q.last());
        }
    }
}

/// The value of a polynomial whose constant term is lowered by `e`.
pub proof fn lemma_poly_eval_lowered(coeffs: Seq<nat>, e: nat, x: nat)
    requires
        coeffs.len() > 0,
    ensures
        poly_eval(coeffs.update(0, fsub(coeffs[0], e)), x) == fsub(poly_eval(coeffs, x), e),
{
    let lowered = coeffs.update(0, fsub(coeffs[0], e));
    assert(lowered.drop_first() =~= coeffs.drop_first());
    lemma_fsub_fadd_exchange(coeffs[0], e, fmul(x, poly_eval(coeffs.drop_first(), x)));
}

/// The value of a sum of polynomials is the sum of the values.
pub proof fn lemma_poly_eval_add(u: Seq<nat>, v: Seq<nat>, w: Seq<nat>, x: nat)
    requires
        v.len() == u.len(),
        w.len() == u.len(),
        forall|j: int| 0 <= j < u.len() ==> #[trigger] w[j] == fadd(u[j], v[j]),
    ensures
        poly_eval(w, x) == fadd(poly_eval(u, x), poly_eval(v, x)),
    decreases u.len(),
{
    if u.len() > 0 {
        assert forall|j: int| 0 <= j < u.len() - 1 implies #[trigger] w.drop_first()[j] == fadd(
            u.drop_first()[j],
            v.drop_first()[j],
        ) by {
            assert(w[j + 1] == fadd(u[j + 1], v[j + 1]));
        }
        lemma_poly_eval_add(u.drop_first(), v.drop_first(), w.drop_first(), x);
        assert(w[0] == fadd(u[0], v[0]));
        let a = poly_eval(u.drop_first(), x);
        let b = poly_eval(v.drop_first(), x);
        lemma_fmul_distributive(x, a, b);
        // (u0 + v0) + (x a + x b) == (u0 + x a) + (v0 + x b)
        let p = fmul(x, a);
        let q = fmul(x, b);
        lemma_fadd_associative(u[0], v[0], fadd(p, q));
        lemma_fadd_associative(v[0], p, q);
        lemma_fadd_commutative(v[0], p);
        lemma_fadd_associative(p, v[0], q);
        lemma_fadd_associative(u[0], p, fadd(v[0], q));
    }
}

/// The value of the polynomial zero.
pub proof fn lemma_poly_eval_zeros(n: nat, x: nat)
    ensures
        poly_eval(zeros(n), x) == 0,
    decreases n,
{
    if n > 0 {
        assert(zeros(n).drop_first() =~= zeros((n - 1) as nat));
        lemma_poly_eval_zeros((n - 1) as nat, x);
        lemma_fmul_zero(x);
    }
}

/// Zeros above the coefficients do not change the value of a polynomial.
pub proof fn lemma_poly_eval_resized(coeffs: Seq<nat>, n: nat, x: nat)
    requires
        coeffs.len() <= n,
    ensures
        poly_eval(resized(coeffs, n), x) == poly_eval(coeffs, x),
    decreases n,
{
    if coeffs.len() == 0 {
        assert(resized(coeffs, n) =~= zeros(n));
        lemma_poly_eval_zeros(n, x);
    } else {
        assert(resized(coeffs, n).drop_first() =~= resized(coeffs.drop_first(), (n - 1) as nat));
        lemma_poly_eval_resized(coeffs.drop_first(), (n - 1) as nat, x);
        assert(resized(coeffs, n)[0] == coeffs[0]);
    }
}

/// The number of coefficients of a polynomial up to the last that is not
/// zero: one more than its degree, and zero for the polynomial zero.
pub open spec fn significant_len(coeffs: Seq<nat>) -> nat
    decreases coeffs.len(),
{
    if coeffs.len() == 0 {
        0
    } else if coeffs.last() != 0 {
        coeffs.len()
    } else {
        significant_len(coeffs.drop_last())
    }
}

/// The number of coefficients of a polynomial up to the last that is not
/// zero.
pub fn significant_length(coeffs: &[Scalar]) -> (r: usize)
    ensures
        r == significant_len(values(coeffs@)),
{
    let mut n: usize = coeffs.len();
    proof {
        assert(values(coeffs@).take(n as int) =~= values(coeffs@));
    }
    while n > 0 && coeffs[n - 1].is_zero()
        invariant
            n <= coeffs@.len(),
            significant_len(values(coeffs@)) == significant_len(values(coeffs@).take(n as int)),
        decreases n,
    {
        proof {
            let front = values(coeffs@).take(n as int);
            assert(front.last() == coeffs@[n - 1].value());
            assert(front.drop_last() =~= values(coeffs@).take(n - 1));
        }
        n -= 1;
    }
    proof {
        let front = values(coeffs@).take(n as int);
        if n > 0 {
            assert(front.last() == coeffs@[n - 1].value());
        }
    }
    n
}

/// The number of powers of a reference string that a polynomial asks for:
/// one more than its degree, where the zero polynomial has the degree zero.
pub open spec fn powers_needed(coeffs: Seq<nat>) -> nat {
    if significant_len(coeffs) == 0 {
        1
    } else {
        significant_len(coeffs)
    }
}

/// There are no more significant coefficients than coefficients.
pub proof fn lemma_significant_len_bound(coeffs: Seq<nat>)
    ensures
        significant_len(coeffs) <= coeffs.len(),
    decreases coeffs.len(),
{
    if coeffs.len() > 0 && coeffs.last() == 0 {
        lemma_significant_len_bound(coeffs.drop_last());
    }
}

/// Cutting a polynomial above its last coefficient that is not zero, or
/// filling it up with zeros, does not change its value.
pub proof fn lemma_poly_eval_cut(coeffs: Seq<nat>, n: nat, x: nat)
    requires
        significant_len(coeffs) <= n,
    ensures
        poly_eval(resized(coeffs, n), x) == poly_eval(coeffs, x),
    decreases coeffs.len(),
{
    if coeffs.len() <= n {
        lemma_poly_eval_resized(coeffs, n, x);
    } else {
        let front = coeffs.drop_last();
        assert(coeffs.last() == 0);
        assert(coeffs =~= front.push(0));
        lemma_poly_eval_push(front, 0, x);
        lemma_fmul_zero(fpow(x, front.len()));
        lemma_poly_eval_reduced(front, x);
        lemma_fadd_zero(poly_eval(front, x));
        lemma_small_mod(poly_eval(front, x), modulus());
        assert(resized(coeffs, n) =~= resized(front, n));
        lemma_poly_eval_cut(front, n, x);
    }
}

} // verus!
