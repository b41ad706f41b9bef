//! Inner products and halving folds over the integers modulo the field
//! order, and the identity between them on which the halving argument rests.

use crate::field::{
    fadd, fmul, lemma_fadd_associative, lemma_fadd_commutative, lemma_fadd_reduce,
    lemma_fmul_associative, lemma_fmul_commutative, lemma_fmul_distributive, lemma_fmul_reduce,
    lemma_fmul_zero, modulus,
};
use vstd::arithmetic::div_mod::*;
use vstd::arithmetic::mul::*;
use vstd::prelude::*;

verus! {

/// The inner product of two sequences of one length, modulo the field order.
pub open spec fn dot(a: Seq<nat>, b: Seq<nat>) -> nat
    decreases a.len(),
{
    if a.len() == 0 {
        0
    } else {
        fadd(dot(a.drop_last(), b.drop_last()), fmul(a.last(), b.last()))
    }
}

/// The inner product over the integers, without reduction.
pub open spec fn dot_raw(a: Seq<nat>, b: Seq<nat>) -> nat
    decreases a.len(),
{
    if a.len() == 0 {
        0
    } else {
        dot_raw(a.drop_last(), b.drop_last()) + a.last() * b.last()
    }
}

/// The lower half of a sequence of even length.
pub open spec fn lower(s: Seq<nat>) -> Seq<nat> {
    s.subrange(0, s.len() as int / 2)
}

/// The upper half of a sequence of even length.
pub open spec fn upper(s: Seq<nat>) -> Seq<nat> {
    s.subrange(s.len() as int / 2, s.len() as int)
}

/// The fold `c * hi + lo`, element by element.
pub open spec fn fold(hi: Seq<nat>, lo: Seq<nat>, c: nat) -> Seq<nat> {
    Seq::new(lo.len(), |i: int| fadd(fmul(c, hi[i]), lo[i]))
}

/// The fold over the integers, without reduction.
pub open spec fn fold_raw(hi: Seq<nat>, lo: Seq<nat>, c: nat) -> Seq<nat> {
    Seq::new(lo.len(), |i: int| c * hi[i] + lo[i])
}

/// The halving fold of a whole sequence: `c` times its upper half plus its
/// lower half.
pub open spec fn fold_halves(s: Seq<nat>, c: nat) -> Seq<nat> {
    fold(upper(s), lower(s), c)
}

/// Two sequences agree element by element modulo the field order.
pub open spec fn congruent(a: Seq<nat>, b: Seq<nat>) -> bool {
    a.len() == b.len() && forall|i: int| 0 <= i < a.len() ==> #[trigger] a[i] % modulus() == b[i]
        % modulus()
}

pub proof fn lemma_dot_is_raw(a: Seq<nat>, b: Seq<nat>)
    requires
        a.len() == b.len(),
    ensures
        dot(a, b) == dot_raw(a, b) % modulus(),
    decreases a.len(),
{
    if a.len() > 0 {
        lemma_dot_is_raw(a.drop_last(), b.drop_last());
        lemma_fadd_reduce(dot_raw(a.drop_last(), b.drop_last()), a.last() * b.last());
    }
}

pub proof fn lemma_dot_reduced(a: Seq<nat>, b: Seq<nat>)
    ensures
        dot(a, b) < modulus(),
    decreases a.len(),
{
}

/// Inner products over the integers of congruent sequences are congruent.
pub proof fn lemma_dot_raw_congruent(a: Seq<nat>, b: Seq<nat>, x: Seq<nat>, y: Seq<nat>)
    requires
        congruent(a, x),
        congruent(b, y),
        a.len() == b.len(),
    ensures
        dot_raw(a, b) % modulus() == dot_raw(x, y) % modulus(),
    decreases a.len(),
{
    if a.len() > 0 {
        let n = a.len() - 1;
        assert(congruent(a.drop_last(), x.drop_last())) by {
            assert forall|i: int| 0 <= i < n implies #[trigger] a.drop_last()[i] % modulus()
                == x.drop_last()[i] % modulus() by {
                assert(a[i] % modulus() == x[i] % modulus());
            }
        }
        assert(congruent(b.drop_last(), y.drop_last())) by {
            assert forall|i: int| 0 <= i < n implies #[trigger] b.drop_last()[i] % modulus()
                == y.drop_last()[i] % modulus() by {
                assert(b[i] % modulus() == y[i] % modulus());
            }
        }
        lemma_dot_raw_congruent(a.drop_last(), b.drop_last(), x.drop_last(), y.drop_last());
        assert(a[n] % modulus() == x[n] % modulus());
        assert(b[n] % modulus() == y[n] % modulus());
        let m = modulus() as int;
        lemma_mul_mod_noop_general(a.last() as int, b.last() as int, m);
        lemma_mul_mod_noop_general(x.last() as int, y.last() as int, m);
        lemma_add_mod_noop(
            dot_raw(a.drop_last(), b.drop_last()) as int,
            (a.last() * b.last()) as int,
            m,
        );
        lemma_add_mod_noop(
            dot_raw(x.drop_last(), y.drop_last()) as int,
            (x.last() * y.last()) as int,
            m,
        );
    }
}

pub proof fn lemma_dot_raw_commutative(a: Seq<nat>, b: Seq<nat>)
    requires
        a.len() == b.len(),
    ensures
        dot_raw(a, b) == dot_raw(b, a),
    decreases a.len(),
{
    if a.len() > 0 {
        lemma_dot_raw_commutative(a.drop_last(), b.drop_last());
        lemma_mul_is_commutative(a.last() as int, b.last() as int);
    }
}

pub proof fn lemma_dot_commutative(a: Seq<nat>, b: Seq<nat>)
    requires
        a.len() == b.len(),
    ensures
        dot(a, b) == dot(b, a),
{
    lemma_dot_is_raw(a, b);
    lemma_dot_is_raw(b, a);
    lemma_dot_raw_commutative(a, b);
}

/// The inner product of concatenations is the sum of the inner products.
pub proof fn lemma_dot_raw_concat(a: Seq<nat>, b: Seq<nat>, x: Seq<nat>, y: Seq<nat>)
    requires
        a.len() == x.len(),
        b.len() == y.len(),
    ensures
        dot_raw(a + b, x + y) == dot_raw(a, x) + dot_raw(b, y),
    decreases b.len(),
{
    if b.len() == 0 {
        assert(a + b =~= a);
        assert(x + y =~= x);
    } else {
        assert((a + b).drop_last() =~= a + b.drop_last());
        assert((x + y).drop_last() =~= x + y.drop_last());
        lemma_dot_raw_concat(a, b.drop_last(), x, y.drop_last());
    }
}

/// The inner product of two sequences of even length is the sum of the inner
/// products of their lower and of their upper halves.
pub proof fn lemma_dot_halves(a: Seq<nat>, b: Seq<nat>)
    requires
        a.len() == b.len(),
        a.len() % 2 == 0,
    ensures
        dot(a, b) == fadd(dot(lower(a), lower(b)), dot(upper(a), upper(b))),
{
    assert(a =~= lower(a) + upper(a));
    assert(b =~= lower(b) + upper(b));
    lemma_dot_raw_concat(lower(a), upper(a), lower(b), upper(b));
    lemma_dot_is_raw(a, b);
    lemma_dot_is_raw(lower(a), lower(b));
    lemma_dot_is_raw(upper(a), upper(b));
    lemma_add_mod_noop(
        dot_raw(lower(a), lower(b)) as int,
        dot_raw(upper(a), upper(b)) as int,
        modulus() as int,
    );
}

/// The inner product of two folds over the integers, multiplied out.
pub proof fn lemma_dot_raw_fold(
    xh: Seq<nat>,
    xl: Seq<nat>,
    yh: Seq<nat>,
    yl: Seq<nat>,
    d: nat,
    c: nat,
)
    requires
        xh.len() == xl.len(),
        yh.len() == xl.len(),
        yl.len() == xl.len(),
    ensures
        dot_raw(fold_raw(xh, xl, d), fold_raw(yh, yl, c)) == d * c * dot_raw(xh, yh) + d * dot_raw(
            xh,
            yl,
        ) + c * dot_raw(xl, yh) + dot_raw(xl, yl),
    decreases xl.len(),
{
    if xl.len() == 0 {
        assert(d * c * 0 == 0) by (nonlinear_arith);
        assert(d * 0 == 0) by (nonlinear_arith);
        assert(c * 0 == 0) by (nonlinear_arith);
    } else {
        let n = xl.len() - 1;
        assert(fold_raw(xh, xl, d).drop_last() =~= fold_raw(
            xh.drop_last(),
            xl.drop_last(),
            d,
        ));
        assert(fold_raw(yh, yl, c).drop_last() =~= fold_raw(
            yh.drop_last(),
            yl.drop_last(),
            c,
        ));
        lemma_dot_raw_fold(
            xh.drop_last(),
            xl.drop_last(),
            yh.drop_last(),
            yl.drop_last(),
            d,
            c,
        );
        let a = dot_raw(xh.drop_last(), yh.drop_last());
        let b = dot_raw(xh.drop_last(), yl.drop_last());
        let e = dot_raw(xl.drop_last(), yh.drop_last());
        let f = dot_raw(xl.drop_last(), yl.drop_last());
        let p = xh[n];
        let q = xl[n];
        let r = yh[n];
        let s = yl[n];
        assert((d * p + q) * (c * r + s) == d * p * (c * r) + d * p * s + q * (c * r) + q * s)
            by (nonlinear_arith);
        assert(d * p * (c * r) == d * c * (p * r)) by (nonlinear_arith);
        assert(d * c * (a + p * r) == d * c * a + d * c * (p * r)) by (nonlinear_arith);
        assert(d * (b + p * s) == d * b + d * p * s) by (nonlinear_arith);
        assert(c * (e + q * r) == c * e + q * (c * r)) by (nonlinear_arith);
    }
}

/// A fold is congruent to the fold over the integers.
pub proof fn lemma_fold_congruent(hi: Seq<nat>, lo: Seq<nat>, c: nat)
    requires
        hi.len() == lo.len(),
    ensures
        congruent(fold(hi, lo, c), fold_raw(hi, lo, c)),
{
    assert forall|i: int| 0 <= i < lo.len() implies #[trigger] fold(hi, lo, c)[i] % modulus()
        == fold_raw(hi, lo, c)[i] % modulus() by {
        lemma_fadd_reduce(c * hi[i], lo[i]);
        lemma_mod_twice((c * hi[i] + lo[i]) as int, modulus() as int);
    }
}

/// Reduction of the multiplied-out inner product of two folds, where the two
/// fold factors are inverses of each other.
pub proof fn lemma_fold_combination(a: nat, b: nat, e: nat, f: nat, d: nat, c: nat)
    requires
        fmul(c, d) == 1,
    ensures
        (d * c * a + d * b + c * e + f) % modulus() == fadd(
            fadd(fmul(c, e % modulus()), fadd(f % modulus(), a % modulus())),
            fmul(d, b % modulus()),
        ),
{
    let m = modulus() as int;
    lemma_fmul_commutative(c, d);
    // d * c * a is congruent to a
    lemma_mul_mod_noop_general((d * c) as int, a as int, m);
    lemma_mul_basics(a as int);
    lemma_fmul_reduce(c, e);
    lemma_fmul_reduce(d, b);
    lemma_fadd_reduce(f, a);
    lemma_fadd_reduce(f % modulus(), a);
    lemma_fadd_reduce(c * e, f + a);
    lemma_fadd_reduce(fmul(c, e), fadd(f, a));
    lemma_fadd_reduce(c * e + f + a, d * b);
    lemma_fadd_reduce(fadd(fmul(c, e), fadd(f, a)), fmul(d, b));
    lemma_fadd_reduce(fmul(c, e), f + a);
    lemma_fadd_reduce(c * e + (f + a), fmul(d, b));
    lemma_add_mod_noop((d * c * a) as int, (d * b + c * e + f) as int, m);
    lemma_add_mod_noop(a as int, (d * b + c * e + f) as int, m);
}

/// The identity of the halving argument. With inverse factors `c` and `d`,
/// the inner product of the fold of `x` by `d` with the fold of `y` by `c`
/// is the inner product of `x` and `y`, plus `c` times the cross product of
/// the lower half of `x` with the upper half of `y`, plus `d` times the
/// other cross product.
pub proof fn lemma_dot_fold(x: Seq<nat>, y: Seq<nat>, d: nat, c: nat)
    requires
        x.len() == y.len(),
        x.len() % 2 == 0,
        fmul(c, d) == 1,
    ensures
        dot(fold_halves(x, d), fold_halves(y, c)) == fadd(
            fadd(fmul(c, dot(lower(x), upper(y))), dot(x, y)),
            fmul(d, dot(upper(x), lower(y))),
        ),
{
    let xh = upper(x);
    let xl = lower(x);
    let yh = upper(y);
    let yl = lower(y);
    lemma_fold_congruent(xh, xl, d);
    lemma_fold_congruent(yh, yl, c);
    lemma_dot_is_raw(fold(xh, xl, d), fold(yh, yl, c));
    lemma_dot_raw_congruent(
        fold(xh, xl, d),
        fold(yh, yl, c),
        fold_raw(xh, xl, d),
        fold_raw(yh, yl, c),
    );
    lemma_dot_raw_fold(xh, xl, yh, yl, d, c);
    lemma_fold_combination(
        dot_raw(xh, yh),
        dot_raw(xh, yl),
        dot_raw(xl, yh),
        dot_raw(xl, yl),
        d,
        c,
    );
    lemma_dot_is_raw(xh, yh);
    lemma_dot_is_raw(xh, yl);
    lemma_dot_is_raw(xl, yh);
    lemma_dot_is_raw(xl, yl);
    lemma_dot_halves(x, y);
}

/// The inner product of two sequences of one element each.
pub proof fn lemma_dot_single(a: Seq<nat>, b: Seq<nat>)
    requires
        a.len() == 1,
        b.len() == 1,
    ensures
        dot(a, b) == fmul(a[0], b[0]),
{
    assert(a.drop_last().len() == 0);
    lemma_fmul_reduce(a[0], b[0]);
    lemma_small_mod(fmul(a[0], b[0]), modulus());
    assert(dot(a.drop_last(), b.drop_last()) == 0);
}

/// The inner product with a sum is the sum of the inner products.
pub proof fn lemma_dot_add(k: Seq<nat>, u: Seq<nat>, v: Seq<nat>, w: Seq<nat>)
    requires
        u.len() == k.len(),
        v.len() == k.len(),
        w.len() == k.len(),
        forall|j: int| 0 <= j < k.len() ==> #[trigger] w[j] == fadd(u[j], v[j]),
    ensures
        dot(k, w) == fadd(dot(k, u), dot(k, v)),
    decreases k.len(),
{
    if k.len() > 0 {
        let n = k.len() - 1;
        assert forall|j: int| 0 <= j < n implies #[trigger] w.drop_last()[j] == fadd(
            u.drop_last()[j],
            v.drop_last()[j],
        ) by {
            assert(w[j] == fadd(u[j], v[j]));
        }
        lemma_dot_add(k.drop_last(), u.drop_last(), v.drop_last(), w.drop_last());
        assert(w[n] == fadd(u[n], v[n]));
        let a = dot(k.drop_last(), u.drop_last());
        let b = dot(k.drop_last(), v.drop_last());
        let x = fmul(k[n], u[n]);
        let y = fmul(k[n], v[n]);
        lemma_fmul_distributive(k[n], u[n], v[n]);
        // (a + b) + (x + y) == (a + x) + (b + y)
        lemma_fadd_associative(a, b, fadd(x, y));
        lemma_fadd_associative(b, x, y);
        lemma_fadd_commutative(b, x);
        lemma_fadd_associative(x, b, y);
        lemma_fadd_associative(a, x, fadd(b, y));
    }
}

/// The inner product with a multiple is the multiple of the inner product.
pub proof fn lemma_dot_scaled(k: Seq<nat>, v: Seq<nat>, w: Seq<nat>, s: nat)
    requires
        v.len() == k.len(),
        w.len() == k.len(),
        forall|j: int| 0 <= j < k.len() ==> #[trigger] w[j] == fmul(s, v[j]),
    ensures
        dot(k, w) == fmul(s, dot(k, v)),
    decreases k.len(),
{
    if k.len() == 0 {
        lemma_fmul_zero(s);
    } else {
        let n = k.len() - 1;
        assert forall|j: int| 0 <= j < n implies #[trigger] w.drop_last()[j] == fmul(
            s,
            v.drop_last()[j],
        ) by {
            assert(w[j] == fmul(s, v[j]));
        }
        lemma_dot_scaled(k.drop_last(), v.drop_last(), w.drop_last(), s);
        assert(w[n] == fmul(s, v[n]));
        lemma_fmul_distributive(s, dot(k.drop_last(), v.drop_last()), fmul(k[n], v[n]));
        lemma_fmul_associative(k[n], s, v[n]);
        lemma_fmul_commutative(k[n], s);
        lemma_fmul_associative(s, k[n], v[n]);
    }
}

/// The inner product with zeros is zero.
pub proof fn lemma_dot_zero(k: Seq<nat>, v: Seq<nat>)
    requires
        v.len() == k.len(),
        forall|j: int| 0 <= j < k.len() ==> #[trigger] v[j] == 0,
    ensures
        dot(k, v) == 0,
    decreases k.len(),
{
    if k.len() > 0 {
        let n = k.len() - 1;
        assert forall|j: int| 0 <= j < n implies #[trigger] v.drop_last()[j] == 0 by {
            assert(v[j] == 0);
        }
        lemma_dot_zero(k.drop_last(), v.drop_last());
        assert(v[n] == 0);
        lemma_fmul_zero(k[n]);
    }
}

/// Terms that give one sum with a common summand are congruent.
pub proof fn lemma_fadd_cancel(d: nat, x: nat, y: nat)
    requires
        fadd(d, x) == fadd(d, y),
    ensures
        x % modulus() == y % modulus(),
{
    let m = modulus() as int;
    lemma_mod_equivalence(d as int + x as int, d as int + y as int, m);
    lemma_mod_equivalence(x as int, y as int, m);
}

/// Where the products of `k` with two numbers are equal, the product of `k`
/// with their difference is zero.
pub proof fn lemma_fmul_difference(k: nat, v: nat, a: nat)
    requires
        fmul(k, v) == fmul(k, a),
    ensures
        fmul(k, crate::field::fsub(v, a)) == 0,
{
    let m = modulus() as int;
    let d = crate::field::fsub(v, a);
    lemma_mod_twice(v as int - a as int, m);
    lemma_mul_mod_noop_general(k as int, d as int, m);
    lemma_mul_mod_noop_general(k as int, v as int - a as int, m);
    assert((k as int) * (v as int - a as int) == k * v - k * a) by (nonlinear_arith);
    lemma_mod_equivalence((k * v) as int, (k * a) as int, m);
}

/// Changing one element of a sequence changes its inner product by the
/// change times the key at that place: with the old term added to the new
/// inner product one gets the old inner product with the new term.
pub proof fn lemma_dot_update(k: Seq<nat>, a: Seq<nat>, i: int, v: nat)
    requires
        k.len() == a.len(),
        0 <= i < a.len(),
    ensures
        fadd(dot(k, a.update(i, v)), fmul(k[i], a[i])) == fadd(dot(k, a), fmul(k[i], v)),
    decreases a.len(),
{
    let n = a.len() - 1;
    let changed = a.update(i, v);
    let front = dot(k.drop_last(), a.drop_last());
    if i == n {
        assert(changed.drop_last() =~= a.drop_last());
        let p = fmul(k[i], v);
        let q = fmul(k[i], a[i]);
        lemma_fadd_associative(front, p, q);
        lemma_fadd_associative(front, q, p);
        lemma_fadd_commutative(p, q);
    } else {
        assert(changed.drop_last() =~= a.drop_last().update(i, v));
        lemma_dot_update(k.drop_last(), a.drop_last(), i, v);
        let new_front = dot(k.drop_last(), changed.drop_last());
        let t = fmul(k[n], a[n]);
        let p = fmul(k[i], v);
        let q = fmul(k[i], a[i]);
        // (new_front + t) + q == (new_front + q) + t == (front + p) + t == (front + t) + p
        lemma_fadd_associative(new_front, t, q);
        lemma_fadd_commutative(t, q);
        lemma_fadd_associative(new_front, q, t);
        lemma_fadd_associative(front, p, t);
        lemma_fadd_commutative(p, t);
        lemma_fadd_associative(front, t, p);
    }
}

/// Changing one element of a sequence changes its inner product, unless
/// the change times the key at that place is zero.
pub proof fn lemma_dot_changes(k: Seq<nat>, a: Seq<nat>, i: int, v: nat)
    requires
        k.len() == a.len(),
        0 <= i < a.len(),
        fmul(k[i], crate::field::fsub(v, a[i])) != 0,
    ensures
        dot(k, a.update(i, v)) != dot(k, a),
{
    lemma_dot_update(k, a, i, v);
    if dot(k, a.update(i, v)) == dot(k, a) {
        lemma_fadd_cancel(dot(k, a), fmul(k[i], a[i]), fmul(k[i], v));
        lemma_fmul_reduce(k[i], a[i]);
        lemma_fmul_reduce(k[i], v);
        lemma_small_mod(fmul(k[i], a[i]), modulus());
        lemma_small_mod(fmul(k[i], v), modulus());
        lemma_fmul_difference(k[i], v, a[i]);
    }
}

} // verus!
