//! The scalar field of BLS12-381 and arithmetic modulo its order.
//!
//! Every group of the pairing has this prime order, so the whole library
//! reasons over one ring: the integers modulo [`modulus`].

use crate::element::{Element, Module};
use ark_bls12_381::Fr;
use ark_ff::{BigInt, Field, PrimeField, UniformRand};
use rand::rngs::StdRng;
use vstd::arithmetic::div_mod::*;
use vstd::arithmetic::mul::*;
use vstd::prelude::*;

verus! {

/// The order of the scalar field, and of the groups G1, G2 and Gt.
pub open spec fn modulus() -> nat {
    0x73eda753299d7d483339d80809a1d80553bda402fffe5bfeffffffff00000001nat
}

/// Sum modulo the field order.
pub open spec fn fadd(a: nat, b: nat) -> nat {
    (a + b) % modulus()
}

/// Product modulo the field order.
pub open spec fn fmul(a: nat, b: nat) -> nat {
    (a * b) % modulus()
}

/// Difference modulo the field order.
pub open spec fn fsub(a: nat, b: nat) -> nat {
    ((a as int - b as int) % (modulus() as int)) as nat
}

/// `b` is the multiplicative inverse of `a`.
pub open spec fn is_inverse(a: nat, b: nat) -> bool {
    b < modulus() && fmul(a, b) == 1
}

/// The inverse of `a` modulo the field order, where one exists.
pub open spec fn finv(a: nat) -> nat {
    choose|b: nat| is_inverse(a, b)
}

pub proof fn lemma_fadd_commutative(a: nat, b: nat)
    ensures
        fadd(a, b) == fadd(b, a),
{
}

pub proof fn lemma_fmul_commutative(a: nat, b: nat)
    ensures
        fmul(a, b) == fmul(b, a),
{
    lemma_mul_is_commutative(a as int, b as int);
}

/// Reducing an operand first does not change a sum.
pub proof fn lemma_fadd_reduce(a: nat, b: nat)
    ensures
        fadd(a % modulus(), b) == fadd(a, b),
        fadd(a, b % modulus()) == fadd(a, b),
        fadd(a, b) < modulus(),
{
    lemma_add_mod_noop(a as int, b as int, modulus() as int);
    lemma_add_mod_noop((a % modulus()) as int, b as int, modulus() as int);
    lemma_add_mod_noop(a as int, (b % modulus()) as int, modulus() as int);
    lemma_mod_twice(a as int, modulus() as int);
    lemma_mod_twice(b as int, modulus() as int);
}

/// Reducing an operand first does not change a product.
pub proof fn lemma_fmul_reduce(a: nat, b: nat)
    ensures
        fmul(a % modulus(), b) == fmul(a, b),
        fmul(a, b % modulus()) == fmul(a, b),
        fmul(a, b) < modulus(),
{
    lemma_mul_mod_noop_general(a as int, b as int, modulus() as int);
}

pub proof fn lemma_fadd_associative(a: nat, b: nat, c: nat)
    ensures
        fadd(fadd(a, b), c) == fadd(a, fadd(b, c)),
{
    lemma_fadd_reduce(a + b, c);
    lemma_fadd_reduce(a, b + c);
}

pub proof fn lemma_fmul_associative(a: nat, b: nat, c: nat)
    ensures
        fmul(fmul(a, b), c) == fmul(a, fmul(b, c)),
{
    lemma_fmul_reduce(a * b, c);
    lemma_fmul_reduce(a, b * c);
    lemma_mul_is_associative(a as int, b as int, c as int);
}

pub proof fn lemma_fmul_distributive(a: nat, b: nat, c: nat)
    ensures
        fmul(a, fadd(b, c)) == fadd(fmul(a, b), fmul(a, c)),
        fmul(fadd(b, c), a) == fadd(fmul(b, a), fmul(c, a)),
{
    lemma_fmul_reduce(a, b + c);
    lemma_fadd_reduce(a * b, a * c);
    lemma_fadd_reduce(a * b, fmul(a, c));
    lemma_mul_is_distributive_add(a as int, b as int, c as int);
    lemma_fmul_commutative(a, fadd(b, c));
    lemma_fmul_commutative(a, b);
    lemma_fmul_commutative(a, c);
}

pub proof fn lemma_fmul_one(a: nat)
    ensures
        fmul(1, a) == a % modulus(),
        fmul(a, 1) == a % modulus(),
{
}

pub proof fn lemma_fmul_zero(a: nat)
    ensures
        fmul(0, a) == 0,
        fmul(a, 0) == 0,
{
}

pub proof fn lemma_fadd_zero(a: nat)
    ensures
        fadd(0, a) == a % modulus(),
        fadd(a, 0) == a % modulus(),
{
}

/// A difference is what must be added to the subtrahend to get the minuend.
pub proof fn lemma_fsub_fadd(a: nat, b: nat)
    ensures
        fsub(a, b) < modulus(),
        fadd(fsub(a, b), b) == a % modulus(),
{
    let m = modulus() as int;
    lemma_mod_bound(a as int - b as int, m);
    lemma_add_mod_noop(a as int - b as int, b as int, m);
    lemma_mod_twice(a as int - b as int, m);
    lemma_add_mod_noop((a as int - b as int) % m, b as int, m);
}

/// Subtracting is adding the product with minus one.
pub proof fn lemma_fsub_as_scale(a: nat, b: nat)
    ensures
        fsub(a, b) == fadd(a, fmul((modulus() - 1) as nat, b)),
{
    let m = modulus() as int;
    let n = (modulus() - 1) as nat;
    lemma_fadd_reduce(a, n * b);
    assert(a + n * b == (a as int - b as int) + m * b) by (nonlinear_arith)
        requires
            n == m - 1,
    ;
    lemma_mul_is_commutative(m, b as int);
    lemma_mod_multiples_vanish(b as int, a as int - b as int, m);
}

/// Reducing an operand first does not change a difference.
pub proof fn lemma_fsub_reduce(a: nat, b: nat)
    ensures
        fsub(a % modulus(), b) == fsub(a, b),
        fsub(a, b % modulus()) == fsub(a, b),
        fsub(a, b) < modulus(),
{
    let m = modulus() as int;
    lemma_sub_mod_noop(a as int, b as int, m);
    lemma_sub_mod_noop((a % modulus()) as int, b as int, m);
    lemma_sub_mod_noop(a as int, (b % modulus()) as int, m);
    lemma_mod_twice(a as int, m);
    lemma_mod_twice(b as int, m);
    lemma_mod_bound(a as int - b as int, m);
}

/// A difference of equals is zero.
pub proof fn lemma_fsub_self(a: nat)
    ensures
        fsub(a, a) == 0,
{
}

/// Adding to a difference is subtracting from the sum.
pub proof fn lemma_fsub_fadd_exchange(a: nat, e: nat, t: nat)
    ensures
        fadd(fsub(a, e), t) == fsub(fadd(a, t), e),
{
    let m = modulus() as int;
    lemma_mod_bound(a as int - e as int, m);
    lemma_add_mod_noop(a as int - e as int, t as int, m);
    lemma_mod_twice(a as int - e as int, m);
    lemma_add_mod_noop((a as int - e as int) % m, t as int, m);
    lemma_sub_mod_noop(a as int + t as int, e as int, m);
    lemma_sub_mod_noop(((a + t) % modulus()) as int, e as int, m);
    lemma_mod_twice(a as int + t as int, m);
}

/// Differences from one number are equal only for congruent subtrahends.
pub proof fn lemma_fsub_injective(c: nat, x: nat, y: nat)
    requires
        fsub(c, x) == fsub(c, y),
    ensures
        x % modulus() == y % modulus(),
{
    let m = modulus() as int;
    lemma_mod_bound(c as int - x as int, m);
    lemma_mod_bound(c as int - y as int, m);
    lemma_mod_equivalence(c as int - x as int, c as int - y as int, m);
    lemma_mod_equivalence(y as int, x as int, m);
}

/// Negating twice gives the element back.
pub proof fn lemma_fsub_negation(a: nat)
    requires
        a < modulus(),
    ensures
        fsub(0, fsub(0, a)) == a,
{
    let m = modulus() as int;
    if a == 0 {
    } else {
        lemma_small_mod((m - a) as nat, modulus());
        lemma_mod_add_multiples_vanish(-(a as int), m);
        lemma_small_mod(a, modulus());
        lemma_mod_add_multiples_vanish(-(m - a), m);
    }
}

/// An element has at most one inverse.
pub proof fn lemma_inverse_unique(a: nat, b: nat, c: nat)
    requires
        is_inverse(a, b),
        is_inverse(a, c),
    ensures
        b == c,
{
    // b = b * (a * c) = (b * a) * c = c
    lemma_fmul_associative(b, a, c);
    lemma_fmul_commutative(b, a);
    lemma_fmul_one(b);
    lemma_fmul_one(c);
    lemma_small_mod(b, modulus());
    lemma_small_mod(c, modulus());
}

pub proof fn lemma_finv(a: nat, b: nat)
    requires
        is_inverse(a, b),
    ensures
        finv(a) == b,
{
    lemma_inverse_unique(a, b, finv(a));
}

/// Two integers are congruent modulo the field order.
pub open spec fn congruent_mod(a: int, b: int) -> bool {
    a % (modulus() as int) == b % (modulus() as int)
}

/// A sum modulo the field order is congruent to the sum of whatever its
/// operands are congruent to.
pub proof fn lemma_congruent_fadd(a: nat, b: nat, x: int, y: int)
    requires
        congruent_mod(a as int, x),
        congruent_mod(b as int, y),
    ensures
        congruent_mod(fadd(a, b) as int, x + y),
{
    let m = modulus() as int;
    lemma_add_mod_noop(a as int, b as int, m);
    lemma_add_mod_noop(x, y, m);
    lemma_mod_twice(a as int + b as int, m);
}

/// A product modulo the field order is congruent to the product of whatever
/// its operands are congruent to.
pub proof fn lemma_congruent_fmul(a: nat, b: nat, x: int, y: int)
    requires
        congruent_mod(a as int, x),
        congruent_mod(b as int, y),
    ensures
        congruent_mod(fmul(a, b) as int, x * y),
{
    let m = modulus() as int;
    lemma_mul_mod_noop_general(a as int, b as int, m);
    lemma_mul_mod_noop_general(x, y, m);
    lemma_mod_twice(a as int * b as int, m);
}

/// Two reduced numbers that are congruent to one integer are equal.
pub proof fn lemma_congruent_equal(a: nat, b: nat, x: int)
    requires
        a < modulus(),
        b < modulus(),
        congruent_mod(a as int, x),
        congruent_mod(b as int, x),
    ensures
        a == b,
{
    lemma_small_mod(a, modulus());
    lemma_small_mod(b, modulus());
}

/// An element of the scalar field, held as the four 64-bit limbs of its
/// canonical representative, least significant first.
#[derive(Clone, Copy, Debug, PartialEq, Eq)]
pub struct Scalar {
    limbs: [u64; 4],
}

/// The number that four little-endian 64-bit limbs spell.
pub open spec fn limbs_value(limbs: Seq<u64>) -> nat {
    (limbs[0] as nat) + (limbs[1] as nat) * 0x1_0000_0000_0000_0000nat + (limbs[2] as nat)
        * 0x1_0000_0000_0000_0000_0000_0000_0000_0000nat + (limbs[3] as nat)
        * 0x1_0000_0000_0000_0000_0000_0000_0000_0000_0000_0000_0000_0000nat
}

/// The eight bytes of a 64-bit limb, least significant first.
pub open spec fn limb_bytes(l: u64) -> Seq<u8> {
    seq![
        (l % 0x100) as u8,
        ((l / 0x100) % 0x100) as u8,
        ((l / 0x1_0000) % 0x100) as u8,
        ((l / 0x100_0000) % 0x100) as u8,
        ((l / 0x1_0000_0000) % 0x100) as u8,
        ((l / 0x100_0000_0000) % 0x100) as u8,
        ((l / 0x1_0000_0000_0000) % 0x100) as u8,
        ((l / 0x100_0000_0000_0000) % 0x100) as u8,
    ]
}

/// The limb at position `j` of a number below 2^256.
pub open spec fn limb_of(v: nat, j: nat) -> u64 {
    if j == 0 {
        (v % 0x1_0000_0000_0000_0000nat) as u64
    } else if j == 1 {
        ((v / 0x1_0000_0000_0000_0000nat) % 0x1_0000_0000_0000_0000nat) as u64
    } else if j == 2 {
        ((v / 0x1_0000_0000_0000_0000_0000_0000_0000_0000nat) % 0x1_0000_0000_0000_0000nat) as u64
    } else {
        ((v / 0x1_0000_0000_0000_0000_0000_0000_0000_0000_0000_0000_0000_0000nat)
            % 0x1_0000_0000_0000_0000nat) as u64
    }
}

/// Four limbs are the limbs of the number that they spell.
pub proof fn lemma_limbs_of(limbs: Seq<u64>)
    requires
        limbs.len() == 4,
    ensures
        limb_of(limbs_value(limbs), 0) == limbs[0],
        limb_of(limbs_value(limbs), 1) == limbs[1],
        limb_of(limbs_value(limbs), 2) == limbs[2],
        limb_of(limbs_value(limbs), 3) == limbs[3],
{
    let v = limbs_value(limbs) as int;
    let w = 0x1_0000_0000_0000_0000int;
    let l0 = limbs[0] as int;
    let l1 = limbs[1] as int;
    let l2 = limbs[2] as int;
    let l3 = limbs[3] as int;
    lemma_fundamental_div_mod_converse(v, w, l1 + l2 * w + l3 * (w * w), l0);
    lemma_fundamental_div_mod_converse(l1 + l2 * w + l3 * (w * w), w, l2 + l3 * w, l1);
    lemma_fundamental_div_mod_converse(v, w * w, l2 + l3 * w, l0 + l1 * w);
    lemma_fundamental_div_mod_converse(l2 + l3 * w, w, l3, l2);
    lemma_fundamental_div_mod_converse(v, w * w * w, l3, l0 + l1 * w + l2 * (w * w));
    lemma_small_mod(l3 as nat, w as nat);
}

/// The 32 bytes that spell a scalar in transcripts, least significant first.
#[verifier::opaque]
pub open spec fn scalar_encoding(v: nat) -> Seq<u8> {
    limb_bytes(limb_of(v, 0)) + limb_bytes(limb_of(v, 1)) + limb_bytes(limb_of(v, 2))
        + limb_bytes(limb_of(v, 3))
}

/// Appends the eight bytes of a limb, least significant first.
pub fn push_limb(out: &mut Vec<u8>, l: u64)
    ensures
        final(out)@ == old(out)@ + limb_bytes(l),
{
    out.push((l % 0x100) as u8);
    out.push(((l / 0x100) % 0x100) as u8);
    out.push(((l / 0x1_0000) % 0x100) as u8);
    out.push(((l / 0x100_0000) % 0x100) as u8);
    out.push(((l / 0x1_0000_0000) % 0x100) as u8);
    out.push(((l / 0x100_0000_0000) % 0x100) as u8);
    out.push(((l / 0x1_0000_0000_0000) % 0x100) as u8);
    out.push(((l / 0x100_0000_0000_0000) % 0x100) as u8);
    assert(out@ =~= old(out)@ + limb_bytes(l));
}

/// The number that bytes write, the least significant byte first.
pub open spec fn le_value(bytes: Seq<u8>) -> nat
    decreases bytes.len(),
{
    if bytes.len() == 0 {
        0
    } else {
        bytes[0] as nat + 256 * le_value(bytes.drop_first())
    }
}

/// The element of the scalar field that is read out of a byte string: the
/// number that the first 32 bytes write, the least significant byte first,
/// without its bit 255; `None` where that number is not below the order.
pub open spec fn scalar_from_random_bytes(bytes: Seq<u8>) -> Option<nat> {
    let read = le_value(
        if bytes.len() <= 32 {
            bytes
        } else {
            bytes.take(32)
        },
    ) % 0x8000000000000000000000000000000000000000000000000000000000000000nat;
    if read < modulus() {
        Some(read)
    } else {
        None
    }
}

#[verifier::external_type_specification]
#[verifier::external_body]
pub struct ExStdRng(StdRng);

impl Scalar {
    #[verifier::type_invariant]
    spec fn reduced(self) -> bool {
        limbs_value(self.limbs@) < modulus()
    }

    /// The four limbs of the canonical representative, least significant
    /// first.
    pub fn limbs(&self) -> (r: [u64; 4])
        ensures
            limbs_value(r@) == self.value(),
    {
        proof {
            use_type_invariant(self);
        }
        [self.limbs[0], self.limbs[1], self.limbs[2], self.limbs[3]]
    }

    /// The element whose canonical representative has the given limbs, least
    /// significant first, if they spell a number below the field order.
    pub fn from_limbs(limbs: [u64; 4]) -> (r: Option<Scalar>)
        ensures
            r is Some <==> limbs_value(limbs@) < modulus(),
            r matches Some(s) ==> s.value() == limbs_value(limbs@),
    {
        let below = limbs[3] < 0x73ed_a753_299d_7d48 || (limbs[3] == 0x73ed_a753_299d_7d48 && (
            limbs[2] < 0x3339_d808_09a1_d805 || (limbs[2] == 0x3339_d808_09a1_d805 && (
                limbs[1] < 0x53bd_a402_fffe_5bfe || (limbs[1] == 0x53bd_a402_fffe_5bfe
                    && limbs[0] < 0xffff_ffff_0000_0001))
        )));
        if below {
            Some(Scalar { limbs })
        } else {
            None
        }
    }

    pub fn one() -> (r: Scalar)
        ensures
            r.value() == 1,
    {
        Scalar { limbs: [1, 0, 0, 0] }
    }

    pub fn from_u64(x: u64) -> (r: Scalar)
        ensures
            r.value() == x,
    {
        Scalar { limbs: [x, 0, 0, 0] }
    }

    /// Minus one: the largest canonical representative.
    pub fn minus_one() -> (r: Scalar)
        ensures
            r.value() == modulus() - 1,
    {
        Scalar {
            limbs: [
                0xffff_ffff_0000_0000,
                0x53bd_a402_fffe_5bfe,
                0x3339_d808_09a1_d805,
                0x73ed_a753_299d_7d48,
            ],
        }
    }

    pub fn is_zero(&self) -> (b: bool)
        ensures
            b == (self.value() == 0),
    {
        proof {
            use_type_invariant(self);
        }
        self.limbs[0] == 0 && self.limbs[1] == 0 && self.limbs[2] == 0 && self.limbs[3] == 0
    }

    pub fn sub(&self, other: &Scalar) -> (r: Scalar)
        ensures
            r.value() == fsub(self.value(), other.value()),
    {
        fr_sub(self, other)
    }

    pub fn neg(&self) -> (r: Scalar)
        ensures
            r.value() == fsub(0, self.value()),
    {
        fr_sub(&Scalar::from_u64(0), self)
    }

    pub fn mul(&self, other: &Scalar) -> (r: Scalar)
        ensures
            r.value() == fmul(self.value(), other.value()),
    {
        fr_mul(self, other)
    }

    /// The multiplicative inverse; zero has none.
    pub fn inverse(&self) -> (r: Option<Scalar>)
        ensures
            r is None <==> self.value() == 0,
            r matches Some(inv) ==> is_inverse(self.value(), inv.value()) && inv.value() == finv(
                self.value(),
            ),
    {
        let r = fr_inverse(self);
        proof {
            if let Some(inv) = &r {
                inv.lemma_value_reduced();
                lemma_finv(self.value(), inv.value());
            }
        }
        r
    }

    /// Reads a field element out of hash output, as the rejection sampling
    /// of the transcript needs it.
    pub fn from_random_bytes(bytes: &[u8]) -> (r: Option<Scalar>)
        ensures
            r is None <==> scalar_from_random_bytes(bytes@) is None,
            r matches Some(s) ==> scalar_from_random_bytes(bytes@) == Some(s.value()),
    {
        fr_from_random_bytes(bytes)
    }

}

impl Element for Scalar {
    /// The integer in `0..modulus()` that this element stands for.
    closed spec fn value(&self) -> nat {
        limbs_value(self.limbs@) % modulus()
    }

    open spec fn encoding(v: nat) -> Seq<u8> {
        scalar_encoding(v)
    }

    fn zero() -> (r: Self) {
        Scalar::from_u64(0)
    }

    fn random(rng: &mut StdRng) -> (r: Self) {
        fr_rand(rng)
    }

    fn add(&self, other: &Self) -> (r: Self) {
        fr_add(self, other)
    }

    fn is_equal(&self, other: &Self) -> (b: bool) {
        proof {
            use_type_invariant(self);
            use_type_invariant(other);
            lemma_limbs_of(self.limbs@);
            lemma_limbs_of(other.limbs@);
            lemma_small_mod(limbs_value(self.limbs@), modulus());
            lemma_small_mod(limbs_value(other.limbs@), modulus());
        }
        self.limbs[0] == other.limbs[0] && self.limbs[1] == other.limbs[1] && self.limbs[2]
            == other.limbs[2] && self.limbs[3] == other.limbs[3]
    }

    fn duplicate(&self) -> (r: Self) {
        proof {
            use_type_invariant(self);
        }
        Scalar { limbs: [self.limbs[0], self.limbs[1], self.limbs[2], self.limbs[3]] }
    }

    fn to_bytes(&self) -> (bytes: Vec<u8>) {
        proof {
            use_type_invariant(self);
        }
        let mut out: Vec<u8> = Vec::new();
        push_limb(&mut out, self.limbs[0]);
        push_limb(&mut out, self.limbs[1]);
        push_limb(&mut out, self.limbs[2]);
        push_limb(&mut out, self.limbs[3]);
        proof {
            reveal(scalar_encoding);
            lemma_limbs_of(self.limbs@);
            lemma_small_mod(limbs_value(self.limbs@), modulus());
        }
        out
    }

    proof fn lemma_value_reduced(&self) {
    }
}

impl Module for Scalar {
    fn scale(&self, s: &Scalar) -> (r: Self) {
        fr_mul(s, self)
    }
}

/// `+` of `ark_bls12_381::Fr`: the sum of the two field elements, that is the
/// sum of their representatives modulo the field order.
#[verifier::external_body]
fn fr_add(a: &Scalar, b: &Scalar) -> (r: Scalar)
    ensures
        r.value() == fadd(a.value(), b.value()),
{
    let x = Fr::from_bigint(BigInt::new(a.limbs)).unwrap();
    let y = Fr::from_bigint(BigInt::new(b.limbs)).unwrap();
    Scalar { limbs: (x + y).into_bigint().0 }
}

/// `-` of `ark_bls12_381::Fr`: the difference of the two field elements.
#[verifier::external_body]
fn fr_sub(a: &Scalar, b: &Scalar) -> (r: Scalar)
    ensures
        r.value() == fsub(a.value(), b.value()),
{
    let x = Fr::from_bigint(BigInt::new(a.limbs)).unwrap();
    let y = Fr::from_bigint(BigInt::new(b.limbs)).unwrap();
    Scalar { limbs: (x - y).into_bigint().0 }
}

/// `*` of `ark_bls12_381::Fr`: the product of the two field elements.
#[verifier::external_body]
fn fr_mul(a: &Scalar, b: &Scalar) -> (r: Scalar)
    ensures
        r.value() == fmul(a.value(), b.value()),
{
    let x = Fr::from_bigint(BigInt::new(a.limbs)).unwrap();
    let y = Fr::from_bigint(BigInt::new(b.limbs)).unwrap();
    Scalar { limbs: (x * y).into_bigint().0 }
}

/// `ark_ff::Field::inverse` on `ark_bls12_381::Fr`: `None` for zero, else the
/// element whose product with the argument is one.
#[verifier::external_body]
fn fr_inverse(a: &Scalar) -> (r: Option<Scalar>)
    ensures
        r is None <==> a.value() == 0,
        r matches Some(inv) ==> fmul(a.value(), inv.value()) == 1,
{
    let x = Fr::from_bigint(BigInt::new(a.limbs)).unwrap();
    x.inverse().map(|inv| Scalar { limbs: inv.into_bigint().0 })
}

/// `ark_ff::Field::from_random_bytes` on `ark_bls12_381::Fr`: it copies up
/// to 32 bytes into four limbs, least significant byte first, clears the
/// one bit above the 255 of the order, and gives the element of that
/// number, or `None` where the number is not below the order.
#[verifier::external_body]
fn fr_from_random_bytes(bytes: &[u8]) -> (r: Option<Scalar>)
    ensures
        r is None <==> scalar_from_random_bytes(bytes@) is None,
        r matches Some(s) ==> scalar_from_random_bytes(bytes@) == Some(s.value()),
{
    Fr::from_random_bytes(bytes).map(|x| Scalar { limbs: x.into_bigint().0 })
}

/// `ark_ff::UniformRand::rand` on `ark_bls12_381::Fr`: some field element;
/// nothing is promised of which.
#[verifier::external_body]
fn fr_rand(rng: &mut StdRng) -> (r: Scalar) {
    Scalar { limbs: Fr::rand(rng).into_bigint().0 }
}

} // verus!
