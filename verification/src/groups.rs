//! The groups G1, G2 and Gt of BLS12-381 and the pairing between them.
//!
//! An element is held as the bytes of its uncompressed canonical encoding.
//! Only elements of the prime-order subgroups can be built, so each one is a
//! multiple of its group's generator, and that multiple is its value.

use crate::algebra::dot;
use crate::element::{bytes_copy, bytes_equal, values, Element, Module};
use crate::field::{fadd, fmul, modulus, Scalar};
use crate::gipa::InnerProductArgumentError;
use ark_bls12_381::{Bls12_381, Fr, G1Affine, G1Projective, G2Affine, G2Projective};
use ark_ec::pairing::{Pairing, PairingOutput};
use ark_ec::{PrimeGroup, VariableBaseMSM};
use ark_ff::{BigInt, PrimeField};
use ark_serialize::{CanonicalDeserialize, CanonicalSerialize, Valid};
use rand::rngs::StdRng;
use vstd::prelude::*;

verus! {

/// The uncompressed encoding, by `ark_serialize::CanonicalSerialize`, of the
/// multiple `index` of the generator of G1 that `ark_ec::PrimeGroup` fixes.
pub uninterp spec fn g1_encoding(index: nat) -> Seq<u8>;

/// Whether `bytes` encode an element of G1.
pub open spec fn g1_encodes(bytes: Seq<u8>) -> bool {
    exists|i: nat| g1_index_of(bytes, i)
}

pub open spec fn g1_index_of(bytes: Seq<u8>, i: nat) -> bool {
    i < modulus() && g1_encoding(i) == bytes
}

/// An element of the group G1.
#[derive(Debug, PartialEq, Eq)]
pub struct G1 {
    bytes: Vec<u8>,
}

impl G1 {
    #[verifier::type_invariant]
    spec fn well_formed(self) -> bool {
        g1_encodes(self.bytes@)
    }

    /// The element of the given index: that multiple of the generator.
    pub fn multiple_of_generator(s: &Scalar) -> (r: G1)
        ensures
            r.value() == s.value(),
    {
        g1_multiple(s)
    }

    pub fn generator() -> (r: G1)
        ensures
            r.value() == 1,
    {
        g1_multiple(&Scalar::one())
    }

    /// The element that `bytes` encode, if they encode one.
    pub fn from_bytes(bytes: &[u8]) -> (r: Option<G1>)
        ensures
            r is Some <==> g1_encodes(bytes@),
            r matches Some(p) ==> g1_encoding(p.value()) == bytes@,
    {
        match g1_decode(bytes) {
            Some(p) => {
                proof {
                    use_type_invariant(&p);
                }
                if bytes_equal(p.bytes.as_slice(), bytes) {
                    Some(p)
                } else {
                    None
                }
            },
            None => None,
        }
    }
}

impl Element for G1 {
    closed spec fn value(&self) -> nat {
        (choose|i: nat| g1_index_of(self.bytes@, i)) % modulus()
    }

    open spec fn encoding(v: nat) -> Seq<u8> {
        g1_encoding(v)
    }

    fn zero() -> (r: Self) {
        g1_multiple(&Scalar::zero())
    }

    fn random(rng: &mut StdRng) -> (r: Self) {
        let s = Scalar::random(rng);
        g1_multiple(&s)
    }

    fn add(&self, other: &Self) -> (r: Self) {
        g1_add(self, other)
    }

    fn is_equal(&self, other: &Self) -> (b: bool) {
        proof {
            use_type_invariant(self);
            use_type_invariant(other);
        }
        bytes_equal(self.bytes.as_slice(), other.bytes.as_slice())
    }

    fn duplicate(&self) -> (r: Self) {
        proof {
            use_type_invariant(self);
        }
        G1 { bytes: bytes_copy(self.bytes.as_slice()) }
    }

    fn to_bytes(&self) -> (bytes: Vec<u8>) {
        proof {
            use_type_invariant(self);
        }
        bytes_copy(self.bytes.as_slice())
    }

    proof fn lemma_value_reduced(&self) {
    }
}

impl Clone for G1 {
    fn clone(&self) -> (r: Self)
        ensures
            r.value() == self.value(),
    {
        self.duplicate()
    }
}

impl Module for G1 {
    fn scale(&self, s: &Scalar) -> (r: Self) {
        g1_scale(self, s)
    }
}

/// The generator of `ark_bls12_381::G1Projective` times a scalar, encoded:
/// the element whose index is the scalar.
#[verifier::external_body]
fn g1_multiple(s: &Scalar) -> (r: G1)
    ensures
        r.value() == s.value(),
        r.bytes@ == g1_encoding(s.value()),
{
    let p = G1Projective::generator() * Fr::from_bigint(BigInt::new(s.limbs())).unwrap();
    let mut bytes = Vec::new();
    p.serialize_uncompressed(&mut bytes).unwrap();
    G1 { bytes }
}

/// `+` of `ark_bls12_381::G1Projective`: the group's sum, whose index is the
/// sum of the indices modulo the group order.
#[verifier::external_body]
fn g1_add(a: &G1, b: &G1) -> (r: G1)
    ensures
        r.value() == fadd(a.value(), b.value()),
{
    let x = G1Projective::deserialize_uncompressed_unchecked(&a.bytes[..]).unwrap();
    let y = G1Projective::deserialize_uncompressed_unchecked(&b.bytes[..]).unwrap();
    let mut bytes = Vec::new();
    (x + y).serialize_uncompressed(&mut bytes).unwrap();
    G1 { bytes }
}

/// `*` of `ark_bls12_381::G1Projective` by a scalar: the scalar multiple,
/// whose index is the product of scalar and index modulo the group order.
#[verifier::external_body]
fn g1_scale(a: &G1, s: &Scalar) -> (r: G1)
    ensures
        r.value() == fmul(s.value(), a.value()),
{
    let x = G1Projective::deserialize_uncompressed_unchecked(&a.bytes[..]).unwrap();
    let k = Fr::from_bigint(BigInt::new(s.limbs())).unwrap();
    let mut bytes = Vec::new();
    (x * k).serialize_uncompressed(&mut bytes).unwrap();
    G1 { bytes }
}

/// `ark_serialize::CanonicalDeserialize::deserialize_uncompressed_unchecked`
/// for `ark_bls12_381::G1Affine`, which reads the two coordinates and tests
/// neither curve nor subgroup, then `ark_serialize::Valid::check`, which
/// tests both, then the canonical encoding of the point. Together they
/// accept every canonical encoding of an element of the group and give that
/// encoding back, and what they accept is an element of the group.
#[verifier::external_body]
fn g1_decode(bytes: &[u8]) -> (r: Option<G1>)
    ensures
        r is None ==> !g1_encodes(bytes@),
        r matches Some(p) ==> (g1_encodes(bytes@) ==> p.bytes@ == bytes@),
{
    let p = G1Affine::deserialize_uncompressed_unchecked(bytes).ok()?;
    p.check().ok()?;
    let mut out = Vec::new();
    p.serialize_uncompressed(&mut out).unwrap();
    Some(G1 { bytes: out })
}

/// The uncompressed encoding, by `ark_serialize::CanonicalSerialize`, of the
/// multiple `index` of the generator of G2 that `ark_ec::PrimeGroup` fixes.
pub uninterp spec fn g2_encoding(index: nat) -> Seq<u8>;

/// Whether `bytes` encode an element of G2.
pub open spec fn g2_encodes(bytes: Seq<u8>) -> bool {
    exists|i: nat| g2_index_of(bytes, i)
}

pub open spec fn g2_index_of(bytes: Seq<u8>, i: nat) -> bool {
    i < modulus() && g2_encoding(i) == bytes
}

/// An element of the group G2.
#[derive(Debug, PartialEq, Eq)]
pub struct G2 {
    bytes: Vec<u8>,
}

impl G2 {
    #[verifier::type_invariant]
    spec fn well_formed(self) -> bool {
        g2_encodes(self.bytes@)
    }

    /// The element of the given index: that multiple of the generator.
    pub fn multiple_of_generator(s: &Scalar) -> (r: G2)
        ensures
            r.value() == s.value(),
    {
        g2_multiple(s)
    }

    pub fn generator() -> (r: G2)
        ensures
            r.value() == 1,
    {
        g2_multiple(&Scalar::one())
    }

    /// The element that `bytes` encode, if they encode one.
    pub fn from_bytes(bytes: &[u8]) -> (r: Option<G2>)
        ensures
            r is Some <==> g2_encodes(bytes@),
            r matches Some(p) ==> g2_encoding(p.value()) == bytes@,
    {
        match g2_decode(bytes) {
            Some(p) => {
                proof {
                    use_type_invariant(&p);
                }
                if bytes_equal(p.bytes.as_slice(), bytes) {
                    Some(p)
                } else {
                    None
                }
            },
            None => None,
        }
    }
}

impl Element for G2 {
    closed spec fn value(&self) -> nat {
        (choose|i: nat| g2_index_of(self.bytes@, i)) % modulus()
    }

    open spec fn encoding(v: nat) -> Seq<u8> {
        g2_encoding(v)
    }

    fn zero() -> (r: Self) {
        g2_multiple(&Scalar::zero())
    }

    fn random(rng: &mut StdRng) -> (r: Self) {
        let s = Scalar::random(rng);
        g2_multiple(&s)
    }

    fn add(&self, other: &Self) -> (r: Self) {
        g2_add(self, other)
    }

    fn is_equal(&self, other: &Self) -> (b: bool) {
        proof {
            use_type_invariant(self);
            use_type_invariant(other);
        }
        bytes_equal(self.bytes.as_slice(), other.bytes.as_slice())
    }

    fn duplicate(&self) -> (r: Self) {
        proof {
            use_type_invariant(self);
        }
        G2 { bytes: bytes_copy(self.bytes.as_slice()) }
    }

    fn to_bytes(&self) -> (bytes: Vec<u8>) {
        proof {
            use_type_invariant(self);
        }
        bytes_copy(self.bytes.as_slice())
    }

    proof fn lemma_value_reduced(&self) {
    }
}

impl Clone for G2 {
    fn clone(&self) -> (r: Self)
        ensures
            r.value() == self.value(),
    {
        self.duplicate()
    }
}

impl Module for G2 {
    fn scale(&self, s: &Scalar) -> (r: Self) {
        g2_scale(self, s)
    }
}

/// The generator of `ark_bls12_381::G2Projective` times a scalar, encoded:
/// the element whose index is the scalar.
#[verifier::external_body]
fn g2_multiple(s: &Scalar) -> (r: G2)
    ensures
        r.value() == s.value(),
        r.bytes@ == g2_encoding(s.value()),
{
    let p = G2Projective::generator() * Fr::from_bigint(BigInt::new(s.limbs())).unwrap();
    let mut bytes = Vec::new();
    p.serialize_uncompressed(&mut bytes).unwrap();
    G2 { bytes }
}

/// `+` of `ark_bls12_381::G2Projective`: the group's sum, whose index is the
/// sum of the indices modulo the group order.
#[verifier::external_body]
fn g2_add(a: &G2, b: &G2) -> (r: G2)
    ensures
        r.value() == fadd(a.value(), b.value()),
{
    let x = G2Projective::deserialize_uncompressed_unchecked(&a.bytes[..]).unwrap();
    let y = G2Projective::deserialize_uncompressed_unchecked(&b.bytes[..]).unwrap();
    let mut bytes = Vec::new();
    (x + y).serialize_uncompressed(&mut bytes).unwrap();
    G2 { bytes }
}

/// `*` of `ark_bls12_381::G2Projective` by a scalar: the scalar multiple,
/// whose index is the product of scalar and index modulo the group order.
#[verifier::external_body]
fn g2_scale(a: &G2, s: &Scalar) -> (r: G2)
    ensures
        r.value() == fmul(s.value(), a.value()),
{
    let x = G2Projective::deserialize_uncompressed_unchecked(&a.bytes[..]).unwrap();
    let k = Fr::from_bigint(BigInt::new(s.limbs())).unwrap();
    let mut bytes = Vec::new();
    (x * k).serialize_uncompressed(&mut bytes).unwrap();
    G2 { bytes }
}

/// `ark_serialize::CanonicalDeserialize::deserialize_uncompressed_unchecked`
/// for `ark_bls12_381::G2Affine`, which reads the two coordinates and tests
/// neither curve nor subgroup, then `ark_serialize::Valid::check`, which
/// tests both, then the canonical encoding of the point. Together they
/// accept every canonical encoding of an element of the group and give that
/// encoding back, and what they accept is an element of the group.
#[verifier::external_body]
fn g2_decode(bytes: &[u8]) -> (r: Option<G2>)
    ensures
        r is None ==> !g2_encodes(bytes@),
        r matches Some(p) ==> (g2_encodes(bytes@) ==> p.bytes@ == bytes@),
{
    let p = G2Affine::deserialize_uncompressed_unchecked(bytes).ok()?;
    p.check().ok()?;
    let mut out = Vec::new();
    p.serialize_uncompressed(&mut out).unwrap();
    Some(G2 { bytes: out })
}

/// The uncompressed encoding, by `ark_serialize::CanonicalSerialize`, of the
/// multiple `index` of the generator of Gt that `ark_ec::PrimeGroup` fixes,
/// the pairing of the generators of G1 and G2.
pub uninterp spec fn gt_encoding(index: nat) -> Seq<u8>;

/// Whether `bytes` encode an element of Gt.
pub open spec fn gt_encodes(bytes: Seq<u8>) -> bool {
    exists|i: nat| gt_index_of(bytes, i)
}

pub open spec fn gt_index_of(bytes: Seq<u8>, i: nat) -> bool {
    i < modulus() && gt_encoding(i) == bytes
}

/// An element of the group Gt.
#[derive(Debug, PartialEq, Eq)]
pub struct Gt {
    bytes: Vec<u8>,
}

impl Gt {
    #[verifier::type_invariant]
    spec fn well_formed(self) -> bool {
        gt_encodes(self.bytes@)
    }

    /// The element of the given index: that multiple of the generator.
    pub fn multiple_of_generator(s: &Scalar) -> (r: Gt)
        ensures
            r.value() == s.value(),
    {
        gt_multiple(s)
    }

    pub fn generator() -> (r: Gt)
        ensures
            r.value() == 1,
    {
        gt_multiple(&Scalar::one())
    }

    /// The element that `bytes` encode, if they encode one.
    pub fn from_bytes(bytes: &[u8]) -> (r: Option<Gt>)
        ensures
            r is Some <==> gt_encodes(bytes@),
            r matches Some(p) ==> gt_encoding(p.value()) == bytes@,
    {
        match gt_decode(bytes) {
            Some(p) => {
                proof {
                    use_type_invariant(&p);
                }
                if bytes_equal(p.bytes.as_slice(), bytes) {
                    Some(p)
                } else {
                    None
                }
            },
            None => None,
        }
    }
}

impl Element for Gt {
    closed spec fn value(&self) -> nat {
        (choose|i: nat| gt_index_of(self.bytes@, i)) % modulus()
    }

    open spec fn encoding(v: nat) -> Seq<u8> {
        gt_encoding(v)
    }

    fn zero() -> (r: Self) {
        gt_multiple(&Scalar::zero())
    }

    fn random(rng: &mut StdRng) -> (r: Self) {
        let s = Scalar::random(rng);
        gt_multiple(&s)
    }

    fn add(&self, other: &Self) -> (r: Self) {
        gt_add(self, other)
    }

    fn is_equal(&self, other: &Self) -> (b: bool) {
        proof {
            use_type_invariant(self);
            use_type_invariant(other);
        }
        bytes_equal(self.bytes.as_slice(), other.bytes.as_slice())
    }

    fn duplicate(&self) -> (r: Self) {
        proof {
            use_type_invariant(self);
        }
        Gt { bytes: bytes_copy(self.bytes.as_slice()) }
    }

    fn to_bytes(&self) -> (bytes: Vec<u8>) {
        proof {
            use_type_invariant(self);
        }
        bytes_copy(self.bytes.as_slice())
    }

    proof fn lemma_value_reduced(&self) {
    }
}

impl Clone for Gt {
    fn clone(&self) -> (r: Self)
        ensures
            r.value() == self.value(),
    {
        self.duplicate()
    }
}

impl Module for Gt {
    fn scale(&self, s: &Scalar) -> (r: Self) {
        gt_scale(self, s)
    }
}

/// The generator of `ark_ec::pairing::PairingOutput` of BLS12-381 times a scalar, encoded:
/// the element whose index is the scalar.
#[verifier::external_body]
fn gt_multiple(s: &Scalar) -> (r: Gt)
    ensures
        r.value() == s.value(),
        r.bytes@ == gt_encoding(s.value()),
{
    let p = PairingOutput::<Bls12_381>::generator() * Fr::from_bigint(BigInt::new(s.limbs())).unwrap();
    let mut bytes = Vec::new();
    p.serialize_uncompressed(&mut bytes).unwrap();
    Gt { bytes }
}

/// `+` of `ark_ec::pairing::PairingOutput` of BLS12-381: the group's sum, whose index is the
/// sum of the indices modulo the group order.
#[verifier::external_body]
fn gt_add(a: &Gt, b: &Gt) -> (r: Gt)
    ensures
        r.value() == fadd(a.value(), b.value()),
{
    let x = PairingOutput::<Bls12_381>::deserialize_uncompressed_unchecked(&a.bytes[..]).unwrap();
    let y = PairingOutput::<Bls12_381>::deserialize_uncompressed_unchecked(&b.bytes[..]).unwrap();
    let mut bytes = Vec::new();
    (x + y).serialize_uncompressed(&mut bytes).unwrap();
    Gt { bytes }
}

/// `*` of `ark_ec::pairing::PairingOutput` of BLS12-381 by a scalar: the scalar multiple,
/// whose index is the product of scalar and index modulo the group order.
#[verifier::external_body]
fn gt_scale(a: &Gt, s: &Scalar) -> (r: Gt)
    ensures
        r.value() == fmul(s.value(), a.value()),
{
    let x = PairingOutput::<Bls12_381>::deserialize_uncompressed_unchecked(&a.bytes[..]).unwrap();
    let k = Fr::from_bigint(BigInt::new(s.limbs())).unwrap();
    let mut bytes = Vec::new();
    (x * k).serialize_uncompressed(&mut bytes).unwrap();
    Gt { bytes }
}

/// `ark_serialize::CanonicalDeserialize::deserialize_uncompressed` for
/// `ark_ec::pairing::PairingOutput` of BLS12-381, which checks the subgroup,
/// then the canonical encoding of what it read. It accepts every canonical
/// encoding and gives that encoding back.
#[verifier::external_body]
fn gt_decode(bytes: &[u8]) -> (r: Option<Gt>)
    ensures
        r is None ==> !gt_encodes(bytes@),
        r matches Some(p) ==> (gt_encodes(bytes@) ==> p.bytes@ == bytes@),
{
    let p = PairingOutput::<Bls12_381>::deserialize_uncompressed(bytes).ok()?;
    let mut out = Vec::new();
    p.serialize_uncompressed(&mut out).unwrap();
    Some(Gt { bytes: out })
}

/// The pairing of an element of G1 with one of G2.
pub fn pairing(a: &G1, b: &G2) -> (r: Gt)
    ensures
        r.value() == fmul(a.value(), b.value()),
{
    bls12_pairing(a, b)
}

/// `ark_ec::pairing::Pairing::pairing` of `ark_bls12_381::Bls12_381`. The
/// pairing is bilinear and sends the two generators to the generator of Gt,
/// so the index of the result is the product of the indices.
#[verifier::external_body]
fn bls12_pairing(a: &G1, b: &G2) -> (r: Gt)
    ensures
        r.value() == fmul(a.value(), b.value()),
{
    let x = G1Projective::deserialize_uncompressed_unchecked(&a.bytes[..]).unwrap();
    let y = G2Projective::deserialize_uncompressed_unchecked(&b.bytes[..]).unwrap();
    let mut bytes = Vec::new();
    Bls12_381::pairing(x, y).serialize_uncompressed(&mut bytes).unwrap();
    Gt { bytes }
}

/// The sum of the multiples of elements of G1 by scalars, which must be as
/// many, by the outside multi-scalar multiplication.
pub fn multi_scalar_mul(bases: &[G1], scalars: &[Scalar]) -> (r: Result<
    G1,
    InnerProductArgumentError,
>)
    ensures
        bases@.len() != scalars@.len() ==> r == Err::<G1, InnerProductArgumentError>(
            InnerProductArgumentError::MessageLengthInvalid(
                bases@.len() as usize,
                scalars@.len() as usize,
            ),
        ),
        bases@.len() == scalars@.len() ==> r is Ok && r->Ok_0.value() == dot(
            values(bases@),
            values(scalars@),
        ),
{
    if bases.len() != scalars.len() {
        return Err(InnerProductArgumentError::MessageLengthInvalid(bases.len(), scalars.len()));
    }
    Ok(g1_msm(bases, scalars))
}

/// `ark_ec::VariableBaseMSM::msm` of `ark_bls12_381::G1Projective` on as
/// many bases as scalars: the sum of the scalar multiples of the bases,
/// whose index is the inner product of the indices with the scalars.
#[verifier::external_body]
fn g1_msm(bases: &[G1], scalars: &[Scalar]) -> (r: G1)
    requires
        bases@.len() == scalars@.len(),
    ensures
        r.value() == dot(values(bases@), values(scalars@)),
{
    let point = |p: &G1| G1Affine::deserialize_uncompressed_unchecked(&p.bytes[..]).unwrap();
    let points: Vec<G1Affine> = bases.iter().map(point).collect();
    let fr = |s: &Scalar| Fr::from_bigint(BigInt::new(s.limbs())).unwrap();
    let factors: Vec<Fr> = scalars.iter().map(fr).collect();
    let mut bytes = Vec::new();
    G1Projective::msm(&points, &factors).unwrap().serialize_uncompressed(&mut bytes).unwrap();
    G1 { bytes }
}

} // verus!
