//! What the arguments compute with: elements of the scalar field and of the
//! three groups of the pairing, seen alike as modules over the scalar field.

use crate::field::{fadd, fmul, fsub, lemma_fsub_as_scale, modulus, Scalar};
use rand::rngs::StdRng;
use vstd::prelude::*;

verus! {

/// An element of a cyclic group of the order of the scalar field.
///
/// Each of the groups is generated by one distinguished element, so an
/// element is known by its index: the multiple of the generator that it is.
/// For the scalar field the generator is one and the index is the element
/// itself. Sums, scalar multiples and the pairing act on indices as sum and
/// product modulo [`modulus`], which is what the contracts below state.
pub trait Element: Sized {
    /// The index of this element, in `0..modulus()`.
    spec fn value(&self) -> nat;

    /// The bytes that stand for the element of index `v` in a transcript.
    spec fn encoding(v: nat) -> Seq<u8>;

    /// The neutral element, of index zero.
    fn zero() -> (r: Self)
        ensures
            r.value() == 0,
    ;

    /// A uniformly random element.
    fn random(rng: &mut StdRng) -> (r: Self)
    ;

    fn add(&self, other: &Self) -> (r: Self)
        ensures
            r.value() == fadd(self.value(), other.value()),
    ;

    fn is_equal(&self, other: &Self) -> (b: bool)
        ensures
            b == (self.value() == other.value()),
    ;

    fn duplicate(&self) -> (r: Self)
        ensures
            r.value() == self.value(),
    ;

    fn to_bytes(&self) -> (bytes: Vec<u8>)
        ensures
            bytes@ == Self::encoding(self.value()),
    ;

    proof fn lemma_value_reduced(&self)
        ensures
            self.value() < modulus(),
    ;
}

/// An element that can be multiplied by a scalar.
pub trait Module: Element {
    /// The multiple of this element by the scalar `s`.
    fn scale(&self, s: &Scalar) -> (r: Self)
        ensures
            r.value() == fmul(s.value(), self.value()),
    ;
}

/// The indices of a sequence of elements.
pub open spec fn values<T: Element>(s: Seq<T>) -> Seq<nat> {
    Seq::new(s.len(), |i: int| s[i].value())
}

/// The indices of a sequence with one more element.
pub proof fn lemma_values_push<T: Element>(s: Seq<T>, x: T)
    ensures
        values(s.push(x)) == values(s).push(x.value()),
{
    assert(values(s.push(x)) =~= values(s).push(x.value()));
}

/// The difference `a - b`, as the sum of `a` and the multiple of `b` by
/// minus one.
pub fn subtract<T: Module>(a: &T, b: &T) -> (r: T)
    ensures
        r.value() == fsub(a.value(), b.value()),
{
    let negated = b.scale(&Scalar::minus_one());
    proof {
        lemma_fsub_as_scale(a.value(), b.value());
    }
    a.add(&negated)
}

/// Whether two byte strings hold the same bytes.
pub fn bytes_equal(a: &[u8], b: &[u8]) -> (r: bool)
    ensures
        r == (a@ == b@),
{
    if a.len() != b.len() {
        return false;
    }
    let mut i: usize = 0;
    while i < a.len()
        invariant
            i <= a.len(),
            a.len() == b.len(),
            forall|j: int| 0 <= j < i ==> a@[j] == b@[j],
        decreases a.len() - i,
    {
        if a[i] != b[i] {
            return false;
        }
        i += 1;
    }
    assert(a@ =~= b@);
    true
}

/// A copy of a byte string.
pub fn bytes_copy(a: &[u8]) -> (r: Vec<u8>)
    ensures
        r@ == a@,
{
    let mut r: Vec<u8> = Vec::new();
    let mut i: usize = 0;
    while i < a.len()
        invariant
            i <= a.len(),
            r@ == a@.take(i as int),
        decreases a.len() - i,
    {
        r.push(a[i]);
        i += 1;
        assert(r@ =~= a@.take(i as int));
    }
    assert(a@.take(a.len() as int) =~= a@);
    r
}

/// A copy of a vector of elements.
pub fn copy_elements<T: Element>(v: &[T]) -> (r: Vec<T>)
    ensures
        values(r@) == values(v@),
{
    let mut out: Vec<T> = Vec::new();
    let mut i: usize = 0;
    while i < v.len()
        invariant
            i <= v@.len(),
            out@.len() == i,
            forall|j: int| 0 <= j < i ==> (#[trigger] out@[j]).value() == v@[j].value(),
        decreases v@.len() - i,
    {
        out.push(v[i].duplicate());
        i += 1;
    }
    assert(values(out@) =~= values(v@));
    out
}

} // verus!
