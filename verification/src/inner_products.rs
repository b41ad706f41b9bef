//! Inner products between vectors of elements: of scalars, of group elements
//! with scalars, and of the two source groups under the pairing.

use crate::algebra::dot;
use crate::element::{values, Element, Module};
use crate::field::{fmul, lemma_fmul_commutative, Scalar};
use crate::gipa::InnerProductArgumentError;
use crate::groups::{pairing, Gt, G1, G2};
use std::marker::PhantomData;
use vstd::prelude::*;

verus! {

/// A bilinear map on elements, extended to vectors as the sum of the images
/// of the pairs.
pub trait InnerProduct {
    type LeftMessage: Module;

    type RightMessage: Module;

    type Output: Module;

    /// The image of one pair. On indices every such map is the product.
    fn product(left: &Self::LeftMessage, right: &Self::RightMessage) -> (r: Self::Output)
        ensures
            r.value() == fmul(left.value(), right.value()),
    ;

    /// The inner product of two vectors, which must have one length.
    fn inner_product(left: &[Self::LeftMessage], right: &[Self::RightMessage]) -> (r: Result<
        Self::Output,
        InnerProductArgumentError,
    >)
        ensures
            left@.len() != right@.len() ==> r == Err::<Self::Output, InnerProductArgumentError>(
                InnerProductArgumentError::MessageLengthInvalid(left@.len() as usize, right@.len() as usize),
            ),
            left@.len() == right@.len() ==> r is Ok && r->Ok_0.value() == dot(
                values(left@),
                values(right@),
            ),
    {
        if left.len() != right.len() {
            return Err(InnerProductArgumentError::MessageLengthInvalid(left.len(), right.len()));
        }
        let mut acc = Self::Output::zero();
        let mut i: usize = 0;
        while i < left.len()
            invariant
                i <= left@.len(),
                left@.len() == right@.len(),
                acc.value() == dot(values(left@).take(i as int), values(right@).take(i as int)),
            decreases left@.len() - i,
        {
            let term = Self::product(&left[i], &right[i]);
            acc = acc.add(&term);
            i += 1;
            proof {
                let l = values(left@).take(i as int);
                let r = values(right@).take(i as int);
                assert(l.drop_last() =~= values(left@).take(i - 1));
                assert(r.drop_last() =~= values(right@).take(i - 1));
            }
        }
        proof {
            assert(values(left@).take(i as int) =~= values(left@));
            assert(values(right@).take(i as int) =~= values(right@));
        }
        Ok(acc)
    }
}

/// The inner product of two vectors of scalars: the sum of the products.
pub struct ScalarInnerProduct {}

impl InnerProduct for ScalarInnerProduct {
    type LeftMessage = Scalar;

    type RightMessage = Scalar;

    type Output = Scalar;

    fn product(left: &Scalar, right: &Scalar) -> (r: Scalar) {
        left.mul(right)
    }
}

/// The inner product of a vector of group elements with a vector of scalars:
/// the sum of the scalar multiples.
pub struct MultiexponentiationInnerProduct<G> {
    _group: PhantomData<G>,
}

impl<G: Module> InnerProduct for MultiexponentiationInnerProduct<G> {
    type LeftMessage = G;

    type RightMessage = Scalar;

    type Output = G;

    fn product(left: &G, right: &Scalar) -> (r: G) {
        proof {
            lemma_fmul_commutative(left.value(), right.value());
        }
        left.scale(right)
    }
}

/// The inner product of a vector in G1 with a vector in G2: the sum in Gt of
/// the pairings.
pub struct PairingInnerProduct {}

impl InnerProduct for PairingInnerProduct {
    type LeftMessage = G1;

    type RightMessage = G2;

    type Output = Gt;

    fn product(left: &G1, right: &G2) -> (r: Gt) {
        pairing(left, right)
    }
}

} // verus!
