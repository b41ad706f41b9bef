//! The identity commitment: under its key a message is its own commitment.

use crate::algebra::lemma_dot_commutative;
use crate::dh_commitments::DoublyHomomorphicCommitment;
use crate::element::{values, Element, Module};
use crate::field::Scalar;
use crate::gipa::InnerProductArgumentError;
use crate::inner_products::{InnerProduct, MultiexponentiationInnerProduct};
use rand::rngs::StdRng;
use std::marker::PhantomData;
use vstd::prelude::*;

verus! {

/// Commits to elements of `T` under scalar keys: the sum of the messages'
/// multiples by the keys. `setup` hands out the key one, under which the
/// commitment to a single message is that message.
pub struct IdentityCommitment<T> {
    _message: PhantomData<T>,
}

impl<T: Module> DoublyHomomorphicCommitment for IdentityCommitment<T> {
    type Message = T;

    type Key = Scalar;

    type Output = T;

    fn setup(rng: &mut StdRng, size: usize) -> (r: Result<Vec<Scalar>, InnerProductArgumentError>)
        ensures
            forall|i: int| 0 <= i < size ==> (#[trigger] r->Ok_0@[i]).value() == 1,
    {
        let mut keys: Vec<Scalar> = Vec::new();
        let mut i: usize = 0;
        while i < size
            invariant
                i <= size,
                keys@.len() == i,
                forall|j: int| 0 <= j < i ==> (#[trigger] keys@[j]).value() == 1,
            decreases size - i,
        {
            keys.push(Scalar::one());
            i += 1;
        }
        Ok(keys)
    }

    fn commit(k: &[Scalar], m: &[T]) -> (r: Result<T, InnerProductArgumentError>) {
        if k.len() != m.len() {
            return Err(InnerProductArgumentError::MessageLengthInvalid(k.len(), m.len()));
        }
        proof {
            lemma_dot_commutative(values(m@), values(k@));
        }
        MultiexponentiationInnerProduct::<T>::inner_product(m, k)
    }
}

} // verus!
