//! The Pedersen commitment to a vector of scalars.

use crate::dh_commitments::{random_generators, DoublyHomomorphicCommitment};
use crate::element::Module;
use crate::field::Scalar;
use crate::gipa::InnerProductArgumentError;
use crate::inner_products::{InnerProduct, MultiexponentiationInnerProduct};
use rand::rngs::StdRng;
use std::marker::PhantomData;
use vstd::prelude::*;

verus! {

/// Commits to scalars under keys in the group `G`: the sum of the keys'
/// multiples by the scalars.
pub struct PedersenCommitment<G> {
    _group: PhantomData<G>,
}

impl<G: Module> DoublyHomomorphicCommitment for PedersenCommitment<G> {
    type Message = Scalar;

    type Key = G;

    type Output = G;

    fn setup(rng: &mut StdRng, size: usize) -> (r: Result<Vec<G>, InnerProductArgumentError>) {
        Ok(random_generators(rng, size))
    }

    fn commit(k: &[G], m: &[Scalar]) -> (r: Result<G, InnerProductArgumentError>) {
        MultiexponentiationInnerProduct::<G>::inner_product(k, m)
    }
}

} // verus!
