//! The pairing-based commitments of Abe, Fuchsbauer, Groth, Haralambiev and
//! Ohkubo to vectors of group elements.

use crate::algebra::lemma_dot_commutative;
use crate::dh_commitments::{random_generators, DoublyHomomorphicCommitment};
use crate::element::values;
use crate::gipa::InnerProductArgumentError;
use crate::groups::{Gt, G1, G2};
use crate::inner_products::{InnerProduct, PairingInnerProduct};
use rand::rngs::StdRng;
use vstd::prelude::*;

verus! {

/// Commits to elements of G1 under keys in G2: the sum in Gt of the pairings
/// of each message with its key.
pub struct AFGHOCommitmentG1 {}

/// Commits to elements of G2 under keys in G1: the sum in Gt of the pairings
/// of each key with its message.
pub struct AFGHOCommitmentG2 {}

impl DoublyHomomorphicCommitment for AFGHOCommitmentG1 {
    type Message = G1;

    type Key = G2;

    type Output = Gt;

    fn setup(rng: &mut StdRng, size: usize) -> (r: Result<Vec<G2>, InnerProductArgumentError>) {
        Ok(random_generators(rng, size))
    }

    fn commit(k: &[G2], m: &[G1]) -> (r: Result<Gt, InnerProductArgumentError>) {
        if k.len() != m.len() {
            return Err(InnerProductArgumentError::MessageLengthInvalid(k.len(), m.len()));
        }
        proof {
            lemma_dot_commutative(values(m@), values(k@));
        }
        PairingInnerProduct::inner_product(m, k)
    }
}

impl DoublyHomomorphicCommitment for AFGHOCommitmentG2 {
    type Message = G2;

    type Key = G1;

    type Output = Gt;

    fn setup(rng: &mut StdRng, size: usize) -> (r: Result<Vec<G1>, InnerProductArgumentError>) {
        Ok(random_generators(rng, size))
    }

    fn commit(k: &[G1], m: &[G2]) -> (r: Result<Gt, InnerProductArgumentError>) {
        PairingInnerProduct::inner_product(k, m)
    }
}

} // verus!
