//! Doubly homomorphic commitments: commitments to a vector of messages
//! under a vector of keys that are linear in both.

use crate::algebra::dot;
use crate::element::{values, Element, Module};
use crate::gipa::InnerProductArgumentError;
use rand::rngs::StdRng;
use vstd::prelude::*;

pub mod afgho16;
pub mod identity;
pub mod pedersen;

verus! {

/// A commitment scheme whose commitment is bilinear in keys and messages:
/// on indices, the inner product of the two vectors.
pub trait DoublyHomomorphicCommitment {
    type Message: Module;

    type Key: Module;

    type Output: Module;

    /// Fresh commitment keys for vectors of `size` messages.
    fn setup(rng: &mut StdRng, size: usize) -> (r: Result<Vec<Self::Key>, InnerProductArgumentError>)
        ensures
            r is Ok,
            r->Ok_0@.len() == size,
    ;

    /// The commitment to the messages `m` under the keys `k`, which must be
    /// as many.
    fn commit(k: &[Self::Key], m: &[Self::Message]) -> (r: Result<
        Self::Output,
        InnerProductArgumentError,
    >)
        ensures
            k@.len() != m@.len() ==> r == Err::<Self::Output, InnerProductArgumentError>(
                InnerProductArgumentError::MessageLengthInvalid(k@.len() as usize, m@.len() as usize),
            ),
            k@.len() == m@.len() ==> r is Ok && r->Ok_0.value() == dot(values(k@), values(m@)),
    ;

    /// Whether `com` is the commitment to `m` under `k`.
    fn verify(k: &[Self::Key], m: &[Self::Message], com: &Self::Output) -> (r: Result<
        bool,
        InnerProductArgumentError,
    >)
        ensures
            k@.len() != m@.len() ==> r == Err::<bool, InnerProductArgumentError>(
                InnerProductArgumentError::MessageLengthInvalid(k@.len() as usize, m@.len() as usize),
            ),
            k@.len() == m@.len() ==> r == Ok::<bool, InnerProductArgumentError>(
                dot(values(k@), values(m@)) == com.value(),
            ),
    {
        match Self::commit(k, m) {
            Ok(c) => Ok(c.is_equal(com)),
            Err(e) => Err(e),
        }
    }
}

/// `num` random elements, as keys or as test messages.
pub fn random_generators<G: Element>(rng: &mut StdRng, num: usize) -> (r: Vec<G>)
    ensures
        r@.len() == num,
{
    let mut generators: Vec<G> = Vec::new();
    let mut i: usize = 0;
    while i < num
        invariant
            i <= num,
            generators@.len() == i,
        decreases num - i,
    {
        generators.push(G::random(rng));
        i += 1;
    }
    generators
}

} // verus!
