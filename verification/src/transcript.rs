//! The Fiat-Shamir transform: challenges read from the hash of what was
//! exchanged so far, by rejection sampling over a counter.

use crate::element::Element;
use crate::field::{finv, is_inverse, scalar_from_random_bytes, Scalar};
use blake2::Blake2b512;
use digest::Digest;
use vstd::prelude::*;

verus! {

/// The 64 bytes that `digest::Digest::digest` of `blake2::Blake2b512` makes
/// of a byte string.
pub uninterp spec fn blake2b_512(data: Seq<u8>) -> Seq<u8>;

/// `digest::Digest::digest` of `blake2::Blake2b512`: the BLAKE2b-512 hash of
/// the data. Its result depends on the data alone and is named.
#[verifier::external_body]
fn blake2b(data: &[u8]) -> (r: Vec<u8>)
    ensures
        r@ == blake2b_512(data@),
{
    Blake2b512::digest(data).to_vec()
}

/// The eight bytes of a counter, most significant first.
pub open spec fn counter_bytes(n: u64) -> Seq<u8> {
    seq![
        ((n / 0x100_0000_0000_0000) % 0x100) as u8,
        ((n / 0x1_0000_0000_0000) % 0x100) as u8,
        ((n / 0x100_0000_0000) % 0x100) as u8,
        ((n / 0x1_0000_0000) % 0x100) as u8,
        ((n / 0x100_0000) % 0x100) as u8,
        ((n / 0x1_0000) % 0x100) as u8,
        ((n / 0x100) % 0x100) as u8,
        (n % 0x100) as u8,
    ]
}

/// The field element that the hash of counter and payload yields, if any.
pub open spec fn candidate(counter: u64, payload: Seq<u8>) -> Option<nat> {
    scalar_from_random_bytes(blake2b_512(counter_bytes(counter) + payload))
}

/// Whether a candidate is taken as the challenge: where an inverse is
/// needed, only one that has an inverse.
pub open spec fn accepted(candidate: Option<nat>, invertible: bool) -> bool {
    candidate matches Some(c) && (invertible ==> is_inverse(c, finv(c)))
}

/// The challenge for a payload, searching from counter `from` upwards: the
/// candidate of the first counter whose candidate is accepted. `None` where
/// no counter of 64 bits has one.
#[verifier::opaque]
pub open spec fn challenge_from(payload: Seq<u8>, invertible: bool, from: nat) -> Option<nat>
    decreases 0x1_0000_0000_0000_0000 - from,
{
    if from >= 0x1_0000_0000_0000_0000 {
        None
    } else if accepted(candidate(from as u64, payload), invertible) {
        candidate(from as u64, payload)
    } else {
        challenge_from(payload, invertible, from + 1)
    }
}

/// The challenge for a payload: the search starts at counter zero.
pub open spec fn challenge(payload: Seq<u8>, invertible: bool) -> Option<nat> {
    challenge_from(payload, invertible, 0)
}

/// A challenge that was to have an inverse has one.
pub proof fn lemma_challenge_invertible(payload: Seq<u8>, from: nat)
    requires
        challenge_from(payload, true, from) is Some,
    ensures
        is_inverse(
            challenge_from(payload, true, from)->0,
            finv(challenge_from(payload, true, from)->0),
        ),
    decreases 0x1_0000_0000_0000_0000 - from,
{
    reveal_with_fuel(challenge_from, 2);
    if from < 0x1_0000_0000_0000_0000 && !accepted(candidate(from as u64, payload), true) {
        lemma_challenge_invertible(payload, from + 1);
    }
}

/// Appends a byte string to another.
pub fn append_bytes(out: &mut Vec<u8>, bytes: &[u8])
    ensures
        final(out)@ == old(out)@ + bytes@,
{
    let mut i: usize = 0;
    while i < bytes.len()
        invariant
            i <= bytes@.len(),
            out@ == old(out)@ + bytes@.take(i as int),
        decreases bytes@.len() - i,
    {
        out.push(bytes[i]);
        i += 1;
        assert(out@ =~= old(out)@ + bytes@.take(i as int));
    }
    assert(bytes@.take(i as int) =~= bytes@);
}

/// The hash input for a counter and a payload.
fn hash_input(counter: u64, payload: &[u8]) -> (r: Vec<u8>)
    ensures
        r@ == counter_bytes(counter) + payload@,
{
    let mut input: Vec<u8> = Vec::new();
    input.push(((counter / 0x100_0000_0000_0000) % 0x100) as u8);
    input.push(((counter / 0x1_0000_0000_0000) % 0x100) as u8);
    input.push(((counter / 0x100_0000_0000) % 0x100) as u8);
    input.push(((counter / 0x1_0000_0000) % 0x100) as u8);
    input.push(((counter / 0x100_0000) % 0x100) as u8);
    input.push(((counter / 0x1_0000) % 0x100) as u8);
    input.push(((counter / 0x100) % 0x100) as u8);
    input.push((counter % 0x100) as u8);
    assert(input@ =~= counter_bytes(counter));
    append_bytes(&mut input, payload);
    input
}

/// Derives a challenge for a payload: hashes counter and payload for the
/// counters from zero upwards and takes the first field element that comes
/// out.
pub fn derive_challenge(payload: &[u8]) -> (r: Option<Scalar>)
    ensures
        r is None <==> challenge(payload@, false) is None,
        r matches Some(c) ==> challenge(payload@, false) == Some(c.value()),
{
    let mut counter: u64 = 0;
    loop
        invariant
            challenge_from(payload@, false, counter as nat) == challenge(payload@, false),
        decreases u64::MAX - counter,
    {
        proof {
            reveal_with_fuel(challenge_from, 2);
        }
        let input = hash_input(counter, payload);
        let digest = blake2b(input.as_slice());
        match Scalar::from_random_bytes(digest.as_slice()) {
            Some(c) => {
                return Some(c);
            },
            None => {},
        }
        if counter == u64::MAX {
            assert(challenge_from(payload@, false, counter as nat + 1) is None);
            return None;
        }
        counter += 1;
    }
}

/// Derives a challenge with its inverse: as [`derive_challenge`], but takes
/// the first field element that has an inverse.
pub fn derive_invertible_challenge(payload: &[u8]) -> (r: Option<(Scalar, Scalar)>)
    ensures
        r is None <==> challenge(payload@, true) is None,
        r matches Some(pair) ==> challenge(payload@, true) == Some(pair.0.value()) && is_inverse(
            pair.0.value(),
            pair.1.value(),
        ) && pair.1.value() == finv(pair.0.value()),
{
    let mut counter: u64 = 0;
    loop
        invariant
            challenge_from(payload@, true, counter as nat) == challenge(payload@, true),
        decreases u64::MAX - counter,
    {
        proof {
            reveal_with_fuel(challenge_from, 2);
        }
        let input = hash_input(counter, payload);
        let digest = blake2b(input.as_slice());
        match Scalar::from_random_bytes(digest.as_slice()) {
            Some(c) => {
                match c.inverse() {
                    Some(c_inv) => {
                        return Some((c, c_inv));
                    },
                    None => {
                        assert(!is_inverse(c.value(), finv(c.value()))) by {
                            assert((0 * finv(c.value())) == 0);
                        }
                    },
                }
            },
            None => {},
        }
        if counter == u64::MAX {
            assert(challenge_from(payload@, true, counter as nat + 1) is None);
            return None;
        }
        counter += 1;
    }
}

} // verus!
