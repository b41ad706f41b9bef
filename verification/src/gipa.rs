//! The generalized inner product argument: the recursive halving protocol.
//!
//! The prover holds two vectors, committed to under two vectors of keys, and
//! their inner product. Each round splits vectors and keys in halves, commits
//! to the cross terms, takes a challenge from the hash of those commitments
//! and folds the halves with it, until one element of each is left.

use crate::algebra::{
    dot, fold_halves, lemma_dot_commutative, lemma_dot_fold, lemma_dot_single, lower, upper,
};
use crate::dh_commitments::DoublyHomomorphicCommitment;
use crate::element::{copy_elements, lemma_values_push, values, Element, Module};
use crate::field::{
    fadd, finv, fmul, is_inverse, lemma_fmul_associative, lemma_fmul_commutative,
    lemma_fmul_distributive, scalar_encoding, Scalar,
};
use crate::inner_products::InnerProduct;
use crate::transcript::{
    append_bytes, challenge, derive_invertible_challenge, lemma_challenge_invertible,
};
use std::marker::PhantomData;
use vstd::prelude::*;
use vstd::slice::slice_subrange;

verus! {

/// Why an argument could not be produced or checked.
#[derive(Clone, Copy, Debug, PartialEq, Eq)]
pub enum InnerProductArgumentError {
    /// The two vectors differ in length, or their length is no power of two.
    MessageLengthInvalid(usize, usize),
    /// The claimed inner product or one of the commitments does not fit the
    /// vectors.
    InnerProductInvalid,
    /// No field element could be read from the hash of a transcript.
    SerializationError,
    /// A scalar that had to be inverted is zero.
    InverseOfZero,
}

/// The character of a decimal digit.
pub open spec fn digit(d: nat) -> char {
    if d == 0 {
        '0'
    } else if d == 1 {
        '1'
    } else if d == 2 {
        '2'
    } else if d == 3 {
        '3'
    } else if d == 4 {
        '4'
    } else if d == 5 {
        '5'
    } else if d == 6 {
        '6'
    } else if d == 7 {
        '7'
    } else if d == 8 {
        '8'
    } else {
        '9'
    }
}

/// A number in decimal, without leading zeros.
pub open spec fn decimal(n: nat) -> Seq<char>
    decreases n,
{
    if n < 10 {
        seq![digit(n)]
    } else {
        decimal(n / 10).push(digit(n % 10))
    }
}

/// The message for two lengths that do not fit: the left one, then the
/// right one, in decimal.
pub open spec fn length_text(left: usize, right: usize) -> Seq<char> {
    "left length, right length: "@ + decimal(left as nat) + ", "@ + decimal(right as nat)
}

impl InnerProductArgumentError {
    /// What went wrong, in words.
    pub fn message(&self) -> (r: String)
        ensures
            *self matches InnerProductArgumentError::MessageLengthInvalid(left, right) ==> r@
                == length_text(left, right),
            *self == InnerProductArgumentError::InnerProductInvalid ==> r@
                == "inner product not sound"@,
            *self == InnerProductArgumentError::SerializationError ==> r@
                == "no field element could be read from a transcript"@,
            *self == InnerProductArgumentError::InverseOfZero ==> r@ == "inverse of zero"@,
    {
        match self {
            InnerProductArgumentError::MessageLengthInvalid(left, right) => {
                let mut text = "left length, right length: ".to_owned();
                text.append(decimal_text(*left).as_str());
                text.append(", ");
                text.append(decimal_text(*right).as_str());
                text
            },
            InnerProductArgumentError::InnerProductInvalid => "inner product not sound".to_owned(),
            InnerProductArgumentError::SerializationError => {
                "no field element could be read from a transcript".to_owned()
            },
            InnerProductArgumentError::InverseOfZero => "inverse of zero".to_owned(),
        }
    }
}

/// The digit `d` as a string of one character.
fn digit_text(d: usize) -> (r: &'static str)
    requires
        d < 10,
    ensures
        r@ == seq![digit(d as nat)],
{
    proof {
        reveal_strlit("0");
        reveal_strlit("1");
        reveal_strlit("2");
        reveal_strlit("3");
        reveal_strlit("4");
        reveal_strlit("5");
        reveal_strlit("6");
        reveal_strlit("7");
        reveal_strlit("8");
        reveal_strlit("9");
        assert("0"@ =~= seq!['0']);
        assert("1"@ =~= seq!['1']);
        assert("2"@ =~= seq!['2']);
        assert("3"@ =~= seq!['3']);
        assert("4"@ =~= seq!['4']);
        assert("5"@ =~= seq!['5']);
        assert("6"@ =~= seq!['6']);
        assert("7"@ =~= seq!['7']);
        assert("8"@ =~= seq!['8']);
        assert("9"@ =~= seq!['9']);
    }
    if d == 0 {
        "0"
    } else if d == 1 {
        "1"
    } else if d == 2 {
        "2"
    } else if d == 3 {
        "3"
    } else if d == 4 {
        "4"
    } else if d == 5 {
        "5"
    } else if d == 6 {
        "6"
    } else if d == 7 {
        "7"
    } else if d == 8 {
        "8"
    } else {
        "9"
    }
}

/// A number written in decimal, without leading zeros.
fn decimal_text(n: usize) -> (r: String)
    ensures
        r@ == decimal(n as nat),
    decreases n,
{
    if n < 10 {
        digit_text(n).to_owned()
    } else {
        let mut text = decimal_text(n / 10);
        text.append(digit_text(n % 10));
        proof {
            assert(text@ =~= decimal((n / 10) as nat).push(digit((n % 10) as nat)));
        }
        text
    }
}

/// Whether `n` is a power of two.
pub open spec fn is_power_of_two(n: nat) -> bool
    decreases n,
{
    n == 1 || (n >= 2 && n % 2 == 0 && is_power_of_two(n / 2))
}

/// Whether `n` is a power of two.
pub fn power_of_two(n: usize) -> (r: bool)
    ensures
        r == is_power_of_two(n as nat),
{
    if n == 0 {
        return false;
    }
    let mut m: usize = n;
    while m % 2 == 0
        invariant
            m >= 1,
            is_power_of_two(m as nat) == is_power_of_two(n as nat),
        decreases m,
    {
        m = m / 2;
    }
    m == 1
}

/// The indices of the six commitments that one round sends: the triple of
/// the left cross terms and the triple of the right ones.
pub struct Round {
    pub left: (nat, nat, nat),
    pub right: (nat, nat, nat),
}

/// What the prover arrives at, by the indices of all elements: the rounds
/// and their challenges, first round first, the two messages left at the
/// end, and the two keys left at the end.
pub struct Run {
    pub rounds: Seq<Round>,
    pub challenges: Seq<nat>,
    pub base: (nat, nat),
    pub ck_base: (nat, nat),
}

/// The indices of a triple of commitments.
pub open spec fn triple_values<A: Element, B: Element, C: Element>(t: (A, B, C)) -> (
    nat,
    nat,
    nat,
) {
    (t.0.value(), t.1.value(), t.2.value())
}

/// The indices of the commitments of one recorded round.
pub open spec fn step_values<A: Element, B: Element, C: Element>(
    step: ((A, B, C), (A, B, C)),
) -> Round {
    Round { left: triple_values(step.0), right: triple_values(step.1) }
}

/// The indices of the commitments of the recorded rounds.
pub open spec fn steps_values<A: Element, B: Element, C: Element>(
    steps: Seq<((A, B, C), (A, B, C))>,
) -> Seq<Round> {
    Seq::new(steps.len(), |i: int| step_values(steps[i]))
}

/// The bytes of a triple of commitments, one after the other.
pub open spec fn triple_encoding<A: Element, B: Element, C: Element>(t: (nat, nat, nat)) -> Seq<
    u8,
> {
    A::encoding(t.0) + B::encoding(t.1) + C::encoding(t.2)
}

/// What is hashed for the challenge of a round: the previous challenge, zero
/// in the first round, then the left and the right triple.
pub open spec fn round_payload<A: Element, B: Element, C: Element>(prev: nat, round: Round) -> Seq<
    u8,
> {
    scalar_encoding(prev) + triple_encoding::<A, B, C>(round.left) + triple_encoding::<A, B, C>(
        round.right,
    )
}

/// The bytes of the recorded rounds, first round first: of each round the
/// left triple, then the right triple.
pub open spec fn rounds_encoding<A: Element, B: Element, C: Element>(rounds: Seq<Round>) -> Seq<u8>
    decreases rounds.len(),
{
    if rounds.len() == 0 {
        Seq::empty()
    } else {
        rounds_encoding::<A, B, C>(rounds.drop_last()) + triple_encoding::<A, B, C>(
            rounds.last().left,
        ) + triple_encoding::<A, B, C>(rounds.last().right)
    }
}

/// The bytes of an argument: the rounds, then the two messages left at the
/// end.
pub open spec fn proof_encoding<A: Element, B: Element, C: Element, M: Element, N: Element>(
    rounds: Seq<Round>,
    base: (nat, nat),
) -> Seq<u8> {
    rounds_encoding::<A, B, C>(rounds) + M::encoding(base.0) + N::encoding(base.1)
}

/// The commitments of a round. The left triple commits to the upper half of
/// `a` under the lower half of its keys, to the lower half of `b` under the
/// upper half of its keys, and to their inner product; the right triple to
/// the other halves.
pub open spec fn cross_commitments(
    a: Seq<nat>,
    b: Seq<nat>,
    ka: Seq<nat>,
    kb: Seq<nat>,
    kt: nat,
) -> Round {
    Round {
        left: (
            dot(lower(ka), upper(a)),
            dot(upper(kb), lower(b)),
            fmul(kt, dot(upper(a), lower(b))),
        ),
        right: (
            dot(upper(ka), lower(a)),
            dot(lower(kb), upper(b)),
            fmul(kt, dot(lower(a), upper(b))),
        ),
    }
}

/// The run of the prover on vectors `a` and `b` with keys `ka`, `kb` and
/// `kt`, after the challenge `prev`. With challenge `c` of inverse `d`, a
/// round folds `a` and the keys of `b` by `c`, and `b` and the keys of `a`
/// by `d`. `None` where the hash yields no challenge for some round.
#[verifier::opaque]
pub open spec fn run<A: Element, B: Element, C: Element>(
    a: Seq<nat>,
    b: Seq<nat>,
    ka: Seq<nat>,
    kb: Seq<nat>,
    kt: nat,
    prev: nat,
) -> Option<Run>
    decreases a.len(),
{
    if a.len() <= 1 {
        Some(
            Run {
                rounds: Seq::empty(),
                challenges: Seq::empty(),
                base: (a[0], b[0]),
                ck_base: (ka[0], kb[0]),
            },
        )
    } else {
        let round = cross_commitments(a, b, ka, kb, kt);
        match challenge(round_payload::<A, B, C>(prev, round), true) {
            None => None,
            Some(c) => {
                let d = finv(c);
                match run::<A, B, C>(
                    fold_halves(a, c),
                    fold_halves(b, d),
                    fold_halves(ka, d),
                    fold_halves(kb, c),
                    kt,
                    c,
                ) {
                    None => None,
                    Some(rest) => Some(
                        Run {
                            rounds: seq![round] + rest.rounds,
                            challenges: seq![c] + rest.challenges,
                            base: rest.base,
                            ck_base: rest.ck_base,
                        },
                    ),
                }
            },
        }
    }
}

/// A run of more than one element is its first round and the run on the
/// folded vectors and keys.
pub proof fn lemma_run_unfold<A: Element, B: Element, C: Element>(
    a: Seq<nat>,
    b: Seq<nat>,
    ka: Seq<nat>,
    kb: Seq<nat>,
    kt: nat,
    prev: nat,
)
    requires
        a.len() > 1,
        run::<A, B, C>(a, b, ka, kb, kt, prev) is Some,
    ensures
        ({
            let round = cross_commitments(a, b, ka, kb, kt);
            let c = challenge(round_payload::<A, B, C>(prev, round), true);
            let rest = run::<A, B, C>(
                fold_halves(a, c->0),
                fold_halves(b, finv(c->0)),
                fold_halves(ka, finv(c->0)),
                fold_halves(kb, c->0),
                kt,
                c->0,
            );
            let r = run::<A, B, C>(a, b, ka, kb, kt, prev)->0;
            &&& c is Some
            &&& rest is Some
            &&& r.rounds == seq![round] + rest->0.rounds
            &&& r.challenges == seq![c->0] + rest->0.challenges
            &&& r.base == rest->0.base
            &&& r.ck_base == rest->0.ck_base
        }),
{
    reveal_with_fuel(run, 2);
}

/// A run on one element has no round.
pub proof fn lemma_run_base<A: Element, B: Element, C: Element>(
    a: Seq<nat>,
    b: Seq<nat>,
    ka: Seq<nat>,
    kb: Seq<nat>,
    kt: nat,
    prev: nat,
)
    requires
        a.len() <= 1,
    ensures
        run::<A, B, C>(a, b, ka, kb, kt, prev) == Some(
            Run {
                rounds: Seq::empty(),
                challenges: Seq::empty(),
                base: (a[0], b[0]),
                ck_base: (ka[0], kb[0]),
            },
        ),
{
    reveal_with_fuel(run, 2);
}

/// A commitment folded with the two cross commitments of a round:
/// `c * left + com + d * right`.
pub open spec fn fold_commitment(left: nat, com: nat, right: nat, c: nat, d: nat) -> nat {
    fadd(fadd(fmul(c, left), com), fmul(d, right))
}

/// The triple of commitments after a round of challenge `c` with inverse `d`.
pub open spec fn fold_triple(com: (nat, nat, nat), round: Round, c: nat, d: nat) -> (
    nat,
    nat,
    nat,
) {
    (
        fold_commitment(round.left.0, com.0, round.right.0, c, d),
        fold_commitment(round.left.1, com.1, round.right.1, c, d),
        fold_commitment(round.left.2, com.2, round.right.2, c, d),
    )
}

/// What the verifier arrives at from the commitments `com` and the recorded
/// rounds, after the challenge `prev`: the folded triple of commitments and
/// the challenges, first round first. `None` where the hash yields no
/// challenge for some round.
#[verifier::opaque]
pub open spec fn replay<A: Element, B: Element, C: Element>(
    com: (nat, nat, nat),
    rounds: Seq<Round>,
    prev: nat,
) -> Option<((nat, nat, nat), Seq<nat>)>
    decreases rounds.len(),
{
    if rounds.len() == 0 {
        Some((com, Seq::empty()))
    } else {
        match challenge(round_payload::<A, B, C>(prev, rounds[0]), true) {
            None => None,
            Some(c) => match replay::<A, B, C>(
                fold_triple(com, rounds[0], c, finv(c)),
                rounds.drop_first(),
                c,
            ) {
                None => None,
                Some(rest) => Some((rest.0, seq![c] + rest.1)),
            },
        }
    }
}

/// The verifier's result with the challenges `done` put before its own.
pub open spec fn prepend(done: Seq<nat>, rest: Option<((nat, nat, nat), Seq<nat>)>) -> Option<
    ((nat, nat, nat), Seq<nat>),
> {
    match rest {
        None => None,
        Some(r) => Some((r.0, done + r.1)),
    }
}

/// The state of the verifier before round `i`: with the commitments folded
/// to `folded`, the last challenge `prev` and the challenges `done` so far,
/// it will arrive where it arrives from the start.
#[verifier::opaque]
pub open spec fn replaying<A: Element, B: Element, C: Element>(
    start: (nat, nat, nat),
    rounds: Seq<Round>,
    i: int,
    folded: (nat, nat, nat),
    prev: nat,
    done: Seq<nat>,
) -> bool {
    0 <= i <= rounds.len() && replay::<A, B, C>(start, rounds, 0) == prepend(
        done,
        replay::<A, B, C>(folded, rounds.skip(i), prev),
    )
}

pub proof fn lemma_replay_start<A: Element, B: Element, C: Element>(
    start: (nat, nat, nat),
    rounds: Seq<Round>,
)
    ensures
        replaying::<A, B, C>(start, rounds, 0, start, 0, Seq::empty()),
{
    reveal(replaying);
    assert(rounds.skip(0) =~= rounds);
    if let Some(rest) = replay::<A, B, C>(start, rounds, 0) {
        assert(Seq::<nat>::empty() + rest.1 =~= rest.1);
    }
}

/// Where a round has no challenge, the verifier arrives nowhere.
pub proof fn lemma_replay_stuck<A: Element, B: Element, C: Element>(
    start: (nat, nat, nat),
    rounds: Seq<Round>,
    i: int,
    folded: (nat, nat, nat),
    prev: nat,
    done: Seq<nat>,
)
    requires
        i < rounds.len(),
        replaying::<A, B, C>(start, rounds, i, folded, prev, done),
        challenge(round_payload::<A, B, C>(prev, rounds[i]), true) is None,
    ensures
        replay::<A, B, C>(start, rounds, 0) is None,
{
    reveal(replaying);
    reveal_with_fuel(replay, 2);
    assert(rounds.skip(i)[0] == rounds[i]);
}

/// One round of the verifier: folding the commitments with the challenge of
/// round `i` leads to the state before round `i + 1`.
pub proof fn lemma_replay_advance<A: Element, B: Element, C: Element>(
    start: (nat, nat, nat),
    rounds: Seq<Round>,
    i: int,
    folded: (nat, nat, nat),
    prev: nat,
    done: Seq<nat>,
)
    requires
        i < rounds.len(),
        replaying::<A, B, C>(start, rounds, i, folded, prev, done),
        challenge(round_payload::<A, B, C>(prev, rounds[i]), true) is Some,
    ensures
        ({
            let c = challenge(round_payload::<A, B, C>(prev, rounds[i]), true)->0;
            replaying::<A, B, C>(
                start,
                rounds,
                i + 1,
                fold_triple(folded, rounds[i], c, finv(c)),
                c,
                done.push(c),
            )
        }),
{
    reveal(replaying);
    reveal_with_fuel(replay, 2);
    assert(rounds.skip(i)[0] == rounds[i]);
    assert(rounds.skip(i).drop_first() =~= rounds.skip(i + 1));
    let c = challenge(round_payload::<A, B, C>(prev, rounds[i]), true)->0;
    match replay::<A, B, C>(fold_triple(folded, rounds[i], c, finv(c)), rounds.skip(i + 1), c) {
        None => {},
        Some(rest) => {
            assert(done + (seq![c] + rest.1) =~= done.push(c) + rest.1);
        },
    }
}

/// After the last round the verifier has arrived.
pub proof fn lemma_replay_end<A: Element, B: Element, C: Element>(
    start: (nat, nat, nat),
    rounds: Seq<Round>,
    folded: (nat, nat, nat),
    prev: nat,
    done: Seq<nat>,
)
    requires
        replaying::<A, B, C>(start, rounds, rounds.len() as int, folded, prev, done),
    ensures
        replay::<A, B, C>(start, rounds, 0) == Some((folded, done)),
{
    reveal(replaying);
    reveal_with_fuel(replay, 2);
    assert(rounds.skip(rounds.len() as int) =~= Seq::<Round>::empty());
    assert(done + Seq::<nat>::empty() =~= done);
}

/// What `prove` returns, by the indices of all elements. It refuses vectors
/// whose lengths differ or are no power of two, then keys that are not as
/// many, then a claimed inner product `t` or a commitment that is not that
/// of the vectors, and else runs the protocol.
pub open spec fn prove_spec<A: Element, B: Element, C: Element>(
    a: Seq<nat>,
    b: Seq<nat>,
    t: nat,
    ka: Seq<nat>,
    kb: Seq<nat>,
    kt: nat,
    com: (nat, nat, nat),
) -> Result<Run, InnerProductArgumentError> {
    if a.len() != b.len() || !is_power_of_two(a.len()) {
        Err(InnerProductArgumentError::MessageLengthInvalid(a.len() as usize, b.len() as usize))
    } else if ka.len() != a.len() {
        Err(InnerProductArgumentError::MessageLengthInvalid(ka.len() as usize, a.len() as usize))
    } else if kb.len() != b.len() {
        Err(InnerProductArgumentError::MessageLengthInvalid(kb.len() as usize, b.len() as usize))
    } else if dot(a, b) != t || dot(ka, a) != com.0 || dot(kb, b) != com.1 || fmul(kt, t)
        != com.2 {
        Err(InnerProductArgumentError::InnerProductInvalid)
    } else {
        match run::<A, B, C>(a, b, ka, kb, kt, 0) {
            None => Err(InnerProductArgumentError::SerializationError),
            Some(r) => Ok(r),
        }
    }
}

/// The two keys that are left when the keys are folded in halves with the
/// challenges, those of the left vector by the inverses: `None` unless the
/// halvings come out even and end with one key each.
pub open spec fn folded_keys(ka: Seq<nat>, kb: Seq<nat>, challenges: Seq<nat>) -> Option<
    (nat, nat),
>
    decreases challenges.len(),
{
    if challenges.len() == 0 {
        if ka.len() == 1 && kb.len() == 1 {
            Some((ka[0], kb[0]))
        } else {
            None
        }
    } else if ka.len() < 2 || ka.len() % 2 != 0 || kb.len() != ka.len() {
        None
    } else {
        folded_keys(
            fold_halves(ka, finv(challenges[0])),
            fold_halves(kb, challenges[0]),
            challenges.drop_first(),
        )
    }
}

/// What `verify` returns, by the indices of all elements: whether the three
/// folded commitments are those to the two messages of the argument, under
/// the folded keys, and to their product.
pub open spec fn verify_spec<A: Element, B: Element, C: Element>(
    ka: Seq<nat>,
    kb: Seq<nat>,
    kt: nat,
    com: (nat, nat, nat),
    rounds: Seq<Round>,
    base: (nat, nat),
) -> Result<bool, InnerProductArgumentError> {
    if ka.len() != kb.len() || !is_power_of_two(ka.len()) {
        Err(InnerProductArgumentError::MessageLengthInvalid(ka.len() as usize, kb.len() as usize))
    } else {
        match replay::<A, B, C>(com, rounds, 0) {
            None => Err(InnerProductArgumentError::SerializationError),
            Some(folded) => match folded_keys(ka, kb, folded.1) {
                None => Ok(false),
                Some(keys) => Ok(
                    fmul(keys.0, base.0) == folded.0.0 && fmul(keys.1, base.1) == folded.0.1
                        && fmul(kt, fmul(base.0, base.1)) == folded.0.2,
                ),
            },
        }
    }
}

/// What `prove_with_aux` returns, which has no commitments to check.
pub open spec fn prove_with_aux_spec<A: Element, B: Element, C: Element>(
    a: Seq<nat>,
    b: Seq<nat>,
    ka: Seq<nat>,
    kb: Seq<nat>,
    kt: nat,
) -> Result<Run, InnerProductArgumentError> {
    if a.len() != b.len() || !is_power_of_two(a.len()) {
        Err(InnerProductArgumentError::MessageLengthInvalid(a.len() as usize, b.len() as usize))
    } else if ka.len() != a.len() {
        Err(InnerProductArgumentError::MessageLengthInvalid(ka.len() as usize, a.len() as usize))
    } else if kb.len() != b.len() {
        Err(InnerProductArgumentError::MessageLengthInvalid(kb.len() as usize, b.len() as usize))
    } else {
        match run::<A, B, C>(a, b, ka, kb, kt, 0) {
            None => Err(InnerProductArgumentError::SerializationError),
            Some(r) => Ok(r),
        }
    }
}

/// The multiple of a message, key or commitment by a scalar.
pub fn mul_helper<T: Module>(t: &T, f: &Scalar) -> (r: T)
    ensures
        r.value() == fmul(f.value(), t.value()),
{
    t.scale(f)
}

/// What is appended last comes first in the reverse: a sequence in reverse
/// and then `x` is the reverse of `x` and then the sequence.
pub proof fn lemma_reverse_push<T>(before: Seq<T>, rest: Seq<T>, x: T)
    ensures
        (before + rest.reverse()).push(x) == before + (seq![x] + rest).reverse(),
{
    assert((before + rest.reverse()).push(x) =~= before + (seq![x] + rest).reverse());
}

/// The vector with its elements in reverse order.
pub fn in_reverse<T>(v: Vec<T>) -> (r: Vec<T>)
    ensures
        r@ == v@.reverse(),
{
    let ghost all = v@;
    let mut rest = v;
    let mut out: Vec<T> = Vec::new();
    while rest.len() > 0
        invariant
            rest@.len() + out@.len() == all.len(),
            rest@ == all.take(rest@.len() as int),
            forall|j: int| 0 <= j < out@.len() ==> out@[j] == all[all.len() - 1 - j],
        decreases rest@.len(),
    {
        match rest.pop() {
            Some(last) => {
                out.push(last);
                assert(rest@ =~= all.take(rest@.len() as int));
            },
            None => {},
        }
    }
    assert(out@ =~= all.reverse());
    out
}

/// Folds a vector of even length in halves: `c` times the upper half plus
/// the lower half.
pub fn fold_elements<T: Module>(v: &[T], c: &Scalar) -> (r: Vec<T>)
    requires
        v@.len() % 2 == 0,
    ensures
        values(r@) == fold_halves(values(v@), c.value()),
{
    let split: usize = v.len() / 2;
    let mut folded: Vec<T> = Vec::new();
    let mut i: usize = 0;
    while i < split
        invariant
            i <= split,
            split * 2 == v.len(),
            folded@.len() == i,
            forall|j: int|
                0 <= j < i ==> (#[trigger] folded@[j]).value() == fadd(
                    fmul(c.value(), v@[split + j].value()),
                    v@[j].value(),
                ),
        decreases split - i,
    {
        let scaled = mul_helper(&v[split + i], c);
        folded.push(scaled.add(&v[i]));
        i += 1;
    }
    assert(values(folded@) =~= fold_halves(values(v@), c.value()));
    folded
}

/// Appends the bytes of a triple of commitments, one after the other.
pub fn push_triple<A: Module, B: Module, C: Module>(out: &mut Vec<u8>, t: &(A, B, C))
    ensures
        final(out)@ == old(out)@ + triple_encoding::<A, B, C>(triple_values(*t)),
{
    let first = t.0.to_bytes();
    let second = t.1.to_bytes();
    let third = t.2.to_bytes();
    append_bytes(out, first.as_slice());
    append_bytes(out, second.as_slice());
    append_bytes(out, third.as_slice());
    assert(out@ =~= old(out)@ + triple_encoding::<A, B, C>(triple_values(*t)));
}

/// The challenge of a round and its inverse, from the previous challenge and
/// the two triples of the round.
pub fn round_challenge<A: Module, B: Module, C: Module>(
    prev: &Scalar,
    left: &(A, B, C),
    right: &(A, B, C),
) -> (r: Option<(Scalar, Scalar)>)
    ensures
        r is None <==> challenge(
            round_payload::<A, B, C>(prev.value(), step_values((*left, *right))),
            true,
        ) is None,
        r matches Some(pair) ==> challenge(
            round_payload::<A, B, C>(prev.value(), step_values((*left, *right))),
            true,
        ) == Some(pair.0.value()) && is_inverse(pair.0.value(), pair.1.value()) && pair.1.value()
            == finv(pair.0.value()),
{
    let mut payload = prev.to_bytes();
    push_triple(&mut payload, left);
    push_triple(&mut payload, right);
    assert(payload@ =~= round_payload::<A, B, C>(prev.value(), step_values((*left, *right))));
    derive_invertible_challenge(payload.as_slice())
}

/// Folds a triple of commitments with the two triples of a round:
/// `c * left + com + c_inv * right` in each place.
pub fn fold_commitments<A: Module, B: Module, C: Module>(
    com: &(A, B, C),
    step: &((A, B, C), (A, B, C)),
    c: &Scalar,
    c_inv: &Scalar,
) -> (r: (A, B, C))
    ensures
        triple_values(r) == fold_triple(
            triple_values(*com),
            step_values(*step),
            c.value(),
            c_inv.value(),
        ),
{
    (
        mul_helper(&step.0.0, c).add(&com.0).add(&mul_helper(&step.1.0, c_inv)),
        mul_helper(&step.0.1, c).add(&com.1).add(&mul_helper(&step.1.1, c_inv)),
        mul_helper(&step.0.2, c).add(&com.2).add(&mul_helper(&step.1.2, c_inv)),
    )
}

/// One round of the verifier: the challenge of the round and the triple of
/// commitments folded with it.
pub fn replay_round<A: Module, B: Module, C: Module>(
    com: &(A, B, C),
    step: &((A, B, C), (A, B, C)),
    prev: &Scalar,
) -> (r: Option<((A, B, C), Scalar)>)
    ensures
        r is None <==> challenge(
            round_payload::<A, B, C>(prev.value(), step_values(*step)),
            true,
        ) is None,
        r matches Some(pair) ==> challenge(
            round_payload::<A, B, C>(prev.value(), step_values(*step)),
            true,
        ) == Some(pair.1.value()) && triple_values(pair.0) == fold_triple(
            triple_values(*com),
            step_values(*step),
            pair.1.value(),
            finv(pair.1.value()),
        ),
{
    assert((step.0, step.1) == *step);
    match round_challenge(prev, &step.0, &step.1) {
        Some(pair) => {
            let folded = fold_commitments(com, step, &pair.0, &pair.1);
            Some((folded, pair.0))
        },
        None => None,
    }
}

/// The halving argument for the inner product `IP`, with the commitment
/// schemes `LMC` for the left vector, `RMC` for the right vector and `IPC`
/// for the inner product.
pub struct GIPA<IP, LMC, RMC, IPC> {
    _inner_product: PhantomData<IP>,
    _left_commitment: PhantomData<LMC>,
    _right_commitment: PhantomData<RMC>,
    _inner_product_commitment: PhantomData<IPC>,
}

/// The argument: the commitments of each round, first round first, and the
/// two messages left at the end.
pub struct GIPAProof<IP, LMC, RMC, IPC> where
    IP: InnerProduct<
        LeftMessage = LMC::Message,
        RightMessage = RMC::Message,
        Output = IPC::Message,
    >,
    LMC: DoublyHomomorphicCommitment,
    RMC: DoublyHomomorphicCommitment,
    IPC: DoublyHomomorphicCommitment,
 {
    pub r_commitment_steps: Vec<
        (
            (LMC::Output, RMC::Output, IPC::Output),
            (LMC::Output, RMC::Output, IPC::Output),
        ),
    >,
    pub r_base: (LMC::Message, RMC::Message),
    pub _gipa: PhantomData<GIPA<IP, LMC, RMC, IPC>>,
}

/// What the prover learns beside the argument: the challenges, first round
/// first, and the two keys left at the end.
pub struct GIPAAux<IP, LMC, RMC, IPC> where
    IP: InnerProduct<
        LeftMessage = LMC::Message,
        RightMessage = RMC::Message,
        Output = IPC::Message,
    >,
    LMC: DoublyHomomorphicCommitment,
    RMC: DoublyHomomorphicCommitment,
    IPC: DoublyHomomorphicCommitment,
 {
    pub r_transcript: Vec<Scalar>,
    pub ck_base: (LMC::Key, RMC::Key),
    pub _gipa: PhantomData<GIPA<IP, LMC, RMC, IPC>>,
}

impl<IP, LMC, RMC, IPC> GIPAProof<IP, LMC, RMC, IPC> where
    IP: InnerProduct<
        LeftMessage = LMC::Message,
        RightMessage = RMC::Message,
        Output = IPC::Message,
    >,
    LMC: DoublyHomomorphicCommitment,
    RMC: DoublyHomomorphicCommitment,
    IPC: DoublyHomomorphicCommitment,
 {
    /// The indices of the commitments of the rounds, first round first.
    pub open spec fn rounds(&self) -> Seq<Round> {
        steps_values(self.r_commitment_steps@)
    }

    /// The indices of the two messages left at the end.
    pub open spec fn base(&self) -> (nat, nat) {
        (self.r_base.0.value(), self.r_base.1.value())
    }

    /// The bytes of the argument: the rounds, first round first, then the
    /// two messages left at the end.
    pub fn to_bytes(&self) -> (bytes: Vec<u8>)
        ensures
            bytes@ == proof_encoding::<
                LMC::Output,
                RMC::Output,
                IPC::Output,
                LMC::Message,
                RMC::Message,
            >(self.rounds(), self.base()),
    {
        let mut out = rounds_to_bytes(&self.r_commitment_steps);
        let left = self.r_base.0.to_bytes();
        let right = self.r_base.1.to_bytes();
        append_bytes(&mut out, left.as_slice());
        append_bytes(&mut out, right.as_slice());
        out
    }
}

/// The bytes of recorded rounds, first round first.
pub fn rounds_to_bytes<A: Module, B: Module, C: Module>(steps: &Vec<((A, B, C), (A, B, C))>) -> (r:
    Vec<u8>)
    ensures
        r@ == rounds_encoding::<A, B, C>(steps_values(steps@)),
{
    let mut out: Vec<u8> = Vec::new();
    let mut i: usize = 0;
    proof {
        assert(steps_values(steps@).take(0) =~= Seq::<Round>::empty());
    }
    while i < steps.len()
        invariant
            i <= steps@.len(),
            out@ == rounds_encoding::<A, B, C>(steps_values(steps@).take(i as int)),
        decreases steps@.len() - i,
    {
        let ghost before = out@;
        push_triple(&mut out, &steps[i].0);
        push_triple(&mut out, &steps[i].1);
        i += 1;
        proof {
            let done = steps_values(steps@).take(i as int);
            assert(done.drop_last() =~= steps_values(steps@).take(i - 1));
            assert(done.last() == step_values(steps@[i - 1]));
        }
    }
    proof {
        assert(steps_values(steps@).take(i as int) =~= steps_values(steps@));
    }
    out
}

impl<IP, LMC, RMC, IPC> GIPAAux<IP, LMC, RMC, IPC> where
    IP: InnerProduct<
        LeftMessage = LMC::Message,
        RightMessage = RMC::Message,
        Output = IPC::Message,
    >,
    LMC: DoublyHomomorphicCommitment,
    RMC: DoublyHomomorphicCommitment,
    IPC: DoublyHomomorphicCommitment,
 {
    /// The challenges, first round first.
    pub open spec fn challenges(&self) -> Seq<nat> {
        values(self.r_transcript@)
    }

    /// The indices of the two keys left at the end.
    pub open spec fn keys(&self) -> (nat, nat) {
        (self.ck_base.0.value(), self.ck_base.1.value())
    }
}

impl<IP, LMC, RMC, IPC> GIPA<IP, LMC, RMC, IPC> where
    IP: InnerProduct<
        LeftMessage = LMC::Message,
        RightMessage = RMC::Message,
        Output = IPC::Message,
    >,
    LMC: DoublyHomomorphicCommitment,
    RMC: DoublyHomomorphicCommitment,
    IPC: DoublyHomomorphicCommitment,
 {
    /// Produces the argument for vectors whose inner product and commitments
    /// are given, after checking them. Returns the rounds, the two messages
    /// left at the end, and the challenges. Rounds and challenges come out
    /// of the recursion last round first and are put in reverse, so that
    /// those of the first halving come first.
    pub fn prove(
        values: (&[IP::LeftMessage], &[IP::RightMessage], &IP::Output),
        ck: (&[LMC::Key], &[RMC::Key], &IPC::Key),
        com: (&LMC::Output, &RMC::Output, &IPC::Output),
    ) -> (r: Result<
        (
            Vec<
                (
                    (LMC::Output, RMC::Output, IPC::Output),
                    (LMC::Output, RMC::Output, IPC::Output),
                ),
            >,
            (LMC::Message, RMC::Message),
            Vec<Scalar>,
        ),
        InnerProductArgumentError,
    >)
        ensures
            match r {
                Ok(proof) => prove_spec::<LMC::Output, RMC::Output, IPC::Output>(
                    crate::element::values(values.0@),
                    crate::element::values(values.1@),
                    values.2.value(),
                    crate::element::values(ck.0@),
                    crate::element::values(ck.1@),
                    ck.2.value(),
                    triple_values((*com.0, *com.1, *com.2)),
                ) matches Ok(run) && steps_values(proof.0@) == run.rounds && proof.1.0.value()
                    == run.base.0 && proof.1.1.value() == run.base.1
                    && crate::element::values(proof.2@) == run.challenges,
                Err(e) => prove_spec::<LMC::Output, RMC::Output, IPC::Output>(
                    crate::element::values(values.0@),
                    crate::element::values(values.1@),
                    values.2.value(),
                    crate::element::values(ck.0@),
                    crate::element::values(ck.1@),
                    ck.2.value(),
                    triple_values((*com.0, *com.1, *com.2)),
                ) == Err::<Run, InnerProductArgumentError>(e),
            },
    {
        let n = values.0.len();
        if n != values.1.len() || !power_of_two(n) {
            return Err(InnerProductArgumentError::MessageLengthInvalid(n, values.1.len()));
        }
        if ck.0.len() != n {
            return Err(InnerProductArgumentError::MessageLengthInvalid(ck.0.len(), n));
        }
        if ck.1.len() != n {
            return Err(InnerProductArgumentError::MessageLengthInvalid(ck.1.len(), n));
        }
        let product = IP::inner_product(values.0, values.1)?;
        if !product.is_equal(values.2) {
            return Err(InnerProductArgumentError::InnerProductInvalid);
        }
        let mut ck_t: Vec<IPC::Key> = Vec::new();
        ck_t.push(ck.2.duplicate());
        let mut t: Vec<IPC::Message> = Vec::new();
        t.push(values.2.duplicate());
        proof {
            lemma_dot_single(crate::element::values(ck_t@), crate::element::values(t@));
        }
        let left_fits = LMC::verify(ck.0, values.0, com.0)?;
        let right_fits = RMC::verify(ck.1, values.1, com.1)?;
        let product_fits = IPC::verify(ck_t.as_slice(), t.as_slice(), com.2)?;
        if !(left_fits && right_fits && product_fits) {
            return Err(InnerProductArgumentError::InnerProductInvalid);
        }
        let mut steps = Vec::new();
        let mut transcript: Vec<Scalar> = Vec::new();
        let zero = Scalar::zero();
        let (base, _) = Self::recursive_prove(
            (values.0, values.1),
            ck,
            &zero,
            &mut steps,
            &mut transcript,
        )?;
        let ghost emitted = steps@;
        let ghost drawn = transcript@;
        let steps = in_reverse(steps);
        let transcript = in_reverse(transcript);
        proof {
            let run = run::<LMC::Output, RMC::Output, IPC::Output>(
                crate::element::values(values.0@),
                crate::element::values(values.1@),
                crate::element::values(ck.0@),
                crate::element::values(ck.1@),
                ck.2.value(),
                0,
            )->0;
            assert(steps_values::<LMC::Output, RMC::Output, IPC::Output>(Seq::empty())
                =~= Seq::<Round>::empty());
            assert(crate::element::values::<Scalar>(Seq::empty()) =~= Seq::<nat>::empty());
            assert(steps_values(emitted) =~= run.rounds.reverse());
            assert(crate::element::values(drawn) =~= run.challenges.reverse());
            assert(steps_values(steps@) =~= steps_values(emitted).reverse());
            assert(crate::element::values(transcript@) =~= crate::element::values(
                drawn,
            ).reverse());
            assert(run.rounds.reverse().reverse() =~= run.rounds);
            assert(run.challenges.reverse().reverse() =~= run.challenges);
        }
        Ok((steps, base, transcript))
    }

    /// Produces the argument for vectors and keys alone: the argument, and
    /// beside it the challenges and the two keys left at the end. Rounds
    /// and challenges are in the order of the halvings, the first first.
    pub fn prove_with_aux(
        values: (&[IP::LeftMessage], &[IP::RightMessage]),
        ck: (&[LMC::Key], &[RMC::Key], &IPC::Key),
    ) -> (r: Result<
        (GIPAProof<IP, LMC, RMC, IPC>, GIPAAux<IP, LMC, RMC, IPC>),
        InnerProductArgumentError,
    >)
        ensures
            match r {
                Ok(pair) => prove_with_aux_spec::<LMC::Output, RMC::Output, IPC::Output>(
                    crate::element::values(values.0@),
                    crate::element::values(values.1@),
                    crate::element::values(ck.0@),
                    crate::element::values(ck.1@),
                    ck.2.value(),
                ) matches Ok(run) && pair.0.rounds() == run.rounds && pair.0.base() == run.base
                    && pair.1.challenges() == run.challenges && pair.1.keys() == run.ck_base,
                Err(e) => prove_with_aux_spec::<LMC::Output, RMC::Output, IPC::Output>(
                    crate::element::values(values.0@),
                    crate::element::values(values.1@),
                    crate::element::values(ck.0@),
                    crate::element::values(ck.1@),
                    ck.2.value(),
                ) == Err::<Run, InnerProductArgumentError>(e),
            },
    {
        let n = values.0.len();
        if n != values.1.len() || !power_of_two(n) {
            return Err(InnerProductArgumentError::MessageLengthInvalid(n, values.1.len()));
        }
        if ck.0.len() != n {
            return Err(InnerProductArgumentError::MessageLengthInvalid(ck.0.len(), n));
        }
        if ck.1.len() != n {
            return Err(InnerProductArgumentError::MessageLengthInvalid(ck.1.len(), n));
        }
        let mut steps = Vec::new();
        let mut transcript: Vec<Scalar> = Vec::new();
        let zero = Scalar::zero();
        let (base, ck_base) = Self::recursive_prove(
            values,
            ck,
            &zero,
            &mut steps,
            &mut transcript,
        )?;
        let ghost emitted = steps@;
        let ghost drawn = transcript@;
        let steps = in_reverse(steps);
        let transcript = in_reverse(transcript);
        proof {
            let run = run::<LMC::Output, RMC::Output, IPC::Output>(
                crate::element::values(values.0@),
                crate::element::values(values.1@),
                crate::element::values(ck.0@),
                crate::element::values(ck.1@),
                ck.2.value(),
                0,
            )->0;
            assert(steps_values::<LMC::Output, RMC::Output, IPC::Output>(Seq::empty())
                =~= Seq::<Round>::empty());
            assert(crate::element::values::<Scalar>(Seq::empty()) =~= Seq::<nat>::empty());
            assert(steps_values(emitted) =~= run.rounds.reverse());
            assert(crate::element::values(drawn) =~= run.challenges.reverse());
            assert(steps_values(steps@) =~= steps_values(emitted).reverse());
            assert(crate::element::values(transcript@) =~= crate::element::values(
                drawn,
            ).reverse());
            assert(run.rounds.reverse().reverse() =~= run.rounds);
            assert(run.challenges.reverse().reverse() =~= run.challenges);
        }
        Ok(
            (
                GIPAProof { r_commitment_steps: steps, r_base: base, _gipa: PhantomData },
                GIPAAux { r_transcript: transcript, ck_base, _gipa: PhantomData },
            ),
        )
    }

    /// Runs the rounds from the given vectors and keys on, after the
    /// challenge `transcript`. Appends the commitments and the challenge of
    /// each round to `steps` and `challenges` in reverse order, those of the
    /// last round first and those of the first halving last, and returns the
    /// two messages and the two keys left at the end.
    pub fn recursive_prove(
        values: (&[IP::LeftMessage], &[IP::RightMessage]),
        ck: (&[LMC::Key], &[RMC::Key], &IPC::Key),
        transcript: &Scalar,
        steps: &mut Vec<
            (
                (LMC::Output, RMC::Output, IPC::Output),
                (LMC::Output, RMC::Output, IPC::Output),
            ),
        >,
        challenges: &mut Vec<Scalar>,
    ) -> (r: Result<
        ((LMC::Message, RMC::Message), (LMC::Key, RMC::Key)),
        InnerProductArgumentError,
    >)
        requires
            is_power_of_two(values.0@.len()),
            values.1@.len() == values.0@.len(),
            ck.0@.len() == values.0@.len(),
            ck.1@.len() == values.0@.len(),
        ensures
            match r {
                Ok(pair) => run::<LMC::Output, RMC::Output, IPC::Output>(
                    crate::element::values(values.0@),
                    crate::element::values(values.1@),
                    crate::element::values(ck.0@),
                    crate::element::values(ck.1@),
                    ck.2.value(),
                    transcript.value(),
                ) matches Some(run) && steps_values(final(steps)@) == steps_values(old(steps)@)
                    + run.rounds.reverse() && crate::element::values(final(challenges)@)
                    == crate::element::values(old(challenges)@) + run.challenges.reverse()
                    && pair.0.0.value() == run.base.0 && pair.0.1.value() == run.base.1
                    && pair.1.0.value() == run.ck_base.0 && pair.1.1.value() == run.ck_base.1,
                Err(e) => e == InnerProductArgumentError::SerializationError && run::<
                    LMC::Output,
                    RMC::Output,
                    IPC::Output,
                >(
                    crate::element::values(values.0@),
                    crate::element::values(values.1@),
                    crate::element::values(ck.0@),
                    crate::element::values(ck.1@),
                    ck.2.value(),
                    transcript.value(),
                ) is None,
            },
        decreases values.0@.len(),
    {
        let (m_a, m_b) = values;
        let (ck_a, ck_b, ck_t) = ck;
        let n = m_a.len();
        proof {
            reveal_with_fuel(run, 2);
        }
        if n == 1 {
            proof {
                assert(steps_values(steps@) + Seq::<Round>::empty().reverse() =~= steps_values(
                    steps@,
                ));
                assert(crate::element::values(challenges@) + Seq::<nat>::empty().reverse()
                    =~= crate::element::values(challenges@));
            }
            return Ok(
                ((m_a[0].duplicate(), m_b[0].duplicate()), (ck_a[0].duplicate(), ck_b[0].duplicate())),
            );
        }
        let split: usize = n / 2;

        let m_a_1 = slice_subrange(m_a, split, n);
        let m_a_2 = slice_subrange(m_a, 0, split);
        let ck_a_1 = slice_subrange(ck_a, 0, split);
        let ck_a_2 = slice_subrange(ck_a, split, n);

        let m_b_1 = slice_subrange(m_b, 0, split);
        let m_b_2 = slice_subrange(m_b, split, n);
        let ck_b_1 = slice_subrange(ck_b, split, n);
        let ck_b_2 = slice_subrange(ck_b, 0, split);

        let mut key_t: Vec<IPC::Key> = Vec::new();
        key_t.push(ck_t.duplicate());

        proof {
            let a = crate::element::values(m_a@);
            let b = crate::element::values(m_b@);
            let ka = crate::element::values(ck_a@);
            let kb = crate::element::values(ck_b@);
            assert(crate::element::values(m_a_1@) =~= upper(a));
            assert(crate::element::values(m_a_2@) =~= lower(a));
            assert(crate::element::values(ck_a_1@) =~= lower(ka));
            assert(crate::element::values(ck_a_2@) =~= upper(ka));
            assert(crate::element::values(m_b_1@) =~= lower(b));
            assert(crate::element::values(m_b_2@) =~= upper(b));
            assert(crate::element::values(ck_b_1@) =~= upper(kb));
            assert(crate::element::values(ck_b_2@) =~= lower(kb));
        }

        let mut cross_1: Vec<IPC::Message> = Vec::new();
        cross_1.push(IP::inner_product(m_a_1, m_b_1)?);
        let mut cross_2: Vec<IPC::Message> = Vec::new();
        cross_2.push(IP::inner_product(m_a_2, m_b_2)?);
        proof {
            lemma_dot_single(crate::element::values(key_t@), crate::element::values(cross_1@));
            lemma_dot_single(crate::element::values(key_t@), crate::element::values(cross_2@));
        }

        let com_1 = (
            LMC::commit(ck_a_1, m_a_1)?,
            RMC::commit(ck_b_1, m_b_1)?,
            IPC::commit(key_t.as_slice(), cross_1.as_slice())?,
        );
        let com_2 = (
            LMC::commit(ck_a_2, m_a_2)?,
            RMC::commit(ck_b_2, m_b_2)?,
            IPC::commit(key_t.as_slice(), cross_2.as_slice())?,
        );
        let ghost round = cross_commitments(
            crate::element::values(m_a@),
            crate::element::values(m_b@),
            crate::element::values(ck_a@),
            crate::element::values(ck_b@),
            ck_t.value(),
        );
        assert(step_values((com_1, com_2)) == round);

        // Fiat-Shamir challenge
        let (c, c_inv) = match round_challenge(transcript, &com_1, &com_2) {
            Some(pair) => pair,
            None => {
                return Err(InnerProductArgumentError::SerializationError);
            },
        };

        // Set up values for next step of recursion
        let m_a_recurse = fold_elements(m_a, &c);
        let m_b_recurse = fold_elements(m_b, &c_inv);
        let ck_a_recurse = fold_elements(ck_a, &c_inv);
        let ck_b_recurse = fold_elements(ck_b, &c);

        let ghost steps_before = steps@;
        let ghost challenges_before = challenges@;

        let result = Self::recursive_prove(
            (m_a_recurse.as_slice(), m_b_recurse.as_slice()),
            (ck_a_recurse.as_slice(), ck_b_recurse.as_slice(), ck_t),
            &c,
            steps,
            challenges,
        )?;
        let ghost steps_mid = steps@;
        let ghost challenges_mid = challenges@;
        steps.push((com_1, com_2));
        challenges.push(c.duplicate());
        proof {
            let rest = run::<LMC::Output, RMC::Output, IPC::Output>(
                crate::element::values(m_a_recurse@),
                crate::element::values(m_b_recurse@),
                crate::element::values(ck_a_recurse@),
                crate::element::values(ck_b_recurse@),
                ck_t.value(),
                c.value(),
            )->0;
            assert(steps_values(steps@) =~= steps_values(steps_mid).push(round));
            assert(crate::element::values(challenges@) =~= crate::element::values(
                challenges_mid,
            ).push(c.value()));
            lemma_reverse_push(steps_values(steps_before), rest.rounds, round);
            lemma_reverse_push(
                crate::element::values(challenges_before),
                rest.challenges,
                c.value(),
            );
        }
        Ok(result)
    }

    /// Recomputes the challenges from the recorded rounds and folds the
    /// three commitments with them. Returns the folded commitments and the
    /// challenges, first round first.
    pub fn replay_rounds(
        com: (&LMC::Output, &RMC::Output, &IPC::Output),
        steps: &Vec<
            (
                (LMC::Output, RMC::Output, IPC::Output),
                (LMC::Output, RMC::Output, IPC::Output),
            ),
        >,
    ) -> (r: Result<
        ((LMC::Output, RMC::Output, IPC::Output), Vec<Scalar>),
        InnerProductArgumentError,
    >)
        ensures
            match r {
                Ok(pair) => replay::<LMC::Output, RMC::Output, IPC::Output>(
                    triple_values((*com.0, *com.1, *com.2)),
                    steps_values(steps@),
                    0,
                ) matches Some(rest) && triple_values(pair.0) == rest.0
                    && crate::element::values(pair.1@) == rest.1,
                Err(e) => e == InnerProductArgumentError::SerializationError && replay::<
                    LMC::Output,
                    RMC::Output,
                    IPC::Output,
                >(triple_values((*com.0, *com.1, *com.2)), steps_values(steps@), 0) is None,
            },
    {
        let mut folded = (com.0.duplicate(), com.1.duplicate(), com.2.duplicate());
        let mut r_transcript: Vec<Scalar> = Vec::new();
        let mut prev = Scalar::zero();
        let ghost start = triple_values((*com.0, *com.1, *com.2));
        let ghost rounds = steps_values(steps@);
        let mut i: usize = 0;
        proof {
            lemma_replay_start::<LMC::Output, RMC::Output, IPC::Output>(start, rounds);
            assert(crate::element::values(r_transcript@) =~= Seq::<nat>::empty());
        }
        while i < steps.len()
            invariant
                i <= steps@.len(),
                rounds == steps_values(steps@),
                start == triple_values((*com.0, *com.1, *com.2)),
                replaying::<LMC::Output, RMC::Output, IPC::Output>(
                    start,
                    rounds,
                    i as int,
                    triple_values(folded),
                    prev.value(),
                    crate::element::values(r_transcript@),
                ),
            decreases steps@.len() - i,
        {
            let step = &steps[i];
            let ghost before = triple_values(folded);
            let ghost prev_before = prev.value();
            let ghost done = crate::element::values(r_transcript@);
            assert(rounds[i as int] == step_values(*step));
            match replay_round(&folded, step, &prev) {
                Some(pair) => {
                    let copy = pair.1.duplicate();
                    proof {
                        lemma_values_push(r_transcript@, copy);
                    }
                    folded = pair.0;
                    r_transcript.push(copy);
                    prev = pair.1;
                },
                None => {
                    proof {
                        lemma_replay_stuck::<LMC::Output, RMC::Output, IPC::Output>(
                            start,
                            rounds,
                            i as int,
                            before,
                            prev_before,
                            done,
                        );
                    }
                    return Err(InnerProductArgumentError::SerializationError);
                },
            }
            proof {
                lemma_replay_advance::<LMC::Output, RMC::Output, IPC::Output>(
                    start,
                    rounds,
                    i as int,
                    before,
                    prev_before,
                    done,
                );
            }
            i += 1;
        }
        proof {
            lemma_replay_end::<LMC::Output, RMC::Output, IPC::Output>(
                start,
                rounds,
                triple_values(folded),
                prev.value(),
                crate::element::values(r_transcript@),
            );
        }
        Ok((folded, r_transcript))
    }

    /// Checks an argument against the three commitments, under the keys of
    /// the vectors: folds commitments and keys with the challenges and
    /// compares.
    pub fn verify(
        ck: (&[LMC::Key], &[RMC::Key], &IPC::Key),
        com: (&LMC::Output, &RMC::Output, &IPC::Output),
        proof: &GIPAProof<IP, LMC, RMC, IPC>,
    ) -> (r: Result<bool, InnerProductArgumentError>)
        ensures
            r == verify_spec::<LMC::Output, RMC::Output, IPC::Output>(
                crate::element::values(ck.0@),
                crate::element::values(ck.1@),
                ck.2.value(),
                triple_values((*com.0, *com.1, *com.2)),
                proof.rounds(),
                proof.base(),
            ),
    {
        if ck.0.len() != ck.1.len() || !power_of_two(ck.0.len()) {
            return Err(InnerProductArgumentError::MessageLengthInvalid(ck.0.len(), ck.1.len()));
        }
        let (base_com, transcript) = Self::verify_recursive_challenge_transcript(com, proof)?;
        let ghost challenges = crate::element::values(transcript@);
        proof {
            lemma_replay_challenges::<LMC::Output, RMC::Output, IPC::Output>(
                triple_values((*com.0, *com.1, *com.2)),
                proof.rounds(),
                0,
            );
            assert(challenges.skip(0) =~= challenges);
        }
        let mut ck_a = copy_elements(ck.0);
        let mut ck_b = copy_elements(ck.1);
        let mut i: usize = 0;
        while i < transcript.len()
            invariant
                i <= transcript@.len(),
                challenges == crate::element::values(transcript@),
                ck.0@.len() == ck.1@.len(),
                is_power_of_two(ck.0@.len()),
                replay::<LMC::Output, RMC::Output, IPC::Output>(
                    triple_values((*com.0, *com.1, *com.2)),
                    proof.rounds(),
                    0,
                ) == Some((triple_values(base_com), challenges)),
                forall|j: int|
                    0 <= j < challenges.len() ==> is_inverse(
                        #[trigger] challenges[j],
                        finv(challenges[j]),
                    ),
                folded_keys(
                    crate::element::values(ck.0@),
                    crate::element::values(ck.1@),
                    challenges,
                ) == folded_keys(
                    crate::element::values(ck_a@),
                    crate::element::values(ck_b@),
                    challenges.skip(i as int),
                ),
            decreases transcript@.len() - i,
        {
            proof {
                assert(challenges.skip(i as int)[0] == challenges[i as int]);
                assert(challenges.skip(i as int).drop_first() =~= challenges.skip(i + 1));
                assert(crate::element::values(ck_a@).len() == ck_a@.len());
                assert(crate::element::values(ck_b@).len() == ck_b@.len());
            }
            if ck_a.len() < 2 || ck_a.len() % 2 != 0 || ck_b.len() != ck_a.len() {
                return Ok(false);
            }
            let c = &transcript[i];
            let c_inv = match c.inverse() {
                Some(inv) => inv,
                None => {
                    proof {
                        assert(0 * finv(challenges[i as int]) == 0);
                    }
                    return Ok(false);
                },
            };
            ck_a = fold_elements(ck_a.as_slice(), &c_inv);
            ck_b = fold_elements(ck_b.as_slice(), c);
            i += 1;
        }
        proof {
            assert(challenges.skip(i as int) =~= Seq::<nat>::empty());
            assert(crate::element::values(ck_a@).len() == ck_a@.len());
            assert(crate::element::values(ck_b@).len() == ck_b@.len());
        }
        if ck_a.len() != 1 || ck_b.len() != 1 {
            return Ok(false);
        }
        // Verify base commitment
        let mut a_base: Vec<LMC::Message> = Vec::new();
        a_base.push(proof.r_base.0.duplicate());
        let mut b_base: Vec<RMC::Message> = Vec::new();
        b_base.push(proof.r_base.1.duplicate());
        let mut t_base: Vec<IPC::Message> = Vec::new();
        t_base.push(IP::inner_product(a_base.as_slice(), b_base.as_slice())?);
        let mut key_t: Vec<IPC::Key> = Vec::new();
        key_t.push(ck.2.duplicate());
        proof {
            lemma_dot_single(crate::element::values(a_base@), crate::element::values(b_base@));
            lemma_dot_single(crate::element::values(ck_a@), crate::element::values(a_base@));
            lemma_dot_single(crate::element::values(ck_b@), crate::element::values(b_base@));
            lemma_dot_single(crate::element::values(key_t@), crate::element::values(t_base@));
        }
        let left_valid = LMC::verify(ck_a.as_slice(), a_base.as_slice(), &base_com.0)?;
        let right_valid = RMC::verify(ck_b.as_slice(), b_base.as_slice(), &base_com.1)?;
        let product_valid = IPC::verify(key_t.as_slice(), t_base.as_slice(), &base_com.2)?;
        Ok(left_valid && right_valid && product_valid)
    }

    /// Recomputes the challenges from the rounds of an argument and folds
    /// the three commitments with them. Returns the folded commitments and
    /// the challenges, first round first.
    pub fn verify_recursive_challenge_transcript(
        com: (&LMC::Output, &RMC::Output, &IPC::Output),
        proof: &GIPAProof<IP, LMC, RMC, IPC>,
    ) -> (r: Result<
        ((LMC::Output, RMC::Output, IPC::Output), Vec<Scalar>),
        InnerProductArgumentError,
    >)
        ensures
            match r {
                Ok(pair) => replay::<LMC::Output, RMC::Output, IPC::Output>(
                    triple_values((*com.0, *com.1, *com.2)),
                    proof.rounds(),
                    0,
                ) matches Some(rest) && triple_values(pair.0) == rest.0
                    && crate::element::values(pair.1@) == rest.1,
                Err(e) => e == InnerProductArgumentError::SerializationError && replay::<
                    LMC::Output,
                    RMC::Output,
                    IPC::Output,
                >(triple_values((*com.0, *com.1, *com.2)), proof.rounds(), 0) is None,
            },
    {
        Self::replay_rounds(com, &proof.r_commitment_steps)
    }
}

/// Scaling a folded commitment is folding the scaled commitments.
pub proof fn lemma_scale_fold_commitment(k: nat, left: nat, com: nat, right: nat, c: nat, d: nat)
    ensures
        fold_commitment(fmul(k, left), fmul(k, com), fmul(k, right), c, d) == fmul(
            k,
            fold_commitment(left, com, right, c, d),
        ),
{
    lemma_fmul_distributive(k, fadd(fmul(c, left), com), fmul(d, right));
    lemma_fmul_distributive(k, fmul(c, left), com);
    lemma_fmul_associative(k, c, left);
    lemma_fmul_commutative(k, c);
    lemma_fmul_associative(c, k, left);
    lemma_fmul_associative(k, d, right);
    lemma_fmul_commutative(k, d);
    lemma_fmul_associative(d, k, right);
}

/// Completeness of the halving argument. Where the prover runs on vectors
/// and keys of one length, a power of two, the verifier, on the commitments
/// to the vectors and to their inner product, recomputes the prover's
/// challenges and arrives at the commitments to the two messages that the
/// prover is left with, under the two keys that it is left with, and to
/// their product.
pub proof fn lemma_gipa_complete<A: Element, B: Element, C: Element>(
    a: Seq<nat>,
    b: Seq<nat>,
    ka: Seq<nat>,
    kb: Seq<nat>,
    kt: nat,
    prev: nat,
)
    requires
        is_power_of_two(a.len()),
        b.len() == a.len(),
        ka.len() == a.len(),
        kb.len() == a.len(),
        run::<A, B, C>(a, b, ka, kb, kt, prev) is Some,
    ensures
        ({
            let r = run::<A, B, C>(a, b, ka, kb, kt, prev)->0;
            replay::<A, B, C>((dot(ka, a), dot(kb, b), fmul(kt, dot(a, b))), r.rounds, prev)
                == Some(
                (
                    (
                        fmul(r.ck_base.0, r.base.0),
                        fmul(r.ck_base.1, r.base.1),
                        fmul(kt, fmul(r.base.0, r.base.1)),
                    ),
                    r.challenges,
                ),
            )
        }),
    decreases a.len(),
{
    reveal_with_fuel(replay, 2);
    reveal_with_fuel(run, 2);
    let r = run::<A, B, C>(a, b, ka, kb, kt, prev)->0;
    if a.len() == 1 {
        lemma_dot_single(ka, a);
        lemma_dot_single(kb, b);
        lemma_dot_single(a, b);
    } else {
        let round = cross_commitments(a, b, ka, kb, kt);
        let payload = round_payload::<A, B, C>(prev, round);
        lemma_challenge_invertible(payload, 0);
        let c = challenge(payload, true)->0;
        let d = finv(c);
        let a2 = fold_halves(a, c);
        let b2 = fold_halves(b, d);
        let ka2 = fold_halves(ka, d);
        let kb2 = fold_halves(kb, c);
        let rest = run::<A, B, C>(a2, b2, ka2, kb2, kt, c)->0;
        lemma_gipa_complete::<A, B, C>(a2, b2, ka2, kb2, kt, c);
        let com = (dot(ka, a), dot(kb, b), fmul(kt, dot(a, b)));
        assert(fold_triple(com, round, c, d) == (dot(ka2, a2), dot(kb2, b2), fmul(kt, dot(a2, b2))))
            by {
            lemma_dot_fold(ka, a, d, c);
            lemma_dot_fold(b, kb, d, c);
            lemma_dot_commutative(fold_halves(b, d), fold_halves(kb, c));
            lemma_dot_commutative(lower(b), upper(kb));
            lemma_dot_commutative(b, kb);
            lemma_dot_commutative(upper(b), lower(kb));
            lemma_dot_fold(b, a, d, c);
            lemma_dot_commutative(fold_halves(b, d), fold_halves(a, c));
            lemma_dot_commutative(lower(b), upper(a));
            lemma_dot_commutative(b, a);
            lemma_dot_commutative(upper(b), lower(a));
            lemma_scale_fold_commitment(
                kt,
                dot(upper(a), lower(b)),
                dot(a, b),
                dot(lower(a), upper(b)),
                c,
                d,
            );
        }
        assert(r.rounds[0] == round);
        assert(r.rounds.drop_first() =~= rest.rounds);
    }
}

/// Every challenge of a run of the prover has an inverse, and there is one
/// challenge for each round.
pub proof fn lemma_run_challenges<A: Element, B: Element, C: Element>(
    a: Seq<nat>,
    b: Seq<nat>,
    ka: Seq<nat>,
    kb: Seq<nat>,
    kt: nat,
    prev: nat,
)
    requires
        run::<A, B, C>(a, b, ka, kb, kt, prev) is Some,
    ensures
        ({
            let r = run::<A, B, C>(a, b, ka, kb, kt, prev)->0;
            &&& r.challenges.len() == r.rounds.len()
            &&& forall|i: int|
                0 <= i < r.challenges.len() ==> is_inverse(
                    #[trigger] r.challenges[i],
                    finv(r.challenges[i]),
                )
        }),
    decreases a.len(),
{
    reveal_with_fuel(run, 2);
    if a.len() > 1 {
        let round = cross_commitments(a, b, ka, kb, kt);
        let payload = round_payload::<A, B, C>(prev, round);
        lemma_challenge_invertible(payload, 0);
        let c = challenge(payload, true)->0;
        let d = finv(c);
        lemma_run_challenges::<A, B, C>(
            fold_halves(a, c),
            fold_halves(b, d),
            fold_halves(ka, d),
            fold_halves(kb, c),
            kt,
            c,
        );
    }
}

/// Every challenge that the verifier recomputes has an inverse, and there is
/// one challenge for each round.
pub proof fn lemma_replay_challenges<A: Element, B: Element, C: Element>(
    com: (nat, nat, nat),
    rounds: Seq<Round>,
    prev: nat,
)
    requires
        replay::<A, B, C>(com, rounds, prev) is Some,
    ensures
        ({
            let r = replay::<A, B, C>(com, rounds, prev)->0;
            &&& r.1.len() == rounds.len()
            &&& forall|i: int| 0 <= i < r.1.len() ==> is_inverse(#[trigger] r.1[i], finv(r.1[i]))
        }),
    decreases rounds.len(),
{
    reveal_with_fuel(replay, 2);
    if rounds.len() > 0 {
        let payload = round_payload::<A, B, C>(prev, rounds[0]);
        lemma_challenge_invertible(payload, 0);
        let c = challenge(payload, true)->0;
        lemma_replay_challenges::<A, B, C>(
            fold_triple(com, rounds[0], c, finv(c)),
            rounds.drop_first(),
            c,
        );
    }
}

/// The prover refuses vectors whose length is no power of two.
pub proof fn lemma_power_of_two_domain<A: Element, B: Element, C: Element>(
    a: Seq<nat>,
    b: Seq<nat>,
    t: nat,
    ka: Seq<nat>,
    kb: Seq<nat>,
    kt: nat,
    com: (nat, nat, nat),
)
    requires
        !is_power_of_two(a.len()),
    ensures
        prove_spec::<A, B, C>(a, b, t, ka, kb, kt, com) == Err::<Run, InnerProductArgumentError>(
            InnerProductArgumentError::MessageLengthInvalid(a.len() as usize, b.len() as usize),
        ),
        prove_with_aux_spec::<A, B, C>(a, b, ka, kb, kt) == Err::<Run, InnerProductArgumentError>(
            InnerProductArgumentError::MessageLengthInvalid(a.len() as usize, b.len() as usize),
        ),
{
}

/// The prover refuses a commitment or a claimed inner product that is not
/// that of the vectors: one that differs from it in any way.
pub proof fn lemma_commitment_mismatch<A: Element, B: Element, C: Element>(
    a: Seq<nat>,
    b: Seq<nat>,
    t: nat,
    ka: Seq<nat>,
    kb: Seq<nat>,
    kt: nat,
    com: (nat, nat, nat),
)
    requires
        com.0 != dot(ka, a) || com.1 != dot(kb, b) || com.2 != fmul(kt, t) || t != dot(a, b),
    ensures
        prove_spec::<A, B, C>(a, b, t, ka, kb, kt, com) is Err,
{
}

/// The prover refuses a message that was changed after committing. Let a
/// commitment be that to the left vector, and let one message of the vector
/// change since. Then the prover refuses, unless both the key and the
/// message of the right vector at that place, times the change, are zero:
/// then neither the commitment nor the inner product tells the change.
pub proof fn lemma_changed_message_refused<A: Element, B: Element, C: Element>(
    a: Seq<nat>,
    i: int,
    v: nat,
    b: Seq<nat>,
    ka: Seq<nat>,
    kb: Seq<nat>,
    kt: nat,
    com: (nat, nat, nat),
)
    requires
        0 <= i < a.len(),
        b.len() == a.len(),
        ka.len() == a.len(),
        com.0 == dot(ka, a),
        fmul(ka[i], crate::field::fsub(v, a[i])) != 0 || fmul(
            b[i],
            crate::field::fsub(v, a[i]),
        ) != 0,
    ensures
        prove_spec::<A, B, C>(a.update(i, v), b, dot(a, b), ka, kb, kt, com) is Err,
        is_power_of_two(a.len()) && kb.len() == a.len() ==> prove_spec::<A, B, C>(
            a.update(i, v),
            b,
            dot(a, b),
            ka,
            kb,
            kt,
            com,
        ) == Err::<Run, InnerProductArgumentError>(InnerProductArgumentError::InnerProductInvalid),
{
    if fmul(ka[i], crate::field::fsub(v, a[i])) != 0 {
        crate::algebra::lemma_dot_changes(ka, a, i, v);
    } else {
        crate::algebra::lemma_dot_changes(b, a, i, v);
        lemma_dot_commutative(a, b);
        lemma_dot_commutative(a.update(i, v), b);
    }
}

/// What the verifier arrives at in one place of the triple depends on the
/// commitment in that place alone, and the challenges on none of them.
pub proof fn lemma_replay_componentwise<A: Element, B: Element, C: Element>(
    com: (nat, nat, nat),
    other: (nat, nat, nat),
    rounds: Seq<Round>,
    prev: nat,
)
    ensures
        replay::<A, B, C>(com, rounds, prev) is Some <==> replay::<A, B, C>(
            other,
            rounds,
            prev,
        ) is Some,
        replay::<A, B, C>(com, rounds, prev) is Some ==> ({
            let first = replay::<A, B, C>(com, rounds, prev)->0;
            let second = replay::<A, B, C>(other, rounds, prev)->0;
            &&& first.1 == second.1
            &&& com.0 == other.0 ==> first.0.0 == second.0.0
            &&& com.1 == other.1 ==> first.0.1 == second.0.1
            &&& com.2 == other.2 ==> first.0.2 == second.0.2
        }),
    decreases rounds.len(),
{
    reveal_with_fuel(replay, 2);
    if rounds.len() > 0 {
        match challenge(round_payload::<A, B, C>(prev, rounds[0]), true) {
            None => {},
            Some(c) => {
                lemma_replay_componentwise::<A, B, C>(
                    fold_triple(com, rounds[0], c, finv(c)),
                    fold_triple(other, rounds[0], c, finv(c)),
                    rounds.drop_first(),
                    c,
                );
            },
        }
    }
}

/// The keys that the prover is left with are the keys folded with its
/// challenges.
pub proof fn lemma_folded_keys_of_run<A: Element, B: Element, C: Element>(
    a: Seq<nat>,
    b: Seq<nat>,
    ka: Seq<nat>,
    kb: Seq<nat>,
    kt: nat,
    prev: nat,
)
    requires
        is_power_of_two(a.len()),
        ka.len() == a.len(),
        kb.len() == a.len(),
        run::<A, B, C>(a, b, ka, kb, kt, prev) is Some,
    ensures
        ({
            let r = run::<A, B, C>(a, b, ka, kb, kt, prev)->0;
            folded_keys(ka, kb, r.challenges) == Some(r.ck_base)
        }),
    decreases a.len(),
{
    if a.len() == 1 {
        lemma_run_base::<A, B, C>(a, b, ka, kb, kt, prev);
    } else {
        lemma_run_unfold::<A, B, C>(a, b, ka, kb, kt, prev);
        let round = cross_commitments(a, b, ka, kb, kt);
        let c = challenge(round_payload::<A, B, C>(prev, round), true)->0;
        let d = finv(c);
        let r = run::<A, B, C>(a, b, ka, kb, kt, prev)->0;
        let rest = run::<A, B, C>(
            fold_halves(a, c),
            fold_halves(b, d),
            fold_halves(ka, d),
            fold_halves(kb, c),
            kt,
            c,
        )->0;
        lemma_folded_keys_of_run::<A, B, C>(
            fold_halves(a, c),
            fold_halves(b, d),
            fold_halves(ka, d),
            fold_halves(kb, c),
            kt,
            c,
        );
        assert(r.challenges[0] == c);
        assert(r.challenges.drop_first() =~= rest.challenges);
    }
}

/// Completeness of the halving argument with its own verifier. Whatever
/// argument the prover produces for two vectors under keys that are as many
/// is accepted by the verifier, under the same keys, for the commitments to
/// the two vectors and to their inner product.
pub proof fn lemma_verify_complete<A: Element, B: Element, C: Element>(
    a: Seq<nat>,
    b: Seq<nat>,
    ka: Seq<nat>,
    kb: Seq<nat>,
    kt: nat,
)
    requires
        prove_with_aux_spec::<A, B, C>(a, b, ka, kb, kt) is Ok,
    ensures
        ({
            let r = prove_with_aux_spec::<A, B, C>(a, b, ka, kb, kt)->Ok_0;
            verify_spec::<A, B, C>(
                ka,
                kb,
                kt,
                (dot(ka, a), dot(kb, b), fmul(kt, dot(a, b))),
                r.rounds,
                r.base,
            ) == Ok::<bool, InnerProductArgumentError>(true)
        }),
{
    lemma_gipa_complete::<A, B, C>(a, b, ka, kb, kt, 0);
    lemma_folded_keys_of_run::<A, B, C>(a, b, ka, kb, kt, 0);
}

/// An argument that committed vectors have a committed inner product, for
/// whoever wants to offer another one beside [`GIPA`]. The trait promises
/// nothing of its methods: what an argument proves is for its own contracts
/// to say.
pub trait InnerProductCommitmentArgument {
    type IP: InnerProduct<
        LeftMessage = <Self::LMC as DoublyHomomorphicCommitment>::Message,
        RightMessage = <Self::RMC as DoublyHomomorphicCommitment>::Message,
        Output = <Self::IPC as DoublyHomomorphicCommitment>::Message,
    >;

    type LMC: DoublyHomomorphicCommitment;

    type RMC: DoublyHomomorphicCommitment;

    type IPC: DoublyHomomorphicCommitment;

    type Proof;

    /// Produces the argument for two vectors, their inner product, the keys
    /// and the three commitments.
    fn prove(
        values: (
            &[<Self::IP as InnerProduct>::LeftMessage],
            &[<Self::IP as InnerProduct>::RightMessage],
            &<Self::IP as InnerProduct>::Output,
        ),
        ck: (
            &[<Self::LMC as DoublyHomomorphicCommitment>::Key],
            &[<Self::RMC as DoublyHomomorphicCommitment>::Key],
            &<Self::IPC as DoublyHomomorphicCommitment>::Key,
        ),
        com: (
            &<Self::LMC as DoublyHomomorphicCommitment>::Output,
            &<Self::RMC as DoublyHomomorphicCommitment>::Output,
            &<Self::IPC as DoublyHomomorphicCommitment>::Output,
        ),
    ) -> Result<Self::Proof, InnerProductArgumentError>;

    /// Checks an argument against the keys and the three commitments.
    fn verify(
        ck: (
            &[<Self::LMC as DoublyHomomorphicCommitment>::Key],
            &[<Self::RMC as DoublyHomomorphicCommitment>::Key],
            &<Self::IPC as DoublyHomomorphicCommitment>::Key,
        ),
        com: (
            &<Self::LMC as DoublyHomomorphicCommitment>::Output,
            &<Self::RMC as DoublyHomomorphicCommitment>::Output,
            &<Self::IPC as DoublyHomomorphicCommitment>::Output,
        ),
        proof: &Self::Proof,
    ) -> Result<bool, InnerProductArgumentError>;
}

} // verus!
