//! The keyed 64-bit hash the engines place their keys by.

use ahash::RandomState;
use vstd::prelude::*;

verus! {

#[verifier::external_type_specification]
#[verifier::external_body]
pub struct ExHasherState(RandomState);

/// The hash that `RandomState::hash_one` gives `key` under the hasher state
/// `state`: the same state and key always give the same hash.
pub uninterp spec fn keyed_hash(state: RandomState, key: u64) -> u64;

/// `RandomState::new`: a hasher state with keys drawn at random. Nothing is
/// claimed of the state returned.
#[verifier::external_body]
pub(crate) fn fresh_state() -> RandomState {
    RandomState::new()
}

/// The hasher state that `RandomState::with_seeds` makes of four seeds: the
/// same seeds always give the same state.
pub uninterp spec fn seeded_hasher(k0: u64, k1: u64, k2: u64, k3: u64) -> RandomState;

/// `RandomState::with_seeds`: a hasher state made from four given seeds.
/// Claims only that the state is the one named by `seeded_hasher`, a function
/// of the seeds alone.
#[verifier::external_body]
pub(crate) fn seeded_state(k0: u64, k1: u64, k2: u64, k3: u64) -> (state: RandomState)
    ensures
        state == seeded_hasher(k0, k1, k2, k3),
{
    RandomState::with_seeds(k0, k1, k2, k3)
}

/// `RandomState::hash_one` on a `u64`: claims only that the result is the
/// hash named by `keyed_hash`, a function of the state and the key alone.
#[verifier::external_body]
pub(crate) fn hash_key(state: &RandomState, key: u64) -> (hash: u64)
    ensures
        hash == keyed_hash(*state, key),
{
    state.hash_one(key)
}

/// The bucket of a table of `capacity` buckets that a hasher state sends a
/// key to: its hash modulo the capacity.
pub open spec fn bucket_of(state: RandomState, key: u64, capacity: int) -> int {
    keyed_hash(state, key) as int % capacity
}

/// The hash of a key and the bucket it falls into.
pub(crate) fn hash_to_bucket(state: &RandomState, key: u64, capacity: usize) -> (place: (
    u64,
    usize,
))
    requires
        capacity > 0,
    ensures
        place.0 == keyed_hash(*state, key),
        place.1 == bucket_of(*state, key, capacity as int),
        place.1 < capacity,
{
    let hash = hash_key(state, key);
    (hash, bucket_for_hash(hash, capacity))
}

/// The bucket of a table of `capacity` buckets that a hash falls into: the
/// hash modulo the capacity.
pub fn bucket_for_hash(hash: u64, capacity: usize) -> (bucket: usize)
    requires
        capacity > 0,
    ensures
        bucket == hash as int % capacity as int,
        bucket < capacity,
{
    (hash % capacity as u64) as usize
}

/// One word of the stream that a seed fixes: the seed moved on by `step`
/// strides and then stirred, so that neighbouring seeds and steps give words
/// that have nothing in common.
pub open spec fn seed_word(seed: u64, step: u64) -> u64 {
    let start = seed.wrapping_add(step.wrapping_mul(0x9E37_79B9_7F4A_7C15u64));
    let once = (start ^ (start >> 30u64)).wrapping_mul(0xBF58_476D_1CE4_E5B9u64);
    let twice = (once ^ (once >> 27u64)).wrapping_mul(0x94D0_49BB_1331_11EBu64);
    twice ^ (twice >> 31u64)
}

/// The hasher state of rank `index` that a seed fixes: its four keys are the
/// words of the seed's stream from step `4 * index + 1` on.
pub open spec fn seeded_member(seed: u64, index: int) -> RandomState {
    let first = (4 * index + 1) as u64;
    seeded_hasher(
        seed_word(seed, first),
        seed_word(seed, (first + 1) as u64),
        seed_word(seed, (first + 2) as u64),
        seed_word(seed, (first + 3) as u64),
    )
}

/// The first `count` hasher states that a seed fixes.
pub open spec fn seeded_family(seed: u64, count: nat) -> Seq<RandomState> {
    Seq::new(count, |index: int| seeded_member(seed, index))
}

/// One word of the stream that a seed fixes.
pub fn stream_word(seed: u64, step: u64) -> (word: u64)
    ensures
        word == seed_word(seed, step),
{
    let start = seed.wrapping_add(step.wrapping_mul(0x9E37_79B9_7F4A_7C15u64));
    let once = (start ^ (start >> 30u64)).wrapping_mul(0xBF58_476D_1CE4_E5B9u64);
    let twice = (once ^ (once >> 27u64)).wrapping_mul(0x94D0_49BB_1331_11EBu64);
    twice ^ (twice >> 31u64)
}

/// The hasher state of rank `index` that a seed fixes.
pub(crate) fn state_for_seed(seed: u64, index: usize) -> (state: RandomState)
    requires
        index < 1024,
    ensures
        state == seeded_member(seed, index as int),
{
    let first = 4 * (index as u64) + 1;
    seeded_state(
        stream_word(seed, first),
        stream_word(seed, first + 1),
        stream_word(seed, first + 2),
        stream_word(seed, first + 3),
    )
}

/// `count` hasher states: each drawn at random without a seed; with one, the
/// first `count` that the seed fixes.
pub(crate) fn hasher_family(count: usize, seed: Option<u64>) -> (family: Vec<RandomState>)
    requires
        count <= 1024,
    ensures
        family.len() == count,
        seed matches Some(seed) ==> family@ == seeded_family(seed, count as nat),
{
    let mut family: Vec<RandomState> = Vec::new();
    let mut index: usize = 0;
    match seed {
        Some(seed) => {
            while index < count
                invariant
                    index <= count <= 1024,
                    family.len() == index,
                    forall|i: int| 0 <= i < index ==> family[i] == seeded_member(seed, i),
                decreases count - index,
            {
                family.push(state_for_seed(seed, index));
                index += 1;
            }
            assert(family@ =~= seeded_family(seed, count as nat));
        },
        None => {
            while index < count
                invariant
                    index <= count,
                    family.len() == index,
                decreases count - index,
            {
                family.push(fresh_state());
                index += 1;
            }
        },
    }
    family
}

} // verus!
