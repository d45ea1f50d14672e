//! Tokens that tell one arena apart from another.
use std::hash::BuildHasher;
use std::hash::RandomState;
use vstd::prelude::*;

verus! {

/// Relies on `std::hash::RandomState::new`: a hasher builder whose keys are
/// drawn at random for each instance. Nothing is promised of them.
#[verifier::external_body]
fn fresh_random_state() -> (r: RandomState) {
    RandomState::new()
}

/// Relies on `BuildHasher::hash_one` for `RandomState`: the hash of `x` under
/// the builder's keys. Nothing is promised of the value.
#[verifier::external_body]
fn hash_byte(s: &RandomState, x: u8) -> (r: u64) {
    s.hash_one(x)
}

/// A token for a new arena: the hash of one byte under freshly drawn random
/// keys. Two arenas get the same token only with vanishing probability; no
/// two equal tokens can be ruled out.
pub(crate) fn new_map_token() -> (r: u64) {
    let s = fresh_random_state();
    hash_byte(&s, 0)
}

} // verus!
