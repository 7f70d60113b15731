//! The two nondeterministic outside calls the core makes: drawing fresh
//! identifiers and shuffling a roster. Both are trusted wrappers; everything
//! built on them states only what holds of every possible outcome.

use vstd::prelude::*;
use rand::seq::SliceRandom;

verus! {

/// Relies on uuid::Uuid::new_v4: draws a fresh random version-4 identifier
/// and hands it back in 128-bit integer form. The value is random, so
/// nothing is promised of it.
#[verifier::external_body]
pub(crate) fn fresh_id() -> u128 {
    uuid::Uuid::new_v4().as_u128()
}

/// Relies on rand's SliceRandom::shuffle, a Fisher-Yates pass that only
/// swaps elements of the slice in place: whatever order comes out, the
/// multiset of entries is exactly the one that went in.
#[verifier::external_body]
pub(crate) fn shuffle_ids(v: &mut Vec<u128>)
    ensures
        final(v)@.to_multiset() == old(v)@.to_multiset(),
{
    v.shuffle(&mut rand::thread_rng());
}

} // verus!
