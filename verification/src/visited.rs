//! Sets of node indices, hashed with `ahash`.

use ahash::RandomState;
use std::collections::HashSet;
use vstd::prelude::*;

verus! {

/// The builder of `ahash`'s hashers; nothing is known of what is inside.
#[verifier::external_type_specification]
#[verifier::external_body]
pub struct ExRandomState(RandomState);

/// Calls `HashSet::insert` on a set that hashes with `ahash::RandomState`.
///
/// Believed without proof: the key is in the set afterwards and nothing else
/// has changed, and the result tells whether the key was new.
#[verifier::external_body]
pub(crate) fn insert(set: &mut HashSet<usize, RandomState>, key: usize) -> (fresh: bool)
    ensures
        final(set)@ == old(set)@.insert(key),
        fresh == !old(set)@.contains(key),
{
    set.insert(key)
}

/// Calls `HashSet::contains` on a set that hashes with `ahash::RandomState`.
///
/// Believed without proof: the result tells whether the key is in the set.
#[verifier::external_body]
pub(crate) fn contains(set: &HashSet<usize, RandomState>, key: usize) -> (found: bool)
    ensures
        found == set@.contains(key),
{
    set.contains(&key)
}

} // verus!
