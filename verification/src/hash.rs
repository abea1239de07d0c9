//! Hashing of group keys, by the standard library's default hasher.

use std::collections::hash_map::DefaultHasher;
use std::hash::Hash;
use std::hash::Hasher;
use vstd::prelude::*;
use vstd::std_specs::hash::*;

verus! {

/// What a hasher has been fed once a string was hashed into it, given what
/// it had been fed before.
pub uninterp spec fn hashed_str(before: Seq<Seq<u8>>, s: Seq<char>) -> Seq<Seq<u8>>;

/// Calls `<str as Hash>::hash` of the standard library on a default hasher.
/// Trusted: what the hasher has been fed afterwards depends on nothing but
/// what it had been fed before and the characters of the string.
#[verifier::external_body]
fn feed_str(state: &mut DefaultHasher, s: &str)
    ensures
        final(state)@ == hashed_str(old(state)@, s@),
{
    s.hash(state);
}

/// The hash of a string: what a fresh default hasher returns after the
/// string alone was hashed into it.
pub open spec fn spec_hash(s: Seq<char>) -> u64 {
    DefaultHasher::spec_finish(hashed_str(Seq::empty(), s))
}

/// Hashes a string with a fresh default hasher. The hasher is not seeded, so
/// the same string has the same hash in every run.
pub fn hash(s: &str) -> (h: u64)
    ensures
        h == spec_hash(s@),
{
    let mut hasher = DefaultHasher::new();
    feed_str(&mut hasher, s);
    hasher.finish()
}

} // verus!
