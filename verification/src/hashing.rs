//! What the table asks of its keys: an equality that can be trusted, and a
//! 64-bit hash.

use std::collections::hash_map::DefaultHasher;
use std::hash::{Hash, Hasher};
use vstd::prelude::*;
use vstd::std_specs::cmp::PartialEqSpec;
use vstd::std_specs::hash::DefaultHasherAdditionalSpecFns;

verus! {

/// The executable `==` of `K` decides mathematical equality: two keys
/// compare equal exactly if they are the same value.
pub open spec fn obeys_key_eq<K: PartialEq>() -> bool {
    &&& K::obeys_eq_spec()
    &&& forall|a: K, b: K| #[trigger] a.eq_spec(&b) <==> (a == b)
}

/// Feeds `key` into `hasher` through `Hash::hash`.
///
/// Nothing is claimed of the state in which the hasher is left: what the
/// key writes is up to the `Hash` impl of `K`, which is the caller's.
#[verifier::external_body]
fn feed<K: Hash>(key: &K, hasher: &mut DefaultHasher) {
    key.hash(hasher)
}

/// The hash of `key`: what `hasher` finishes with once the key has been
/// fed into it.
///
/// What the key writes depends on the `Hash` impl of `K`, so the state
/// that the hasher finishes from is not known: the result is the digest of
/// some sequence of writes, and the table is proved for every value that
/// may come back.
pub(crate) fn hash<K: Hash>(hasher: DefaultHasher, key: &K) -> (h: u64)
    ensures
        exists|written: Seq<Seq<u8>>| h == #[trigger] DefaultHasher::spec_finish(written),
{
    let mut hasher = hasher;
    feed(key, &mut hasher);
    let h = hasher.finish();
    assert(h == DefaultHasher::spec_finish(hasher@));
    h
}

} // verus!
