//! The hash state of a map: a `RandomState`, drawn when the map is made and
//! handed on when the map is rebuilt. Hashing goes through the standard
//! library; nothing of that is proved here.

use vstd::prelude::*;
use std::hash::{BuildHasher, Hash, RandomState};
use crate::slots::key_model;

verus! {

/// A `RandomState` together with, in ghost, the function from key views to
/// 64-bit hashes that it computes.
pub(crate) struct KeyHasher<K: View> {
    builder: RandomState,
    hash_fn: Ghost<spec_fn(K::V) -> u64>,
}

impl<K: View + Hash + PartialEq> KeyHasher<K> {
    /// The hash this state gives a key whose view is `k`.
    pub(crate) closed spec fn hash_of(self, k: K::V) -> u64 {
        (self.hash_fn@)(k)
    }

    /// Draws a fresh state with `RandomState::new`. Nothing is claimed of the
    /// hash function it computes: it depends on the random keys drawn.
    #[verifier::external_body]
    pub(crate) fn new() -> (s: Self) {
        KeyHasher { builder: RandomState::new(), hash_fn: Ghost(arbitrary()) }
    }

    /// `RandomState::clone`: the copy holds the same random keys, so it
    /// computes the same hash function.
    #[verifier::external_body]
    pub(crate) fn clone(&self) -> (s: Self)
        ensures
            s.hash_of_fn() == self.hash_of_fn(),
    {
        KeyHasher { builder: self.builder.clone(), hash_fn: self.hash_fn }
    }

    /// The hash function, as a whole.
    pub(crate) closed spec fn hash_of_fn(self) -> spec_fn(K::V) -> u64 {
        self.hash_fn@
    }

    /// `BuildHasher::hash_one` on this state's `RandomState`. Under the key
    /// model that `requires` asks for (vstd's `obeys_key_model`: the hash is
    /// deterministic and equality is identity; and equality is equality of
    /// views) a key is determined by its view, so for one state the hash is a
    /// function of the view: that is all the claim says. The value of the
    /// function is not stated: it depends on the random keys of the state.
    #[verifier::external_body]
    pub(crate) fn hash(&self, key: &K) -> (h: u64)
        requires
            key_model::<K>(),
        ensures
            h == self.hash_of(key@),
    {
        self.builder.hash_one(key)
    }
}

} // verus!
