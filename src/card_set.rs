//! A set of card keys held in fnv's hash set.

use fnv::FnvHashSet;
use vstd::prelude::*;

verus! {

/// A set of `u32` keys, kept in an `FnvHashSet`.
#[verifier::external_body]
pub struct KeySet {
    set: FnvHashSet<u32>,
}

/// The keys that a `KeySet` holds.
pub uninterp spec fn key_set_contents(s: KeySet) -> Set<u32>;

impl KeySet {
    /// Relies on `FnvHashSet::default` (std's `HashSet::default` with
    /// fnv's hasher): a new set holds no key.
    #[verifier::external_body]
    pub(crate) fn new() -> (r: KeySet)
        ensures
            key_set_contents(r) == Set::<u32>::empty(),
    {
        KeySet { set: FnvHashSet::default() }
    }

    /// Relies on `HashSet::insert` under fnv's deterministic hasher: the set
    /// then holds `k` besides what it held.
    #[verifier::external_body]
    pub(crate) fn insert(&mut self, k: u32)
        ensures
            key_set_contents(*final(self)) == key_set_contents(*old(self)).insert(k),
    {
        self.set.insert(k);
    }

    /// Relies on `HashSet::len`: the number of keys held.
    #[verifier::external_body]
    pub(crate) fn len(&self) -> (r: usize)
        ensures
            r == key_set_contents(*self).len(),
    {
        self.set.len()
    }
}

} // verus!
