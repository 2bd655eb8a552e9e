use vstd::prelude::*;

verus! {

/// A 64-bit key, already hashed by the caller.
pub type Key = u64;

/// An approximate-membership filter.
pub trait Filter {
    /// The shape a filter keeps from its construction on.
    spec fn inv(&self) -> bool;

    /// Whether the filter reports `key` present.
    spec fn admits_key(&self, key: Key) -> bool;

    /// Whether `key` may be in the set the filter was built from.
    fn contains(&self, key: &Key) -> (r: bool)
        requires
            self.inv(),
        ensures
            r == self.admits_key(*key),
    ;
}

/// Collects keys and builds a filter from them.
pub trait FilterBuilder: Sized {
    type Filter: Filter;

    type Error;

    /// The keys added so far.
    spec fn key_set(&self) -> Set<Key>;

    /// What `build` returns for a key set and false-positive exponent.
    spec fn outcome(
        keys: Set<Key>,
        false_positive_pow: int,
        r: Result<Self::Filter, Self::Error>,
    ) -> bool;

    /// Adds keys; duplicates coalesce.
    fn add_keys(&mut self, keys: &[Key])
        ensures
            final(self).key_set() == old(self).key_set().union(keys@.to_set()),
    ;

    /// The power of false_positive.
    ///
    /// E.g. false_positive_pow = 8 means fp = 1/2^8
    fn build(self, false_positive_pow: usize) -> (r: Result<Self::Filter, Self::Error>)
        ensures
            Self::outcome(self.key_set(), false_positive_pow as int, r),
    ;
}

} // verus!
