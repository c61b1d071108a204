use vstd::prelude::*;

use crate::error::Error;

verus! {

/// The uniform contract every index backend offers: insert keyed points, then
/// ask for the entries nearest a query. Any backend that implements it is
/// interchangeable at call sites; the backends' own inherent methods state
/// their stronger, backend-specific guarantees.
pub trait Index<K, P>: Sized {
    /// The well-formedness that construction establishes and every operation
    /// preserves.
    spec fn inv(&self) -> bool;

    /// How many entries the index holds.
    spec fn count(&self) -> int;

    /// Whether the index holds an entry under key `k`.
    spec fn has_key(&self, k: K) -> bool;

    /// Whether the query's shape matches every stored point's, so that
    /// distances to it are defined.
    spec fn admits(&self, q: P) -> bool;

    /// Inserts a new entry. Re-inserting a key the index already holds is
    /// rejected with `DuplicateKey`; a rejected insert changes nothing. A
    /// fresh key whose point the index admits is accepted.
    fn insert(&mut self, key: K, point: P) -> (r: Result<(), Error>)
        requires
            old(self).inv(),
        ensures
            final(self).inv(),
            old(self).has_key(key) ==> r == Err::<(), Error>(Error::DuplicateKey),
            r is Err ==> *final(self) == *old(self),
            !old(self).has_key(key) && old(self).admits(point) ==> r is Ok,
            r is Ok ==> !old(self).has_key(key) && final(self).count() == old(self).count() + 1
                && final(self).has_key(key),
    ;

    /// At most `n` stored entries near the query, ascending by distance.
    /// Querying an empty index is rejected with `EmptyIndex`, an unadmitted
    /// query with `DimensionMismatch`; an admitted query on a non-empty
    /// index succeeds.
    fn find(&self, query: &P, n: usize) -> (r: Result<Vec<(K, P)>, Error>)
        requires
            self.inv(),
        ensures
            self.count() == 0 <==> r == Err::<Vec<(K, P)>, Error>(Error::EmptyIndex),
            (self.count() > 0 && !self.admits(*query)) <==> r == Err::<Vec<(K, P)>, Error>(
                Error::DimensionMismatch,
            ),
            self.count() > 0 && self.admits(*query) ==> r is Ok,
            r matches Ok(v) ==> v@.len() <= n && v@.len() <= self.count(),
    ;

    /// Same as `find`, projected to keys.
    fn find_keys(&self, query: &P, n: usize) -> (r: Result<Vec<K>, Error>)
        requires
            self.inv(),
        ensures
            self.count() == 0 <==> r == Err::<Vec<K>, Error>(Error::EmptyIndex),
            (self.count() > 0 && !self.admits(*query)) <==> r == Err::<Vec<K>, Error>(
                Error::DimensionMismatch,
            ),
            self.count() > 0 && self.admits(*query) ==> r is Ok,
            r matches Ok(v) ==> v@.len() <= n && v@.len() <= self.count(),
    ;

    /// Number of entries held.
    fn len(&self) -> (r: usize)
        requires
            self.inv(),
        ensures
            r as int == self.count(),
    ;
}

} // verus!
