//! The abstract storage contract both engines implement.

use vstd::prelude::*;

verus! {

/// A predicate over stored values, supplied by the caller of `search`.
/// Implementors state what the predicate means over the value's model.
pub trait Filter<V: View> {
    /// What the predicate holds of, stated over the value's model.
    spec fn spec_pass(&self, v: V::V) -> bool;

    /// Decide the predicate on one value.
    fn pass(&self, v: &V) -> (r: bool)
        ensures
            r == self.spec_pass(v@),
    ;
}

/// A persistent unordered collection of values keyed by `K`: save upserts,
/// load fetches, delete removes, search filters.  Exclusive access is
/// required for save and delete, shared access suffices for load and
/// search.  Each engine brings a structural invariant that its
/// constructors establish and every operation preserves.
pub trait DataStore<K, V: View, E> {
    /// The engine's structural invariant.
    spec fn store_inv(&self) -> bool;

    fn save(&mut self, id: &K, value: &V) -> (r: Result<(), E>)
        requires
            old(self).store_inv(),
        ensures
            final(self).store_inv(),
    ;

    fn load(&self, key: &K) -> Result<Option<V>, E>
        requires
            self.store_inv(),
    ;

    fn delete(&mut self, id: &K) -> (r: Result<(), E>)
        requires
            old(self).store_inv(),
        ensures
            final(self).store_inv(),
    ;

    fn search<F: Filter<V>>(&self, filter: &F) -> Result<Vec<V>, E>
        requires
            self.store_inv(),
    ;
}

} // verus!
