use vstd::prelude::*;

verus! {

/// A replicated record with a join operation. Implementations make `join`
/// commutative, associative and idempotent so that replicas applying the same
/// updates in any order converge.
pub trait Crdt: Sized {
    /// The value obtained by merging `other` into `self`.
    spec fn join(self, other: Self) -> Self;

    /// Merges `other` into `self` in place.
    fn merge(&mut self, other: &Self)
        ensures
            *final(self) == old(self).join(*other),
    ;
}

} // verus!
