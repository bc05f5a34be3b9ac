use vstd::prelude::*;

verus! {

/// The two ways an operation can be refused. A refused operation leaves the
/// structure as it was.
#[derive(Debug, Clone, Copy, PartialEq, Eq, Structural)]
pub enum Error {
    /// The item is not in the disjoint sets.
    ItemNotFound,
    /// The item is already in the disjoint sets.
    ItemExists,
}

/// The operations every union-find structure offers.
pub trait UnionFind<T> {
    /// The structure's internal consistency.
    spec fn well_formed(&self) -> bool;

    /// `x` has been registered.
    spec fn has(&self, x: T) -> bool;

    /// `a` and `b` are registered and lie in one set.
    spec fn joined(&self, a: T, b: T) -> bool;

    /// Check if two items are in the same set. If `x` or `y` do not exist in
    /// the disjoint sets, an error is returned.
    fn same_set(&mut self, x: &T, y: &T) -> (r: Result<bool, Error>)
        requires
            old(self).well_formed(),
        ensures
            final(self).well_formed(),
            old(self).has(*x) && old(self).has(*y) ==> r == Ok::<bool, Error>(
                old(self).joined(*x, *y),
            ),
            !(old(self).has(*x) && old(self).has(*y)) ==> r == Err::<bool, Error>(
                Error::ItemNotFound,
            ),
            forall|a: T, b: T| #[trigger] final(self).joined(a, b) == old(self).joined(a, b),
    ;

    /// Create a new set containing only `item`. If `item` already exists in
    /// the disjoint sets, an error is returned.
    fn make_set(&mut self, item: T) -> (r: Result<(), Error>)
        requires
            old(self).well_formed(),
        ensures
            final(self).well_formed(),
            !old(self).has(item) ==> r == Ok::<(), Error>(()) && final(self).has(item)
                && final(self).joined(item, item),
            old(self).has(item) ==> r == Err::<(), Error>(Error::ItemExists),
            forall|a: T, b: T| old(self).joined(a, b) ==> #[trigger] final(self).joined(a, b),
    ;

    /// Merge the sets containing `x` and `y`. If `x` or `y` do not exist in
    /// the disjoint sets, an error is returned.
    fn union(&mut self, x: &T, y: &T) -> (r: Result<(), Error>)
        requires
            old(self).well_formed(),
        ensures
            final(self).well_formed(),
            old(self).has(*x) && old(self).has(*y) ==> r == Ok::<(), Error>(())
                && final(self).joined(*x, *y),
            !(old(self).has(*x) && old(self).has(*y)) ==> r == Err::<(), Error>(
                Error::ItemNotFound,
            ),
            forall|a: T, b: T| old(self).joined(a, b) ==> #[trigger] final(self).joined(a, b),
    ;
}

} // verus!
