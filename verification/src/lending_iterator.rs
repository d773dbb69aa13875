//! A lending iterator trait.
use vstd::prelude::*;

verus! {

/// An iterator whose items may borrow from the iterator itself, so that an
/// item is dealt with before the next one is asked for.
pub trait LendingIterator {
    /// The items, which live no longer than the borrow of the iterator.
    type Item<'a> where Self: 'a;

    /// The next item, if there is one.
    fn next(&mut self) -> Option<Self::Item<'_>>;
}

} // verus!
