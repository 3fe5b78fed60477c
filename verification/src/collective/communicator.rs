//! The group of peers that a collective runs over.

use vstd::prelude::*;

verus! {

/// A communicator describes a fixed-size group of peers, each with a unique
/// rank.
pub trait Communicator {
    /// The rank, as contracts speak of it.
    spec fn rank_view(&self) -> usize;

    /// The group size, as contracts speak of it.
    spec fn size_view(&self) -> usize;

    /// This peer's rank in `[0, size)`.
    fn rank(&self) -> (r: usize)
        ensures
            r == self.rank_view(),
    ;

    /// Total number of peers in the communicator.
    fn size(&self) -> (r: usize)
        ensures
            r == self.size_view(),
    ;
}

} // verus!
