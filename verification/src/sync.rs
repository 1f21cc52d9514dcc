//! Synchronization algorithms that reconcile replicas through the hashes of their
//! join-decompositions.

use vstd::prelude::*;

use crate::tracker::Telemetry;

verus! {

/// A synchronization algorithm for replicas of type `T`, which records its transfers in a
/// [`Telemetry`].
pub trait Algorithm<T> {
    type Tracker: Telemetry;

    /// Syncs `local` and `remote`, recording the transfers in `tracker`.
    fn sync(&self, local: &mut T, remote: &mut T, tracker: &mut Self::Tracker);
}

/// Synchronization through a rateless IBLT of the hashes of the join-decompositions.
pub struct RibltHashes<T> {
    _marker: core::marker::PhantomData<T>,
}

impl<T> RibltHashes<T> {
    /// The algorithm; it holds no state.
    pub fn new() -> (r: Self)
    {
        RibltHashes { _marker: core::marker::PhantomData }
    }

    /// The name of the algorithm.
    pub fn name(&self) -> (r: &'static str)
        ensures
            r@ == "RIBLT+Hashing"@,
    {
        "RIBLT+Hashing"
    }
}

} // verus!
