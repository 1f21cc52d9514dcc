//! Delta-state CRDTs whose deltas are read-only views into the state they come from.

use vstd::prelude::*;

pub mod awset;
pub mod causal;
pub mod gcounter;
pub mod gset;

pub use awset::{AWSet, Element};
pub use causal::{Dot, DotContext, DotKind};
pub use gcounter::GCounter;
pub use gset::GSet;

verus! {

/// A state-based CRDT whose states form a join-semilattice and that hands out deltas: views into
/// parts of its state that any replica can join.
///
/// A state and its deltas are modelled in the same abstract space, `Self::V`.
pub trait Decompose: View + Sized {
    type Decomposition<'a>: View<V = Self::V> + Extract where Self: 'a;

    /// The join of two abstract states.
    spec fn spec_join(a: Self::V, b: Self::V) -> Self::V;

    /// The empty state.
    spec fn spec_bottom() -> Self::V;

    /// The invariant that every state of the type keeps.
    spec fn spec_wf(&self) -> bool;

    /// The number of irredundant join-decompositions that [`Decompose::split`] gives.
    spec fn spec_part_count(&self) -> nat;

    /// The part of the state of `self` that [`Decompose::difference`] hands to `remote`.
    spec fn spec_difference(&self, remote: &Self) -> Self::V;

    /// Joins the states of `parts` into `start`, in order.
    spec fn spec_join_all(start: Self::V, parts: Seq<Self::V>) -> Self::V;

    /// Joining no part leaves a state unchanged; joining one more part joins it last.
    proof fn lemma_join_all(start: Self::V, parts: Seq<Self::V>, last: Self::V)
        ensures
            Self::spec_join_all(start, Seq::empty()) == start,
            Self::spec_join_all(start, parts.push(last)) == Self::spec_join(
                Self::spec_join_all(start, parts),
                last,
            ),
    ;

    /// The laws of a join-semilattice with a least element.
    proof fn lemma_lattice(a: Self::V, b: Self::V, c: Self::V)
        ensures
            Self::spec_join(a, b) == Self::spec_join(b, a),
            Self::spec_join(Self::spec_join(a, b), c) == Self::spec_join(a, Self::spec_join(b, c)),
            Self::spec_join(a, a) == a,
            Self::spec_join(Self::spec_bottom(), a) == a,
    ;

    /// A state with nothing in it.
    fn empty() -> (r: Self)
        ensures
            r@ == Self::spec_bottom(),
            r.spec_wf(),
    ;

    /// A delta that contains the entire state of `self`.
    fn as_delta(&self) -> (r: Self::Decomposition<'_>)
        ensures
            r@ == self@,
    ;

    /// The irredundant join-decompositions of `self`: joined together they give back `self`.
    fn split(&self) -> (r: Vec<Self::Decomposition<'_>>)
        ensures
            Self::spec_join_all(Self::spec_bottom(), r@.map_values(|d: Self::Decomposition<'_>| d@))
                == self@,
            r@.len() == self.spec_part_count(),
            forall|k: int| 0 <= k < r@.len() ==> (#[trigger] r@[k]).spec_values() == 1,
    ;

    /// Joins every delta of `deltas` into `self`.
    fn join(&mut self, deltas: Vec<Self::Decomposition<'_>>)
        ensures
            final(self).spec_wf(),
            final(self)@ == Self::spec_join_all(
                old(self)@,
                deltas@.map_values(|d: Self::Decomposition<'_>| d@),
            ),
    ;

    /// The part of `self` that `remote` lacks: joined into `remote` it gives the join of both
    /// states, and it holds nothing beyond `self`.
    fn difference<'a>(&'a self, remote: &'a Self) -> (r: Self::Decomposition<'a>)
        ensures
            r@ == self.spec_difference(remote),
            Self::spec_join(remote@, r@) == Self::spec_join(self@, remote@),
            Self::spec_join(self@, r@) == self@,
    ;
}

/// The error of an extraction from a decomposition that does not hold exactly one value.
#[derive(Clone, Copy, Debug, PartialEq, Eq)]
pub enum ExtractError {
    /// The decomposition held this number of values instead of one (at most `usize::MAX`).
    NotSingle(usize),
}

/// Extracts the single value of an irredundant join-decomposition.
pub trait Extract: Sized {
    /// The resulting type returned by `extract` if successful.
    type Output: core::hash::Hash;

    /// The number of values in `self`.
    spec fn spec_values(&self) -> nat;

    /// The single value of `self`, or the number of values it holds instead.
    fn extract(&self) -> (r: Result<Self::Output, ExtractError>)
        ensures
            r is Ok <==> self.spec_values() == 1,
            r matches Err(ExtractError::NotSingle(n)) ==> n == (if self.spec_values() <= usize::MAX {
                self.spec_values()
            } else {
                usize::MAX as nat
            }),
    ;
}

/// A byte count as a `usize`: the count itself, or `usize::MAX` when it does not fit.
pub open spec fn saturated(n: nat) -> nat {
    if n <= usize::MAX {
        n
    } else {
        usize::MAX as nat
    }
}

/// Whether every value of `T` takes `k` bytes.
pub open spec fn uniform_size<T: MemSized>(k: nat) -> bool {
    forall|t: T| #[trigger] t.spec_size_of() == k
}

/// The memory a value takes, in bytes.
pub trait MemSized: Sized {
    /// The size in bytes of `self`.
    spec fn spec_size_of(&self) -> nat;

    /// Returns the size in bytes of `self` (`usize::MAX` where it would not fit).
    fn size_of(&self) -> (r: usize)
        ensures
            r == saturated(self.spec_size_of()),
    ;
}

impl MemSized for String {
    open spec fn spec_size_of(&self) -> nat {
        vstd::utf8::encode_utf8(self@).len()
    }

    fn size_of(&self) -> (r: usize) {
        self.as_str().as_bytes().len()
    }
}

impl MemSized for i32 {
    open spec fn spec_size_of(&self) -> nat {
        4
    }

    fn size_of(&self) -> (r: usize) {
        4
    }
}

impl MemSized for u64 {
    open spec fn spec_size_of(&self) -> nat {
        8
    }

    fn size_of(&self) -> (r: usize) {
        8
    }
}

} // verus!
