//! State-based CRDTs whose states split into irredundant join-decompositions.

use vstd::prelude::*;

pub mod awset;
pub mod gset;
pub mod pncounter;

pub use awset::{AWItem, AWSet};
pub use gset::GSet;
pub use pncounter::PNCounter;

verus! {

/// A state that splits into irredundant join-decompositions, joins decompositions back in, and
/// computes the part of itself that another state lacks.
pub trait Decompose: Sized {
    type Decomposition;

    /// Splits `self` into its irredundant join-decompositions.
    fn split(&self) -> Vec<Self::Decomposition>;

    /// Joins every delta of `deltas` into `self`.
    fn join(&mut self, deltas: Vec<Self::Decomposition>);

    /// The part of `self` that `remote` does not hold.
    fn difference(&self, remote: &Self::Decomposition) -> Self::Decomposition;
}

/// A single irredundant join-decomposition yields a hashable item.
pub trait Extract: Sized {
    type Item: core::hash::Hash;

    /// `true` when `self` holds exactly the one piece of state that `extract` returns.
    spec fn extractable(&self) -> bool;

    /// The item held by an irredundant decomposition.
    fn extract(&self) -> Self::Item
        requires
            self.extractable(),
    ;
}

/// Measures of a replica: its number of decompositions, its size in bytes, and how far it is
/// from another replica.
pub trait Measure: Sized {
    /// The number of irredundant join-decompositions of `replica`.
    spec fn spec_len(replica: &Self) -> nat;

    /// The size in bytes of `replica`.
    spec fn spec_size(replica: &Self) -> nat;

    /// The number of decompositions on which `self` and `other` disagree.
    spec fn spec_false_matches(&self, other: &Self) -> nat;

    fn len(replica: &Self) -> (r: usize)
        requires
            Self::spec_len(replica) <= usize::MAX,
        ensures
            r == Self::spec_len(replica),
    ;

    fn size_of(replica: &Self) -> (r: usize)
        requires
            Self::spec_size(replica) <= usize::MAX,
        ensures
            r == Self::spec_size(replica),
    ;

    fn false_matches(&self, other: &Self) -> (r: usize)
        requires
            Self::spec_false_matches(self, other) <= usize::MAX,
        ensures
            r == Self::spec_false_matches(self, other),
    ;
}

/// The number of bytes that the UTF-8 encodings of all the strings of `s` take.
pub open spec fn utf8_bytes(s: Seq<Seq<char>>) -> nat
    decreases s.len(),
{
    if s.len() == 0 {
        0
    } else {
        utf8_bytes(s.drop_last()) + vstd::utf8::encode_utf8(s.last()).len()
    }
}

/// The bytes of the UTF-8 encodings of the strings of a finite set.
pub open spec fn set_bytes(s: Set<Seq<char>>) -> nat
    decreases s.len(),
    when s.finite()
{
    if s.len() == 0 {
        0
    } else {
        let x = s.choose();
        vstd::utf8::encode_utf8(x).len() + set_bytes(s.remove(x))
    }
}

/// The bytes of a set do not depend on the order in which its strings are taken.
pub proof fn lemma_set_bytes_remove(s: Set<Seq<char>>, x: Seq<char>)
    requires
        s.finite(),
        s.contains(x),
    ensures
        set_bytes(s) == vstd::utf8::encode_utf8(x).len() + set_bytes(s.remove(x)),
    decreases s.len(),
{
    let y = s.choose();
    if y != x {
        lemma_set_bytes_remove(s.remove(y), x);
        lemma_set_bytes_remove(s.remove(x), y);
        assert(s.remove(y).remove(x) =~= s.remove(x).remove(y));
    }
}

/// Distinct strings take the bytes of their set.
pub proof fn lemma_utf8_bytes_set(s: Seq<Seq<char>>)
    requires
        s.no_duplicates(),
    ensures
        utf8_bytes(s) == set_bytes(s.to_set()),
    decreases s.len(),
{
    vstd::seq_lib::seq_to_set_is_finite(s);
    if s.len() == 0 {
        assert(s.to_set() =~= Set::<Seq<char>>::empty());
    } else {
        let t = s.drop_last();
        lemma_utf8_bytes_set(t);
        assert(!t.contains(s.last())) by {
            if t.contains(s.last()) {
                let i = choose|i: int| 0 <= i < t.len() && #[trigger] t[i] == s.last();
                assert(s[i] == s[s.len() - 1]);
            }
        }
        assert(s.to_set().remove(s.last()) =~= t.to_set()) by {
            assert(s =~= t.push(s.last()));
        }
        assert(s.to_set().contains(s.last())) by {
            assert(s[s.len() - 1] == s.last());
        }
        lemma_set_bytes_remove(s.to_set(), s.last());
    }
}

/// Adds up the byte lengths of the first `n` strings of `items`.
pub fn sum_string_bytes(items: &Vec<&String>, extra: usize) -> (r: usize)
    requires
        extra + utf8_bytes(items@.map_values(|s: &String| s@)) <= usize::MAX,
    ensures
        r == extra + utf8_bytes(items@.map_values(|s: &String| s@)),
{
    let ghost all = items@.map_values(|s: &String| s@);
    let mut total: usize = extra;
    let mut i: usize = 0;
    while i < items.len()
        invariant
            i <= items@.len(),
            all == items@.map_values(|s: &String| s@),
            extra + utf8_bytes(all) <= usize::MAX,
            total == extra + utf8_bytes(all.take(i as int)),
        decreases items@.len() - i,
    {
        proof {
            assert(all.take(i + 1).drop_last() =~= all.take(i as int));
            lemma_utf8_bytes_prefix(all, i + 1);
        }
        let n = items[i].as_str().len();
        total = total + n;
        i = i + 1;
    }
    assert(all.take(items@.len() as int) =~= all);
    total
}

/// The bytes of a prefix never exceed the bytes of the whole sequence.
pub proof fn lemma_utf8_bytes_prefix(s: Seq<Seq<char>>, k: int)
    requires
        0 <= k <= s.len(),
    ensures
        utf8_bytes(s.take(k)) <= utf8_bytes(s),
    decreases s.len() - k,
{
    if k < s.len() {
        lemma_utf8_bytes_prefix(s, k + 1);
        assert(s.take(k + 1).drop_last() =~= s.take(k));
    } else {
        assert(s.take(k) =~= s);
    }
}

/// A cursor over references to the elements of a replica.
#[derive(PartialEq, Eq, Debug, Default)]
pub struct Elements<'a, T> {
    elems: Vec<&'a T>,
    idx: usize,
}

impl<'a, T> Elements<'a, T> {
    #[verifier::type_invariant]
    spec fn inv(self) -> bool {
        self.idx <= self.elems@.len()
    }
}

impl<'a, T: View> View for Elements<'a, T> {
    type V = Seq<T::V>;

    /// The views of the elements that the cursor has not handed out yet.
    closed spec fn view(&self) -> Seq<T::V> {
        self.elems@.subrange(self.idx as int, self.elems@.len() as int).map_values(|t: &T| t@)
    }
}

impl<'a, T: View> Elements<'a, T> {
    /// A cursor that starts at the first of `elems`.
    pub fn from_refs(elems: Vec<&'a T>) -> (r: Self)
        ensures
            r@ == elems@.map_values(|t: &T| t@),
    {
        let r = Elements { elems, idx: 0 };
        assert(r.elems@.subrange(0, r.elems@.len() as int) =~= r.elems@);
        r
    }

    /// The number of elements not handed out yet.
    pub fn remaining(&self) -> (r: usize)
        ensures
            r == self@.len(),
    {
        proof {
            use_type_invariant(self);
        }
        if self.idx >= self.elems.len() {
            0
        } else {
            self.elems.len() - self.idx
        }
    }

    /// Hands out the next element, if any remains.
    pub fn next(&mut self) -> (r: Option<&'a T>)
        ensures
            old(self)@.len() == 0 ==> r is None && final(self)@ == old(self)@,
            old(self)@.len() > 0 ==> (r matches Some(v) && v@ == old(self)@[0]),
            old(self)@.len() > 0 ==> final(self)@ == old(self)@.drop_first(),
    {
        proof {
            use_type_invariant(&*self);
        }
        if self.idx >= self.elems.len() {
            return None;
        }
        let ghost before = self@;
        self.idx = self.idx + 1;
        let v = self.elems[self.idx - 1];
        proof {
            assert(self@ =~= before.drop_first());
        }
        Some(v)
    }
}

} // verus!
