//! The grow-only set.

use vstd::prelude::*;

use crate::datum::{lemma_take_to_set_step, lemma_views_index, position_of, views, Datum};

use super::{sum_string_bytes, utf8_bytes, Decompose, Elements, Extract, Measure};

verus! {

broadcast use {vstd::seq_lib::group_seq_properties, vstd::set::group_set_axioms};

/// A grow-only set: values can be inserted and looked up, never removed.
///
/// Its state is modelled by the set of the views of its values.
#[derive(Debug)]
pub struct GSet<T: View> {
    base: Vec<T>,
}

impl<T: View> View for GSet<T> {
    type V = Set<T::V>;

    closed spec fn view(&self) -> Set<T::V> {
        views(self.base@).to_set()
    }
}

/// The union of the states of all the sets in `parts`.
pub open spec fn union_all<T: View>(parts: Seq<GSet<T>>) -> Set<T::V>
    decreases parts.len(),
{
    if parts.len() == 0 {
        Set::empty()
    } else {
        union_all(parts.drop_last()).union(parts.last()@)
    }
}

/// `parts` are the irredundant join-decompositions of `s`: one singleton per value of `s`.
pub open spec fn is_split_of<T: View>(s: Set<T::V>, parts: Seq<GSet<T>>) -> bool {
    &&& parts.len() == s.len()
    &&& forall|i: int| 0 <= i < parts.len() ==> (#[trigger] parts[i]@).len() == 1
    &&& forall|i: int, j: int|
        0 <= i < parts.len() && 0 <= j < parts.len() && i != j ==> parts[i]@ != parts[j]@
    &&& union_all(parts) == s
}

impl<T: View> GSet<T> {
    #[verifier::type_invariant]
    spec fn inv(self) -> bool {
        views(self.base@).no_duplicates()
    }

    /// The views of the stored values, in storage order.
    closed spec fn seq_view(&self) -> Seq<T::V> {
        views(self.base@)
    }

    /// The state is always a finite set.
    pub proof fn lemma_finite(&self)
        ensures
            self@.finite(),
    {
        vstd::seq_lib::seq_to_set_is_finite(views(self.base@));
    }

    proof fn lemma_len(&self)
        requires
            views(self.base@).no_duplicates(),
        ensures
            self@.finite(),
            self@.len() == self.base@.len(),
    {
        views(self.base@).unique_seq_to_set();
        self.lemma_finite();
    }

    /// Creates an empty set.
    pub fn new() -> (r: Self)
        ensures
            r@ == Set::<T::V>::empty(),
    {
        let r = GSet { base: Vec::new() };
        assert(r@ =~= Set::<T::V>::empty());
        r
    }

    /// Returns `true` if the set holds no value.
    pub fn is_empty(&self) -> (r: bool)
        ensures
            r == (self@.len() == 0),
    {
        proof {
            use_type_invariant(self);
            self.lemma_len();
        }
        self.base.len() == 0
    }

    /// The number of values in the set.
    pub fn len(&self) -> (r: usize)
        ensures
            r == self@.len(),
    {
        proof {
            use_type_invariant(self);
            self.lemma_len();
        }
        self.base.len()
    }
}

impl<T: Datum> GSet<T> {
    /// Returns `true` if the set holds a value with the view of `value`.
    pub fn contains(&self, value: &T) -> (r: bool)
        ensures
            r == self@.contains(value@),
    {
        position_of(&self.base, value).is_some()
    }

    /// A cursor over the values of the set, each handed out once.
    pub fn elements(&self) -> (r: Elements<'_, T>)
        ensures
            r@.to_set() == self@,
            r@.no_duplicates(),
            r@.len() == self@.len(),
    {
        proof {
            use_type_invariant(self);
            self.lemma_len();
        }
        let mut refs: Vec<&T> = Vec::new();
        let mut i: usize = 0;
        while i < self.base.len()
            invariant
                i <= self.base@.len(),
                refs@.map_values(|t: &T| t@) =~= views(self.base@).take(i as int),
            decreases self.base@.len() - i,
        {
            let ghost before = refs@;
            refs.push(&self.base[i]);
            assert(refs@.map_values(|t: &T| t@) =~= before.map_values(|t: &T| t@).push(
                self.base@[i as int]@,
            ));
            i = i + 1;
        }
        assert(views(self.base@).take(self.base@.len() as int) =~= views(self.base@));
        Elements::from_refs(refs)
    }

    /// Adds `value` to the set and returns the delta of the operation: a set with `value` alone
    /// when it was absent, an empty set otherwise.
    pub fn insert(&mut self, value: T) -> (r: Self)
        ensures
            final(self)@ == old(self)@.insert(value@),
            r@ == if old(self)@.contains(value@) {
                Set::<T::V>::empty()
            } else {
                set![value@]
            },
    {
        if self.contains(&value) {
            assert(self@.insert(value@) =~= self@);
            Self::new()
        } else {
            let copy = value.duplicate();
            self.push_absent(value);
            Self::singleton(copy)
        }
    }

    /// A set that holds `value` alone.
    fn singleton(value: T) -> (r: Self)
        ensures
            r@ == set![value@],
    {
        let mut base = Vec::new();
        base.push(value);
        assert(views(base@) =~= seq![value@]);
        let r = GSet { base };
        assert(r@ =~= set![value@]);
        r
    }

    /// Stores a value that the set does not hold yet.
    fn push_absent(&mut self, value: T)
        requires
            !old(self)@.contains(value@),
        ensures
            final(self)@ == old(self)@.insert(value@),
    {
        proof {
            use_type_invariant(&*self);
        }
        let ghost before = views(self.base@);
        let mut base = Vec::new();
        std::mem::swap(&mut base, &mut self.base);
        base.push(value);
        assert(views(base@) =~= before.push(value@));
        assert(views(base@).to_set() =~= before.to_set().insert(value@));
        self.base = base;
    }

    /// Adds the values of `other` that the set does not hold yet.
    fn absorb(&mut self, other: &Self)
        ensures
            final(self)@ == old(self)@.union(other@),
    {
        let ghost start = self@;
        let mut i: usize = 0;
        while i < other.base.len()
            invariant
                i <= other.base@.len(),
                self@ == start.union(views(other.base@).take(i as int).to_set()),
            decreases other.base@.len() - i,
        {
            let v = &other.base[i];
            if !self.contains(v) {
                let copy = v.duplicate();
                self.push_absent(copy);
            }
            proof {
                lemma_views_index(other.base@, i as int);
                lemma_take_to_set_step(views(other.base@), i as int);
            }
            assert(self@ =~= start.union(views(other.base@).take(i + 1).to_set()));
            i = i + 1;
        }
        assert(views(other.base@).take(other.base@.len() as int) =~= views(other.base@));
    }
}

impl<T: Datum> Clone for GSet<T> {
    fn clone(&self) -> (r: Self)
        ensures
            r@ == self@,
    {
        let mut r = Self::new();
        r.absorb(self);
        assert(r@ =~= self@);
        r
    }
}

impl<T: Datum> Default for GSet<T> {
    fn default() -> (r: Self)
        ensures
            r@ == Set::<T::V>::empty(),
    {
        Self::new()
    }
}

impl<T: Datum> Decompose for GSet<T> {
    type Decomposition = GSet<T>;

    /// One singleton set per value.
    fn split(&self) -> (r: Vec<Self>)
        ensures
            is_split_of(self@, r@),
    {
        proof {
            use_type_invariant(self);
            self.lemma_len();
        }
        let mut parts: Vec<Self> = Vec::new();
        let mut i: usize = 0;
        while i < self.base.len()
            invariant
                i <= self.base@.len(),
                views(self.base@).no_duplicates(),
                parts@.len() == i,
                forall|k: int| 0 <= k < i ==> (#[trigger] parts@[k])@ == set![self.base@[k]@],
                union_all(parts@) == views(self.base@).take(i as int).to_set(),
            decreases self.base@.len() - i,
        {
            let part = Self::singleton(self.base[i].duplicate());
            let ghost before = parts@;
            parts.push(part);
            proof {
                assert(parts@.drop_last() =~= before);
                lemma_views_index(self.base@, i as int);
                lemma_take_to_set_step(views(self.base@), i as int);
                assert(views(self.base@).take(i + 1).to_set() =~= views(self.base@).take(
                    i as int,
                ).to_set().union(set![self.base@[i as int]@]));
            }
            i = i + 1;
        }
        proof {
            assert(views(self.base@).take(self.base@.len() as int) =~= views(self.base@));
            assert forall|k: int| 0 <= k < parts@.len() implies (#[trigger] parts@[k])@.len()
                == 1 by {
                set![self.base@[k]@].lemma_singleton_size();
            }
            assert forall|k: int, j: int|
                0 <= k < parts@.len() && 0 <= j < parts@.len() && k != j implies parts@[k]@
                != parts@[j]@ by {
                assert(views(self.base@)[k] != views(self.base@)[j]);
                assert(!set![self.base@[j]@].contains(self.base@[k]@));
            }
        }
        parts
    }

    /// Adds every value of every delta.
    fn join(&mut self, deltas: Vec<Self>)
        ensures
            final(self)@ == old(self)@.union(union_all(deltas@)),
    {
        let ghost start = self@;
        let mut i: usize = 0;
        while i < deltas.len()
            invariant
                i <= deltas@.len(),
                self@ == start.union(union_all(deltas@.take(i as int))),
            decreases deltas@.len() - i,
        {
            self.absorb(&deltas[i]);
            assert(deltas@.take(i + 1).drop_last() =~= deltas@.take(i as int));
            assert(self@ =~= start.union(union_all(deltas@.take(i + 1))));
            i = i + 1;
        }
        assert(deltas@.take(deltas@.len() as int) =~= deltas@);
    }

    /// The values of `self` that `remote` does not hold.
    fn difference(&self, remote: &Self) -> (r: Self)
        ensures
            r@ == self@.difference(remote@),
    {
        let mut r = Self::new();
        let mut i: usize = 0;
        while i < self.base.len()
            invariant
                i <= self.base@.len(),
                r@ == views(self.base@).take(i as int).to_set().difference(remote@),
            decreases self.base@.len() - i,
        {
            let v = &self.base[i];
            if !remote.contains(v) && !r.contains(v) {
                r.push_absent(v.duplicate());
            }
            proof {
                lemma_views_index(self.base@, i as int);
                lemma_take_to_set_step(views(self.base@), i as int);
            }
            assert(r@ =~= views(self.base@).take(i + 1).to_set().difference(remote@));
            i = i + 1;
        }
        assert(views(self.base@).take(self.base@.len() as int) =~= views(self.base@));
        r
    }
}

impl<T: Datum + core::hash::Hash> Extract for GSet<T> {
    type Item = T;

    open spec fn extractable(&self) -> bool {
        self@.len() == 1
    }

    /// The single value of the set.
    fn extract(&self) -> (r: T)
        ensures
            self@ == set![r@],
    {
        proof {
            use_type_invariant(self);
            self.lemma_len();
        }
        let r = self.base[0].duplicate();
        proof {
            lemma_views_index(self.base@, 0);
            assert forall|v: T::V| self@.contains(v) implies v == r@ by {
                let k = choose|k: int| 0 <= k < views(self.base@).len() && #[trigger] views(self.base@)[k] == v;
                assert(k == 0);
            }
        }
        assert(self@ =~= set![r@]);
        r
    }
}

impl Measure for GSet<String> {
    open spec fn spec_len(replica: &Self) -> nat {
        replica@.len()
    }

    closed spec fn spec_size(replica: &Self) -> nat {
        utf8_bytes(replica.seq_view())
    }

    open spec fn spec_false_matches(&self, other: &Self) -> nat {
        self@.difference(other@).len() + other@.difference(self@).len()
    }

    fn len(replica: &Self) -> (r: usize) {
        replica.len()
    }

    /// The bytes taken by the UTF-8 encodings of all the values.
    fn size_of(replica: &Self) -> (r: usize)
        ensures
            r == crate::crdt::set_bytes(replica@),
    {
        proof {
            use_type_invariant(replica);
            crate::crdt::lemma_utf8_bytes_set(views(replica.base@));
        }
        let mut refs: Vec<&String> = Vec::new();
        let mut i: usize = 0;
        while i < replica.base.len()
            invariant
                i <= replica.base@.len(),
                refs@.map_values(|s: &String| s@) =~= views(replica.base@).take(i as int),
            decreases replica.base@.len() - i,
        {
            let ghost before = refs@;
            refs.push(&replica.base[i]);
            assert(refs@.map_values(|s: &String| s@) =~= before.map_values(|s: &String| s@).push(
                replica.base@[i as int]@,
            ));
            i = i + 1;
        }
        assert(views(replica.base@).take(replica.base@.len() as int) =~= views(replica.base@));
        sum_string_bytes(&refs, 0)
    }

    /// The number of values held by exactly one of both sets.
    fn false_matches(&self, other: &Self) -> (r: usize) {
        let ours = self.difference(other);
        let theirs = other.difference(self);
        ours.len() + theirs.len()
    }
}

impl<T: Datum> PartialEq for GSet<T> {
    fn eq(&self, other: &Self) -> (r: bool)
        ensures
            r == (self@ == other@),
    {
        proof {
            use_type_invariant(self);
            use_type_invariant(other);
            self.lemma_len();
            other.lemma_len();
        }
        if self.len() != other.len() {
            return false;
        }
        let mut i: usize = 0;
        while i < self.base.len()
            invariant
                i <= self.base@.len(),
                forall|k: int| 0 <= k < i ==> other@.contains(#[trigger] self.base@[k]@),
            decreases self.base@.len() - i,
        {
            if !other.contains(&self.base[i]) {
                proof {
                    lemma_views_index(self.base@, i as int);
                }
                return false;
            }
            i = i + 1;
        }
        proof {
            assert forall|v: T::V| self@.contains(v) implies other@.contains(v) by {
                let k = choose|k: int| 0 <= k < views(self.base@).len() && #[trigger] views(self.base@)[k] == v;
                assert(self.base@[k]@ == v);
            }
            vstd::set_lib::lemma_subset_equality(self@, other@);
        }
        true
    }
}

impl<T: Datum> vstd::std_specs::cmp::PartialEqSpecImpl for GSet<T> {
    open spec fn obeys_eq_spec() -> bool {
        true
    }

    open spec fn eq_spec(&self, other: &Self) -> bool {
        self@ == other@
    }
}

impl<T: Datum> Eq for GSet<T> {

}


/// Joining the delta returned by `insert` into the state before the insertion gives the state
/// after it.
pub proof fn law_gset_insert_delta<V>(before: Set<V>, v: V)
    ensures
        before.union(if before.contains(v) { Set::<V>::empty() } else { set![v] }) == before.insert(v),
{
    assert(before.union(if before.contains(v) { Set::<V>::empty() } else { set![v] }) =~= before.insert(v));
}

/// Joining the split of a set into an empty set rebuilds the set.
pub proof fn law_gset_split_join<T: View>(s: GSet<T>, parts: Seq<GSet<T>>)
    requires
        is_split_of(s@, parts),
    ensures
        Set::<T::V>::empty().union(union_all(parts)) == s@,
{
    assert(Set::<T::V>::empty().union(union_all(parts)) =~= union_all(parts));
}

/// Joining into `remote` what `local` holds and `remote` lacks gives the join of both sets.
pub proof fn law_gset_difference_join<T: View>(local: GSet<T>, remote: GSet<T>)
    ensures
        remote@.union(local@.difference(remote@)) == local@.union(remote@),
{
    assert(remote@.union(local@.difference(remote@)) =~= local@.union(remote@));
}

/// Two sets in the same state have nothing to send each other.
pub proof fn law_gset_difference_synced<T: View>(local: GSet<T>, remote: GSet<T>)
    requires
        local@ == remote@,
    ensures
        local@.difference(remote@) == Set::<T::V>::empty(),
{
    assert(local@.difference(remote@) =~= Set::<T::V>::empty());
}

/// Joins of set states are commutative, associative and idempotent.
pub proof fn law_gset_join_semilattice<V>(a: Set<V>, b: Set<V>, c: Set<V>)
    ensures
        a.union(b) == b.union(a),
        a.union(b).union(c) == a.union(b.union(c)),
        a.union(a) == a,
{
    assert(a.union(b) =~= b.union(a));
    assert(a.union(b).union(c) =~= a.union(b.union(c)));
    assert(a.union(a) =~= a);
}

} // verus!
