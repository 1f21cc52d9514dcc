//! The grow-only set, with deltas that borrow from it.

use vstd::prelude::*;

use crate::datum::{lemma_take_to_set_step, lemma_views_index, position_of, views, Datum};

use super::{saturated, uniform_size, Decompose, Extract, ExtractError, MemSized};

verus! {

broadcast use {vstd::seq_lib::group_seq_properties, vstd::set::group_set_axioms};

/// A grow-only set: values can be inserted and looked up, never removed.
#[derive(Debug)]
pub struct GSet<T: View> {
    inner: Vec<T>,
}

/// A read-only view into values of a [`GSet`]; it can be joined into any other [`GSet`] or turned
/// into one with [`GSet::from_delta`].
#[derive(Debug)]
pub struct Delta<'a, T: View> {
    set: &'a GSet<T>,
    elems: Vec<&'a T>,
}

/// Joins the sets of `parts` into `start`, in order.
pub open spec fn union_all<V>(start: Set<V>, parts: Seq<Set<V>>) -> Set<V>
    decreases parts.len(),
{
    if parts.len() == 0 {
        start
    } else {
        union_all(start, parts.drop_last()).union(parts.last())
    }
}

/// The views of a sequence of references, in order.
pub open spec fn ref_views<'a, T: View>(s: Seq<&'a T>) -> Seq<T::V> {
    s.map_values(|t: &T| t@)
}

impl<T: View> View for GSet<T> {
    type V = Set<T::V>;

    closed spec fn view(&self) -> Set<T::V> {
        views(self.inner@).to_set()
    }
}

impl<'a, T: View> View for Delta<'a, T> {
    type V = Set<T::V>;

    closed spec fn view(&self) -> Set<T::V> {
        ref_views(self.elems@).to_set()
    }
}

impl<T: View> GSet<T> {
    #[verifier::type_invariant]
    spec fn inv(self) -> bool {
        views(self.inner@).no_duplicates()
    }

    /// The invariant of the set: no value is stored twice.
    pub closed spec fn wf(&self) -> bool {
        views(self.inner@).no_duplicates()
    }

    proof fn lemma_len(&self)
        requires
            views(self.inner@).no_duplicates(),
        ensures
            self@.finite(),
            self@.len() == self.inner@.len(),
    {
        views(self.inner@).unique_seq_to_set();
        vstd::seq_lib::seq_to_set_is_finite(views(self.inner@));
    }

    /// Returns `true` if the set holds no value.
    pub fn is_empty(&self) -> (r: bool)
        ensures
            r == (self@.len() == 0),
    {
        proof {
            use_type_invariant(self);
            self.lemma_len();
        }
        self.inner.len() == 0
    }

    /// The number of values in the set.
    pub fn len(&self) -> (r: usize)
        ensures
            self.wf(),
            self@.finite(),
            r == self@.len(),
    {
        proof {
            use_type_invariant(self);
            self.lemma_len();
        }
        self.inner.len()
    }

    /// References to all the values of the set, each once.
    pub fn iter(&self) -> (r: Vec<&T>)
        ensures
            ref_views(r@).to_set() == self@,
            ref_views(r@).no_duplicates(),
    {
        proof {
            use_type_invariant(self);
        }
        let mut refs: Vec<&T> = Vec::new();
        let mut i: usize = 0;
        while i < self.inner.len()
            invariant
                i <= self.inner@.len(),
                ref_views(refs@) =~= views(self.inner@).take(i as int),
            decreases self.inner@.len() - i,
        {
            let ghost before = refs@;
            refs.push(&self.inner[i]);
            assert(ref_views(refs@) =~= ref_views(before).push(self.inner@[i as int]@));
            i = i + 1;
        }
        assert(views(self.inner@).take(self.inner@.len() as int) =~= views(self.inner@));
        refs
    }

    /// The values of the set, each once, in no particular order.
    pub fn into_values(self) -> (r: Vec<T>)
        ensures
            views(r@).no_duplicates(),
            views(r@).to_set() == self@,
    {
        proof {
            use_type_invariant(&self);
        }
        self.inner
    }

    /// A delta that contains the entire state of the set.
    pub fn as_delta(&self) -> (r: Delta<'_, T>)
        ensures
            r@ == self@,
    {
        let elems = self.iter();
        Delta { set: self, elems }
    }
}

impl<'a, T: View> Delta<'a, T> {
    #[verifier::type_invariant]
    spec fn inv(self) -> bool {
        ref_views(self.elems@).no_duplicates()
    }

    /// The number of values of the delta.
    pub fn len(&self) -> (r: usize)
        ensures
            r == self@.len(),
    {
        proof {
            use_type_invariant(self);
            ref_views(self.elems@).unique_seq_to_set();
        }
        self.elems.len()
    }
}

impl<T: Datum> GSet<T> {
    /// Creates an empty set.
    pub fn new() -> (r: Self)
        ensures
            r@ == Set::<T::V>::empty(),
            r@.finite(),
    {
        let r = GSet { inner: Vec::new() };
        assert(r@ =~= Set::<T::V>::empty());
        r
    }

    /// A set with the values of `delta`.
    pub fn from_delta(delta: Delta<'_, T>) -> (r: Self)
        ensures
            r@ == delta@,
    {
        let mut r = Self::new();
        r.absorb(&delta);
        assert(r@ =~= delta@);
        r
    }

    /// A set with the values of `items`.
    pub fn from_values(items: Vec<T>) -> (r: Self)
        ensures
            r@ == views(items@).to_set(),
    {
        let mut r = Self::new();
        let mut i: usize = 0;
        while i < items.len()
            invariant
                i <= items@.len(),
                r@ == views(items@).take(i as int).to_set(),
            decreases items@.len() - i,
        {
            proof {
                lemma_views_index(items@, i as int);
                lemma_take_to_set_step(views(items@), i as int);
            }
            if !r.contains(&items[i]) {
                r.push_absent(items[i].duplicate());
            }
            assert(r@ =~= views(items@).take(i + 1).to_set());
            i = i + 1;
        }
        assert(views(items@).take(items@.len() as int) =~= views(items@));
        r
    }

    /// Returns `true` if the set holds a value with the view of `value`.
    pub fn contains(&self, value: &T) -> (r: bool)
        ensures
            r == self@.contains(value@),
    {
        position_of(&self.inner, value).is_some()
    }

    /// Returns `true` if no value of `self` is in `other`.
    pub fn is_disjoint(&self, other: &Self) -> (r: bool)
        ensures
            r == self@.disjoint(other@),
    {
        let mut i: usize = 0;
        while i < self.inner.len()
            invariant
                i <= self.inner@.len(),
                forall|k: int| 0 <= k < i ==> !other@.contains(#[trigger] self.inner@[k]@),
            decreases self.inner@.len() - i,
        {
            if other.contains(&self.inner[i]) {
                proof {
                    lemma_views_index(self.inner@, i as int);
                }
                return false;
            }
            i = i + 1;
        }
        proof {
            assert forall|v: T::V| self@.contains(v) implies !other@.contains(v) by {
                let k = choose|k: int| 0 <= k < views(self.inner@).len() && #[trigger] views(self.inner@)[k] == v;
                assert(self.inner@[k]@ == v);
            }
        }
        true
    }

    /// Returns `true` if every value of `self` is in `other`.
    pub fn is_subset(&self, other: &Self) -> (r: bool)
        ensures
            r == self@.subset_of(other@),
    {
        let mut i: usize = 0;
        while i < self.inner.len()
            invariant
                i <= self.inner@.len(),
                forall|k: int| 0 <= k < i ==> other@.contains(#[trigger] self.inner@[k]@),
            decreases self.inner@.len() - i,
        {
            if !other.contains(&self.inner[i]) {
                proof {
                    lemma_views_index(self.inner@, i as int);
                }
                return false;
            }
            i = i + 1;
        }
        proof {
            assert forall|v: T::V| self@.contains(v) implies other@.contains(v) by {
                let k = choose|k: int| 0 <= k < views(self.inner@).len() && #[trigger] views(self.inner@)[k] == v;
                assert(self.inner@[k]@ == v);
            }
        }
        true
    }

    /// Returns `true` if every value of `other` is in `self`.
    pub fn is_superset(&self, other: &Self) -> (r: bool)
        ensures
            r == other@.subset_of(self@),
    {
        other.is_subset(self)
    }

    /// Stores a value that the set does not hold yet.
    fn push_absent(&mut self, value: T)
        requires
            !old(self)@.contains(value@),
        ensures
            final(self)@ == old(self)@.insert(value@),
            final(self).inner@ == old(self).inner@.push(value),
    {
        proof {
            use_type_invariant(&*self);
        }
        let ghost before = views(self.inner@);
        let mut inner = Vec::new();
        std::mem::swap(&mut inner, &mut self.inner);
        inner.push(value);
        assert(views(inner@) =~= before.push(value@));
        assert(views(inner@).to_set() =~= before.to_set().insert(value@));
        self.inner = inner;
    }

    /// Adds a value to the set. Returns a delta with the value when it was absent, `None` when the
    /// set already held it.
    pub fn insert(&mut self, value: T) -> (r: Option<Delta<'_, T>>)
        ensures
            final(self)@ == old(self)@.insert(value@),
            final(self)@.finite(),
            final(self)@.len() == old(self)@.len() + (if old(self)@.contains(value@) { 0int } else { 1int }),
            old(self)@.contains(value@) ==> r is None,
            !old(self)@.contains(value@) ==> (r matches Some(d) && d@ == set![value@]),
    {
        proof {
            use_type_invariant(&*self);
            self.lemma_len();
        }
        if self.contains(&value) {
            assert(self@.insert(value@) =~= self@);
            return None;
        }
        self.push_absent(value);
        let last = self.inner.len() - 1;
        let mut elems: Vec<&T> = Vec::new();
        elems.push(&self.inner[last]);
        proof {
            assert(ref_views(elems@) =~= seq![self.inner@[last as int]@]);
            assert(ref_views(elems@).to_set() =~= set![self.inner@[last as int]@]);
        }
        Some(Delta { set: &*self, elems })
    }

    /// Adds the values of `delta` that the set does not hold yet.
    fn absorb(&mut self, delta: &Delta<'_, T>)
        ensures
            final(self)@ == old(self)@.union(delta@),
    {
        let ghost start = self@;
        let mut i: usize = 0;
        while i < delta.elems.len()
            invariant
                i <= delta.elems@.len(),
                self@ == start.union(ref_views(delta.elems@).take(i as int).to_set()),
            decreases delta.elems@.len() - i,
        {
            let v: &T = delta.elems[i];
            proof {
                assert(ref_views(delta.elems@)[i as int] == v@);
                lemma_take_to_set_step(ref_views(delta.elems@), i as int);
            }
            if !self.contains(v) {
                self.push_absent(v.duplicate());
            }
            assert(self@ =~= start.union(ref_views(delta.elems@).take(i + 1).to_set()));
            i = i + 1;
        }
        assert(ref_views(delta.elems@).take(delta.elems@.len() as int) =~= ref_views(delta.elems@));
    }
}

impl<T: Datum> Default for GSet<T> {
    fn default() -> (r: Self)
        ensures
            r@ == Set::<T::V>::empty(),
    {
        Self::new()
    }
}

impl<T: Datum> Clone for GSet<T> {
    fn clone(&self) -> (r: Self)
        ensures
            r@ == self@,
    {
        let d = self.as_delta();
        let mut r = Self::new();
        r.absorb(&d);
        assert(r@ =~= self@);
        r
    }
}

impl<T: Datum + core::hash::Hash + 'static> Decompose for GSet<T> {
    type Decomposition<'a> = Delta<'a, T>;

    open spec fn spec_join(a: Set<T::V>, b: Set<T::V>) -> Set<T::V> {
        a.union(b)
    }

    open spec fn spec_bottom() -> Set<T::V> {
        Set::empty()
    }

    open spec fn spec_part_count(&self) -> nat {
        self@.len()
    }

    open spec fn spec_wf(&self) -> bool {
        self.wf()
    }

    open spec fn spec_difference(&self, remote: &Self) -> Set<T::V> {
        self@.difference(remote@)
    }

    open spec fn spec_join_all(start: Set<T::V>, parts: Seq<Set<T::V>>) -> Set<T::V> {
        union_all(start, parts)
    }

    proof fn lemma_join_all(start: Set<T::V>, parts: Seq<Set<T::V>>, last: Set<T::V>) {
        assert(parts.push(last).drop_last() =~= parts);
    }

    proof fn lemma_lattice(a: Set<T::V>, b: Set<T::V>, c: Set<T::V>) {
        assert(a.union(b) =~= b.union(a));
        assert(a.union(b).union(c) =~= a.union(b.union(c)));
        assert(a.union(a) =~= a);
        assert(Set::<T::V>::empty().union(a) =~= a);
    }

    fn empty() -> (r: Self) {
        let r = Self::new();
        proof {
            use_type_invariant(&r);
        }
        r
    }

    fn as_delta(&self) -> (r: Delta<'_, T>) {
        GSet::as_delta(self)
    }

    /// One delta per value.
    fn split(&self) -> (r: Vec<Delta<'_, T>>)
        ensures
            r@.len() == self@.len(),
            forall|k: int| 0 <= k < r@.len() ==> (#[trigger] r@[k])@.len() == 1,
            forall|j: int, k: int| 0 <= j < k < r@.len() ==> (#[trigger] r@[j])@ != (#[trigger] r@[k])@,
    {
        proof {
            use_type_invariant(self);
            self.lemma_len();
        }
        let mut parts: Vec<Delta<'_, T>> = Vec::new();
        let mut i: usize = 0;
        assert(views(self.inner@).take(0).to_set() =~= Set::<T::V>::empty());
        while i < self.inner.len()
            invariant
                i <= self.inner@.len(),
                parts@.len() == i,
                forall|k: int| 0 <= k < parts@.len() ==> (#[trigger] parts@[k]).spec_values() == 1,
                forall|k: int| 0 <= k < parts@.len() ==> (#[trigger] parts@[k])@ == set![views(self.inner@)[k]],
                views(self.inner@).no_duplicates(),
                union_all(Set::empty(), parts@.map_values(|d: Delta<'_, T>| d@))
                    == views(self.inner@).take(i as int).to_set(),
            decreases self.inner@.len() - i,
        {
            let mut elems: Vec<&T> = Vec::new();
            elems.push(&self.inner[i]);
            proof {
                assert(ref_views(elems@) =~= seq![self.inner@[i as int]@]);
                assert(ref_views(elems@).to_set() =~= set![self.inner@[i as int]@]);
            }
            let part = Delta { set: self, elems };
            proof {
                assert(part@.len() == 1) by {
                    assert(part@ == set![self.inner@[i as int]@]);
                }
            }
            let ghost before = parts@;
            parts.push(part);
            proof {
                assert(parts@.map_values(|d: Delta<'_, T>| d@).drop_last() =~= before.map_values(
                    |d: Delta<'_, T>| d@,
                ));
                lemma_views_index(self.inner@, i as int);
                assert forall|k: int| 0 <= k < parts@.len() implies (#[trigger] parts@[k])@ == set![views(self.inner@)[k]] by {
                    if k < before.len() {
                        assert(parts@[k] == before[k]);
                    }
                }
                lemma_take_to_set_step(views(self.inner@), i as int);
                assert(views(self.inner@).take(i + 1).to_set() =~= views(self.inner@).take(
                    i as int,
                ).to_set().union(set![self.inner@[i as int]@]));
            }
            i = i + 1;
        }
        assert(views(self.inner@).take(self.inner@.len() as int) =~= views(self.inner@));
        proof {
            assert forall|j: int, k: int| 0 <= j < k < parts@.len() implies (#[trigger] parts@[j])@ != (#[trigger] parts@[k])@ by {
                if parts@[j]@ == parts@[k]@ {
                    assert(set![views(self.inner@)[j]].contains(views(self.inner@)[j]));
                    assert(views(self.inner@)[j] == views(self.inner@)[k]);
                }
            }
        }
        parts
    }

    /// Adds every value of every delta.
    fn join(&mut self, deltas: Vec<Delta<'_, T>>) {
        let ghost start = self@;
        let mut i: usize = 0;
        while i < deltas.len()
            invariant
                i <= deltas@.len(),
                self@ == union_all(
                    start,
                    deltas@.take(i as int).map_values(|d: Delta<'_, T>| d@),
                ),
            decreases deltas@.len() - i,
        {
            self.absorb(&deltas[i]);
            proof {
                assert(deltas@.take(i + 1).map_values(|d: Delta<'_, T>| d@).drop_last()
                    =~= deltas@.take(i as int).map_values(|d: Delta<'_, T>| d@));
            }
            i = i + 1;
        }
        assert(deltas@.take(deltas@.len() as int) =~= deltas@);
        proof {
            use_type_invariant(&*self);
        }
    }

    /// The values of `self` that `remote` lacks.
    fn difference<'a>(&'a self, remote: &'a Self) -> (r: Delta<'a, T>)
        ensures
            r@ == self@.difference(remote@),
    {
        proof {
            use_type_invariant(self);
        }
        let mut elems: Vec<&T> = Vec::new();
        let mut i: usize = 0;
        while i < self.inner.len()
            invariant
                i <= self.inner@.len(),
                views(self.inner@).no_duplicates(),
                ref_views(elems@).no_duplicates(),
                ref_views(elems@).to_set() == views(self.inner@).take(i as int).to_set().difference(remote@),
                forall|k: int| 0 <= k < elems@.len() ==> views(self.inner@).take(i as int).contains(#[trigger] ref_views(elems@)[k]),
            decreases self.inner@.len() - i,
        {
            proof {
                lemma_views_index(self.inner@, i as int);
                lemma_take_to_set_step(views(self.inner@), i as int);
            }
            if !remote.contains(&self.inner[i]) {
                let ghost before = elems@;
                elems.push(&self.inner[i]);
                proof {
                    let v = self.inner@[i as int]@;
                    assert(ref_views(elems@) =~= ref_views(before).push(v));
                    assert(!views(self.inner@).take(i as int).contains(v)) by {
                        if views(self.inner@).take(i as int).contains(v) {
                            let m = choose|m: int| 0 <= m < i && #[trigger] views(self.inner@).take(i as int)[m] == v;
                            assert(views(self.inner@)[m] == views(self.inner@)[i as int]);
                        }
                    }
                    assert(ref_views(elems@).to_set() =~= ref_views(before).to_set().insert(v));
                    assert forall|k: int| 0 <= k < elems@.len() implies views(self.inner@).take(i + 1).contains(#[trigger] ref_views(elems@)[k]) by {
                        if k < before.len() {
                            let m = choose|m: int| 0 <= m < i && #[trigger] views(self.inner@).take(i as int)[m] == ref_views(elems@)[k];
                            assert(views(self.inner@).take(i + 1)[m] == ref_views(elems@)[k]);
                        } else {
                            assert(views(self.inner@).take(i + 1)[i as int] == v);
                        }
                    }
                }
            } else {
                proof {
                    assert forall|k: int| 0 <= k < elems@.len() implies views(self.inner@).take(i + 1).contains(#[trigger] ref_views(elems@)[k]) by {
                        let m = choose|m: int| 0 <= m < i && #[trigger] views(self.inner@).take(i as int)[m] == ref_views(elems@)[k];
                        assert(views(self.inner@).take(i + 1)[m] == ref_views(elems@)[k]);
                    }
                }
            }
            assert(ref_views(elems@).to_set() =~= views(self.inner@).take(i + 1).to_set().difference(remote@));
            i = i + 1;
        }
        assert(views(self.inner@).take(self.inner@.len() as int) =~= views(self.inner@));
        let r = Delta { set: self, elems };
        assert(remote@.union(r@) =~= self@.union(remote@));
        assert(self@.union(r@) =~= self@);
        r
    }
}

impl<'a, T: Datum + core::hash::Hash> Extract for Delta<'a, T> {
    type Output = &'a T;

    open spec fn spec_values(&self) -> nat {
        self@.len()
    }

    /// The single value of the delta.
    fn extract(&self) -> (r: Result<&'a T, ExtractError>)
        ensures
            r matches Ok(v) ==> self@ == set![v@],
    {
        let n = self.len();
        if n != 1 {
            return Err(ExtractError::NotSingle(n));
        }
        proof {
            use_type_invariant(self);
            ref_views(self.elems@).unique_seq_to_set();
        }
        let v: &'a T = self.elems[0];
        proof {
            assert(ref_views(self.elems@)[0] == v@);
            assert forall|x: T::V| self@.contains(x) implies x == v@ by {
                let k = choose|k: int| 0 <= k < ref_views(self.elems@).len() && #[trigger] ref_views(self.elems@)[k] == x;
                assert(k == 0);
            }
            assert(self@ =~= set![v@]);
        }
        Ok(v)
    }
}

/// The sum of the sizes of the values of a sequence.
pub open spec fn sizes<T: MemSized>(s: Seq<T>) -> nat
    decreases s.len(),
{
    if s.len() == 0 {
        0
    } else {
        sizes(s.drop_last()) + s.last().spec_size_of()
    }
}

/// Values that all take `k` bytes take `k` bytes each.
pub proof fn lemma_sizes_uniform<T: MemSized>(s: Seq<T>, k: nat)
    requires
        uniform_size::<T>(k),
    ensures
        sizes(s) == k * s.len(),
    decreases s.len(),
{
    if s.len() > 0 {
        lemma_sizes_uniform(s.drop_last(), k);
        assert(s.last().spec_size_of() == k);
        let n = s.len();
        assert(k * (n - 1) + k == k * n) by (nonlinear_arith);
    }
}

/// A set of values that all take `k` bytes takes `k` bytes per value.
pub proof fn lemma_gset_uniform_size<T: Datum + MemSized>(s: &GSet<T>, k: nat)
    requires
        s.wf(),
        uniform_size::<T>(k),
    ensures
        s.spec_size_of() == k * s@.len(),
{
    s.lemma_len();
    lemma_sizes_uniform(s.inner@, k);
}

impl<T: Datum + MemSized> MemSized for GSet<T> {
    closed spec fn spec_size_of(&self) -> nat {
        sizes(self.inner@)
    }

    /// The sizes of all the values.
    fn size_of(&self) -> (r: usize) {
        let mut total: usize = 0;
        let mut i: usize = 0;
        while i < self.inner.len()
            invariant
                i <= self.inner@.len(),
                total == saturated(sizes(self.inner@.take(i as int))),
            decreases self.inner@.len() - i,
        {
            proof {
                assert(self.inner@.take(i + 1).drop_last() =~= self.inner@.take(i as int));
            }
            total = total.saturating_add(self.inner[i].size_of());
            i = i + 1;
        }
        assert(self.inner@.take(self.inner@.len() as int) =~= self.inner@);
        total
    }
}


impl<T: Datum> PartialEq for GSet<T> {
    fn eq(&self, other: &Self) -> (r: bool)
        ensures
            r == (self@ == other@),
    {
        proof {
            use_type_invariant(self);
            use_type_invariant(other);
            self.lemma_len();
            other.lemma_len();
        }
        if self.len() != other.len() {
            return false;
        }
        let sub = self.is_subset(other);
        proof {
            if sub {
                vstd::set_lib::lemma_subset_equality(self@, other@);
            }
        }
        sub
    }
}

impl<T: Datum> vstd::std_specs::cmp::PartialEqSpecImpl for GSet<T> {
    open spec fn obeys_eq_spec() -> bool {
        true
    }

    open spec fn eq_spec(&self, other: &Self) -> bool {
        self@ == other@
    }
}

impl<T: Datum> Eq for GSet<T> {

}

} // verus!
