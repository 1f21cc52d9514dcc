use vstd::prelude::*;

verus! {

/// The abstract values of a sequence of concrete values, in order.
pub open spec fn views<T: View>(s: Seq<T>) -> Seq<T::V> {
    s.map_values(|t: T| t@)
}

/// A value that a replica can hold: it can be compared with and copied from another value of its
/// type, and both operations agree with its abstract view.
pub trait Datum: View + Sized {
    /// Returns `true` exactly when both values have the same view.
    fn same(&self, other: &Self) -> (r: bool)
        ensures
            r == (self@ == other@),
    ;

    /// Returns a copy of `self`.
    fn duplicate(&self) -> (r: Self)
        ensures
            r@ == self@,
    ;
}

impl Datum for i32 {
    fn same(&self, other: &Self) -> (r: bool) {
        *self == *other
    }

    fn duplicate(&self) -> (r: Self) {
        *self
    }
}

impl Datum for i64 {
    fn same(&self, other: &Self) -> (r: bool) {
        *self == *other
    }

    fn duplicate(&self) -> (r: Self) {
        *self
    }
}

impl Datum for u64 {
    fn same(&self, other: &Self) -> (r: bool) {
        *self == *other
    }

    fn duplicate(&self) -> (r: Self) {
        *self
    }
}

impl Datum for usize {
    fn same(&self, other: &Self) -> (r: bool) {
        *self == *other
    }

    fn duplicate(&self) -> (r: Self) {
        *self
    }
}

impl Datum for String {
    fn same(&self, other: &Self) -> (r: bool) {
        *self == *other
    }

    fn duplicate(&self) -> (r: Self) {
        self.clone()
    }
}

/// Finds the position of a value with the view of `value` in `items`.
pub fn position_of<T: Datum>(items: &Vec<T>, value: &T) -> (r: Option<usize>)
    ensures
        r matches Some(i) ==> i < items@.len() && items@[i as int]@ == value@,
        r is None <==> !views(items@).contains(value@),
{
    let mut i: usize = 0;
    while i < items.len()
        invariant
            0 <= i <= items@.len(),
            forall|j: int| 0 <= j < i ==> items@[j]@ != value@,
        decreases items@.len() - i,
    {
        if items[i].same(value) {
            assert(views(items@)[i as int] == value@);
            return Some(i);
        }
        i = i + 1;
    }
    assert forall|k: int| 0 <= k < views(items@).len() implies views(items@)[k] != value@ by {}
    None
}

} // verus!

verus! {

/// The view of an element of a sequence is an element of the views of the sequence.
pub proof fn lemma_views_index<T: View>(s: Seq<T>, i: int)
    requires
        0 <= i < s.len(),
    ensures
        views(s)[i] == s[i]@,
        views(s).contains(s[i]@),
        views(s).to_set().contains(s[i]@),
{
    assert(views(s)[i] == s[i]@);
}

/// Growing a prefix by one element inserts that element into the prefix's set.
pub proof fn lemma_take_to_set_step<A>(s: Seq<A>, i: int)
    requires
        0 <= i < s.len(),
    ensures
        s.take(i + 1).to_set() == s.take(i).to_set().insert(s[i]),
{
    assert(s.take(i + 1) =~= s.take(i).push(s[i]));
    assert forall|a: A| s.take(i + 1).to_set().contains(a) <==> s.take(i).to_set().insert(
        s[i],
    ).contains(a) by {
        if s.take(i + 1).contains(a) {
            let k = choose|k: int| 0 <= k < i + 1 && #[trigger] s.take(i + 1)[k] == a;
            if k < i {
                assert(s.take(i)[k] == a);
            }
        }
        if s.take(i).contains(a) {
            let k = choose|k: int| 0 <= k < i && #[trigger] s.take(i)[k] == a;
            assert(s.take(i + 1)[k] == a);
        }
        if a == s[i] {
            assert(s.take(i + 1)[i] == a);
        }
    }
    assert(s.take(i + 1).to_set() =~= s.take(i).to_set().insert(s[i]));
}

} // verus!
