//! The add-wins set, built from uniquely tagged insertions and a set of removed tags.

use vstd::prelude::*;

use crate::datum::{lemma_take_to_set_step, lemma_views_index, views, Datum};
use crate::random::random_u64;

use super::{sum_string_bytes, utf8_bytes, Decompose, Elements, Extract, Measure};

verus! {

broadcast use {vstd::seq_lib::group_seq_properties, vstd::set::group_set_axioms, vstd::map::group_map_axioms};

/// The abstract state of an add-wins set: the tag of every insertion with the inserted value,
/// and the tags of the removed insertions.
pub type AWState<V> = (Map<u64, V>, Set<u64>);

/// The insertions whose tag has not been removed.
pub open spec fn live<V>(s: AWState<V>) -> Map<u64, V> {
    s.0.remove_keys(s.1)
}

/// `true` when a live insertion holds `v`.
pub open spec fn holds<V>(s: AWState<V>, v: V) -> bool {
    exists|id: u64| #[trigger] live(s).contains_key(id) && live(s)[id] == v
}

/// The number of live insertions.
pub open spec fn live_len<V>(s: AWState<V>) -> nat {
    live(s).dom().len()
}

/// The tags of the live insertions that hold `v`.
pub open spec fn live_tags_of<V>(s: AWState<V>, v: V) -> Set<u64> {
    live(s).dom().filter(|id: u64| live(s)[id] == v)
}

/// The tags of a sequence of tagged values, in order.
pub open spec fn tags<T>(s: Seq<(u64, T)>) -> Seq<u64> {
    s.map_values(|p: (u64, T)| p.0)
}

/// The map from tag to the view of its value built from a sequence of tagged values.
pub open spec fn tag_map<T: View>(s: Seq<(u64, T)>) -> Map<u64, T::V>
    decreases s.len(),
{
    if s.len() == 0 {
        Map::empty()
    } else {
        tag_map(s.drop_last()).insert(s.last().0, s.last().1@)
    }
}

/// The insertions of all the sets of `parts`, joined in order, later values winning.
pub open spec fn inserted_union<T: View>(parts: Seq<AWSet<T>>) -> Map<u64, T::V>
    decreases parts.len(),
{
    if parts.len() == 0 {
        Map::empty()
    } else {
        inserted_union(parts.drop_last()).union_prefer_right(parts.last()@.0)
    }
}

/// The removed tags of all the sets of `parts`.
pub open spec fn removed_union<T: View>(parts: Seq<AWSet<T>>) -> Set<u64>
    decreases parts.len(),
{
    if parts.len() == 0 {
        Set::empty()
    } else {
        removed_union(parts.drop_last()).union(parts.last()@.1)
    }
}

/// A set holds exactly one piece of state: one insertion or one removed tag.
pub open spec fn is_single<V>(s: AWState<V>) -> bool {
    (s.0.dom().len() == 1 && s.1.len() == 0) || (s.0.dom().len() == 0 && s.1.len() == 1)
}

/// `parts` are the irredundant join-decompositions of `s`.
pub open spec fn is_split_of<T: View>(s: AWState<T::V>, parts: Seq<AWSet<T>>) -> bool {
    &&& parts.len() == s.0.dom().len() + s.1.len()
    &&& forall|i: int| 0 <= i < parts.len() ==> is_single(#[trigger] parts[i]@)
    &&& inserted_union(parts) == s.0
    &&& removed_union(parts) == s.1
}

/// An item extracted from a single-piece add-wins set.
#[derive(Clone, Debug, PartialEq, Eq, Hash)]
pub enum AWItem<T> {
    /// One insertion: its tag and its value.
    Inserted(u64, T),
    /// One removed tag.
    Removed(u64),
}

/// An add-wins set: an insertion is only cancelled by removals that observed it.
#[derive(Debug)]
pub struct AWSet<T: View> {
    inserted: Vec<(u64, T)>,
    removed: Vec<u64>,
}

impl<T: View> View for AWSet<T> {
    type V = AWState<T::V>;

    closed spec fn view(&self) -> AWState<T::V> {
        (tag_map(self.inserted@), self.removed@.to_set())
    }
}

/// Facts about the map built from tagged values with distinct tags.
pub proof fn lemma_tag_map<T: View>(s: Seq<(u64, T)>)
    requires
        tags(s).no_duplicates(),
    ensures
        tag_map(s).dom() == tags(s).to_set(),
        tag_map(s).dom().finite(),
        tag_map(s).dom().len() == s.len(),
        forall|k: int| 0 <= k < s.len() ==> tag_map(s)[(#[trigger] s[k]).0] == s[k].1@,
    decreases s.len(),
{
    if s.len() > 0 {
        let t = s.drop_last();
        assert(tags(t) =~= tags(s).drop_last());
        lemma_tag_map(t);
        assert(!tags(t).contains(s.last().0)) by {
            if tags(t).contains(s.last().0) {
                let k = choose|k: int| 0 <= k < tags(t).len() && #[trigger] tags(t)[k] == s.last().0;
                assert(tags(s)[k] == tags(s)[s.len() - 1]);
            }
        }
        assert(tag_map(s).dom() =~= tags(s).to_set()) by {
            assert(tags(s) =~= tags(t).push(s.last().0));
        }
        assert forall|k: int| 0 <= k < s.len() implies tag_map(s)[(#[trigger] s[k]).0] == s[k].1@ by {
            if k < s.len() - 1 {
                assert(t[k] == s[k]);
                assert(tags(s)[k] != tags(s)[s.len() - 1]);
            }
        }
    } else {
        assert(tag_map(s).dom() =~= tags(s).to_set());
    }
}

/// A tagged value found in a sequence with distinct tags is what the map gives for its tag.
proof fn lemma_tag_map_at<T: View>(s: Seq<(u64, T)>, k: int)
    requires
        tags(s).no_duplicates(),
        0 <= k < s.len(),
    ensures
        tag_map(s).contains_key(s[k].0),
        tag_map(s)[s[k].0] == s[k].1@,
{
    lemma_tag_map(s);
    assert(tags(s)[k] == s[k].0);
}

/// Every tag of the map comes from a position of the sequence.
proof fn lemma_tag_map_witness<T: View>(s: Seq<(u64, T)>, id: u64) -> (k: int)
    requires
        tags(s).no_duplicates(),
        tag_map(s).contains_key(id),
    ensures
        0 <= k < s.len(),
        s[k].0 == id,
        tag_map(s)[id] == s[k].1@,
{
    lemma_tag_map(s);
    let k = choose|k: int| 0 <= k < tags(s).len() && #[trigger] tags(s)[k] == id;
    assert(s[k].0 == id);
    k
}

/// Joining insertions is associative.
proof fn lemma_union_prefer_right_assoc<V>(a: Map<u64, V>, b: Map<u64, V>, c: Map<u64, V>)
    ensures
        a.union_prefer_right(b).union_prefer_right(c) == a.union_prefer_right(b.union_prefer_right(c)),
{
    assert(a.union_prefer_right(b).union_prefer_right(c) =~= a.union_prefer_right(b.union_prefer_right(c)));
}

/// Finds the position of the tagged value with tag `id`.
fn position_of_tag<T>(items: &Vec<(u64, T)>, id: u64) -> (r: Option<usize>)
    ensures
        r matches Some(k) ==> k < items@.len() && items@[k as int].0 == id,
        r is None <==> !tags(items@).contains(id),
{
    let mut i: usize = 0;
    while i < items.len()
        invariant
            i <= items@.len(),
            forall|j: int| 0 <= j < i ==> items@[j].0 != id,
        decreases items@.len() - i,
    {
        if items[i].0 == id {
            assert(tags(items@)[i as int] == id);
            return Some(i);
        }
        i = i + 1;
    }
    assert forall|k: int| 0 <= k < tags(items@).len() implies tags(items@)[k] != id by {
        assert(tags(items@)[k] == items@[k].0);
    }
    None
}

/// Returns `true` if `tag` is one of `tags`.
fn has_tag(tags: &Vec<u64>, tag: u64) -> (r: bool)
    ensures
        r == tags@.contains(tag),
{
    let mut i: usize = 0;
    while i < tags.len()
        invariant
            i <= tags@.len(),
            forall|j: int| 0 <= j < i ==> tags@[j] != tag,
        decreases tags@.len() - i,
    {
        if tags[i] == tag {
            return true;
        }
        i = i + 1;
    }
    false
}

impl<T: View> AWSet<T> {
    #[verifier::type_invariant]
    spec fn inv(self) -> bool {
        &&& tags(self.inserted@).no_duplicates()
        &&& self.removed@.no_duplicates()
    }

    /// The state's maps and sets are finite.
    proof fn lemma_wf(&self)
        requires
            tags(self.inserted@).no_duplicates(),
            self.removed@.no_duplicates(),
        ensures
            self@.0.dom().finite(),
            self@.0.dom().len() == self.inserted@.len(),
            self@.1.finite(),
            self@.1.len() == self.removed@.len(),
            live(self@).dom().finite(),
    {
        lemma_tag_map(self.inserted@);
        self.removed@.unique_seq_to_set();
        vstd::seq_lib::seq_to_set_is_finite(self.removed@);
        assert(live(self@).dom() =~= self@.0.dom().difference(self@.1));
    }

    /// Creates an empty set.
    pub fn new() -> (r: Self)
        ensures
            r@.0 == Map::<u64, T::V>::empty(),
            r@.1 == Set::<u64>::empty(),
    {
        let r = AWSet { inserted: Vec::new(), removed: Vec::new() };
        assert(r@.1 =~= Set::<u64>::empty());
        r
    }

    /// Returns `true` if the insertion at position `k` has not been removed.
    fn is_live_at(&self, k: usize) -> (r: bool)
        requires
            k < self.inserted@.len(),
        ensures
            r == !self@.1.contains(self.inserted@[k as int].0),
    {
        !has_tag(&self.removed, self.inserted[k].0)
    }

    /// The number of live insertions.
    pub fn len(&self) -> (r: usize)
        ensures
            r == live_len(self@),
    {
        proof {
            use_type_invariant(self);
            self.lemma_wf();
            lemma_tag_map(self.inserted@);
        }
        let ghost all = tags(self.inserted@);
        let ghost removed = self@.1;
        assert(all.take(0).to_set().difference(removed) =~= Set::<u64>::empty());
        let mut count: usize = 0;
        let mut i: usize = 0;
        while i < self.inserted.len()
            invariant
                i <= self.inserted@.len(),
                all == tags(self.inserted@),
                all.no_duplicates(),
                removed == self@.1,
                count <= i,
                count == all.take(i as int).to_set().difference(removed).len(),
            decreases self.inserted@.len() - i,
        {
            proof {
                lemma_take_to_set_step(all, i as int);
                vstd::seq_lib::seq_to_set_is_finite(all.take(i as int));
                assert(all[i as int] == self.inserted@[i as int].0);
                assert(!all.take(i as int).contains(all[i as int])) by {
                    if all.take(i as int).contains(all[i as int]) {
                        let j = choose|j: int| 0 <= j < i && #[trigger] all.take(i as int)[j] == all[i as int];
                        assert(all[j] == all[i as int]);
                    }
                }
            }
            if self.is_live_at(i) {
                assert(all.take(i + 1).to_set().difference(removed) =~= all.take(
                    i as int,
                ).to_set().difference(removed).insert(all[i as int]));
                count = count + 1;
            } else {
                assert(all.take(i + 1).to_set().difference(removed) =~= all.take(
                    i as int,
                ).to_set().difference(removed));
            }
            i = i + 1;
        }
        proof {
            assert(all.take(self.inserted@.len() as int) =~= all);
            assert(live(self@).dom() =~= all.to_set().difference(removed));
        }
        count
    }

    /// Returns `true` if no insertion is live.
    pub fn is_empty(&self) -> (r: bool)
        ensures
            r == (live_len(self@) == 0),
    {
        self.len() == 0
    }
}

impl<T: Datum> AWSet<T> {
    /// Returns `true` if a live insertion holds `value`.
    pub fn contains(&self, value: &T) -> (r: bool)
        ensures
            r == holds(self@, value@),
    {
        proof {
            use_type_invariant(self);
        }
        let mut i: usize = 0;
        while i < self.inserted.len()
            invariant
                i <= self.inserted@.len(),
                tags(self.inserted@).no_duplicates(),
                forall|j: int|
                    0 <= j < i ==> !(self.inserted@[j].1@ == value@ && !self@.1.contains(
                        #[trigger] self.inserted@[j].0,
                    )),
            decreases self.inserted@.len() - i,
        {
            if self.inserted[i].1.same(value) && self.is_live_at(i) {
                proof {
                    lemma_tag_map_at(self.inserted@, i as int);
                    assert(live(self@).contains_key(self.inserted@[i as int].0));
                }
                return true;
            }
            i = i + 1;
        }
        proof {
            if holds(self@, value@) {
                let id = choose|id: u64| #[trigger] live(self@).contains_key(id) && live(self@)[id] == value@;
                let k = lemma_tag_map_witness(self.inserted@, id);
                assert(self.inserted@[k].0 == id);
            }
        }
        false
    }

    /// A cursor over the values of the live insertions, one per insertion.
    pub fn elements(&self) -> (r: Elements<'_, T>)
        ensures
            exists|ids: Seq<u64>|
                #![trigger ids.to_set()]
                ids.no_duplicates() && ids.to_set() == live(self@).dom() && r@ == ids.map_values(
                    |id: u64| live(self@)[id],
                ),
    {
        proof {
            use_type_invariant(self);
            lemma_tag_map(self.inserted@);
        }
        let ghost all = tags(self.inserted@);
        let mut refs: Vec<&T> = Vec::new();
        let ghost mut ids: Seq<u64> = Seq::empty();
        let mut i: usize = 0;
        while i < self.inserted.len()
            invariant
                i <= self.inserted@.len(),
                all == tags(self.inserted@),
                all.no_duplicates(),
                ids.no_duplicates(),
                ids.to_set() == all.take(i as int).to_set().difference(self@.1),
                forall|j: int| 0 <= j < ids.len() ==> all.take(i as int).contains(#[trigger] ids[j]),
                refs@.map_values(|t: &T| t@) == ids.map_values(|id: u64| live(self@)[id]),
            decreases self.inserted@.len() - i,
        {
            proof {
                lemma_take_to_set_step(all, i as int);
                assert(all[i as int] == self.inserted@[i as int].0);
            }
            if self.is_live_at(i) {
                let ghost id = self.inserted@[i as int].0;
                proof {
                    lemma_tag_map_at(self.inserted@, i as int);
                    assert(!ids.contains(id)) by {
                        if ids.contains(id) {
                            let j = choose|j: int| 0 <= j < ids.len() && ids[j] == id;
                            assert(all.take(i as int).contains(ids[j]));
                            let m = choose|m: int| 0 <= m < i && #[trigger] all.take(i as int)[m] == id;
                            assert(all[m] == all[i as int]);
                        }
                    }
                }
                let ghost before_refs = refs@;
                let ghost before_ids = ids;
                refs.push(&self.inserted[i].1);
                proof {
                    ids = ids.push(id);
                    assert(refs@.map_values(|t: &T| t@) =~= before_refs.map_values(|t: &T| t@).push(
                        self.inserted@[i as int].1@,
                    ));
                    assert(ids.map_values(|id: u64| live(self@)[id]) =~= before_ids.map_values(
                        |id: u64| live(self@)[id],
                    ).push(live(self@)[id]));
                    assert(ids.to_set() =~= before_ids.to_set().insert(id));
                    assert(all.take(i + 1).to_set().difference(self@.1) =~= all.take(
                        i as int,
                    ).to_set().difference(self@.1).insert(id));
                    assert forall|j: int| 0 <= j < ids.len() implies all.take(i + 1).contains(
                        #[trigger] ids[j],
                    ) by {
                        if j < before_ids.len() {
                            assert(all.take(i as int).contains(before_ids[j]));
                            let m = choose|m: int| 0 <= m < i && #[trigger] all.take(i as int)[m] == before_ids[j];
                            assert(all.take(i + 1)[m] == before_ids[j]);
                        } else {
                            assert(all.take(i + 1)[i as int] == id);
                        }
                    }
                }
            } else {
                proof {
                    assert(all.take(i + 1).to_set().difference(self@.1) =~= all.take(
                        i as int,
                    ).to_set().difference(self@.1));
                    assert forall|j: int| 0 <= j < ids.len() implies all.take(i + 1).contains(
                        #[trigger] ids[j],
                    ) by {
                        let m = choose|m: int| 0 <= m < i && #[trigger] all.take(i as int)[m] == ids[j];
                        assert(all.take(i + 1)[m] == ids[j]);
                    }
                }
            }
            i = i + 1;
        }
        proof {
            assert(all.take(self.inserted@.len() as int) =~= all);
            assert(live(self@).dom() =~= all.to_set().difference(self@.1));
        }
        Elements::from_refs(refs)
    }
}


impl<T: View> AWSet<T> {
    /// Records an insertion whose tag is new.
    fn push_inserted(&mut self, id: u64, value: T)
        requires
            !old(self)@.0.contains_key(id),
        ensures
            final(self)@.0 == old(self)@.0.insert(id, value@),
            final(self)@.1 == old(self)@.1,
            final(self).removed@ == old(self).removed@,
            final(self).inserted@ == old(self).inserted@.push((id, value)),
    {
        proof {
            use_type_invariant(&*self);
            lemma_tag_map(self.inserted@);
        }
        let ghost before = self.inserted@;
        let mut inserted = Vec::new();
        std::mem::swap(&mut inserted, &mut self.inserted);
        inserted.push((id, value));
        proof {
            assert(inserted@.drop_last() =~= before);
            assert(tags(inserted@) =~= tags(before).push(id));
            assert(!tags(before).contains(id));
            assert(tags(inserted@).no_duplicates()) by {
                assert forall|a: int, b: int|
                    0 <= a < tags(inserted@).len() && 0 <= b < tags(inserted@).len() && a != b
                    implies tags(inserted@)[a] != tags(inserted@)[b] by {
                    if a < before.len() && b < before.len() {
                        assert(tags(before)[a] != tags(before)[b]);
                    } else if a < before.len() {
                        assert(tags(before)[a] == tags(inserted@)[a]);
                    } else {
                        assert(tags(before)[b] == tags(inserted@)[b]);
                    }
                }
            }
        }
        self.inserted = inserted;
    }

    /// Replaces the value of the insertion at position `k`.
    fn replace_inserted(&mut self, k: usize, value: T)
        requires
            k < old(self).inserted@.len(),
        ensures
            final(self)@.0 == old(self)@.0.insert(old(self).inserted@[k as int].0, value@),
            final(self)@.1 == old(self)@.1,
            final(self).inserted@.len() == old(self).inserted@.len(),
    {
        proof {
            use_type_invariant(&*self);
            lemma_tag_map(self.inserted@);
        }
        let ghost before = self.inserted@;
        let mut inserted = Vec::new();
        std::mem::swap(&mut inserted, &mut self.inserted);
        let id = inserted[k].0;
        inserted.set(k, (id, value));
        proof {
            assert(tags(inserted@) =~= tags(before));
            lemma_tag_map(inserted@);
            lemma_tag_map(before);
            lemma_tag_map_at(before, k as int);
            lemma_tag_map_at(inserted@, k as int);
            assert(tag_map(inserted@).dom() =~= tag_map(before).insert(id, value@).dom());
            assert(tag_map(inserted@) =~= tag_map(before).insert(id, value@)) by {
                assert forall|t: u64| tag_map(inserted@).contains_key(t) implies tag_map(inserted@)[t]
                    == tag_map(before).insert(id, value@)[t] by {
                    let j = lemma_tag_map_witness(inserted@, t);
                    if j != k {
                        assert(inserted@[j] == before[j]);
                        assert(tags(before)[j] != tags(before)[k as int]);
                        lemma_tag_map_at(before, j);
                    }
                }
            }
        }
        self.inserted = inserted;
    }

    /// Records a removed tag that was not recorded yet.
    fn push_removed(&mut self, id: u64)
        requires
            !old(self)@.1.contains(id),
        ensures
            final(self)@.0 == old(self)@.0,
            final(self)@.1 == old(self)@.1.insert(id),
            final(self).inserted@ == old(self).inserted@,
    {
        proof {
            use_type_invariant(&*self);
        }
        let ghost before = self.removed@;
        let mut removed = Vec::new();
        std::mem::swap(&mut removed, &mut self.removed);
        removed.push(id);
        proof {
            assert(removed@ =~= before.push(id));
            assert(removed@.to_set() =~= before.to_set().insert(id));
        }
        self.removed = removed;
    }

    /// A tag that no insertion of the set carries: a random one, or the smallest free one when
    /// the random draw is already taken.
    fn uid(&self) -> (r: u64)
        ensures
            !self@.0.contains_key(r),
    {
        proof {
            use_type_invariant(self);
            lemma_tag_map(self.inserted@);
            tags(self.inserted@).unique_seq_to_set();
        }
        let candidate = random_u64();
        if position_of_tag(&self.inserted, candidate).is_none() {
            return candidate;
        }
        let n = self.inserted.len();
        let mut c: u64 = 0;
        while position_of_tag(&self.inserted, c).is_some()
            invariant
                n == self.inserted@.len(),
                tags(self.inserted@).no_duplicates(),
                tags(self.inserted@).to_set().len() == self.inserted@.len(),
                self@.0.dom() == tags(self.inserted@).to_set(),
                c <= self.inserted@.len(),
                forall|x: u64| x < c ==> tags(self.inserted@).contains(x),
            decreases self.inserted@.len() - c,
        {
            proof {
                let taken = tags(self.inserted@).to_set();
                let below = <u64 as vstd::set_lib::FiniteRange>::range_set(0, c);
                <u64 as vstd::set_lib::FiniteRange>::range_properties(0, c);
                assert(below.insert(c).subset_of(taken));
                vstd::seq_lib::seq_to_set_is_finite(tags(self.inserted@));
                assert(!below.contains(c));
                assert(below.insert(c).len() == c + 1);
                vstd::set_lib::lemma_len_subset(below.insert(c), taken);
                assert(c + 1 <= self.inserted@.len());
                assert(n <= u64::MAX);
            }
            c = c + 1;
        }
        c
    }
}

impl<T: Datum> AWSet<T> {
    /// A set with the single insertion `(id, value)`.
    fn single_insertion(id: u64, value: T) -> (r: Self)
        ensures
            r@.0 == map![id => value@],
            r@.1 == Set::<u64>::empty(),
    {
        let mut r = Self::new();
        r.push_inserted(id, value);
        assert(r@.0 =~= map![id => value@]);
        r
    }

    /// A set with the single removed tag `id`.
    fn single_removal(id: u64) -> (r: Self)
        ensures
            r@.0 == Map::<u64, T::V>::empty(),
            r@.1 == set![id],
    {
        let mut r = Self::new();
        r.push_removed(id);
        assert(r@.1 =~= set![id]);
        r
    }

    /// Inserts `value` under a fresh tag unless a live insertion already holds it, and returns
    /// the delta of the operation: the new insertion, or an empty set.
    pub fn insert(&mut self, value: T) -> (r: Self)
        ensures
            holds(old(self)@, value@) ==> final(self)@ == old(self)@ && r@.0 == Map::<
                u64,
                T::V,
            >::empty() && r@.1 == Set::<u64>::empty(),
            !holds(old(self)@, value@) ==> exists|id: u64|
                {
                    &&& !old(self)@.0.contains_key(id)
                    &&& final(self)@.0 == old(self)@.0.insert(id, value@)
                    &&& final(self)@.1 == old(self)@.1
                    &&& r@.0 == map![id => value@]
                    &&& r@.1 == Set::<u64>::empty()
                },
    {
        if self.contains(&value) {
            Self::new()
        } else {
            let id = self.uid();
            let copy = value.duplicate();
            self.push_inserted(id, value);
            Self::single_insertion(id, copy)
        }
    }

    /// Removes every live insertion of `value` and returns the delta of the operation: the set
    /// of the removed tags.
    pub fn remove(&mut self, value: &T) -> (r: Self)
        ensures
            final(self)@.0 == old(self)@.0,
            final(self)@.1 == old(self)@.1.union(live_tags_of(old(self)@, value@)),
            r@.0 == Map::<u64, T::V>::empty(),
            r@.1 == live_tags_of(old(self)@, value@),
    {
        proof {
            use_type_invariant(&*self);
            lemma_tag_map(self.inserted@);
        }
        let ghost start = self@;
        let ghost all = tags(self.inserted@);
        let ghost target = live_tags_of(start, value@);
        let mut delta = Self::new();
        assert(all.take(0).to_set().intersect(target) =~= Set::<u64>::empty());
        assert(start.1.union(Set::<u64>::empty()) =~= start.1);
        let mut i: usize = 0;
        while i < self.inserted.len()
            invariant
                i <= self.inserted@.len(),
                start == old(self)@,
                target == live_tags_of(start, value@),
                self@.0 == start.0,
                all == tags(self.inserted@),
                all.no_duplicates(),
                start.0.dom() == all.to_set(),
                forall|k: int| 0 <= k < self.inserted@.len() ==> start.0[(#[trigger] self.inserted@[k]).0] == self.inserted@[k].1@,
                delta@.0 == Map::<u64, T::V>::empty(),
                delta@.1 == all.take(i as int).to_set().intersect(target),
                self@.1 == start.1.union(delta@.1),
            decreases self.inserted@.len() - i,
        {
            proof {
                lemma_take_to_set_step(all, i as int);
                assert(all[i as int] == self.inserted@[i as int].0);
            }
            let id = self.inserted[i].0;
            let ghost fresh = !all.take(i as int).contains(id);
            proof {
                assert(fresh) by {
                    if all.take(i as int).contains(id) {
                        let m = choose|m: int| 0 <= m < i && #[trigger] all.take(i as int)[m] == id;
                        assert(all[m] == all[i as int]);
                    }
                }
                assert(start.0.contains_key(id));
                assert(start.0[id] == self.inserted@[i as int].1@);
                assert(!delta@.1.contains(id));
            }
            let matches = self.inserted[i].1.same(value);
            let gone = has_tag(&self.removed, id);
            if matches && !gone {
                proof {
                    assert(!self@.1.contains(id));
                    assert(!start.1.contains(id));
                    assert(live(start).contains_key(id));
                    assert(target.contains(id));
                }
                delta.push_removed(id);
                self.push_removed(id);
                proof {
                    assert(all.take(i + 1).to_set().intersect(target) =~= all.take(i as int).to_set().intersect(target).insert(id));
                    assert(self@.1 =~= start.1.union(delta@.1));
                }
            } else {
                proof {
                    assert(!target.contains(id)) by {
                        if target.contains(id) {
                            assert(live(start).contains_key(id));
                            assert(!start.1.contains(id));
                            assert(matches);
                            assert(self@.1.contains(id));
                        }
                    }
                    assert(all.take(i + 1).to_set().intersect(target) =~= all.take(i as int).to_set().intersect(target));
                }
            }
            i = i + 1;
        }
        proof {
            assert(all.take(self.inserted@.len() as int) =~= all);
            assert(all.to_set().intersect(target) =~= target);
        }
        delta
    }
}

impl<T: Datum> Clone for AWSet<T> {
    fn clone(&self) -> (r: Self)
        ensures
            r@ == self@,
    {
        proof {
            use_type_invariant(self);
            lemma_tag_map(self.inserted@);
        }
        let mut r = Self::new();
        let mut i: usize = 0;
        while i < self.inserted.len()
            invariant
                i <= self.inserted@.len(),
                tags(self.inserted@).no_duplicates(),
                r@.0 == tag_map(self.inserted@.take(i as int)),
                r@.1 == Set::<u64>::empty(),
            decreases self.inserted@.len() - i,
        {
            proof {
                assert(self.inserted@.take(i + 1).drop_last() =~= self.inserted@.take(i as int));
                assert(tags(self.inserted@.take(i as int)) =~= tags(self.inserted@).take(i as int));
                assert(!tags(self.inserted@.take(i as int)).contains(self.inserted@[i as int].0)) by {
                    if tags(self.inserted@.take(i as int)).contains(self.inserted@[i as int].0) {
                        let m = choose|m: int| 0 <= m < i && #[trigger] tags(self.inserted@.take(i as int))[m] == self.inserted@[i as int].0;
                        assert(tags(self.inserted@)[m] == tags(self.inserted@)[i as int]);
                    }
                }
                assert(tags(self.inserted@.take(i as int)).no_duplicates());
                lemma_tag_map(self.inserted@.take(i as int));
            }
            r.push_inserted(self.inserted[i].0, self.inserted[i].1.duplicate());
            i = i + 1;
        }
        assert(self.inserted@.take(self.inserted@.len() as int) =~= self.inserted@);
        let mut j: usize = 0;
        while j < self.removed.len()
            invariant
                j <= self.removed@.len(),
                self.removed@.no_duplicates(),
                r@.0 == tag_map(self.inserted@),
                r@.1 == self.removed@.take(j as int).to_set(),
            decreases self.removed@.len() - j,
        {
            proof {
                lemma_take_to_set_step(self.removed@, j as int);
                assert(!self.removed@.take(j as int).contains(self.removed@[j as int])) by {
                    if self.removed@.take(j as int).contains(self.removed@[j as int]) {
                        let m = choose|m: int| 0 <= m < j && #[trigger] self.removed@.take(j as int)[m] == self.removed@[j as int];
                        assert(self.removed@[m] == self.removed@[j as int]);
                    }
                }
            }
            r.push_removed(self.removed[j]);
            j = j + 1;
        }
        assert(self.removed@.take(self.removed@.len() as int) =~= self.removed@);
        r
    }
}

impl<T: Datum> Default for AWSet<T> {
    fn default() -> (r: Self)
        ensures
            r@.0 == Map::<u64, T::V>::empty(),
            r@.1 == Set::<u64>::empty(),
    {
        Self::new()
    }
}


/// The live insertions of `a` whose value no live insertion of `b` holds.
pub open spec fn unheld_tags<V>(a: AWState<V>, b: AWState<V>) -> Set<u64> {
    live(a).dom().filter(|id: u64| !holds(b, live(a)[id]))
}

/// The prefix view of a sequence of tagged values with distinct tags grows one entry at a time.
proof fn lemma_tag_map_prefix<T: View>(s: Seq<(u64, T)>, j: int)
    requires
        tags(s).no_duplicates(),
        0 <= j < s.len(),
    ensures
        tags(s.take(j)).no_duplicates(),
        tag_map(s.take(j + 1)) == tag_map(s.take(j)).insert(s[j].0, s[j].1@),
        !tag_map(s.take(j)).contains_key(s[j].0),
        tag_map(s.take(j)).dom().finite(),
{
    assert(s.take(j + 1).drop_last() =~= s.take(j));
    assert(tags(s.take(j)) =~= tags(s).take(j));
    assert(tags(s.take(j)).no_duplicates()) by {
        assert forall|a: int, b: int|
            0 <= a < tags(s.take(j)).len() && 0 <= b < tags(s.take(j)).len() && a != b
            implies tags(s.take(j))[a] != tags(s.take(j))[b] by {
            assert(tags(s)[a] != tags(s)[b]);
        }
    }
    lemma_tag_map(s.take(j));
    if tag_map(s.take(j)).contains_key(s[j].0) {
        assert(tags(s.take(j)).contains(s[j].0));
        let m = choose|m: int| 0 <= m < j && #[trigger] tags(s.take(j))[m] == s[j].0;
        assert(tags(s)[m] == tags(s)[j]);
    }
}

/// A map with one entry has one key.
proof fn lemma_single_map<V>(id: u64, v: V)
    ensures
        map![id => v].dom() == set![id],
        map![id => v].dom().len() == 1,
{
    assert(map![id => v].dom() =~= set![id]);
    set![id].lemma_singleton_size();
}

impl<T: Datum> AWSet<T> {
    /// A set with the insertions of `inserted` (a later value replacing an earlier one of the same
    /// tag) and the removed tags of `removed`.
    pub fn from_parts(inserted: Vec<(u64, T)>, removed: Vec<u64>) -> (r: Self)
        ensures
            r@.0 == tag_map(inserted@),
            r@.1 == removed@.to_set(),
    {
        let mut r = Self::new();
        let mut i: usize = 0;
        assert(tag_map(inserted@.take(0)) =~= Map::<u64, T::V>::empty());
        while i < inserted.len()
            invariant
                i <= inserted@.len(),
                r@.0 == tag_map(inserted@.take(i as int)),
                r@.1 == Set::<u64>::empty(),
            decreases inserted@.len() - i,
        {
            proof {
                assert(inserted@.take(i + 1).drop_last() =~= inserted@.take(i as int));
                use_type_invariant(&r);
                lemma_tag_map(r.inserted@);
            }
            let id = inserted[i].0;
            let value = inserted[i].1.duplicate();
            match position_of_tag(&r.inserted, id) {
                Some(k) => r.replace_inserted(k, value),
                None => r.push_inserted(id, value),
            }
            i = i + 1;
        }
        assert(inserted@.take(inserted@.len() as int) =~= inserted@);
        let mut j: usize = 0;
        assert(removed@.take(0).to_set() =~= Set::<u64>::empty());
        while j < removed.len()
            invariant
                j <= removed@.len(),
                r@.0 == tag_map(inserted@),
                r@.1 == removed@.take(j as int).to_set(),
            decreases removed@.len() - j,
        {
            proof {
                lemma_take_to_set_step(removed@, j as int);
                use_type_invariant(&r);
            }
            if !has_tag(&r.removed, removed[j]) {
                r.push_removed(removed[j]);
            }
            assert(r@.1 =~= removed@.take(j + 1).to_set());
            j = j + 1;
        }
        assert(removed@.take(removed@.len() as int) =~= removed@);
        r
    }

    /// The insertions: each tag once, with a reference to its value.
    pub fn inserted(&self) -> (r: Vec<(u64, &T)>)
        ensures
            r@.len() == self@.0.dom().len(),
            r@.map_values(|p: (u64, &T)| p.0).no_duplicates(),
            forall|k: int| 0 <= k < r@.len() ==> self@.0.contains_key((#[trigger] r@[k]).0) && self@.0[r@[k].0] == r@[k].1@,
    {
        proof {
            use_type_invariant(self);
            self.lemma_wf();
            lemma_tag_map(self.inserted@);
        }
        let mut out: Vec<(u64, &T)> = Vec::new();
        let mut i: usize = 0;
        while i < self.inserted.len()
            invariant
                i <= self.inserted@.len(),
                out@.len() == i,
                tags(self.inserted@).no_duplicates(),
                forall|k: int| 0 <= k < i ==> (#[trigger] out@[k]).0 == self.inserted@[k].0 && out@[k].1 == &self.inserted@[k].1,
                forall|k: int| 0 <= k < self.inserted@.len() ==> self@.0[(#[trigger] self.inserted@[k]).0] == self.inserted@[k].1@,
            decreases self.inserted@.len() - i,
        {
            out.push((self.inserted[i].0, &self.inserted[i].1));
            i = i + 1;
        }
        proof {
            assert(out@.map_values(|p: (u64, &T)| p.0) =~= tags(self.inserted@));
            assert forall|k: int| 0 <= k < out@.len() implies self@.0.contains_key((#[trigger] out@[k]).0) by {
                assert(tags(self.inserted@)[k] == self.inserted@[k].0);
            }
        }
        out
    }

    /// The removed tags, each once.
    pub fn removed(&self) -> (r: Vec<u64>)
        ensures
            r@.no_duplicates(),
            r@.to_set() == self@.1,
    {
        proof {
            use_type_invariant(self);
        }
        self.removed.clone()
    }

    /// Joins the state of `other` into `self`: its insertions overwrite the values of equal tags,
    /// and its removed tags are added.
    fn absorb(&mut self, other: &Self)
        ensures
            final(self)@.0 == old(self)@.0.union_prefer_right(other@.0),
            final(self)@.1 == old(self)@.1.union(other@.1),
    {
        proof {
            use_type_invariant(other);
        }
        let ghost start = self@;
        assert(other.inserted@.take(0) =~= Seq::<(u64, T)>::empty());
        assert(start.0.union_prefer_right(tag_map(other.inserted@.take(0))) =~= start.0);
        let mut j: usize = 0;
        while j < other.inserted.len()
            invariant
                j <= other.inserted@.len(),
                tags(other.inserted@).no_duplicates(),
                other.removed@.no_duplicates(),
                self@.0 == start.0.union_prefer_right(tag_map(other.inserted@.take(j as int))),
                self@.1 == start.1,
            decreases other.inserted@.len() - j,
        {
            proof {
                lemma_tag_map_prefix(other.inserted@, j as int);
                use_type_invariant(&*self);
                lemma_tag_map(self.inserted@);
            }
            let id = other.inserted[j].0;
            let value = other.inserted[j].1.duplicate();
            match position_of_tag(&self.inserted, id) {
                Some(k) => {
                    self.replace_inserted(k, value);
                },
                None => {
                    self.push_inserted(id, value);
                },
            }
            proof {
                assert(self@.0 =~= start.0.union_prefer_right(tag_map(other.inserted@.take(j + 1))));
            }
            j = j + 1;
        }
        assert(other.inserted@.take(other.inserted@.len() as int) =~= other.inserted@);
        assert(other.removed@.take(0).to_set() =~= Set::<u64>::empty());
        let mut i: usize = 0;
        while i < other.removed.len()
            invariant
                i <= other.removed@.len(),
                self@.0 == start.0.union_prefer_right(other@.0),
                self@.1 == start.1.union(other.removed@.take(i as int).to_set()),
            decreases other.removed@.len() - i,
        {
            proof {
                lemma_take_to_set_step(other.removed@, i as int);
            }
            let id = other.removed[i];
            if !has_tag(&self.removed, id) {
                self.push_removed(id);
            }
            assert(self@.1 =~= start.1.union(other.removed@.take(i + 1).to_set()));
            i = i + 1;
        }
        assert(other.removed@.take(other.removed@.len() as int) =~= other.removed@);
    }

    /// Counts the live insertions of `self` whose value `other` does not hold.
    fn count_unheld(&self, other: &Self) -> (r: usize)
        ensures
            r == unheld_tags(self@, other@).len(),
    {
        proof {
            use_type_invariant(self);
            self.lemma_wf();
            lemma_tag_map(self.inserted@);
        }
        let ghost all = tags(self.inserted@);
        let ghost target = unheld_tags(self@, other@);
        assert(all.take(0).to_set().intersect(target) =~= Set::<u64>::empty());
        let mut count: usize = 0;
        let mut i: usize = 0;
        while i < self.inserted.len()
            invariant
                i <= self.inserted@.len(),
                all == tags(self.inserted@),
                all.no_duplicates(),
                target == unheld_tags(self@, other@),
                self@.0.dom() == all.to_set(),
                forall|k: int| 0 <= k < self.inserted@.len() ==> self@.0[(#[trigger] self.inserted@[k]).0] == self.inserted@[k].1@,
                count <= i,
                count == all.take(i as int).to_set().intersect(target).len(),
            decreases self.inserted@.len() - i,
        {
            proof {
                lemma_take_to_set_step(all, i as int);
                vstd::seq_lib::seq_to_set_is_finite(all.take(i as int));
                assert(all[i as int] == self.inserted@[i as int].0);
            }
            let ghost id = self.inserted@[i as int].0;
            proof {
                assert(!all.take(i as int).contains(id)) by {
                    if all.take(i as int).contains(id) {
                        let m = choose|m: int| 0 <= m < i && #[trigger] all.take(i as int)[m] == id;
                        assert(all[m] == all[i as int]);
                    }
                }
                assert(self@.0.contains_key(id));
            }
            let alive = self.is_live_at(i);
            let held = other.contains(&self.inserted[i].1);
            if alive && !held {
                proof {
                    assert(live(self@).contains_key(id));
                    assert(target.contains(id));
                }
                assert(all.take(i + 1).to_set().intersect(target) =~= all.take(i as int).to_set().intersect(target).insert(id));
                count = count + 1;
            } else {
                proof {
                    assert(!target.contains(id)) by {
                        if target.contains(id) {
                            assert(live(self@).contains_key(id));
                        }
                    }
                }
                assert(all.take(i + 1).to_set().intersect(target) =~= all.take(i as int).to_set().intersect(target));
            }
            i = i + 1;
        }
        proof {
            assert(all.take(self.inserted@.len() as int) =~= all);
            assert(all.to_set().intersect(target) =~= target);
        }
        count
    }
}

impl<T: Datum> Decompose for AWSet<T> {
    type Decomposition = AWSet<T>;

    /// One set per insertion, then one set per removed tag.
    fn split(&self) -> (r: Vec<Self>)
        ensures
            is_split_of(self@, r@),
    {
        proof {
            use_type_invariant(self);
            self.lemma_wf();
        }
        let mut parts: Vec<Self> = Vec::new();
        assert(self.inserted@.take(0) =~= Seq::<(u64, T)>::empty());
        let mut j: usize = 0;
        while j < self.inserted.len()
            invariant
                j <= self.inserted@.len(),
                tags(self.inserted@).no_duplicates(),
                parts@.len() == j,
                forall|i: int| 0 <= i < parts@.len() ==> is_single(#[trigger] parts@[i]@),
                inserted_union(parts@) == tag_map(self.inserted@.take(j as int)),
                removed_union(parts@) == Set::<u64>::empty(),
            decreases self.inserted@.len() - j,
        {
            proof {
                lemma_tag_map_prefix(self.inserted@, j as int);
            }
            let part = Self::single_insertion(self.inserted[j].0, self.inserted[j].1.duplicate());
            let ghost before = parts@;
            parts.push(part);
            proof {
                lemma_single_map(self.inserted@[j as int].0, self.inserted@[j as int].1@);
                assert(parts@.drop_last() =~= before);
                assert(inserted_union(parts@) =~= tag_map(self.inserted@.take(j + 1)));
                assert(removed_union(parts@) =~= Set::<u64>::empty());
            }
            j = j + 1;
        }
        assert(self.inserted@.take(self.inserted@.len() as int) =~= self.inserted@);
        assert(self.removed@.take(0).to_set() =~= Set::<u64>::empty());
        let mut i: usize = 0;
        while i < self.removed.len()
            invariant
                i <= self.removed@.len(),
                parts@.len() == self.inserted@.len() + i,
                forall|k: int| 0 <= k < parts@.len() ==> is_single(#[trigger] parts@[k]@),
                inserted_union(parts@) == tag_map(self.inserted@),
                removed_union(parts@) == self.removed@.take(i as int).to_set(),
            decreases self.removed@.len() - i,
        {
            proof {
                lemma_take_to_set_step(self.removed@, i as int);
            }
            let part = Self::single_removal(self.removed[i]);
            let ghost before = parts@;
            parts.push(part);
            proof {
                set![self.removed@[i as int]].lemma_singleton_size();
                assert(Map::<u64, T::V>::empty().dom() =~= Set::<u64>::empty());
                assert(parts@.drop_last() =~= before);
                assert(inserted_union(parts@) =~= tag_map(self.inserted@));
                assert(removed_union(parts@) =~= self.removed@.take(i + 1).to_set());
            }
            i = i + 1;
        }
        assert(self.removed@.take(self.removed@.len() as int) =~= self.removed@);
        parts
    }

    /// Joins every delta in order: insertions overwrite equal tags, removed tags are added.
    fn join(&mut self, deltas: Vec<Self>)
        ensures
            final(self)@.0 == old(self)@.0.union_prefer_right(inserted_union(deltas@)),
            final(self)@.1 == old(self)@.1.union(removed_union(deltas@)),
    {
        let ghost start = self@;
        assert(deltas@.take(0) =~= Seq::<Self>::empty());
        assert(start.0.union_prefer_right(Map::<u64, T::V>::empty()) =~= start.0);
        assert(start.1.union(Set::<u64>::empty()) =~= start.1);
        let mut i: usize = 0;
        while i < deltas.len()
            invariant
                i <= deltas@.len(),
                self@.0 == start.0.union_prefer_right(inserted_union(deltas@.take(i as int))),
                self@.1 == start.1.union(removed_union(deltas@.take(i as int))),
            decreases deltas@.len() - i,
        {
            self.absorb(&deltas[i]);
            proof {
                assert(deltas@.take(i + 1).drop_last() =~= deltas@.take(i as int));
                lemma_union_prefer_right_assoc(start.0, inserted_union(deltas@.take(i as int)), deltas@[i as int]@.0);
                assert(self@.1 =~= start.1.union(removed_union(deltas@.take(i + 1))));
            }
            i = i + 1;
        }
        assert(deltas@.take(deltas@.len() as int) =~= deltas@);
    }

    /// The insertions of `self` whose tag `remote` has not seen, and the removed tags of `self`
    /// that `remote` has not removed.
    fn difference(&self, remote: &Self) -> (r: Self)
        ensures
            r@.0 == self@.0.remove_keys(remote@.0.dom()),
            r@.1 == self@.1.difference(remote@.1),
    {
        proof {
            use_type_invariant(self);
            use_type_invariant(remote);
            lemma_tag_map(remote.inserted@);
        }
        let mut r = Self::new();
        assert(self.inserted@.take(0) =~= Seq::<(u64, T)>::empty());
        assert(r@.0 =~= tag_map(self.inserted@.take(0)).remove_keys(remote@.0.dom()));
        let mut j: usize = 0;
        while j < self.inserted.len()
            invariant
                j <= self.inserted@.len(),
                tags(self.inserted@).no_duplicates(),
                remote@.0.dom() == tags(remote.inserted@).to_set(),
                r@.0 == tag_map(self.inserted@.take(j as int)).remove_keys(remote@.0.dom()),
                r@.1 == Set::<u64>::empty(),
            decreases self.inserted@.len() - j,
        {
            proof {
                lemma_tag_map_prefix(self.inserted@, j as int);
            }
            let id = self.inserted[j].0;
            if position_of_tag(&remote.inserted, id).is_none() {
                r.push_inserted(id, self.inserted[j].1.duplicate());
            }
            assert(r@.0 =~= tag_map(self.inserted@.take(j + 1)).remove_keys(remote@.0.dom()));
            j = j + 1;
        }
        assert(self.inserted@.take(self.inserted@.len() as int) =~= self.inserted@);
        assert(self.removed@.take(0).to_set().difference(remote@.1) =~= Set::<u64>::empty());
        let mut i: usize = 0;
        while i < self.removed.len()
            invariant
                i <= self.removed@.len(),
                self.removed@.no_duplicates(),
                r@.0 == self@.0.remove_keys(remote@.0.dom()),
                r@.1 == self.removed@.take(i as int).to_set().difference(remote@.1),
            decreases self.removed@.len() - i,
        {
            proof {
                lemma_take_to_set_step(self.removed@, i as int);
            }
            let id = self.removed[i];
            if !has_tag(&remote.removed, id) {
                proof {
                    assert(!r@.1.contains(id)) by {
                        if r@.1.contains(id) {
                            let m = choose|m: int| 0 <= m < i && #[trigger] self.removed@.take(i as int)[m] == id;
                            assert(self.removed@[m] == self.removed@[i as int]);
                        }
                    }
                }
                r.push_removed(id);
            }
            assert(r@.1 =~= self.removed@.take(i + 1).to_set().difference(remote@.1));
            i = i + 1;
        }
        assert(self.removed@.take(self.removed@.len() as int) =~= self.removed@);
        r
    }
}

impl<T: Datum + core::hash::Hash> Extract for AWSet<T> {
    type Item = AWItem<T>;

    open spec fn extractable(&self) -> bool {
        if self@.1.len() == 0 {
            self@.0.dom().len() == 1
        } else {
            self@.1.len() == 1
        }
    }

    /// The removed tag when the set has one, otherwise its single insertion.
    fn extract(&self) -> (r: AWItem<T>)
        ensures
            r matches AWItem::Removed(id) ==> self@.1 == set![id],
            r matches AWItem::Inserted(id, v) ==> self@.1.len() == 0 && self@.0 == map![id => v@],
    {
        proof {
            use_type_invariant(self);
            self.lemma_wf();
            lemma_tag_map(self.inserted@);
        }
        if self.removed.len() == 0 {
            let id = self.inserted[0].0;
            let v = self.inserted[0].1.duplicate();
            proof {
                lemma_tag_map_at(self.inserted@, 0);
                assert(self@.0 =~= map![id => v@]) by {
                    assert forall|t: u64| self@.0.contains_key(t) implies t == id by {
                        let k = lemma_tag_map_witness(self.inserted@, t);
                        assert(k == 0);
                    }
                }
            }
            AWItem::Inserted(id, v)
        } else {
            let id = self.removed[0];
            proof {
                assert forall|t: u64| self@.1.contains(t) implies t == id by {
                    let k = choose|k: int| 0 <= k < self.removed@.len() && #[trigger] self.removed@[k] == t;
                    assert(k == 0);
                }
                assert(self@.1 =~= set![id]);
            }
            AWItem::Removed(id)
        }
    }
}

/// The bytes of the UTF-8 encodings of the values of a finite map of insertions.
pub open spec fn value_bytes(m: Map<u64, Seq<char>>) -> nat
    decreases m.dom().len(),
    when m.dom().finite()
{
    if m.dom().len() == 0 {
        0
    } else {
        let k = m.dom().choose();
        vstd::utf8::encode_utf8(m[k]).len() + value_bytes(m.remove(k))
    }
}

/// The bytes of the values do not depend on the order in which the tags are taken.
proof fn lemma_value_bytes_remove(m: Map<u64, Seq<char>>, k: u64)
    requires
        m.dom().finite(),
        m.contains_key(k),
    ensures
        value_bytes(m) == vstd::utf8::encode_utf8(m[k]).len() + value_bytes(m.remove(k)),
    decreases m.dom().len(),
{
    let j = m.dom().choose();
    assert(m.dom().contains(j));
    if j != k {
        assert(m.remove(j).dom() =~= m.dom().remove(j));
        assert(m.remove(k).dom() =~= m.dom().remove(k));
        lemma_value_bytes_remove(m.remove(j), k);
        lemma_value_bytes_remove(m.remove(k), j);
        assert(m.remove(j).remove(k) =~= m.remove(k).remove(j));
    }
}

/// The values of insertions with distinct tags take the bytes of their map.
proof fn lemma_value_bytes_tags(s: Seq<(u64, String)>)
    requires
        tags(s).no_duplicates(),
    ensures
        utf8_bytes(s.map_values(|p: (u64, String)| p.1@)) == value_bytes(tag_map(s)),
    decreases s.len(),
{
    lemma_tag_map(s);
    if s.len() == 0 {
        assert(tag_map(s).dom() =~= Set::<u64>::empty());
    } else {
        let t = s.drop_last();
        assert(tags(t) =~= tags(s).drop_last());
        lemma_value_bytes_tags(t);
        lemma_tag_map(t);
        assert(s.map_values(|p: (u64, String)| p.1@).drop_last() =~= t.map_values(|p: (u64, String)| p.1@));
        let k = s.last().0;
        assert(!tag_map(t).contains_key(k)) by {
            if tag_map(t).contains_key(k) {
                assert(tags(t).to_set().contains(k));
                let i = choose|i: int| 0 <= i < tags(t).len() && #[trigger] tags(t)[i] == k;
                assert(tags(s)[i] == tags(s)[s.len() - 1]);
            }
        }
        let m = tag_map(s);
        assert(m == tag_map(t).insert(k, s.last().1@));
        lemma_value_bytes_remove(m, k);
        assert(m.remove(k) =~= tag_map(t));
    }
}

/// The bytes of a tag.
pub const TAG_BYTES: usize = 8;

impl Measure for AWSet<String> {
    open spec fn spec_len(replica: &Self) -> nat {
        replica@.0.dom().len() + replica@.1.len()
    }

    closed spec fn spec_size(replica: &Self) -> nat {
        (TAG_BYTES * replica.inserted@.len() + utf8_bytes(
            replica.inserted@.map_values(|p: (u64, String)| p.1@),
        ) + TAG_BYTES * replica.removed@.len()) as nat
    }

    open spec fn spec_false_matches(&self, other: &Self) -> nat {
        unheld_tags(self@, other@).len() + unheld_tags(other@, self@).len()
    }

    /// Insertions plus removed tags.
    fn len(replica: &Self) -> (r: usize) {
        proof {
            use_type_invariant(replica);
            replica.lemma_wf();
        }
        replica.inserted.len() + replica.removed.len()
    }

    /// The bytes of every tag and of every inserted value: 8 bytes per insertion, the UTF-8 bytes
    /// of the inserted values, and 8 bytes per removed tag.
    fn size_of(replica: &Self) -> (r: usize)
        ensures
            r == 8 * replica@.0.dom().len() + value_bytes(replica@.0) + 8 * replica@.1.len(),
    {
        proof {
            use_type_invariant(replica);
            replica.lemma_wf();
            lemma_tag_map(replica.inserted@);
            lemma_value_bytes_tags(replica.inserted@);
        }
        let mut refs: Vec<&String> = Vec::new();
        let mut i: usize = 0;
        while i < replica.inserted.len()
            invariant
                i <= replica.inserted@.len(),
                refs@.map_values(|s: &String| s@) =~= replica.inserted@.map_values(
                    |p: (u64, String)| p.1@,
                ).take(i as int),
            decreases replica.inserted@.len() - i,
        {
            let ghost before = refs@;
            refs.push(&replica.inserted[i].1);
            assert(refs@.map_values(|s: &String| s@) =~= before.map_values(|s: &String| s@).push(
                replica.inserted@[i as int].1@,
            ));
            i = i + 1;
        }
        assert(replica.inserted@.map_values(|p: (u64, String)| p.1@).take(
            replica.inserted@.len() as int,
        ) =~= replica.inserted@.map_values(|p: (u64, String)| p.1@));
        let tags_bytes = TAG_BYTES * replica.inserted.len() + TAG_BYTES * replica.removed.len();
        sum_string_bytes(&refs, tags_bytes)
    }

    /// The live insertions of each set whose value the other set does not hold.
    fn false_matches(&self, other: &Self) -> (r: usize) {
        self.count_unheld(other) + other.count_unheld(self)
    }
}

impl<T: Datum> PartialEq for AWSet<T> {
    fn eq(&self, other: &Self) -> (r: bool) {
        proof {
            use_type_invariant(self);
            lemma_tag_map(self.inserted@);
        }
        if self.len() != other.len() {
            return false;
        }
        let mut i: usize = 0;
        while i < self.inserted.len()
            invariant
                i <= self.inserted@.len(),
                tags(self.inserted@).no_duplicates(),
                self@.0.dom() == tags(self.inserted@).to_set(),
                forall|k: int| 0 <= k < i ==> live(self@).contains_key(#[trigger] self.inserted@[k].0) ==> holds(other@, live(self@)[self.inserted@[k].0]),
            decreases self.inserted@.len() - i,
        {
            proof {
                lemma_tag_map_at(self.inserted@, i as int);
            }
            if self.is_live_at(i) && !other.contains(&self.inserted[i].1) {
                proof {
                    let id = self.inserted@[i as int].0;
                    assert(live(self@).contains_key(id));
                    assert(live(self@)[id] == self.inserted@[i as int].1@);
                }
                return false;
            }
            i = i + 1;
        }
        proof {
            assert forall|id: u64| live(self@).contains_key(id) implies holds(other@, live(self@)[id]) by {
                let k = lemma_tag_map_witness(self.inserted@, id);
                assert(live(self@).contains_key(self.inserted@[k].0));
            }
        }
        true
    }
}

impl<T: Datum> vstd::std_specs::cmp::PartialEqSpecImpl for AWSet<T> {
    open spec fn obeys_eq_spec() -> bool {
        true
    }

    open spec fn eq_spec(&self, other: &Self) -> bool {
        &&& live_len(self@) == live_len(other@)
        &&& forall|id: u64| #[trigger] live(self@).contains_key(id) ==> holds(other@, live(self@)[id])
    }
}

impl<T: Datum> Eq for AWSet<T> {

}


/// Two add-wins sets agree on the value of every tag both have inserted.
pub open spec fn consistent<V>(a: AWState<V>, b: AWState<V>) -> bool {
    forall|id: u64| a.0.contains_key(id) && b.0.contains_key(id) ==> a.0[id] == b.0[id]
}

/// The join of two add-wins states.
pub open spec fn aw_join<V>(a: AWState<V>, b: AWState<V>) -> AWState<V> {
    (a.0.union_prefer_right(b.0), a.1.union(b.1))
}

/// Insertions made on two replicas survive their join, so long as their tags are distinct and
/// neither tag was removed on either side: the join holds both values.
pub proof fn law_awset_concurrent_insertions_survive<V>(a: AWState<V>, b: AWState<V>, ta: u64, x: V, tb: u64, y: V)
    requires
        consistent(a, b),
        a.0.contains_key(ta),
        a.0[ta] == x,
        b.0.contains_key(tb),
        b.0[tb] == y,
        !a.1.contains(ta),
        !b.1.contains(ta),
        !a.1.contains(tb),
        !b.1.contains(tb),
    ensures
        holds(aw_join(a, b), x),
        holds(aw_join(a, b), y),
{
    let j = aw_join(a, b);
    assert(live(j).contains_key(ta) && live(j)[ta] == x);
    assert(live(j).contains_key(tb) && live(j)[tb] == y);
}

/// An insertion under a tag that was never removed makes its value held.
pub proof fn law_awset_insert_holds<V>(before: AWState<V>, id: u64, v: V)
    requires
        !before.1.contains(id),
    ensures
        holds((before.0.insert(id, v), before.1), v),
{
    assert(live((before.0.insert(id, v), before.1)).contains_key(id));
}

/// After a removal of `v`, no live insertion holds `v`.
pub proof fn law_awset_remove_absent<V>(before: AWState<V>, v: V)
    ensures
        !holds((before.0, before.1.union(live_tags_of(before, v))), v),
{
    let after = (before.0, before.1.union(live_tags_of(before, v)));
    if holds(after, v) {
        let id = choose|id: u64| #[trigger] live(after).contains_key(id) && live(after)[id] == v;
        assert(live(before).contains_key(id));
        assert(live_tags_of(before, v).contains(id));
    }
}

/// Add wins: when one replica inserts `v` under a fresh tag while another removes `v`, the join
/// of both still holds `v`.
pub proof fn law_awset_add_wins<V>(common: AWState<V>, id: u64, v: V)
    requires
        !common.0.contains_key(id),
        !common.1.contains(id),
    ensures
        holds(
            aw_join(
                (common.0.insert(id, v), common.1),
                (common.0, common.1.union(live_tags_of(common, v))),
            ),
            v,
        ),
        holds(
            aw_join(
                (common.0, common.1.union(live_tags_of(common, v))),
                (common.0.insert(id, v), common.1),
            ),
            v,
        ),
{
    let a = (common.0.insert(id, v), common.1);
    let b = (common.0, common.1.union(live_tags_of(common, v)));
    assert(!live_tags_of(common, v).contains(id));
    assert(live(aw_join(a, b)).contains_key(id));
    assert(live(aw_join(b, a)).contains_key(id));
}

/// Joins of add-wins states whose tags agree are commutative, associative and idempotent.
pub proof fn law_awset_join_semilattice<V>(a: AWState<V>, b: AWState<V>, c: AWState<V>)
    requires
        consistent(a, b),
    ensures
        aw_join(a, b) == aw_join(b, a),
        aw_join(aw_join(a, b), c) == aw_join(a, aw_join(b, c)),
        aw_join(a, a) == a,
{
    assert(a.0.union_prefer_right(b.0) =~= b.0.union_prefer_right(a.0));
    assert(a.1.union(b.1) =~= b.1.union(a.1));
    assert(a.0.union_prefer_right(b.0).union_prefer_right(c.0) =~= a.0.union_prefer_right(b.0.union_prefer_right(c.0)));
    assert(a.1.union(b.1).union(c.1) =~= a.1.union(b.1.union(c.1)));
    assert(a.0.union_prefer_right(a.0) =~= a.0);
    assert(a.1.union(a.1) =~= a.1);
}

/// Joining into `remote` what `local` holds and `remote` has not seen gives the join of both
/// sets, when their tags agree.
pub proof fn law_awset_difference_join<V>(local: AWState<V>, remote: AWState<V>)
    requires
        consistent(local, remote),
    ensures
        aw_join(remote, (local.0.remove_keys(remote.0.dom()), local.1.difference(remote.1)))
            == aw_join(local, remote),
{
    assert(remote.0.union_prefer_right(local.0.remove_keys(remote.0.dom())) =~= local.0.union_prefer_right(remote.0));
    assert(remote.1.union(local.1.difference(remote.1)) =~= local.1.union(remote.1));
}

/// Joining the split of a set into an empty set rebuilds it.
pub proof fn law_awset_split_join<T: View>(s: AWSet<T>, parts: Seq<AWSet<T>>)
    requires
        is_split_of(s@, parts),
    ensures
        aw_join((Map::<u64, T::V>::empty(), Set::<u64>::empty()), (inserted_union(parts), removed_union(parts))) == s@,
{
    assert(Map::<u64, T::V>::empty().union_prefer_right(inserted_union(parts)) =~= inserted_union(parts));
    assert(Set::<u64>::empty().union(removed_union(parts)) =~= removed_union(parts));
}

} // verus!
