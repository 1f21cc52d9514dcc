//! The add-wins set: each element is tagged with the dot of its latest insertion, and a causal
//! context records every insertion seen.

use vstd::prelude::*;

use crate::datum::Datum;

use super::causal::{
    clocks_merged, clouds_merged, DotKind, Dot, DotContext, Delta as CtxDelta,
};
use super::{Decompose, Extract, ExtractError};

verus! {

broadcast use {vstd::seq_lib::group_seq_properties, vstd::set::group_set_axioms, vstd::map::group_map_axioms};

/// An add-wins set of values `T`, whose insertions are tagged with dots of replicas `I`.
#[derive(Debug)]
pub struct AWSet<I: View, T: View> {
    elems: Entries<I, T>,
    ctx: DotContext<I>,
}

/// The elements of an [`AWSet`] with their dots, each element once.
#[derive(Debug)]
struct Entries<I: View, T: View> {
    items: Vec<(T, Dot<I>)>,
}

/// A read-only view into entries and into the causal context of an [`AWSet`].
#[derive(Debug)]
pub struct Delta<'a, I: View, T: View> {
    set: &'a Entries<I, T>,
    elems: Vec<(&'a T, &'a Dot<I>)>,
    ctx: CtxDelta<'a, I>,
}

/// A single piece of an [`AWSet`]: an element with its dot, or a piece of the causal context.
#[derive(Clone, Debug, Hash)]
pub enum Element<'a, I, T> {
    Entry(&'a T, &'a Dot<I>),
    Context(DotKind<'a, I>),
}

/// The keys of a sequence of pairs, in order.
pub open spec fn pair_keys<K, W>(s: Seq<(K, W)>) -> Seq<K> {
    s.map_values(|p: (K, W)| p.0)
}

/// The map built from a sequence of pairs, a later pair replacing an earlier one of the same key.
pub open spec fn keyed_map<K, W>(s: Seq<(K, W)>) -> Map<K, W>
    decreases s.len(),
{
    if s.len() == 0 {
        Map::empty()
    } else {
        keyed_map(s.drop_last()).insert(s.last().0, s.last().1)
    }
}

/// The views of the elements and dots of a sequence of entries, in order.
pub open spec fn pair_views<I: View, T: View>(s: Seq<(T, Dot<I>)>) -> Seq<(T::V, (I::V, u64))> {
    s.map_values(|p: (T, Dot<I>)| (p.0@, p.1@))
}

/// The views of the elements and dots of a sequence of borrowed entries, in order.
pub open spec fn ref_pair_views<'a, I: View, T: View>(s: Seq<(&'a T, &'a Dot<I>)>) -> Seq<(T::V, (I::V, u64))> {
    s.map_values(|p: (&'a T, &'a Dot<I>)| (p.0@, p.1@))
}

/// Joins the entries of `parts` into an empty map, a later entry replacing an earlier one.
pub open spec fn entries_merged<K, W>(parts: Seq<Map<K, W>>) -> Map<K, W>
    decreases parts.len(),
{
    if parts.len() == 0 {
        Map::empty()
    } else {
        entries_merged(parts.drop_last()).union_prefer_right(parts.last())
    }
}

/// Facts about the map of a sequence of pairs with distinct keys.
pub proof fn lemma_keyed_map<K, W>(s: Seq<(K, W)>)
    requires
        pair_keys(s).no_duplicates(),
    ensures
        keyed_map(s).dom() == pair_keys(s).to_set(),
        keyed_map(s).dom().finite(),
        keyed_map(s).dom().len() == s.len(),
        forall|k: int| 0 <= k < s.len() ==> keyed_map(s)[(#[trigger] s[k]).0] == s[k].1,
    decreases s.len(),
{
    if s.len() > 0 {
        let t = s.drop_last();
        assert(pair_keys(t) =~= pair_keys(s).drop_last());
        lemma_keyed_map(t);
        assert(!pair_keys(t).contains(s.last().0)) by {
            if pair_keys(t).contains(s.last().0) {
                let k = choose|k: int| 0 <= k < pair_keys(t).len() && #[trigger] pair_keys(t)[k] == s.last().0;
                assert(pair_keys(s)[k] == pair_keys(s)[s.len() - 1]);
            }
        }
        assert(keyed_map(s).dom() =~= pair_keys(s).to_set()) by {
            assert(pair_keys(s) =~= pair_keys(t).push(s.last().0));
        }
        assert forall|k: int| 0 <= k < s.len() implies keyed_map(s)[(#[trigger] s[k]).0] == s[k].1 by {
            if k < s.len() - 1 {
                assert(t[k] == s[k]);
                assert(pair_keys(s)[k] != pair_keys(s)[s.len() - 1]);
            }
        }
    } else {
        assert(keyed_map(s).dom() =~= pair_keys(s).to_set());
    }
}

/// Every key of the map comes from a position of the sequence.
proof fn lemma_keyed_map_witness<K, W>(s: Seq<(K, W)>, key: K) -> (k: int)
    requires
        pair_keys(s).no_duplicates(),
        keyed_map(s).contains_key(key),
    ensures
        0 <= k < s.len(),
        s[k].0 == key,
        keyed_map(s)[key] == s[k].1,
{
    lemma_keyed_map(s);
    let k = choose|k: int| 0 <= k < pair_keys(s).len() && #[trigger] pair_keys(s)[k] == key;
    k
}

/// A prefix of a sequence of distinct keys has distinct keys, and its map grows one pair at a
/// time.
proof fn lemma_keyed_map_prefix<K, W>(s: Seq<(K, W)>, j: int)
    requires
        pair_keys(s).no_duplicates(),
        0 <= j < s.len(),
    ensures
        pair_keys(s.take(j)).no_duplicates(),
        keyed_map(s.take(j + 1)) == keyed_map(s.take(j)).insert(s[j].0, s[j].1),
        !keyed_map(s.take(j)).contains_key(s[j].0),
{
    assert(s.take(j + 1).drop_last() =~= s.take(j));
    assert(pair_keys(s.take(j)) =~= pair_keys(s).take(j));
    assert(pair_keys(s.take(j)).no_duplicates()) by {
        assert forall|a: int, b: int|
            0 <= a < pair_keys(s.take(j)).len() && 0 <= b < pair_keys(s.take(j)).len() && a != b
            implies pair_keys(s.take(j))[a] != pair_keys(s.take(j))[b] by {
            assert(pair_keys(s)[a] != pair_keys(s)[b]);
        }
    }
    lemma_keyed_map(s.take(j));
    if keyed_map(s.take(j)).contains_key(s[j].0) {
        let m = choose|m: int| 0 <= m < j && #[trigger] pair_keys(s.take(j))[m] == s[j].0;
        assert(pair_keys(s)[m] == pair_keys(s)[j]);
    }
}

/// The map of a single pair.
proof fn lemma_keyed_map_single<K, W>(p: (K, W))
    ensures
        keyed_map(seq![p]) == map![p.0 => p.1],
        pair_keys(seq![p]) == seq![p.0],
{
    assert(seq![p].drop_last() =~= Seq::<(K, W)>::empty());
    assert(keyed_map(Seq::<(K, W)>::empty()) =~= Map::<K, W>::empty());
    assert(keyed_map(seq![p]) =~= map![p.0 => p.1]);
    assert(pair_keys(seq![p]) =~= seq![p.0]);
}

/// The position of the entry of `value`, if there is one.
fn position_of_value<I: View, T: Datum>(elems: &Vec<(T, Dot<I>)>, value: &T) -> (r: Option<usize>)
    ensures
        r matches Some(k) ==> k < elems@.len() && elems@[k as int].0@ == value@,
        r is None <==> !pair_keys(pair_views(elems@)).contains(value@),
{
    let mut i: usize = 0;
    while i < elems.len()
        invariant
            i <= elems@.len(),
            forall|j: int| 0 <= j < i ==> elems@[j].0@ != value@,
        decreases elems@.len() - i,
    {
        if elems[i].0.same(value) {
            assert(pair_keys(pair_views(elems@))[i as int] == value@);
            return Some(i);
        }
        i = i + 1;
    }
    assert forall|k: int| 0 <= k < pair_keys(pair_views(elems@)).len() implies pair_keys(pair_views(elems@))[k] != value@ by {
        assert(pair_keys(pair_views(elems@))[k] == elems@[k].0@);
    }
    None
}

/// Replaces the dot of the entry at position `k`.
fn set_dot<I: View, T: View>(elems: &mut Vec<(T, Dot<I>)>, k: usize, dot: Dot<I>)
    requires
        k < old(elems)@.len(),
        pair_keys(pair_views(old(elems)@)).no_duplicates(),
    ensures
        final(elems)@.len() == old(elems)@.len(),
        pair_keys(pair_views(final(elems)@)) == pair_keys(pair_views(old(elems)@)),
        keyed_map(pair_views(final(elems)@)) == keyed_map(pair_views(old(elems)@)).insert(old(elems)@[k as int].0@, dot@),
{
    let ghost before = elems@;
    let ghost d = dot@;
    let (value, _) = elems.remove(k);
    elems.insert(k, (value, dot));
    proof {
        let key = before[k as int].0@;
        assert(pair_views(elems@) =~= pair_views(before).update(k as int, (key, d)));
        assert(pair_keys(pair_views(elems@)) =~= pair_keys(pair_views(before)));
        lemma_keyed_map(pair_views(elems@));
        lemma_keyed_map(pair_views(before));
        assert(pair_views(before)[k as int].0 == key);
        assert(pair_keys(pair_views(before))[k as int] == key);
        assert(keyed_map(pair_views(before)).contains_key(key));
        assert(keyed_map(pair_views(elems@)).dom() =~= keyed_map(pair_views(before)).insert(key, d).dom());
        assert(keyed_map(pair_views(elems@)) =~= keyed_map(pair_views(before)).insert(key, d)) by {
            assert forall|t: T::V| keyed_map(pair_views(elems@)).contains_key(t) implies keyed_map(pair_views(elems@))[t]
                == keyed_map(pair_views(before)).insert(key, d)[t] by {
                let j = lemma_keyed_map_witness(pair_views(elems@), t);
                if j != k {
                    assert(pair_views(elems@)[j] == pair_views(before)[j]);
                    assert(pair_keys(pair_views(before))[j] != pair_keys(pair_views(before))[k as int]);
                }
            }
        }
    }
}

/// Appends an entry for a value without one.
fn push_pair<I: View, T: View>(elems: &mut Vec<(T, Dot<I>)>, value: T, dot: Dot<I>)
    requires
        pair_keys(pair_views(old(elems)@)).no_duplicates(),
        !pair_keys(pair_views(old(elems)@)).contains(value@),
    ensures
        final(elems)@ == old(elems)@.push((value, dot)),
        pair_keys(pair_views(final(elems)@)).no_duplicates(),
        keyed_map(pair_views(final(elems)@)) == keyed_map(pair_views(old(elems)@)).insert(value@, dot@),
{
    let ghost before = elems@;
    let ghost p = (value@, dot@);
    elems.push((value, dot));
    proof {
        assert(pair_views(elems@) =~= pair_views(before).push(p));
        assert(pair_views(elems@).drop_last() =~= pair_views(before));
        let ks = pair_keys(pair_views(elems@));
        let kb = pair_keys(pair_views(before));
        assert(ks =~= kb.push(p.0));
        assert forall|a: int, b: int| 0 <= a < ks.len() && 0 <= b < ks.len() && a != b implies ks[a] != ks[b] by {
            if a < before.len() && b < before.len() {
                assert(kb[a] != kb[b]);
            } else if a < before.len() {
                assert(kb[a] == ks[a]);
            } else {
                assert(kb[b] == ks[b]);
            }
        }
    }
}

/// Removes the entry at position `k`.
fn remove_pair<I: View, T: View>(elems: &mut Vec<(T, Dot<I>)>, k: usize)
    requires
        k < old(elems)@.len(),
        pair_keys(pair_views(old(elems)@)).no_duplicates(),
    ensures
        pair_keys(pair_views(final(elems)@)).no_duplicates(),
        keyed_map(pair_views(final(elems)@)) == keyed_map(pair_views(old(elems)@)).remove(old(elems)@[k as int].0@),
{
    let ghost before = elems@;
    let _ = elems.remove(k);
    proof {
        let key = before[k as int].0@;
        let vb = pair_views(before);
        let va = pair_views(elems@);
        assert(va =~= vb.remove(k as int));
        let kb = pair_keys(vb);
        let ka = pair_keys(va);
        assert(ka =~= kb.remove(k as int));
        assert forall|a: int, b: int| 0 <= a < ka.len() && 0 <= b < ka.len() && a != b implies ka[a] != ka[b] by {
            let a2 = if a < k { a } else { a + 1 };
            let b2 = if b < k { b } else { b + 1 };
            assert(ka[a] == kb[a2]);
            assert(ka[b] == kb[b2]);
        }
        lemma_keyed_map(va);
        lemma_keyed_map(vb);
        assert(kb[k as int] == key);
        assert(keyed_map(va) =~= keyed_map(vb).remove(key)) by {
            assert forall|t: T::V| keyed_map(va).contains_key(t) <==> keyed_map(vb).remove(key).contains_key(t) by {
                if keyed_map(va).contains_key(t) {
                    let j = choose|j: int| 0 <= j < ka.len() && #[trigger] ka[j] == t;
                    let j2 = if j < k { j } else { j + 1 };
                    assert(kb[j2] == t);
                    assert(j2 != k);
                }
                if keyed_map(vb).remove(key).contains_key(t) {
                    let j = choose|j: int| 0 <= j < kb.len() && #[trigger] kb[j] == t;
                    assert(j != k);
                    let j2 = if j < k { j } else { j - 1 };
                    assert(ka[j2] == t);
                }
            }
            assert forall|t: T::V| keyed_map(va).contains_key(t) implies keyed_map(va)[t] == keyed_map(vb)[t] by {
                let j = lemma_keyed_map_witness(va, t);
                let j2 = if j < k { j } else { j + 1 };
                assert(va[j] == vb[j2]);
            }
        }
    }
}

impl<I: View, T: View> AWSet<I, T> {
    /// The elements, each with the view of the dot of its latest insertion.
    pub closed spec fn entries(&self) -> Map<T::V, (I::V, u64)> {
        keyed_map(pair_views(self.elems.items@))
    }

    /// The causal context.
    pub closed spec fn context(&self) -> DotContext<I> {
        self.ctx
    }
}

impl<I: View, T: View> Entries<I, T> {
    #[verifier::type_invariant]
    spec fn inv(self) -> bool {
        pair_keys(pair_views(self.items@)).no_duplicates()
    }
}

impl<I: View, T: View> View for AWSet<I, T> {
    type V = Set<T::V>;

    /// The elements of the set.
    closed spec fn view(&self) -> Set<T::V> {
        self.entries().dom()
    }
}

impl<'a, I: View, T: View> Delta<'a, I, T> {
    /// The elements of the delta, each with the view of its dot.
    pub closed spec fn entries(&self) -> Map<T::V, (I::V, u64)> {
        keyed_map(ref_pair_views(self.elems@))
    }

    /// The part of the causal context in the delta.
    pub closed spec fn context(&self) -> CtxDelta<'a, I> {
        self.ctx
    }

    #[verifier::type_invariant]
    spec fn inv(self) -> bool {
        pair_keys(ref_pair_views(self.elems@)).no_duplicates()
    }
}

impl<I: Datum + core::hash::Hash + 'static, T: Datum> AWSet<I, T> {
    /// An empty set with an empty causal context.
    pub fn new() -> (r: Self)
        ensures
            r.entries() == Map::<T::V, (I::V, u64)>::empty(),
            r.context().clock_map() == Map::<I::V, u64>::empty(),
            r.context().cloud_set() == Set::<(I::V, u64)>::empty(),
    {
        let r = AWSet { elems: Entries { items: Vec::new() }, ctx: DotContext::new() };
        assert(r.entries() =~= Map::<T::V, (I::V, u64)>::empty());
        r
    }

    /// Returns `true` if the set has no element.
    pub fn is_empty(&self) -> (r: bool)
        ensures
            r == (self@.len() == 0),
    {
        self.len() == 0
    }

    /// The number of elements.
    pub fn len(&self) -> (r: usize)
        ensures
            r == self@.len(),
            self@.finite(),
    {
        proof {
            use_type_invariant(&self.elems);
            lemma_keyed_map(pair_views(self.elems.items@));
        }
        self.elems.items.len()
    }

    /// References to every element, each once.
    pub fn iter(&self) -> (r: Vec<&T>)
        ensures
            r@.map_values(|t: &T| t@).no_duplicates(),
            r@.map_values(|t: &T| t@).to_set() == self@,
    {
        proof {
            use_type_invariant(&self.elems);
            lemma_keyed_map(pair_views(self.elems.items@));
        }
        let mut out: Vec<&T> = Vec::new();
        let mut i: usize = 0;
        while i < self.elems.items.len()
            invariant
                i <= self.elems.items@.len(),
                pair_keys(pair_views(self.elems.items@)).no_duplicates(),
                out@.map_values(|t: &T| t@) == pair_keys(pair_views(self.elems.items@)).take(i as int),
            decreases self.elems.items@.len() - i,
        {
            let ghost before = out@;
            out.push(&self.elems.items[i].0);
            proof {
                assert(out@ =~= before.push(&self.elems.items@[i as int].0));
                assert(out@.map_values(|t: &T| t@) =~= before.map_values(|t: &T| t@).push(self.elems.items@[i as int].0@));
                assert(pair_keys(pair_views(self.elems.items@))[i as int] == self.elems.items@[i as int].0@);
                assert(pair_keys(pair_views(self.elems.items@)).take(i + 1) =~= pair_keys(pair_views(self.elems.items@)).take(i as int).push(self.elems.items@[i as int].0@));
            }
            i = i + 1;
        }
        proof {
            assert(pair_keys(pair_views(self.elems.items@)).take(self.elems.items@.len() as int) =~= pair_keys(pair_views(self.elems.items@)));
        }
        out
    }

    /// Returns `true` if `value` is an element.
    pub fn contains(&self, value: &T) -> (r: bool)
        ensures
            r == self@.contains(value@),
    {
        proof {
            use_type_invariant(&self.elems);
            lemma_keyed_map(pair_views(self.elems.items@));
        }
        position_of_value(&self.elems.items, value).is_some()
    }

    /// Inserts `value` with the dot that follows the largest sequence number of replica `id` in
    /// the causal context, and advances the clock of `id`; the delta holds the new entry and the
    /// new clock entry.
    pub fn insert(&mut self, id: &I, value: T) -> (r: Delta<'_, I, T>)
        requires
            old(self).context().max_of(id@) < u64::MAX,
        ensures
            final(self).entries() == old(self).entries().insert(
                value@,
                (id@, (old(self).context().max_of(id@) + 1) as u64),
            ),
            final(self).context().clock_map() == old(self).context().clock_map().insert(
                id@,
                if old(self).context().clock_map().contains_key(id@) {
                    (old(self).context().clock_map()[id@] + 1) as u64
                } else {
                    1u64
                },
            ),
            final(self).context().cloud_set() == old(self).context().cloud_set(),
            r.entries() == map![value@ => (id@, (old(self).context().max_of(id@) + 1) as u64)],
            r.context().clock_map() == map![id@ => final(self).context().clock_map()[id@]],
            r.context().cloud_set() == Set::<(I::V, u64)>::empty(),
    {
        proof {
            use_type_invariant(&self.elems);
        }
        let n = self.ctx.max(id) + 1;
        let ghost v = value@;
        let mut elems = Vec::new();
        std::mem::swap(&mut elems, &mut self.elems.items);
        let k = match position_of_value(&elems, &value) {
            Some(k) => {
                let ghost before = elems@;
                set_dot(&mut elems, k, Dot(id.duplicate(), n));
                proof {
                    assert(pair_keys(pair_views(before))[k as int] == v);
                    assert(pair_keys(pair_views(elems@))[k as int] == v);
                }
                k
            },
            None => {
                push_pair(&mut elems, value, Dot(id.duplicate(), n));
                proof {
                    assert(elems@[elems@.len() - 1].0@ == v);
                }
                elems.len() - 1
            },
        };
        proof {
            lemma_keyed_map(pair_views(elems@));
            assert(pair_views(elems@)[k as int].0 == v);
        }
        self.elems = Entries { items: elems };
        proof {
            assert(keyed_map(pair_views(self.elems.items@))[v] == (id@, n));
        }
        let entry = &self.elems.items[k];
        let ctx = self.ctx.next(id);
        let mut out: Vec<(&T, &Dot<I>)> = Vec::new();
        out.push((&entry.0, &entry.1));
        proof {
            assert(ref_pair_views(out@) =~= seq![(v, (id@, n))]);
            lemma_keyed_map_single((v, (id@, n)));
        }
        Delta { set: &self.elems, elems: out, ctx }
    }

    /// Removes `value`; the causal context stays as it is, and the delta is empty.
    pub fn remove(&mut self, value: &T) -> (r: Delta<'_, I, T>)
        ensures
            final(self).entries() == old(self).entries().remove(value@),
            final(self).context() == old(self).context(),
            r.entries() == Map::<T::V, (I::V, u64)>::empty(),
            r.context().clock_map() == Map::<I::V, u64>::empty(),
            r.context().cloud_set() == Set::<(I::V, u64)>::empty(),
    {
        proof {
            use_type_invariant(&self.elems);
            lemma_keyed_map(pair_views(self.elems.items@));
        }
        let mut elems = Vec::new();
        std::mem::swap(&mut elems, &mut self.elems.items);
        match position_of_value(&elems, value) {
            Some(k) => remove_pair(&mut elems, k),
            None => {
                assert(keyed_map(pair_views(elems@)).remove(value@) =~= keyed_map(pair_views(elems@)));
            },
        }
        self.elems = Entries { items: elems };
        let r = Delta { set: &self.elems, elems: Vec::new(), ctx: CtxDelta::empty_with(&self.ctx) };
        assert(r.entries() =~= Map::<T::V, (I::V, u64)>::empty());
        r
    }

    /// A set with the entries and the causal context of `delta`.
    pub fn from_delta(delta: Delta<'_, I, T>) -> (r: Self)
        ensures
            r.entries() == delta.entries(),
            r.context().clock_map() == delta.context().clock_map(),
            r.context().cloud_set() == delta.context().cloud_set(),
    {
        proof {
            use_type_invariant(&delta);
        }
        let mut elems: Vec<(T, Dot<I>)> = Vec::new();
        let mut i: usize = 0;
        assert(ref_pair_views(delta.elems@).take(0) =~= Seq::<(T::V, (I::V, u64))>::empty());
        while i < delta.elems.len()
            invariant
                i <= delta.elems@.len(),
                pair_keys(ref_pair_views(delta.elems@)).no_duplicates(),
                pair_keys(pair_views(elems@)).no_duplicates(),
                pair_views(elems@) == ref_pair_views(delta.elems@).take(i as int),
            decreases delta.elems@.len() - i,
        {
            let (value, dot) = delta.elems[i];
            proof {
                let s = ref_pair_views(delta.elems@);
                lemma_keyed_map_prefix(s, i as int);
                lemma_keyed_map(s.take(i as int));
                assert(s[i as int] == (value@, dot@));
            }
            push_pair(&mut elems, value.duplicate(), Dot(dot.0.duplicate(), dot.1));
            proof {
                assert(pair_views(elems@) =~= ref_pair_views(delta.elems@).take(i + 1));
            }
            i = i + 1;
        }
        assert(ref_pair_views(delta.elems@).take(delta.elems@.len() as int) =~= ref_pair_views(delta.elems@));
        AWSet { elems: Entries { items: elems }, ctx: DotContext::from_delta(delta.ctx) }
    }

    /// One delta per element, then one per piece of the causal context.
    pub fn split(&self) -> (r: Vec<Delta<'_, I, T>>)
        ensures
            r@.len() == self.entries().dom().len() + self.context().clock_map().dom().len()
                + self.context().cloud_set().len(),
            forall|k: int| 0 <= k < r@.len() ==> (#[trigger] r@[k]).entries().dom().len()
                + r@[k].context().clock_map().dom().len() + r@[k].context().cloud_set().len() == 1,
            entries_merged(r@.map_values(|d: Delta<'_, I, T>| d.entries())) == self.entries(),
            clocks_merged(Map::empty(), r@.map_values(|d: Delta<'_, I, T>| d.context().clock_map()))
                == self.context().clock_map(),
            clouds_merged(Set::empty(), r@.map_values(|d: Delta<'_, I, T>| d.context().cloud_set()))
                == self.context().cloud_set(),
    {
        proof {
            use_type_invariant(&self.elems);
            lemma_keyed_map(pair_views(self.elems.items@));
        }
        let ghost views = pair_views(self.elems.items@);
        let mut parts: Vec<Delta<'_, I, T>> = Vec::new();
        let mut i: usize = 0;
        assert(views.take(0) =~= Seq::<(T::V, (I::V, u64))>::empty());
        assert(parts@.map_values(|d: Delta<'_, I, T>| d.entries()) =~= Seq::<Map<T::V, (I::V, u64)>>::empty());
        assert(parts@.map_values(|d: Delta<'_, I, T>| d.context().clock_map()) =~= Seq::<Map<I::V, u64>>::empty());
        assert(parts@.map_values(|d: Delta<'_, I, T>| d.context().cloud_set()) =~= Seq::<Set<(I::V, u64)>>::empty());
        while i < self.elems.items.len()
            invariant
                i <= self.elems.items@.len(),
                views == pair_views(self.elems.items@),
                pair_keys(views).no_duplicates(),
                parts@.len() == i,
                forall|k: int| 0 <= k < parts@.len() ==> (#[trigger] parts@[k]).entries().dom().len()
                    + parts@[k].context().clock_map().dom().len() + parts@[k].context().cloud_set().len() == 1,
                entries_merged(parts@.map_values(|d: Delta<'_, I, T>| d.entries())) == keyed_map(views.take(i as int)),
                clocks_merged(Map::empty(), parts@.map_values(|d: Delta<'_, I, T>| d.context().clock_map()))
                    == Map::<I::V, u64>::empty(),
                clouds_merged(Set::empty(), parts@.map_values(|d: Delta<'_, I, T>| d.context().cloud_set()))
                    == Set::<(I::V, u64)>::empty(),
            decreases self.elems.items@.len() - i,
        {
            let entry = &self.elems.items[i];
            let mut out: Vec<(&T, &Dot<I>)> = Vec::new();
            out.push((&entry.0, &entry.1));
            let ghost p = (entry.0@, entry.1@);
            proof {
                assert(ref_pair_views(out@) =~= seq![p]);
                lemma_keyed_map_single(p);
                assert(views[i as int] == p);
            }
            let part = Delta { set: &self.elems, elems: out, ctx: CtxDelta::empty_with(&self.ctx) };
            let ghost before = parts@;
            parts.push(part);
            proof {
                assert(part.entries().dom() =~= set![p.0]);
                vstd::set_lib::lemma_set_empty_equivalency_len(part.context().cloud_set());
                assert(part.context().clock_map().dom() =~= Set::<I::V>::empty());
                assert(parts@.map_values(|d: Delta<'_, I, T>| d.entries()).drop_last()
                    =~= before.map_values(|d: Delta<'_, I, T>| d.entries()));
                assert(parts@.map_values(|d: Delta<'_, I, T>| d.context().clock_map()).drop_last()
                    =~= before.map_values(|d: Delta<'_, I, T>| d.context().clock_map()));
                assert(parts@.map_values(|d: Delta<'_, I, T>| d.context().cloud_set()).drop_last()
                    =~= before.map_values(|d: Delta<'_, I, T>| d.context().cloud_set()));
                lemma_keyed_map_prefix(views, i as int);
                assert(entries_merged(parts@.map_values(|d: Delta<'_, I, T>| d.entries()))
                    =~= keyed_map(views.take(i + 1)));
                assert(clocks_merged(Map::empty(), parts@.map_values(|d: Delta<'_, I, T>| d.context().clock_map()))
                    =~= Map::<I::V, u64>::empty());
                assert(clouds_merged(Set::empty(), parts@.map_values(|d: Delta<'_, I, T>| d.context().cloud_set()))
                    =~= Set::<(I::V, u64)>::empty());
            }
            i = i + 1;
        }
        assert(views.take(views.len() as int) =~= views);
        let ghost n = parts@.len();
        let mut rest = self.ctx.split();
        let ghost context = rest@;
        let total = rest.len();
        let mut j: usize = 0;
        assert(context.take(0).map_values(|d: CtxDelta<'_, I>| d.clock_map()) =~= Seq::<Map<I::V, u64>>::empty());
        assert(context.take(0).map_values(|d: CtxDelta<'_, I>| d.cloud_set()) =~= Seq::<Set<(I::V, u64)>>::empty());
        while rest.len() > 0
            invariant
                j <= context.len(),
                total == context.len(),
                rest@ == context.subrange(j as int, context.len() as int),
                n == self.entries().dom().len(),
                parts@.len() == n + j,
                forall|k: int| 0 <= k < context.len() ==> (#[trigger] context[k]).clock_map().dom().len() + context[k].cloud_set().len() == 1,
                forall|k: int| 0 <= k < parts@.len() ==> (#[trigger] parts@[k]).entries().dom().len()
                    + parts@[k].context().clock_map().dom().len() + parts@[k].context().cloud_set().len() == 1,
                entries_merged(parts@.map_values(|d: Delta<'_, I, T>| d.entries())) == self.entries(),
                clocks_merged(Map::empty(), parts@.map_values(|d: Delta<'_, I, T>| d.context().clock_map()))
                    == clocks_merged(Map::empty(), context.take(j as int).map_values(|d: CtxDelta<'_, I>| d.clock_map())),
                clouds_merged(Set::empty(), parts@.map_values(|d: Delta<'_, I, T>| d.context().cloud_set()))
                    == clouds_merged(Set::empty(), context.take(j as int).map_values(|d: CtxDelta<'_, I>| d.cloud_set())),
            decreases rest@.len(),
        {
            let d = rest.remove(0);
            assert(d == context[j as int]);
            let part = Delta { set: &self.elems, elems: Vec::new(), ctx: d };
            let ghost before = parts@;
            parts.push(part);
            proof {
                assert(part.entries() =~= Map::<T::V, (I::V, u64)>::empty());
                assert(parts@.map_values(|d: Delta<'_, I, T>| d.entries()).drop_last()
                    =~= before.map_values(|d: Delta<'_, I, T>| d.entries()));
                assert(parts@.map_values(|d: Delta<'_, I, T>| d.context().clock_map()).drop_last()
                    =~= before.map_values(|d: Delta<'_, I, T>| d.context().clock_map()));
                assert(parts@.map_values(|d: Delta<'_, I, T>| d.context().cloud_set()).drop_last()
                    =~= before.map_values(|d: Delta<'_, I, T>| d.context().cloud_set()));
                assert(context.take(j + 1).map_values(|d: CtxDelta<'_, I>| d.clock_map()).drop_last()
                    =~= context.take(j as int).map_values(|d: CtxDelta<'_, I>| d.clock_map()));
                assert(context.take(j + 1).map_values(|d: CtxDelta<'_, I>| d.cloud_set()).drop_last()
                    =~= context.take(j as int).map_values(|d: CtxDelta<'_, I>| d.cloud_set()));
                assert(entries_merged(parts@.map_values(|d: Delta<'_, I, T>| d.entries()))
                    =~= self.entries());
            }
            j = j + 1;
        }
        assert(context.take(context.len() as int) =~= context);
        parts
    }
}

impl<I: Datum + core::hash::Hash + 'static, T: Datum> Default for AWSet<I, T> {
    fn default() -> (r: Self)
        ensures
            r.entries() == Map::<T::V, (I::V, u64)>::empty(),
            r.context().clock_map() == Map::<I::V, u64>::empty(),
            r.context().cloud_set() == Set::<(I::V, u64)>::empty(),
    {
        Self::new()
    }
}

impl<I: Datum + core::hash::Hash + 'static, T: Datum> Clone for AWSet<I, T> {
    fn clone(&self) -> (r: Self)
        ensures
            r.entries() == self.entries(),
            r.context().clock_map() == self.context().clock_map(),
            r.context().cloud_set() == self.context().cloud_set(),
    {
        proof {
            use_type_invariant(&self.elems);
        }
        let mut elems: Vec<(T, Dot<I>)> = Vec::new();
        let mut i: usize = 0;
        assert(pair_views(self.elems.items@).take(0) =~= Seq::<(T::V, (I::V, u64))>::empty());
        while i < self.elems.items.len()
            invariant
                i <= self.elems.items@.len(),
                pair_keys(pair_views(self.elems.items@)).no_duplicates(),
                pair_keys(pair_views(elems@)).no_duplicates(),
                pair_views(elems@) == pair_views(self.elems.items@).take(i as int),
            decreases self.elems.items@.len() - i,
        {
            let entry = &self.elems.items[i];
            proof {
                let s = pair_views(self.elems.items@);
                lemma_keyed_map_prefix(s, i as int);
                lemma_keyed_map(s.take(i as int));
                assert(s[i as int] == (entry.0@, entry.1@));
            }
            push_pair(&mut elems, entry.0.duplicate(), Dot(entry.1.0.duplicate(), entry.1.1));
            proof {
                assert(pair_views(elems@) =~= pair_views(self.elems.items@).take(i + 1));
            }
            i = i + 1;
        }
        assert(pair_views(self.elems.items@).take(self.elems.items@.len() as int) =~= pair_views(self.elems.items@));
        AWSet { elems: Entries { items: elems }, ctx: self.ctx.clone() }
    }
}

impl<I: Datum, T: Datum> PartialEq for AWSet<I, T> {
    /// Two sets are equal when they have the same elements, whatever their dots and contexts.
    fn eq(&self, other: &Self) -> (r: bool)
        ensures
            r == (self@ == other@),
    {
        proof {
            use_type_invariant(&self.elems);
            use_type_invariant(&other.elems);
            lemma_keyed_map(pair_views(self.elems.items@));
            lemma_keyed_map(pair_views(other.elems.items@));
        }
        if self.elems.items.len() != other.elems.items.len() {
            return false;
        }
        let mut i: usize = 0;
        while i < self.elems.items.len()
            invariant
                i <= self.elems.items@.len(),
                self@ == pair_keys(pair_views(self.elems.items@)).to_set(),
                other@ == pair_keys(pair_views(other.elems.items@)).to_set(),
                self@.finite(),
                other@.finite(),
                self@.len() == other@.len(),
                forall|k: int| 0 <= k < i ==> other@.contains(#[trigger] self.elems.items@[k].0@),
            decreases self.elems.items@.len() - i,
        {
            proof {
                assert(pair_keys(pair_views(self.elems.items@))[i as int] == self.elems.items@[i as int].0@);
            }
            if position_of_value(&other.elems.items, &self.elems.items[i].0).is_none() {
                proof {
                    assert(self@.contains(self.elems.items@[i as int].0@));
                }
                return false;
            }
            i = i + 1;
        }
        proof {
            assert forall|t: T::V| self@.contains(t) implies other@.contains(t) by {
                let k = choose|k: int| 0 <= k < pair_keys(pair_views(self.elems.items@)).len() && #[trigger] pair_keys(pair_views(self.elems.items@))[k] == t;
                assert(self.elems.items@[k].0@ == t);
            }
            vstd::set_lib::lemma_subset_equality(self@, other@);
        }
        true
    }
}

impl<I: Datum, T: Datum> vstd::std_specs::cmp::PartialEqSpecImpl for AWSet<I, T> {
    open spec fn obeys_eq_spec() -> bool {
        true
    }

    open spec fn eq_spec(&self, other: &Self) -> bool {
        self@ == other@
    }
}

impl<'a, I: Datum + core::hash::Hash, T: Datum + core::hash::Hash> Extract for Delta<'a, I, T> {
    type Output = Element<'a, I, T>;

    /// The elements, and one more when the causal context holds a single value.
    open spec fn spec_values(&self) -> nat {
        self.entries().dom().len() + if self.context().spec_values() == 1 {
            1nat
        } else {
            0nat
        }
    }

    /// The single element, or the single piece of the causal context when there is no element.
    fn extract(&self) -> (r: Result<Element<'a, I, T>, ExtractError>)
        ensures
            r matches Ok(Element::Entry(v, d)) ==> self.entries() == map![v@ => d@],
            r matches Ok(Element::Context(DotKind::Clock(i, n))) ==> self.entries() == Map::<T::V, (I::V, u64)>::empty()
                && self.context().clock_map() == map![i@ => *n]
                && self.context().cloud_set() == Set::<(I::V, u64)>::empty(),
            r matches Ok(Element::Context(DotKind::Cloud(i, n))) ==> self.entries() == Map::<T::V, (I::V, u64)>::empty()
                && self.context().clock_map() == Map::<I::V, u64>::empty()
                && self.context().cloud_set() == set![(i@, *n)],
    {
        proof {
            use_type_invariant(self);
            lemma_keyed_map(ref_pair_views(self.elems@));
        }
        let ctx_extraction = self.ctx.extract();
        let single: usize = if ctx_extraction.is_ok() { 1 } else { 0 };
        let values = self.elems.len().saturating_add(single);
        if values != 1 {
            return Err(ExtractError::NotSingle(values));
        }
        if self.elems.len() == 1 {
            let (v, d) = self.elems[0];
            proof {
                assert(ref_pair_views(self.elems@) =~= seq![(v@, d@)]);
                lemma_keyed_map_single((v@, d@));
            }
            Ok(Element::Entry(v, d))
        } else {
            proof {
                assert(self.entries().dom() =~= Set::<T::V>::empty());
                assert(self.entries() =~= Map::<T::V, (I::V, u64)>::empty());
            }
            match ctx_extraction {
                Ok(kind) => Ok(Element::Context(kind)),
                Err(_) => vstd::pervasive::unreached(),
            }
        }
    }
}

} // verus!
