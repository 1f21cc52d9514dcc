//! The positive-negative counter: one increment total and one decrement total per replica.

use vstd::prelude::*;

use crate::datum::{lemma_take_to_set_step, views, Datum};

use super::{sum_string_bytes, utf8_bytes, Decompose, Extract, Measure};

verus! {

broadcast use {vstd::seq_lib::group_seq_properties, vstd::set::group_set_axioms, vstd::map::group_map_axioms};

/// The totals of a replica: increments first, decrements second.
pub type Totals = (u64, u64);

/// The keys of a sequence of entries, by view, in order.
pub open spec fn keys_of<I: View>(s: Seq<(I, Totals)>) -> Seq<I::V> {
    s.map_values(|p: (I, Totals)| p.0@)
}

/// The map from the view of each key to its totals, built from a sequence of entries.
pub open spec fn key_map<I: View>(s: Seq<(I, Totals)>) -> Map<I::V, Totals>
    decreases s.len(),
{
    if s.len() == 0 {
        Map::empty()
    } else {
        key_map(s.drop_last()).insert(s.last().0@, s.last().1)
    }
}

/// The net contribution of one replica's totals.
pub open spec fn net(t: Totals) -> int {
    t.0 - t.1
}

/// Adds up `f` over the values of a finite map.
pub open spec fn map_sum<K>(m: Map<K, Totals>, f: spec_fn(Totals) -> int) -> int
    decreases m.dom().len(),
    when m.dom().finite()
{
    if m.dom().len() == 0 {
        0
    } else {
        let k = m.dom().choose();
        f(m[k]) + map_sum(m.remove(k), f)
    }
}

/// The count of a counter: increments minus decrements over all replicas.
pub open spec fn count_of<K>(m: Map<K, Totals>) -> int {
    map_sum(m, |t: Totals| net(t))
}

/// All the increments of a counter.
pub open spec fn increments_of<K>(m: Map<K, Totals>) -> int {
    map_sum(m, |t: Totals| t.0 as int)
}

/// All the decrements of a counter.
pub open spec fn decrements_of<K>(m: Map<K, Totals>) -> int {
    map_sum(m, |t: Totals| t.1 as int)
}

/// The join of two counter states: every replica with the larger of each total.
pub open spec fn merge<K>(a: Map<K, Totals>, b: Map<K, Totals>) -> Map<K, Totals> {
    Map::new(
        |k: K| a.contains_key(k) || b.contains_key(k),
        |k: K|
            if a.contains_key(k) && b.contains_key(k) {
                (
                    if a[k].0 >= b[k].0 { a[k].0 } else { b[k].0 },
                    if a[k].1 >= b[k].1 { a[k].1 } else { b[k].1 },
                )
            } else if a.contains_key(k) {
                a[k]
            } else {
                b[k]
            },
    )
}

/// Joins the states of `parts` into `m`, in order.
pub open spec fn merge_all<I: View>(m: Map<I::V, Totals>, parts: Seq<PNCounter<I>>) -> Map<I::V, Totals>
    decreases parts.len(),
{
    if parts.len() == 0 {
        m
    } else {
        merge(merge_all(m, parts.drop_last()), parts.last()@)
    }
}

/// `a` holds totals that `b` does not cover: a replica absent from `b`, or a total above `b`'s.
pub open spec fn exceeds(a: Totals, b: Option<Totals>) -> bool {
    match b {
        Some(t) => !(a.0 <= t.0 && a.1 <= t.1),
        None => true,
    }
}

/// The entries of `local` that `remote` does not cover.
pub open spec fn uncovered<K>(local: Map<K, Totals>, remote: Map<K, Totals>) -> Map<K, Totals> {
    Map::new(
        |k: K|
            local.contains_key(k) && exceeds(
                local[k],
                if remote.contains_key(k) { Some(remote[k]) } else { None },
            ),
        |k: K| local[k],
    )
}

/// The keys of `a` absent from `b` or holding different totals, plus the keys of `b` absent
/// from `a`.
pub open spec fn mismatches<K>(a: Map<K, Totals>, b: Map<K, Totals>) -> nat {
    a.dom().filter(|k: K| !b.contains_key(k) || a[k] != b[k]).len() + b.dom().filter(
        |k: K| !a.contains_key(k),
    ).len()
}

/// The sum over a map does not depend on the order in which its keys are taken.
pub proof fn lemma_map_sum_remove<K>(m: Map<K, Totals>, f: spec_fn(Totals) -> int, k: K)
    requires
        m.dom().finite(),
        m.contains_key(k),
    ensures
        map_sum(m, f) == f(m[k]) + map_sum(m.remove(k), f),
    decreases m.dom().len(),
{
    let j = m.dom().choose();
    assert(m.dom().contains(j));
    if j != k {
        assert(m.remove(j).dom() =~= m.dom().remove(j));
        assert(m.remove(k).dom() =~= m.dom().remove(k));
        lemma_map_sum_remove(m.remove(j), f, k);
        lemma_map_sum_remove(m.remove(k), f, j);
        assert(m.remove(j).remove(k) =~= m.remove(k).remove(j));
    }
}

/// Adding a key to a map adds its value to the sum.
pub proof fn lemma_map_sum_insert<K>(m: Map<K, Totals>, f: spec_fn(Totals) -> int, k: K, v: Totals)
    requires
        m.dom().finite(),
    ensures
        m.contains_key(k) ==> map_sum(m.insert(k, v), f) == map_sum(m, f) - f(m[k]) + f(v),
        !m.contains_key(k) ==> map_sum(m.insert(k, v), f) == map_sum(m, f) + f(v),
{
    lemma_map_sum_remove(m.insert(k, v), f, k);
    if m.contains_key(k) {
        lemma_map_sum_remove(m, f, k);
        assert(m.insert(k, v).remove(k) =~= m.remove(k));
    } else {
        assert(m.insert(k, v).remove(k) =~= m);
    }
}

/// Facts about the map built from entries with distinct keys.
pub proof fn lemma_key_map<I: View>(s: Seq<(I, Totals)>)
    requires
        keys_of(s).no_duplicates(),
    ensures
        key_map(s).dom() == keys_of(s).to_set(),
        key_map(s).dom().finite(),
        key_map(s).dom().len() == s.len(),
        forall|k: int| 0 <= k < s.len() ==> key_map(s)[(#[trigger] s[k]).0@] == s[k].1,
    decreases s.len(),
{
    if s.len() > 0 {
        let t = s.drop_last();
        assert(keys_of(t) =~= keys_of(s).drop_last());
        lemma_key_map(t);
        assert(!keys_of(t).contains(s.last().0@)) by {
            if keys_of(t).contains(s.last().0@) {
                let k = choose|k: int| 0 <= k < keys_of(t).len() && #[trigger] keys_of(t)[k] == s.last().0@;
                assert(keys_of(s)[k] == keys_of(s)[s.len() - 1]);
            }
        }
        assert(key_map(s).dom() =~= keys_of(s).to_set()) by {
            assert(keys_of(s) =~= keys_of(t).push(s.last().0@));
        }
        assert forall|k: int| 0 <= k < s.len() implies key_map(s)[(#[trigger] s[k]).0@] == s[k].1 by {
            if k < s.len() - 1 {
                assert(t[k] == s[k]);
                assert(keys_of(s)[k] != keys_of(s)[s.len() - 1]);
            }
        }
    } else {
        assert(key_map(s).dom() =~= keys_of(s).to_set());
    }
}

/// Every key of the map comes from a position of the sequence.
proof fn lemma_key_map_witness<I: View>(s: Seq<(I, Totals)>, id: I::V) -> (k: int)
    requires
        keys_of(s).no_duplicates(),
        key_map(s).contains_key(id),
    ensures
        0 <= k < s.len(),
        s[k].0@ == id,
        key_map(s)[id] == s[k].1,
{
    lemma_key_map(s);
    let k = choose|k: int| 0 <= k < keys_of(s).len() && #[trigger] keys_of(s)[k] == id;
    assert(s[k].0@ == id);
    k
}

/// The prefix maps of a sequence of entries with distinct keys grow one entry at a time.
proof fn lemma_key_map_prefix<I: View>(s: Seq<(I, Totals)>, j: int)
    requires
        keys_of(s).no_duplicates(),
        0 <= j < s.len(),
    ensures
        keys_of(s.take(j)).no_duplicates(),
        key_map(s.take(j + 1)) == key_map(s.take(j)).insert(s[j].0@, s[j].1),
        !key_map(s.take(j)).contains_key(s[j].0@),
        key_map(s.take(j)).dom().finite(),
{
    assert(s.take(j + 1).drop_last() =~= s.take(j));
    assert(keys_of(s.take(j)) =~= keys_of(s).take(j));
    assert(keys_of(s.take(j)).no_duplicates()) by {
        assert forall|a: int, b: int|
            0 <= a < keys_of(s.take(j)).len() && 0 <= b < keys_of(s.take(j)).len() && a != b
            implies keys_of(s.take(j))[a] != keys_of(s.take(j))[b] by {
            assert(keys_of(s)[a] != keys_of(s)[b]);
        }
    }
    lemma_key_map(s.take(j));
    if key_map(s.take(j)).contains_key(s[j].0@) {
        assert(keys_of(s.take(j)).contains(s[j].0@));
        let m = choose|m: int| 0 <= m < j && #[trigger] keys_of(s.take(j))[m] == s[j].0@;
        assert(keys_of(s)[m] == keys_of(s)[j]);
    }
}

/// A positive-negative counter: each replica counts its own increments and decrements, and the
/// count is the difference of both over all replicas.
#[derive(Debug)]
pub struct PNCounter<I: View> {
    inner: Vec<(I, Totals)>,
}

impl<I: View> View for PNCounter<I> {
    type V = Map<I::V, Totals>;

    closed spec fn view(&self) -> Map<I::V, Totals> {
        key_map(self.inner@)
    }
}

/// Finds the position of the entry whose key has the view of `id`.
fn position_of_key<I: Datum>(items: &Vec<(I, Totals)>, id: &I) -> (r: Option<usize>)
    ensures
        r matches Some(k) ==> k < items@.len() && items@[k as int].0@ == id@,
        r is None <==> !keys_of(items@).contains(id@),
{
    let mut i: usize = 0;
    while i < items.len()
        invariant
            i <= items@.len(),
            forall|j: int| 0 <= j < i ==> items@[j].0@ != id@,
        decreases items@.len() - i,
    {
        if items[i].0.same(id) {
            assert(keys_of(items@)[i as int] == id@);
            return Some(i);
        }
        i = i + 1;
    }
    assert forall|k: int| 0 <= k < keys_of(items@).len() implies keys_of(items@)[k] != id@ by {
        assert(keys_of(items@)[k] == items@[k].0@);
    }
    None
}

impl<I: View> PNCounter<I> {
    #[verifier::type_invariant]
    spec fn inv(self) -> bool {
        keys_of(self.inner@).no_duplicates()
    }

    /// The state is a finite map with one key per stored entry.
    proof fn lemma_wf(&self)
        requires
            keys_of(self.inner@).no_duplicates(),
        ensures
            self@.dom().finite(),
            self@.dom().len() == self.inner@.len(),
            self@.dom() == keys_of(self.inner@).to_set(),
            forall|k: int| 0 <= k < self.inner@.len() ==> self@[(#[trigger] self.inner@[k]).0@] == self.inner@[k].1,
    {
        lemma_key_map(self.inner@);
    }

    /// Creates a counter set to 0.
    pub fn new() -> (r: Self)
        ensures
            r@ == Map::<I::V, Totals>::empty(),
    {
        PNCounter { inner: Vec::new() }
    }

    /// The number of replicas with an entry.
    fn entries(&self) -> (r: usize)
        ensures
            r == self@.dom().len(),
    {
        proof {
            use_type_invariant(self);
            self.lemma_wf();
        }
        self.inner.len()
    }

    /// The entries: each replica once, with its totals of increments and decrements.
    pub fn entries_of(&self) -> (r: Vec<(&I, Totals)>)
        ensures
            r@.len() == self@.dom().len(),
            r@.map_values(|p: (&I, Totals)| p.0@).no_duplicates(),
            forall|k: int| 0 <= k < r@.len() ==> self@.contains_key((#[trigger] r@[k]).0@) && self@[r@[k].0@] == r@[k].1,
    {
        proof {
            use_type_invariant(self);
            self.lemma_wf();
        }
        let mut out: Vec<(&I, Totals)> = Vec::new();
        let mut i: usize = 0;
        while i < self.inner.len()
            invariant
                i <= self.inner@.len(),
                out@.len() == i,
                keys_of(self.inner@).no_duplicates(),
                forall|k: int| 0 <= k < i ==> (#[trigger] out@[k]).0 == &self.inner@[k].0 && out@[k].1 == self.inner@[k].1,
                forall|k: int| 0 <= k < self.inner@.len() ==> self@[(#[trigger] self.inner@[k]).0@] == self.inner@[k].1,
                self@.dom() == keys_of(self.inner@).to_set(),
            decreases self.inner@.len() - i,
        {
            out.push((&self.inner[i].0, self.inner[i].1));
            i = i + 1;
        }
        proof {
            assert(out@.map_values(|p: (&I, Totals)| p.0@) =~= keys_of(self.inner@));
            assert forall|k: int| 0 <= k < out@.len() implies self@.contains_key((#[trigger] out@[k]).0@) by {
                assert(keys_of(self.inner@)[k] == self.inner@[k].0@);
            }
        }
        out
    }

    /// Stores an entry for a key without one.
    fn push_entry(&mut self, id: I, totals: Totals)
        requires
            !old(self)@.contains_key(id@),
        ensures
            final(self)@ == old(self)@.insert(id@, totals),
    {
        proof {
            use_type_invariant(&*self);
            self.lemma_wf();
        }
        let ghost before = self.inner@;
        let mut inner = Vec::new();
        std::mem::swap(&mut inner, &mut self.inner);
        inner.push((id, totals));
        proof {
            assert(inner@.drop_last() =~= before);
            assert(keys_of(inner@) =~= keys_of(before).push(id@));
            assert(keys_of(inner@).no_duplicates()) by {
                assert forall|a: int, b: int|
                    0 <= a < keys_of(inner@).len() && 0 <= b < keys_of(inner@).len() && a != b
                    implies keys_of(inner@)[a] != keys_of(inner@)[b] by {
                    if a < before.len() && b < before.len() {
                        assert(keys_of(before)[a] != keys_of(before)[b]);
                    } else if a < before.len() {
                        assert(keys_of(before)[a] == keys_of(inner@)[a]);
                    } else {
                        assert(keys_of(before)[b] == keys_of(inner@)[b]);
                    }
                }
            }
        }
        self.inner = inner;
    }

    /// Replaces the totals of the entry at position `k`.
    fn replace_entry(&mut self, k: usize, totals: Totals)
        requires
            k < old(self).inner@.len(),
        ensures
            final(self)@ == old(self)@.insert(old(self).inner@[k as int].0@, totals),
    {
        proof {
            use_type_invariant(&*self);
            lemma_key_map(self.inner@);
        }
        let ghost before = self.inner@;
        let mut inner = Vec::new();
        std::mem::swap(&mut inner, &mut self.inner);
        let ghost id = inner@[k as int].0@;
        let (key, _) = inner.remove(k);
        inner.insert(k, (key, totals));
        proof {
            assert(inner@ =~= before.update(k as int, (before[k as int].0, totals)));
            assert(keys_of(inner@) =~= keys_of(before));
            lemma_key_map(inner@);
            assert(keys_of(before)[k as int] == id);
            assert(key_map(inner@).dom() =~= key_map(before).insert(id, totals).dom());
            assert(key_map(inner@) =~= key_map(before).insert(id, totals)) by {
                assert forall|t: I::V| key_map(inner@).contains_key(t) implies key_map(inner@)[t]
                    == key_map(before).insert(id, totals)[t] by {
                    let j = lemma_key_map_witness(inner@, t);
                    if j != k {
                        assert(inner@[j] == before[j]);
                        assert(keys_of(before)[j] != keys_of(before)[k as int]);
                    }
                }
            }
        }
        self.inner = inner;
    }
}


/// The larger of two totals.
fn max_u64(a: u64, b: u64) -> (r: u64)
    ensures
        r == if a >= b { a } else { b },
{
    if a >= b { a } else { b }
}

/// `parts` are the irredundant join-decompositions of `s`: one replica entry each.
pub open spec fn is_split_of<I: View>(s: Map<I::V, Totals>, parts: Seq<PNCounter<I>>) -> bool {
    &&& parts.len() == s.dom().len()
    &&& forall|i: int| 0 <= i < parts.len() ==> (#[trigger] parts[i]@).dom().len() == 1
    &&& forall|i: int| 0 <= i < parts.len() ==> (#[trigger] parts[i]@).submap_of(s)
    &&& merge_all(Map::empty(), parts) == s
}

/// Growing a prefix of entries with distinct keys adds one term to each sum.
proof fn lemma_sums_step<I: View>(s: Seq<(I, Totals)>, j: int)
    requires
        keys_of(s).no_duplicates(),
        0 <= j < s.len(),
    ensures
        count_of(key_map(s.take(j + 1))) == count_of(key_map(s.take(j))) + net(s[j].1),
        increments_of(key_map(s.take(j + 1))) == increments_of(key_map(s.take(j))) + s[j].1.0,
        decrements_of(key_map(s.take(j + 1))) == decrements_of(key_map(s.take(j))) + s[j].1.1,
{
    lemma_key_map_prefix(s, j);
    lemma_map_sum_insert(key_map(s.take(j)), |t: Totals| net(t), s[j].0@, s[j].1);
    lemma_map_sum_insert(key_map(s.take(j)), |t: Totals| t.0 as int, s[j].0@, s[j].1);
    lemma_map_sum_insert(key_map(s.take(j)), |t: Totals| t.1 as int, s[j].0@, s[j].1);
}

impl<I: Datum> PNCounter<I> {
    /// A counter with the entries of `entries`, a later entry replacing an earlier one of the same
    /// replica.
    pub fn from_entries(entries: Vec<(I, Totals)>) -> (r: Self)
        ensures
            r@ == key_map(entries@),
    {
        let mut r = Self::new();
        let mut i: usize = 0;
        assert(key_map(entries@.take(0)) =~= Map::<I::V, Totals>::empty());
        while i < entries.len()
            invariant
                i <= entries@.len(),
                r@ == key_map(entries@.take(i as int)),
            decreases entries@.len() - i,
        {
            proof {
                assert(entries@.take(i + 1).drop_last() =~= entries@.take(i as int));
                use_type_invariant(&r);
                r.lemma_wf();
            }
            match position_of_key(&r.inner, &entries[i].0) {
                Some(k) => r.replace_entry(k, entries[i].1),
                None => r.push_entry(entries[i].0.duplicate(), entries[i].1),
            }
            i = i + 1;
        }
        assert(entries@.take(entries@.len() as int) =~= entries@);
        r
    }

    /// The count: all increments minus all decrements. Each total of an entry is at most
    /// `i64::MAX`, as is the count itself in size.
    pub fn count(&self) -> (r: i64)
        requires
            forall|k: I::V| #[trigger] self@.contains_key(k) ==> self@[k].0 <= i64::MAX && self@[k].1 <= i64::MAX,
            i64::MIN <= count_of(self@) <= i64::MAX,
        ensures
            r == count_of(self@),
    {
        proof {
            use_type_invariant(self);
            self.lemma_wf();
        }
        let mut total: i128 = 0;
        let mut i: usize = 0;
        assert(key_map(self.inner@.take(0)) =~= Map::<I::V, Totals>::empty());
        assert(self.inner@.take(self.inner@.len() as int) =~= self.inner@);
        while i < self.inner.len()
            invariant
                i <= self.inner@.len(),
                keys_of(self.inner@).no_duplicates(),
                forall|k: int| 0 <= k < self.inner@.len() ==> self@[(#[trigger] self.inner@[k]).0@] == self.inner@[k].1,
                forall|k: I::V| #[trigger] self@.contains_key(k) ==> self@[k].0 <= i64::MAX && self@[k].1 <= i64::MAX,
                self@.dom() == keys_of(self.inner@).to_set(),
                total == count_of(key_map(self.inner@.take(i as int))),
                -(i * 0x7fff_ffff_ffff_ffffint) <= total <= i * 0x7fff_ffff_ffff_ffffint,
            decreases self.inner@.len() - i,
        {
            proof {
                lemma_sums_step(self.inner@, i as int);
                assert(keys_of(self.inner@)[i as int] == self.inner@[i as int].0@);
                assert(self@.contains_key(self.inner@[i as int].0@));
            }
            let (incr, decr) = self.inner[i].1;
            assert(i < 0x1_0000_0000_0000_0000int);
            assert(i * 0x7fff_ffff_ffff_ffffint < 0x7fff_ffff_ffff_ffff_0000_0000_0000_0000int) by (nonlinear_arith)
                requires
                    0 <= i < 0x1_0000_0000_0000_0000int,
            ;
            total = total + ((incr as i128) - (decr as i128));
            i = i + 1;
        }
        total as i64
    }

    /// Adds one increment to replica `id`; see [`PNCounter::add`].
    pub fn increment(&mut self, id: &I) -> (r: Self)
        requires
            old(self)@.contains_key(id@) ==> old(self)@[id@].0 < u64::MAX,
        ensures
            final(self)@ == old(self)@.insert(
                id@,
                if old(self)@.contains_key(id@) {
                    ((old(self)@[id@].0 + 1) as u64, old(self)@[id@].1)
                } else {
                    (1u64, 0u64)
                },
            ),
            r@ == map![id@ => final(self)@[id@]],
    {
        self.add(id, 1)
    }

    /// Adds `value` to the increments of replica `id`, which starts at `(value, 0)` when absent,
    /// and returns the delta: the new entry of `id`.
    pub fn add(&mut self, id: &I, value: u64) -> (r: Self)
        requires
            old(self)@.contains_key(id@) ==> old(self)@[id@].0 + value <= u64::MAX,
        ensures
            final(self)@ == old(self)@.insert(
                id@,
                if old(self)@.contains_key(id@) {
                    ((old(self)@[id@].0 + value) as u64, old(self)@[id@].1)
                } else {
                    (value, 0u64)
                },
            ),
            r@ == map![id@ => final(self)@[id@]],
    {
        proof {
            use_type_invariant(&*self);
            self.lemma_wf();
        }
        let entry = match position_of_key(&self.inner, id) {
            Some(k) => {
                let (incr, decr) = self.inner[k].1;
                let totals = (incr + value, decr);
                self.replace_entry(k, totals);
                totals
            },
            None => {
                let totals = (value, 0u64);
                self.push_entry(id.duplicate(), totals);
                totals
            },
        };
        Self::single(id.duplicate(), entry)
    }

    /// Adds one decrement to replica `id`; see [`PNCounter::sub`].
    pub fn decrement(&mut self, id: &I) -> (r: Self)
        requires
            old(self)@.contains_key(id@) ==> old(self)@[id@].1 < u64::MAX,
        ensures
            final(self)@ == old(self)@.insert(
                id@,
                if old(self)@.contains_key(id@) {
                    (old(self)@[id@].0, (old(self)@[id@].1 + 1) as u64)
                } else {
                    (0u64, 1u64)
                },
            ),
            r@ == map![id@ => final(self)@[id@]],
    {
        self.sub(id, 1)
    }

    /// Adds `value` to the decrements of replica `id`, which starts at `(0, value)` when absent,
    /// and returns the delta: the new entry of `id`.
    pub fn sub(&mut self, id: &I, value: u64) -> (r: Self)
        requires
            old(self)@.contains_key(id@) ==> old(self)@[id@].1 + value <= u64::MAX,
        ensures
            final(self)@ == old(self)@.insert(
                id@,
                if old(self)@.contains_key(id@) {
                    (old(self)@[id@].0, (old(self)@[id@].1 + value) as u64)
                } else {
                    (0u64, value)
                },
            ),
            r@ == map![id@ => final(self)@[id@]],
    {
        proof {
            use_type_invariant(&*self);
            self.lemma_wf();
        }
        let entry = match position_of_key(&self.inner, id) {
            Some(k) => {
                let (incr, decr) = self.inner[k].1;
                let totals = (incr, decr + value);
                self.replace_entry(k, totals);
                totals
            },
            None => {
                let totals = (0u64, value);
                self.push_entry(id.duplicate(), totals);
                totals
            },
        };
        Self::single(id.duplicate(), entry)
    }

    /// A counter with the single entry `id: totals`.
    fn single(id: I, totals: Totals) -> (r: Self)
        ensures
            r@ == map![id@ => totals],
    {
        let mut r = Self::new();
        r.push_entry(id, totals);
        assert(r@ =~= map![id@ => totals]);
        r
    }

    /// Joins the state of `other` into `self`, keeping the larger of each total.
    fn absorb(&mut self, other: &Self)
        ensures
            final(self)@ == merge(old(self)@, other@),
    {
        proof {
            use_type_invariant(other);
        }
        let ghost start = self@;
        assert(other.inner@.take(0) =~= Seq::<(I, Totals)>::empty());
        assert(merge(start, key_map(other.inner@.take(0))) =~= start);
        let mut j: usize = 0;
        while j < other.inner.len()
            invariant
                j <= other.inner@.len(),
                keys_of(other.inner@).no_duplicates(),
                self@ == merge(start, key_map(other.inner@.take(j as int))),
            decreases other.inner@.len() - j,
        {
            proof {
                lemma_key_map_prefix(other.inner@, j as int);
                use_type_invariant(&*self);
                self.lemma_wf();
            }
            let (incr, decr) = other.inner[j].1;
            let ghost prev = self@;
            let ghost key = other.inner@[j as int].0@;
            proof {
                assert(prev.contains_key(key) == start.contains_key(key));
                assert(start.contains_key(key) ==> prev[key] == start[key]);
            }
            match position_of_key(&self.inner, &other.inner[j].0) {
                Some(k) => {
                    let (mine_incr, mine_decr) = self.inner[k].1;
                    proof {
                        assert(prev[key] == (mine_incr, mine_decr));
                    }
                    self.replace_entry(k, (max_u64(mine_incr, incr), max_u64(mine_decr, decr)));
                },
                None => {
                    proof {
                        assert(!prev.contains_key(key));
                    }
                    self.push_entry(other.inner[j].0.duplicate(), (incr, decr));
                },
            }
            proof {
                assert(self@ =~= merge(start, key_map(other.inner@.take(j + 1))));
            }
            j = j + 1;
        }
        assert(other.inner@.take(other.inner@.len() as int) =~= other.inner@);
    }

    /// Counts the entries of `self` that `other` lacks or holds with different totals, or, when
    /// `absent_only`, the entries of `self` whose key `other` lacks.
    fn count_mismatches(&self, other: &Self, absent_only: bool) -> (r: usize)
        ensures
            !absent_only ==> r == self@.dom().filter(|k: I::V| !other@.contains_key(k) || self@[k] != other@[k]).len(),
            absent_only ==> r == self@.dom().filter(|k: I::V| !other@.contains_key(k)).len(),
    {
        proof {
            use_type_invariant(self);
            use_type_invariant(other);
            self.lemma_wf();
            other.lemma_wf();
        }
        let ghost all = keys_of(self.inner@);
        let ghost target = if absent_only {
            self@.dom().filter(|k: I::V| !other@.contains_key(k))
        } else {
            self@.dom().filter(|k: I::V| !other@.contains_key(k) || self@[k] != other@[k])
        };
        assert(all.take(0).to_set().intersect(target) =~= Set::<I::V>::empty());
        let mut count: usize = 0;
        let mut i: usize = 0;
        while i < self.inner.len()
            invariant
                i <= self.inner@.len(),
                all == keys_of(self.inner@),
                all.no_duplicates(),
                self@.dom() == all.to_set(),
                forall|k: int| 0 <= k < self.inner@.len() ==> self@[(#[trigger] self.inner@[k]).0@] == self.inner@[k].1,
                forall|k: int| 0 <= k < other.inner@.len() ==> other@[(#[trigger] other.inner@[k]).0@] == other.inner@[k].1,
                other@.dom() == keys_of(other.inner@).to_set(),
                target == if absent_only {
                    self@.dom().filter(|k: I::V| !other@.contains_key(k))
                } else {
                    self@.dom().filter(|k: I::V| !other@.contains_key(k) || self@[k] != other@[k])
                },
                count <= i,
                count == all.take(i as int).to_set().intersect(target).len(),
            decreases self.inner@.len() - i,
        {
            proof {
                lemma_take_to_set_step(all, i as int);
                vstd::seq_lib::seq_to_set_is_finite(all.take(i as int));
                assert(all[i as int] == self.inner@[i as int].0@);
            }
            let ghost id = self.inner@[i as int].0@;
            proof {
                assert(!all.take(i as int).contains(id)) by {
                    if all.take(i as int).contains(id) {
                        let m = choose|m: int| 0 <= m < i && #[trigger] all.take(i as int)[m] == id;
                        assert(all[m] == all[i as int]);
                    }
                }
                assert(self@.contains_key(id));
            }
            let pos = position_of_key(&other.inner, &self.inner[i].0);
            let mismatch = match pos {
                Some(k) => {
                    let (a, b) = self.inner[i].1;
                    let (c, d) = other.inner[k].1;
                    !absent_only && (a != c || b != d)
                },
                None => true,
            };
            proof {
                match pos {
                    Some(k) => {
                        assert(other@.contains_key(id));
                        assert(other@[id] == other.inner@[k as int].1);
                        assert(self@[id] == self.inner@[i as int].1);
                    },
                    None => {
                        assert(!other@.contains_key(id));
                    },
                }
            }
            if mismatch {
                assert(target.contains(id));
                assert(all.take(i + 1).to_set().intersect(target) =~= all.take(i as int).to_set().intersect(target).insert(id));
                count = count + 1;
            } else {
                assert(!target.contains(id));
                assert(all.take(i + 1).to_set().intersect(target) =~= all.take(i as int).to_set().intersect(target));
            }
            i = i + 1;
        }
        proof {
            assert(all.take(self.inner@.len() as int) =~= all);
            assert(all.to_set().intersect(target) =~= target);
        }
        count
    }
}

impl<I: Datum> Clone for PNCounter<I> {
    fn clone(&self) -> (r: Self)
        ensures
            r@ == self@,
    {
        let mut r = Self::new();
        r.absorb(self);
        assert(r@ =~= self@);
        r
    }
}

impl<I: Datum> Default for PNCounter<I> {
    fn default() -> (r: Self)
        ensures
            r@ == Map::<I::V, Totals>::empty(),
    {
        Self::new()
    }
}

impl<I: Datum> Decompose for PNCounter<I> {
    type Decomposition = PNCounter<I>;

    /// One counter per replica entry.
    fn split(&self) -> (r: Vec<Self>)
        ensures
            is_split_of(self@, r@),
    {
        proof {
            use_type_invariant(self);
            self.lemma_wf();
        }
        let mut parts: Vec<Self> = Vec::new();
        assert(self.inner@.take(0) =~= Seq::<(I, Totals)>::empty());
        let mut j: usize = 0;
        while j < self.inner.len()
            invariant
                j <= self.inner@.len(),
                keys_of(self.inner@).no_duplicates(),
                self@.dom() == keys_of(self.inner@).to_set(),
                forall|k: int| 0 <= k < self.inner@.len() ==> self@[(#[trigger] self.inner@[k]).0@] == self.inner@[k].1,
                parts@.len() == j,
                forall|i: int| 0 <= i < parts@.len() ==> (#[trigger] parts@[i]@).dom().len() == 1,
                forall|i: int| 0 <= i < parts@.len() ==> (#[trigger] parts@[i]@).submap_of(self@),
                merge_all(Map::empty(), parts@) == key_map(self.inner@.take(j as int)),
            decreases self.inner@.len() - j,
        {
            proof {
                lemma_key_map_prefix(self.inner@, j as int);
                assert(keys_of(self.inner@)[j as int] == self.inner@[j as int].0@);
            }
            let part = Self::single(self.inner[j].0.duplicate(), self.inner[j].1);
            let ghost before = parts@;
            parts.push(part);
            proof {
                let id = self.inner@[j as int].0@;
                assert(map![id => self.inner@[j as int].1].dom() =~= set![id]);
                set![id].lemma_singleton_size();
                assert(parts@.drop_last() =~= before);
                assert(merge_all(Map::empty(), parts@) =~= key_map(self.inner@.take(j + 1)));
            }
            j = j + 1;
        }
        proof {
            assert(self.inner@.take(self.inner@.len() as int) =~= self.inner@);
        }
        parts
    }

    /// Joins every delta in order, keeping the larger of each total.
    fn join(&mut self, deltas: Vec<Self>)
        ensures
            final(self)@ == merge_all(old(self)@, deltas@),
    {
        let ghost start = self@;
        assert(deltas@.take(0) =~= Seq::<Self>::empty());
        let mut i: usize = 0;
        while i < deltas.len()
            invariant
                i <= deltas@.len(),
                self@ == merge_all(start, deltas@.take(i as int)),
            decreases deltas@.len() - i,
        {
            self.absorb(&deltas[i]);
            assert(deltas@.take(i + 1).drop_last() =~= deltas@.take(i as int));
            i = i + 1;
        }
        assert(deltas@.take(deltas@.len() as int) =~= deltas@);
    }

    /// The entries of `self` that `remote` lacks or does not cover.
    fn difference(&self, remote: &Self) -> (r: Self)
        ensures
            r@ == uncovered(self@, remote@),
    {
        proof {
            use_type_invariant(self);
            use_type_invariant(remote);
            self.lemma_wf();
            remote.lemma_wf();
        }
        let mut r = Self::new();
        assert(self.inner@.take(0) =~= Seq::<(I, Totals)>::empty());
        assert(r@ =~= uncovered(key_map(self.inner@.take(0)), remote@));
        let mut j: usize = 0;
        while j < self.inner.len()
            invariant
                j <= self.inner@.len(),
                keys_of(self.inner@).no_duplicates(),
                forall|k: int| 0 <= k < remote.inner@.len() ==> remote@[(#[trigger] remote.inner@[k]).0@] == remote.inner@[k].1,
                remote@.dom() == keys_of(remote.inner@).to_set(),
                r@ == uncovered(key_map(self.inner@.take(j as int)), remote@),
            decreases self.inner@.len() - j,
        {
            proof {
                lemma_key_map_prefix(self.inner@, j as int);
            }
            let (a, b) = self.inner[j].1;
            let keep = match position_of_key(&remote.inner, &self.inner[j].0) {
                Some(k) => {
                    let (c, d) = remote.inner[k].1;
                    !(a <= c && b <= d)
                },
                None => true,
            };
            if keep {
                r.push_entry(self.inner[j].0.duplicate(), (a, b));
            }
            assert(r@ =~= uncovered(key_map(self.inner@.take(j + 1)), remote@));
            j = j + 1;
        }
        assert(self.inner@.take(self.inner@.len() as int) =~= self.inner@);
        r
    }
}

impl<I: Datum + core::hash::Hash> Extract for PNCounter<I> {
    type Item = (I, Totals);

    open spec fn extractable(&self) -> bool {
        self@.dom().len() == 1
    }

    /// The single entry of the counter.
    fn extract(&self) -> (r: (I, Totals))
        ensures
            self@ == map![r.0@ => r.1],
    {
        proof {
            use_type_invariant(self);
            self.lemma_wf();
        }
        let r = (self.inner[0].0.duplicate(), self.inner[0].1);
        proof {
            assert(self@.dom() =~= set![r.0@]) by {
                assert forall|t: I::V| self@.contains_key(t) implies t == r.0@ by {
                    let k = lemma_key_map_witness(self.inner@, t);
                    assert(k == 0);
                }
                assert(keys_of(self.inner@)[0] == r.0@);
            }
            assert(self@ =~= map![r.0@ => r.1]);
        }
        r
    }
}

/// The bytes of both totals of an entry.
pub const TOTALS_BYTES: usize = 16;

impl Measure for PNCounter<String> {
    open spec fn spec_len(replica: &Self) -> nat {
        replica@.dom().len()
    }

    closed spec fn spec_size(replica: &Self) -> nat {
        (TOTALS_BYTES * replica.inner@.len() + utf8_bytes(keys_of(replica.inner@))) as nat
    }

    open spec fn spec_false_matches(&self, other: &Self) -> nat {
        mismatches(self@, other@)
    }

    /// The number of replica entries.
    fn len(replica: &Self) -> (r: usize) {
        replica.entries()
    }

    /// The bytes of both totals of every entry and of every key: 16 bytes per replica and the
    /// UTF-8 bytes of its id.
    fn size_of(replica: &Self) -> (r: usize)
        ensures
            r == 16 * replica@.dom().len() + crate::crdt::set_bytes(replica@.dom()),
    {
        proof {
            use_type_invariant(replica);
            replica.lemma_wf();
            crate::crdt::lemma_utf8_bytes_set(keys_of(replica.inner@));
        }
        let mut refs: Vec<&String> = Vec::new();
        let mut i: usize = 0;
        while i < replica.inner.len()
            invariant
                i <= replica.inner@.len(),
                refs@.map_values(|s: &String| s@) =~= keys_of(replica.inner@).take(i as int),
            decreases replica.inner@.len() - i,
        {
            let ghost before = refs@;
            refs.push(&replica.inner[i].0);
            assert(refs@.map_values(|s: &String| s@) =~= before.map_values(|s: &String| s@).push(
                replica.inner@[i as int].0@,
            ));
            i = i + 1;
        }
        assert(keys_of(replica.inner@).take(replica.inner@.len() as int) =~= keys_of(replica.inner@));
        sum_string_bytes(&refs, TOTALS_BYTES * replica.inner.len())
    }

    /// Entries of `self` missing or different in `other`, plus keys of `other` missing in `self`.
    fn false_matches(&self, other: &Self) -> (r: usize) {
        self.count_mismatches(other, false) + other.count_mismatches(self, true)
    }
}

impl<I: Datum> PartialEq for PNCounter<I> {
    /// Two counters are equal when they have the same replicas with the same totals.
    fn eq(&self, other: &Self) -> (r: bool)
        ensures
            r == (self@ == other@),
    {
        proof {
            use_type_invariant(self);
            use_type_invariant(other);
            self.lemma_wf();
            other.lemma_wf();
        }
        if self.inner.len() != other.inner.len() {
            return false;
        }
        let mut i: usize = 0;
        while i < self.inner.len()
            invariant
                i <= self.inner@.len(),
                self@.dom() == keys_of(self.inner@).to_set(),
                other@.dom() == keys_of(other.inner@).to_set(),
                self@.dom().finite(),
                other@.dom().finite(),
                self@.dom().len() == other@.dom().len(),
                keys_of(self.inner@).no_duplicates(),
                forall|k: int| 0 <= k < self.inner@.len() ==> self@[(#[trigger] self.inner@[k]).0@] == self.inner@[k].1,
                forall|k: int| 0 <= k < other.inner@.len() ==> other@[(#[trigger] other.inner@[k]).0@] == other.inner@[k].1,
                forall|k: int| 0 <= k < i ==> other@.contains_key(#[trigger] self.inner@[k].0@) && other@[self.inner@[k].0@] == self@[self.inner@[k].0@],
            decreases self.inner@.len() - i,
        {
            proof {
                assert(keys_of(self.inner@)[i as int] == self.inner@[i as int].0@);
            }
            match position_of_key(&other.inner, &self.inner[i].0) {
                Some(k) => {
                    let (a, b) = self.inner[i].1;
                    let (c, d) = other.inner[k].1;
                    proof {
                        let key = self.inner@[i as int].0@;
                        assert(other@[key] == other.inner@[k as int].1);
                        assert(self@[key] == self.inner@[i as int].1);
                    }
                    if a != c || b != d {
                        return false;
                    }
                },
                None => {
                    proof {
                        assert(!other@.contains_key(self.inner@[i as int].0@));
                        assert(self@.contains_key(self.inner@[i as int].0@));
                    }
                    return false;
                },
            }
            i = i + 1;
        }
        proof {
            assert forall|t: I::V| self@.contains_key(t) implies other@.contains_key(t) by {
                let k = lemma_key_map_witness(self.inner@, t);
            }
            vstd::set_lib::lemma_subset_equality(self@.dom(), other@.dom());
            assert forall|t: I::V| self@.contains_key(t) implies self@[t] == other@[t] by {
                let k = lemma_key_map_witness(self.inner@, t);
            }
            assert(self@ =~= other@);
        }
        true
    }
}

impl<I: Datum> vstd::std_specs::cmp::PartialEqSpecImpl for PNCounter<I> {
    open spec fn obeys_eq_spec() -> bool {
        true
    }

    open spec fn eq_spec(&self, other: &Self) -> bool {
        self@ == other@
    }
}

impl<I: Datum> Eq for PNCounter<I> {

}


/// Joins of counter states are commutative, associative and idempotent.
pub proof fn law_pncounter_merge_semilattice<K>(a: Map<K, Totals>, b: Map<K, Totals>, c: Map<K, Totals>)
    ensures
        merge(a, b) == merge(b, a),
        merge(merge(a, b), c) == merge(a, merge(b, c)),
        merge(a, a) == a,
{
    assert(merge(a, b) =~= merge(b, a));
    assert(merge(merge(a, b), c) =~= merge(a, merge(b, c)));
    assert(merge(a, a) =~= a);
}

/// Joining into `remote` the entries that `local` holds and `remote` does not cover gives the
/// join of both counters.
pub proof fn law_pncounter_difference_join<K>(local: Map<K, Totals>, remote: Map<K, Totals>)
    ensures
        merge(remote, uncovered(local, remote)) == merge(local, remote),
{
    assert(merge(remote, uncovered(local, remote)) =~= merge(local, remote));
}

/// Two counters in the same state have nothing to send each other.
pub proof fn law_pncounter_difference_synced<K>(local: Map<K, Totals>)
    ensures
        uncovered(local, local) == Map::<K, Totals>::empty(),
{
    assert(uncovered(local, local) =~= Map::<K, Totals>::empty());
}

/// Joining the split of a counter into an empty counter rebuilds it.
pub proof fn law_pncounter_split_join<I: View>(s: PNCounter<I>, parts: Seq<PNCounter<I>>)
    requires
        is_split_of(s@, parts),
    ensures
        merge_all(Map::<I::V, Totals>::empty(), parts) == s@,
{
}

/// Adding `value` to the increments of replica `id` raises the count by `value`.
pub proof fn law_pncounter_add_count<K>(m: Map<K, Totals>, id: K, value: u64)
    requires
        m.dom().finite(),
        m.contains_key(id) ==> m[id].0 + value <= u64::MAX,
    ensures
        count_of(
            m.insert(
                id,
                if m.contains_key(id) {
                    ((m[id].0 + value) as u64, m[id].1)
                } else {
                    (value, 0u64)
                },
            ),
        ) == count_of(m) + value,
{
    let t = if m.contains_key(id) {
        ((m[id].0 + value) as u64, m[id].1)
    } else {
        (value, 0u64)
    };
    lemma_map_sum_insert(m, |t: Totals| net(t), id, t);
}

/// Adding `value` to the decrements of replica `id` lowers the count by `value`.
pub proof fn law_pncounter_sub_count<K>(m: Map<K, Totals>, id: K, value: u64)
    requires
        m.dom().finite(),
        m.contains_key(id) ==> m[id].1 + value <= u64::MAX,
    ensures
        count_of(
            m.insert(
                id,
                if m.contains_key(id) {
                    (m[id].0, (m[id].1 + value) as u64)
                } else {
                    (0u64, value)
                },
            ),
        ) == count_of(m) - value,
{
    let t = if m.contains_key(id) {
        (m[id].0, (m[id].1 + value) as u64)
    } else {
        (0u64, value)
    };
    lemma_map_sum_insert(m, |t: Totals| net(t), id, t);
}

} // verus!
