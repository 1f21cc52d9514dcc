//! The grow-only counter, with deltas that borrow from it.

use vstd::prelude::*;

use crate::datum::{lemma_take_to_set_step, Datum};

use super::{Decompose, Extract, ExtractError};

verus! {

broadcast use {vstd::seq_lib::group_seq_properties, vstd::set::group_set_axioms, vstd::map::group_map_axioms};

/// A grow-only counter: each replica counts its own increments, and the count is their sum.
#[derive(Debug)]
pub struct GCounter<I: View> {
    inner: Vec<(I, u64)>,
}

/// A read-only view into entries of a [`GCounter`]; it can be joined into any other
/// [`GCounter`] or turned into one with [`GCounter::from_delta`].
#[derive(Debug)]
pub struct Delta<'a, I: View> {
    counter: &'a GCounter<I>,
    elems: Vec<(&'a I, &'a u64)>,
}

/// The keys of a sequence of entries, by view, in order.
pub open spec fn entry_keys<I: View>(s: Seq<(I, u64)>) -> Seq<I::V> {
    s.map_values(|p: (I, u64)| p.0@)
}

/// The keys of a sequence of borrowed entries, by view, in order.
pub open spec fn ref_entry_keys<'a, I: View>(s: Seq<(&'a I, &'a u64)>) -> Seq<I::V> {
    s.map_values(|p: (&'a I, &'a u64)| p.0@)
}

/// The map from key view to count built from a sequence of entries.
pub open spec fn entry_map<I: View>(s: Seq<(I, u64)>) -> Map<I::V, u64>
    decreases s.len(),
{
    if s.len() == 0 {
        Map::empty()
    } else {
        entry_map(s.drop_last()).insert(s.last().0@, s.last().1)
    }
}

/// The map from key view to count built from a sequence of borrowed entries.
pub open spec fn ref_entry_map<'a, I: View>(s: Seq<(&'a I, &'a u64)>) -> Map<I::V, u64>
    decreases s.len(),
{
    if s.len() == 0 {
        Map::empty()
    } else {
        ref_entry_map(s.drop_last()).insert(s.last().0@, *s.last().1)
    }
}

/// The join of two counter states: every replica with the larger of both counts.
pub open spec fn max_merge<K>(a: Map<K, u64>, b: Map<K, u64>) -> Map<K, u64> {
    Map::new(
        |k: K| a.contains_key(k) || b.contains_key(k),
        |k: K|
            if a.contains_key(k) && b.contains_key(k) {
                if a[k] >= b[k] {
                    a[k]
                } else {
                    b[k]
                }
            } else if a.contains_key(k) {
                a[k]
            } else {
                b[k]
            },
    )
}

/// Joins the counters of `parts` into `start`, in order.
pub open spec fn max_merge_all<K>(start: Map<K, u64>, parts: Seq<Map<K, u64>>) -> Map<K, u64>
    decreases parts.len(),
{
    if parts.len() == 0 {
        start
    } else {
        max_merge(max_merge_all(start, parts.drop_last()), parts.last())
    }
}

/// The entries of `local` that `remote` lacks or holds with a smaller count.
pub open spec fn ahead_of<K>(local: Map<K, u64>, remote: Map<K, u64>) -> Map<K, u64> {
    Map::new(
        |k: K| local.contains_key(k) && (!remote.contains_key(k) || local[k] > remote[k]),
        |k: K| local[k],
    )
}

/// The sum of the counts of a finite map.
pub open spec fn total<K>(m: Map<K, u64>) -> int
    decreases m.dom().len(),
    when m.dom().finite()
{
    if m.dom().len() == 0 {
        0
    } else {
        let k = m.dom().choose();
        m[k] + total(m.remove(k))
    }
}

/// The sum over a map does not depend on the order in which its keys are taken.
pub proof fn lemma_total_remove<K>(m: Map<K, u64>, k: K)
    requires
        m.dom().finite(),
        m.contains_key(k),
    ensures
        total(m) == m[k] + total(m.remove(k)),
    decreases m.dom().len(),
{
    let j = m.dom().choose();
    assert(m.dom().contains(j));
    if j != k {
        assert(m.remove(j).dom() =~= m.dom().remove(j));
        assert(m.remove(k).dom() =~= m.dom().remove(k));
        lemma_total_remove(m.remove(j), k);
        lemma_total_remove(m.remove(k), j);
        assert(m.remove(j).remove(k) =~= m.remove(k).remove(j));
    }
}

/// Adding a key to a map adds its count to the sum.
pub proof fn lemma_total_insert<K>(m: Map<K, u64>, k: K, v: u64)
    requires
        m.dom().finite(),
    ensures
        m.contains_key(k) ==> total(m.insert(k, v)) == total(m) - m[k] + v,
        !m.contains_key(k) ==> total(m.insert(k, v)) == total(m) + v,
{
    lemma_total_remove(m.insert(k, v), k);
    if m.contains_key(k) {
        lemma_total_remove(m, k);
        assert(m.insert(k, v).remove(k) =~= m.remove(k));
    } else {
        assert(m.insert(k, v).remove(k) =~= m);
    }
}

/// Adding `value` to the count of one replica adds `value` to the count of the counter.
pub proof fn law_gcounter_add_count<K>(state: Map<K, u64>, id: K, value: u64)
    requires
        state.dom().finite(),
        state.contains_key(id) ==> state[id] + value <= u64::MAX,
    ensures
        total(state.insert(id, if state.contains_key(id) { (state[id] + value) as u64 } else { value }))
            == total(state) + value,
{
    lemma_total_insert(state, id, if state.contains_key(id) { (state[id] + value) as u64 } else { value });
}

/// Facts about the map built from entries with distinct keys.
pub proof fn lemma_entry_map<I: View>(s: Seq<(I, u64)>)
    requires
        entry_keys(s).no_duplicates(),
    ensures
        entry_map(s).dom() == entry_keys(s).to_set(),
        entry_map(s).dom().finite(),
        entry_map(s).dom().len() == s.len(),
        forall|k: int| 0 <= k < s.len() ==> entry_map(s)[(#[trigger] s[k]).0@] == s[k].1,
    decreases s.len(),
{
    if s.len() > 0 {
        let t = s.drop_last();
        assert(entry_keys(t) =~= entry_keys(s).drop_last());
        lemma_entry_map(t);
        assert(!entry_keys(t).contains(s.last().0@)) by {
            if entry_keys(t).contains(s.last().0@) {
                let k = choose|k: int| 0 <= k < entry_keys(t).len() && #[trigger] entry_keys(t)[k] == s.last().0@;
                assert(entry_keys(s)[k] == entry_keys(s)[s.len() - 1]);
            }
        }
        assert(entry_map(s).dom() =~= entry_keys(s).to_set()) by {
            assert(entry_keys(s) =~= entry_keys(t).push(s.last().0@));
        }
        assert forall|k: int| 0 <= k < s.len() implies entry_map(s)[(#[trigger] s[k]).0@] == s[k].1 by {
            if k < s.len() - 1 {
                assert(t[k] == s[k]);
                assert(entry_keys(s)[k] != entry_keys(s)[s.len() - 1]);
            }
        }
    } else {
        assert(entry_map(s).dom() =~= entry_keys(s).to_set());
    }
}

/// Every key of the map comes from a position of the sequence.
pub proof fn lemma_entry_map_witness<I: View>(s: Seq<(I, u64)>, id: I::V) -> (k: int)
    requires
        entry_keys(s).no_duplicates(),
        entry_map(s).contains_key(id),
    ensures
        0 <= k < s.len(),
        s[k].0@ == id,
        entry_map(s)[id] == s[k].1,
{
    lemma_entry_map(s);
    let k = choose|k: int| 0 <= k < entry_keys(s).len() && #[trigger] entry_keys(s)[k] == id;
    assert(s[k].0@ == id);
    k
}

/// The prefix maps of entries with distinct keys grow one entry at a time.
pub proof fn lemma_entry_map_prefix<I: View>(s: Seq<(I, u64)>, j: int)
    requires
        entry_keys(s).no_duplicates(),
        0 <= j < s.len(),
    ensures
        entry_keys(s.take(j)).no_duplicates(),
        entry_map(s.take(j + 1)) == entry_map(s.take(j)).insert(s[j].0@, s[j].1),
        !entry_map(s.take(j)).contains_key(s[j].0@),
        entry_map(s.take(j)).dom().finite(),
{
    assert(s.take(j + 1).drop_last() =~= s.take(j));
    assert(entry_keys(s.take(j)) =~= entry_keys(s).take(j));
    assert(entry_keys(s.take(j)).no_duplicates()) by {
        assert forall|a: int, b: int|
            0 <= a < entry_keys(s.take(j)).len() && 0 <= b < entry_keys(s.take(j)).len() && a != b
            implies entry_keys(s.take(j))[a] != entry_keys(s.take(j))[b] by {
            assert(entry_keys(s)[a] != entry_keys(s)[b]);
        }
    }
    lemma_entry_map(s.take(j));
    if entry_map(s.take(j)).contains_key(s[j].0@) {
        assert(entry_keys(s.take(j)).contains(s[j].0@));
        let m = choose|m: int| 0 <= m < j && #[trigger] entry_keys(s.take(j))[m] == s[j].0@;
        assert(entry_keys(s)[m] == entry_keys(s)[j]);
    }
}

/// The map of the borrowed entries that copy the first `j + 1` stored entries.
pub proof fn lemma_ref_entry_map_push<'a, I: View>(s: Seq<(&'a I, &'a u64)>, p: (&'a I, &'a u64))
    ensures
        ref_entry_map(s.push(p)) == ref_entry_map(s).insert(p.0@, *p.1),
        ref_entry_keys(s.push(p)) == ref_entry_keys(s).push(p.0@),
{
    assert(s.push(p).drop_last() =~= s);
    assert(ref_entry_keys(s.push(p)) =~= ref_entry_keys(s).push(p.0@));
}

/// Facts about the map built from borrowed entries with distinct keys.
pub proof fn lemma_ref_entry_map<'a, I: View>(s: Seq<(&'a I, &'a u64)>)
    requires
        ref_entry_keys(s).no_duplicates(),
    ensures
        ref_entry_map(s).dom() == ref_entry_keys(s).to_set(),
        ref_entry_map(s).dom().finite(),
        ref_entry_map(s).dom().len() == s.len(),
        forall|k: int| 0 <= k < s.len() ==> ref_entry_map(s)[(#[trigger] s[k]).0@] == *s[k].1,
    decreases s.len(),
{
    if s.len() > 0 {
        let t = s.drop_last();
        assert(ref_entry_keys(t) =~= ref_entry_keys(s).drop_last());
        lemma_ref_entry_map(t);
        assert(!ref_entry_keys(t).contains(s.last().0@)) by {
            if ref_entry_keys(t).contains(s.last().0@) {
                let k = choose|k: int| 0 <= k < ref_entry_keys(t).len() && #[trigger] ref_entry_keys(t)[k] == s.last().0@;
                assert(ref_entry_keys(s)[k] == ref_entry_keys(s)[s.len() - 1]);
            }
        }
        assert(ref_entry_map(s).dom() =~= ref_entry_keys(s).to_set()) by {
            assert(ref_entry_keys(s) =~= ref_entry_keys(t).push(s.last().0@));
        }
        assert forall|k: int| 0 <= k < s.len() implies ref_entry_map(s)[(#[trigger] s[k]).0@] == *s[k].1 by {
            if k < s.len() - 1 {
                assert(t[k] == s[k]);
                assert(ref_entry_keys(s)[k] != ref_entry_keys(s)[s.len() - 1]);
            }
        }
    } else {
        assert(ref_entry_map(s).dom() =~= ref_entry_keys(s).to_set());
    }
}

impl<I: View> View for GCounter<I> {
    type V = Map<I::V, u64>;

    closed spec fn view(&self) -> Map<I::V, u64> {
        entry_map(self.inner@)
    }
}

impl<'a, I: View> View for Delta<'a, I> {
    type V = Map<I::V, u64>;

    closed spec fn view(&self) -> Map<I::V, u64> {
        ref_entry_map(self.elems@)
    }
}

impl<'a, I: View> Delta<'a, I> {
    #[verifier::type_invariant]
    spec fn inv(self) -> bool {
        ref_entry_keys(self.elems@).no_duplicates()
    }

    /// The number of entries of the delta.
    pub fn len(&self) -> (r: usize)
        ensures
            r == self@.dom().len(),
    {
        proof {
            use_type_invariant(self);
            lemma_ref_entry_map(self.elems@);
        }
        self.elems.len()
    }
}

/// Finds the position of the entry whose key has the view of `id`.
pub(crate) fn position_of_entry<I: Datum>(items: &Vec<(I, u64)>, id: &I) -> (r: Option<usize>)
    ensures
        r matches Some(k) ==> k < items@.len() && items@[k as int].0@ == id@,
        r is None <==> !entry_keys(items@).contains(id@),
{
    let mut i: usize = 0;
    while i < items.len()
        invariant
            i <= items@.len(),
            forall|j: int| 0 <= j < i ==> items@[j].0@ != id@,
        decreases items@.len() - i,
    {
        if items[i].0.same(id) {
            assert(entry_keys(items@)[i as int] == id@);
            return Some(i);
        }
        i = i + 1;
    }
    assert forall|k: int| 0 <= k < entry_keys(items@).len() implies entry_keys(items@)[k] != id@ by {
        assert(entry_keys(items@)[k] == items@[k].0@);
    }
    None
}

/// References to every entry of a list of entries.
pub(crate) fn borrow_entries<I: View>(entries: &Vec<(I, u64)>) -> (r: Vec<(&I, &u64)>)
    requires
        entry_keys(entries@).no_duplicates(),
    ensures
        ref_entry_keys(r@).no_duplicates(),
        ref_entry_map(r@) == entry_map(entries@),
{
    let mut elems: Vec<(&I, &u64)> = Vec::new();
    let mut i: usize = 0;
    assert(entries@.take(0) =~= Seq::<(I, u64)>::empty());
    while i < entries.len()
        invariant
            i <= entries@.len(),
            entry_keys(entries@).no_duplicates(),
            ref_entry_keys(elems@) == entry_keys(entries@.take(i as int)),
            ref_entry_map(elems@) == entry_map(entries@.take(i as int)),
        decreases entries@.len() - i,
    {
        proof {
            lemma_entry_map_prefix(entries@, i as int);
            assert(entry_keys(entries@.take(i + 1)) =~= entry_keys(entries@.take(i as int)).push(entries@[i as int].0@));
        }
        let ghost before = elems@;
        let entry = &entries[i];
        elems.push((&entry.0, &entry.1));
        proof {
            lemma_ref_entry_map_push(before, (&entry.0, &entry.1));
        }
        i = i + 1;
    }
    proof {
        assert(entries@.take(entries@.len() as int) =~= entries@);
    }
    elems
}

/// Sets the count of the entry at position `k` of a list of entries.
pub(crate) fn set_entry<I: View>(entries: &mut Vec<(I, u64)>, k: usize, n: u64)
    requires
        k < old(entries)@.len(),
        entry_keys(old(entries)@).no_duplicates(),
    ensures
        final(entries)@.len() == old(entries)@.len(),
        entry_keys(final(entries)@) == entry_keys(old(entries)@),
        final(entries)@[k as int] == (old(entries)@[k as int].0, n),
        forall|j: int| 0 <= j < final(entries)@.len() && j != k ==> final(entries)@[j] == old(entries)@[j],
        entry_map(final(entries)@) == entry_map(old(entries)@).insert(old(entries)@[k as int].0@, n),
{
    let ghost before = entries@;
    let (key, _) = entries.remove(k);
    entries.insert(k, (key, n));
    proof {
        assert(entries@ =~= before.update(k as int, (before[k as int].0, n)));
        assert(entry_keys(entries@) =~= entry_keys(before));
        lemma_entry_map(entries@);
        lemma_entry_map(before);
        let id = before[k as int].0@;
        assert(entry_keys(before)[k as int] == id);
        assert(entry_map(entries@).dom() =~= entry_map(before).insert(id, n).dom());
        assert(entry_map(entries@) =~= entry_map(before).insert(id, n)) by {
            assert forall|t: I::V| entry_map(entries@).contains_key(t) implies entry_map(entries@)[t]
                == entry_map(before).insert(id, n)[t] by {
                let j = lemma_entry_map_witness(entries@, t);
                if j != k {
                    assert(entries@[j] == before[j]);
                    assert(entry_keys(before)[j] != entry_keys(before)[k as int]);
                }
            }
        }
    }
}

/// Appends an entry for a key without one to a list of entries.
pub(crate) fn push_entry<I: View>(entries: &mut Vec<(I, u64)>, id: I, n: u64)
    requires
        entry_keys(old(entries)@).no_duplicates(),
        !entry_keys(old(entries)@).contains(id@),
    ensures
        final(entries)@ == old(entries)@.push((id, n)),
        entry_keys(final(entries)@).no_duplicates(),
        entry_map(final(entries)@) == entry_map(old(entries)@).insert(id@, n),
{
    let ghost before = entries@;
    entries.push((id, n));
    proof {
        assert(entries@.drop_last() =~= before);
        assert(entry_keys(entries@) =~= entry_keys(before).push(id@));
        assert forall|a: int, b: int|
            0 <= a < entry_keys(entries@).len() && 0 <= b < entry_keys(entries@).len() && a != b
            implies entry_keys(entries@)[a] != entry_keys(entries@)[b] by {
            if a < before.len() && b < before.len() {
                assert(entry_keys(before)[a] != entry_keys(before)[b]);
            } else if a < before.len() {
                assert(entry_keys(before)[a] == entry_keys(entries@)[a]);
            } else {
                assert(entry_keys(before)[b] == entry_keys(entries@)[b]);
            }
        }
    }
}

/// Joins the borrowed entries of `add` into a list of entries, keeping the larger of both counts
/// of a replica.
pub(crate) fn merge_entries<I: Datum>(entries: &mut Vec<(I, u64)>, add: &Vec<(&I, &u64)>)
    requires
        entry_keys(old(entries)@).no_duplicates(),
        ref_entry_keys(add@).no_duplicates(),
    ensures
        entry_keys(final(entries)@).no_duplicates(),
        entry_map(final(entries)@) == max_merge(entry_map(old(entries)@), ref_entry_map(add@)),
{
    let ghost start = entry_map(entries@);
    assert(add@.take(0) =~= Seq::<(&I, &u64)>::empty());
    assert(max_merge(start, ref_entry_map(add@.take(0))) =~= start);
    let mut j: usize = 0;
    while j < add.len()
        invariant
            j <= add@.len(),
            ref_entry_keys(add@).no_duplicates(),
            entry_keys(entries@).no_duplicates(),
            entry_map(entries@) == max_merge(start, ref_entry_map(add@.take(j as int))),
        decreases add@.len() - j,
    {
        let ghost prefix = add@.take(j as int);
        proof {
            assert(add@.take(j + 1) =~= prefix.push(add@[j as int]));
            lemma_ref_entry_map_push(prefix, add@[j as int]);
            assert(ref_entry_keys(prefix) =~= ref_entry_keys(add@).take(j as int));
            assert(ref_entry_keys(prefix).no_duplicates()) by {
                assert forall|a: int, b: int|
                    0 <= a < ref_entry_keys(prefix).len() && 0 <= b < ref_entry_keys(prefix).len() && a != b
                    implies ref_entry_keys(prefix)[a] != ref_entry_keys(prefix)[b] by {
                    assert(ref_entry_keys(add@)[a] != ref_entry_keys(add@)[b]);
                }
            }
            lemma_ref_entry_map(prefix);
            assert(!ref_entry_map(prefix).contains_key(add@[j as int].0@)) by {
                if ref_entry_keys(prefix).contains(add@[j as int].0@) {
                    let m = choose|m: int| 0 <= m < j && #[trigger] ref_entry_keys(prefix)[m] == add@[j as int].0@;
                    assert(ref_entry_keys(add@)[m] == ref_entry_keys(add@)[j as int]);
                }
            }
            lemma_entry_map(entries@);
        }
        let (key, count) = add[j];
        let ghost prev = entry_map(entries@);
        proof {
            assert(prev.contains_key(key@) == start.contains_key(key@));
            assert(start.contains_key(key@) ==> prev[key@] == start[key@]);
        }
        match position_of_entry(&*entries, key) {
            Some(k) => {
                let mine = entries[k].1;
                proof {
                    assert(prev[key@] == mine);
                }
                if *count > mine {
                    set_entry(entries, k, *count);
                } else {
                    assert(prev.insert(key@, mine) =~= prev);
                }
            },
            None => {
                push_entry(entries, key.duplicate(), *count);
            },
        }
        proof {
            assert(entry_map(entries@) =~= max_merge(start, ref_entry_map(add@.take(j + 1))));
        }
        j = j + 1;
    }
    assert(add@.take(add@.len() as int) =~= add@);
}

/// References to the entries of `local` that `remote` lacks or holds with a smaller count.
pub(crate) fn entries_ahead<'a, I: Datum>(local: &'a Vec<(I, u64)>, remote: &Vec<(I, u64)>) -> (r: Vec<(&'a I, &'a u64)>)
    requires
        entry_keys(local@).no_duplicates(),
        entry_keys(remote@).no_duplicates(),
    ensures
        ref_entry_keys(r@).no_duplicates(),
        ref_entry_map(r@) == ahead_of(entry_map(local@), entry_map(remote@)),
{
    proof {
        lemma_entry_map(remote@);
    }
    let ghost rm = entry_map(remote@);
    let mut elems: Vec<(&I, &u64)> = Vec::new();
    let mut i: usize = 0;
    assert(local@.take(0) =~= Seq::<(I, u64)>::empty());
    assert(ref_entry_map(elems@) =~= ahead_of(entry_map(local@.take(0)), rm));
    while i < local.len()
        invariant
            i <= local@.len(),
            entry_keys(local@).no_duplicates(),
            rm == entry_map(remote@),
            rm.dom() == entry_keys(remote@).to_set(),
            forall|k: int| 0 <= k < remote@.len() ==> rm[(#[trigger] remote@[k]).0@] == remote@[k].1,
            ref_entry_keys(elems@).no_duplicates(),
            ref_entry_map(elems@) == ahead_of(entry_map(local@.take(i as int)), rm),
            forall|k: int| 0 <= k < elems@.len() ==> entry_map(local@.take(i as int)).contains_key(#[trigger] ref_entry_keys(elems@)[k]),
        decreases local@.len() - i,
    {
        proof {
            lemma_entry_map_prefix(local@, i as int);
        }
        let entry = &local[i];
        let keep = match position_of_entry(remote, &entry.0) {
            Some(k) => entry.1 > remote[k].1,
            None => true,
        };
        if keep {
            let ghost before = elems@;
            elems.push((&entry.0, &entry.1));
            proof {
                lemma_ref_entry_map_push(before, (&entry.0, &entry.1));
                assert(ref_entry_keys(elems@).no_duplicates()) by {
                    assert forall|a: int, b: int|
                        0 <= a < ref_entry_keys(elems@).len() && 0 <= b < ref_entry_keys(elems@).len() && a != b
                        implies ref_entry_keys(elems@)[a] != ref_entry_keys(elems@)[b] by {
                        if a < before.len() && b < before.len() {
                            assert(ref_entry_keys(before)[a] != ref_entry_keys(before)[b]);
                        } else if a < before.len() {
                            assert(entry_map(local@.take(i as int)).contains_key(ref_entry_keys(before)[a]));
                        } else {
                            assert(entry_map(local@.take(i as int)).contains_key(ref_entry_keys(before)[b]));
                        }
                    }
                }
            }
        }
        proof {
            assert(ref_entry_map(elems@) =~= ahead_of(entry_map(local@.take(i + 1)), rm));
        }
        i = i + 1;
    }
    assert(local@.take(local@.len() as int) =~= local@);
    elems
}

/// Returns `true` if two lists of entries map the same replicas to the same counts.
pub(crate) fn entries_equal<I: Datum>(a: &Vec<(I, u64)>, b: &Vec<(I, u64)>) -> (r: bool)
    requires
        entry_keys(a@).no_duplicates(),
        entry_keys(b@).no_duplicates(),
    ensures
        r == (entry_map(a@) == entry_map(b@)),
{
    proof {
        lemma_entry_map(a@);
        lemma_entry_map(b@);
    }
    let ghost ma = entry_map(a@);
    let ghost mb = entry_map(b@);
    if a.len() != b.len() {
        return false;
    }
    let mut i: usize = 0;
    while i < a.len()
        invariant
            i <= a@.len(),
            ma == entry_map(a@),
            mb == entry_map(b@),
            ma.dom() == entry_keys(a@).to_set(),
            mb.dom() == entry_keys(b@).to_set(),
            ma.dom().finite(),
            mb.dom().finite(),
            ma.dom().len() == mb.dom().len(),
            entry_keys(a@).no_duplicates(),
            forall|k: int| 0 <= k < a@.len() ==> ma[(#[trigger] a@[k]).0@] == a@[k].1,
            forall|k: int| 0 <= k < b@.len() ==> mb[(#[trigger] b@[k]).0@] == b@[k].1,
            forall|k: int| 0 <= k < i ==> mb.contains_key(#[trigger] a@[k].0@) && mb[a@[k].0@] == ma[a@[k].0@],
        decreases a@.len() - i,
    {
        proof {
            assert(entry_keys(a@)[i as int] == a@[i as int].0@);
        }
        match position_of_entry(b, &a[i].0) {
            Some(k) => {
                proof {
                    let key = a@[i as int].0@;
                    assert(mb[key] == b@[k as int].1);
                    assert(ma[key] == a@[i as int].1);
                }
                if a[i].1 != b[k].1 {
                    return false;
                }
            },
            None => {
                proof {
                    assert(!mb.contains_key(a@[i as int].0@));
                    assert(ma.contains_key(a@[i as int].0@));
                }
                return false;
            },
        }
        i = i + 1;
    }
    proof {
        assert forall|t: I::V| ma.contains_key(t) implies mb.contains_key(t) by {
            let k = lemma_entry_map_witness(a@, t);
        }
        vstd::set_lib::lemma_subset_equality(ma.dom(), mb.dom());
        assert forall|t: I::V| ma.contains_key(t) implies ma[t] == mb[t] by {
            let k = lemma_entry_map_witness(a@, t);
        }
        assert(ma =~= mb);
    }
    true
}

impl<I: View> GCounter<I> {
    #[verifier::type_invariant]
    spec fn inv(self) -> bool {
        entry_keys(self.inner@).no_duplicates()
    }

    /// References to every entry.
    fn borrow_all(&self) -> (r: Vec<(&I, &u64)>)
        ensures
            ref_entry_keys(r@).no_duplicates(),
            ref_entry_map(r@) == self@,
    {
        proof {
            use_type_invariant(self);
        }
        borrow_entries(&self.inner)
    }

    /// A delta that contains the entire state of the counter.
    pub fn as_delta(&self) -> (r: Delta<'_, I>)
        ensures
            r@ == self@,
    {
        Delta { counter: self, elems: self.borrow_all() }
    }

    /// The count of the counter: the sum of all the entries.
    pub fn count(&self) -> (r: u64)
        requires
            total(self@) <= u64::MAX,
        ensures
            self@.dom().finite(),
            r == total(self@),
    {
        proof {
            use_type_invariant(self);
            lemma_entry_map(self.inner@);
        }
        let mut sum: u64 = 0;
        let mut i: usize = 0;
        assert(entry_map(self.inner@.take(0)) =~= Map::<I::V, u64>::empty());
        assert(self.inner@.take(self.inner@.len() as int) =~= self.inner@);
        while i < self.inner.len()
            invariant
                i <= self.inner@.len(),
                entry_keys(self.inner@).no_duplicates(),
                total(self@) <= u64::MAX,
                sum == total(entry_map(self.inner@.take(i as int))),
            decreases self.inner@.len() - i,
        {
            proof {
                lemma_entry_map_prefix(self.inner@, i as int);
                lemma_total_insert(entry_map(self.inner@.take(i as int)), self.inner@[i as int].0@, self.inner@[i as int].1);
                lemma_total_prefix(self.inner@, i + 1);
            }
            sum = sum + self.inner[i].1;
            i = i + 1;
        }
        sum
    }

    /// Stores an entry for a key without one.
    fn push_entry(&mut self, id: I, n: u64)
        requires
            !old(self)@.contains_key(id@),
        ensures
            final(self)@ == old(self)@.insert(id@, n),
            final(self).inner@ == old(self).inner@.push((id, n)),
    {
        proof {
            use_type_invariant(&*self);
            lemma_entry_map(self.inner@);
        }
        let mut inner = Vec::new();
        std::mem::swap(&mut inner, &mut self.inner);
        push_entry(&mut inner, id, n);
        self.inner = inner;
    }

    /// Replaces the count of the entry at position `k`.
    fn replace_entry(&mut self, k: usize, n: u64)
        requires
            k < old(self).inner@.len(),
        ensures
            final(self)@ == old(self)@.insert(old(self).inner@[k as int].0@, n),
            final(self).inner@.len() == old(self).inner@.len(),
            final(self).inner@[k as int].0 == old(self).inner@[k as int].0,
    {
        proof {
            use_type_invariant(&*self);
        }
        let mut inner = Vec::new();
        std::mem::swap(&mut inner, &mut self.inner);
        set_entry(&mut inner, k, n);
        self.inner = inner;
    }
}

/// The sum over a prefix of entries never exceeds the sum over all of them.
proof fn lemma_total_prefix<I: View>(s: Seq<(I, u64)>, j: int)
    requires
        entry_keys(s).no_duplicates(),
        0 <= j <= s.len(),
    ensures
        total(entry_map(s.take(j))) <= total(entry_map(s)),
    decreases s.len() - j,
{
    if j < s.len() {
        lemma_entry_map_prefix(s, j);
        lemma_total_insert(entry_map(s.take(j)), s[j].0@, s[j].1);
        lemma_total_prefix(s, j + 1);
    } else {
        assert(s.take(j) =~= s);
    }
}

impl<I: Datum> GCounter<I> {
    /// Creates a counter set to 0.
    pub fn new() -> (r: Self)
        ensures
            r@ == Map::<I::V, u64>::empty(),
            r@.dom().finite(),
    {
        let r = GCounter { inner: Vec::new() };
        assert(r@.dom() =~= Set::<I::V>::empty());
        r
    }

    /// A counter with the entries of `delta`.
    pub fn from_delta(delta: Delta<'_, I>) -> (r: Self)
        ensures
            r@ == delta@,
    {
        let mut r = Self::new();
        r.absorb(&delta);
        assert(r@ =~= delta@);
        r
    }

    /// A counter with the entries of `entries`, a later entry replacing an earlier one of the
    /// same replica.
    pub fn from_entries(entries: Vec<(I, u64)>) -> (r: Self)
        ensures
            r@ == entry_map(entries@),
    {
        let mut r = Self::new();
        let mut i: usize = 0;
        assert(entries@.take(0) =~= Seq::<(I, u64)>::empty());
        while i < entries.len()
            invariant
                i <= entries@.len(),
                r@ == entry_map(entries@.take(i as int)),
            decreases entries@.len() - i,
        {
            proof {
                use_type_invariant(&r);
                lemma_entry_map(r.inner@);
                assert(entries@.take(i + 1).drop_last() =~= entries@.take(i as int));
            }
            match position_of_entry(&r.inner, &entries[i].0) {
                Some(k) => r.replace_entry(k, entries[i].1),
                None => r.push_entry(entries[i].0.duplicate(), entries[i].1),
            }
            i = i + 1;
        }
        assert(entries@.take(entries@.len() as int) =~= entries@);
        r
    }

    /// The count of replica `id`, if it has an entry.
    pub fn count_of(&self, id: &I) -> (r: Option<u64>)
        ensures
            self@.dom().finite(),
            r == (if self@.contains_key(id@) { Some(self@[id@]) } else { None::<u64> }),
    {
        proof {
            use_type_invariant(self);
            lemma_entry_map(self.inner@);
        }
        match position_of_entry(&self.inner, id) {
            Some(k) => Some(self.inner[k].1),
            None => None,
        }
    }

    /// Adds one to the count of replica `id`; see [`GCounter::add`].
    pub fn increment(&mut self, id: &I) -> (r: Delta<'_, I>)
        requires
            old(self)@.contains_key(id@) ==> old(self)@[id@] < u64::MAX,
        ensures
            final(self)@ == old(self)@.insert(
                id@,
                if old(self)@.contains_key(id@) {
                    (old(self)@[id@] + 1) as u64
                } else {
                    1u64
                },
            ),
            final(self)@.dom().finite(),
            r@ == map![id@ => final(self)@[id@]],
    {
        self.add(id, 1)
    }

    /// Adds `value` to the count of replica `id`, which starts at `value` when absent, and returns
    /// a delta with the new entry of `id`.
    pub fn add(&mut self, id: &I, value: u64) -> (r: Delta<'_, I>)
        requires
            old(self)@.contains_key(id@) ==> old(self)@[id@] + value <= u64::MAX,
        ensures
            final(self)@ == old(self)@.insert(
                id@,
                if old(self)@.contains_key(id@) {
                    (old(self)@[id@] + value) as u64
                } else {
                    value
                },
            ),
            final(self)@.dom().finite(),
            r@ == map![id@ => final(self)@[id@]],
    {
        proof {
            use_type_invariant(&*self);
            lemma_entry_map(self.inner@);
        }
        let k = match position_of_entry(&self.inner, id) {
            Some(k) => {
                let n = self.inner[k].1;
                self.replace_entry(k, n + value);
                k
            },
            None => {
                self.push_entry(id.duplicate(), value);
                self.inner.len() - 1
            },
        };
        proof {
            use_type_invariant(&*self);
            lemma_entry_map(self.inner@);
        }
        let entry = &self.inner[k];
        let mut elems: Vec<(&I, &u64)> = Vec::new();
        elems.push((&entry.0, &entry.1));
        proof {
            lemma_ref_entry_map_push(Seq::empty(), (&entry.0, &entry.1));
            assert(Seq::<(&I, &u64)>::empty().push((&entry.0, &entry.1)) =~= elems@);
            assert(ref_entry_map(elems@) =~= map![id@ => self@[id@]]);
        }
        Delta { counter: &*self, elems }
    }

    /// Joins the entries of `delta` into `self`, keeping the larger of both counts.
    fn absorb(&mut self, delta: &Delta<'_, I>)
        ensures
            final(self)@ == max_merge(old(self)@, delta@),
    {
        proof {
            use_type_invariant(&*self);
            use_type_invariant(delta);
        }
        let mut inner = Vec::new();
        std::mem::swap(&mut inner, &mut self.inner);
        merge_entries(&mut inner, &delta.elems);
        self.inner = inner;
    }
}

impl<I: Datum> Default for GCounter<I> {
    fn default() -> (r: Self)
        ensures
            r@ == Map::<I::V, u64>::empty(),
    {
        Self::new()
    }
}

impl<I: Datum> Clone for GCounter<I> {
    fn clone(&self) -> (r: Self)
        ensures
            r@ == self@,
    {
        let d = self.as_delta();
        let mut r = Self::new();
        r.absorb(&d);
        assert(r@ =~= self@);
        r
    }
}

impl<I: Datum + core::hash::Hash + 'static> Decompose for GCounter<I> {
    type Decomposition<'a> = Delta<'a, I>;

    open spec fn spec_join(a: Map<I::V, u64>, b: Map<I::V, u64>) -> Map<I::V, u64> {
        max_merge(a, b)
    }

    open spec fn spec_bottom() -> Map<I::V, u64> {
        Map::empty()
    }

    open spec fn spec_part_count(&self) -> nat {
        self@.dom().len()
    }

    open spec fn spec_wf(&self) -> bool {
        true
    }

    open spec fn spec_difference(&self, remote: &Self) -> Map<I::V, u64> {
        ahead_of(self@, remote@)
    }

    open spec fn spec_join_all(start: Map<I::V, u64>, parts: Seq<Map<I::V, u64>>) -> Map<I::V, u64> {
        max_merge_all(start, parts)
    }

    proof fn lemma_join_all(start: Map<I::V, u64>, parts: Seq<Map<I::V, u64>>, last: Map<I::V, u64>) {
        assert(parts.push(last).drop_last() =~= parts);
    }

    proof fn lemma_lattice(a: Map<I::V, u64>, b: Map<I::V, u64>, c: Map<I::V, u64>) {
        assert(max_merge(a, b) =~= max_merge(b, a));
        assert(max_merge(max_merge(a, b), c) =~= max_merge(a, max_merge(b, c)));
        assert(max_merge(a, a) =~= a);
        assert(max_merge(Map::empty(), a) =~= a);
    }

    fn empty() -> (r: Self) {
        Self::new()
    }

    fn as_delta(&self) -> (r: Delta<'_, I>) {
        GCounter::as_delta(self)
    }

    /// One delta per replica entry.
    fn split(&self) -> (r: Vec<Delta<'_, I>>)
        ensures
            r@.len() == self@.dom().len(),
            forall|k: int| 0 <= k < r@.len() ==> (#[trigger] r@[k])@.dom().len() == 1,
            forall|j: int, k: int| 0 <= j < k < r@.len() ==> (#[trigger] r@[j])@ != (#[trigger] r@[k])@,
    {
        proof {
            use_type_invariant(self);
            lemma_entry_map(self.inner@);
        }
        let mut parts: Vec<Delta<'_, I>> = Vec::new();
        let mut i: usize = 0;
        assert(self.inner@.take(0) =~= Seq::<(I, u64)>::empty());
        while i < self.inner.len()
            invariant
                i <= self.inner@.len(),
                entry_keys(self.inner@).no_duplicates(),
                parts@.len() == i,
                forall|k: int| 0 <= k < parts@.len() ==> (#[trigger] parts@[k]).spec_values() == 1,
                forall|k: int| 0 <= k < parts@.len() ==> (#[trigger] parts@[k])@.dom() == set![self.inner@[k].0@],
                max_merge_all(Map::empty(), parts@.map_values(|d: Delta<'_, I>| d@))
                    == entry_map(self.inner@.take(i as int)),
            decreases self.inner@.len() - i,
        {
            let entry = &self.inner[i];
            let mut elems: Vec<(&I, &u64)> = Vec::new();
            elems.push((&entry.0, &entry.1));
            proof {
                lemma_ref_entry_map_push(Seq::empty(), (&entry.0, &entry.1));
                assert(Seq::<(&I, &u64)>::empty().push((&entry.0, &entry.1)) =~= elems@);
                assert(ref_entry_map(Seq::<(&I, &u64)>::empty()) =~= Map::<I::V, u64>::empty());
            }
            let part = Delta { counter: self, elems };
            proof {
                assert(part@.dom() =~= set![entry.0@]);
            }
            let ghost before = parts@;
            parts.push(part);
            proof {
                assert(parts@.map_values(|d: Delta<'_, I>| d@).drop_last() =~= before.map_values(
                    |d: Delta<'_, I>| d@,
                ));
                lemma_entry_map_prefix(self.inner@, i as int);
                assert(max_merge_all(Map::empty(), parts@.map_values(|d: Delta<'_, I>| d@))
                    =~= entry_map(self.inner@.take(i + 1)));
                assert forall|k: int| 0 <= k < parts@.len() implies (#[trigger] parts@[k])@.dom() == set![self.inner@[k].0@] by {
                    if k < before.len() {
                        assert(parts@[k] == before[k]);
                    }
                }
            }
            i = i + 1;
        }
        assert(self.inner@.take(self.inner@.len() as int) =~= self.inner@);
        proof {
            assert forall|j: int, k: int| 0 <= j < k < parts@.len() implies (#[trigger] parts@[j])@ != (#[trigger] parts@[k])@ by {
                if parts@[j]@ == parts@[k]@ {
                    assert(set![self.inner@[j].0@].contains(self.inner@[j].0@));
                    assert(entry_keys(self.inner@)[j] == entry_keys(self.inner@)[k]);
                }
            }
        }
        parts
    }

    /// Joins every delta, keeping the larger of each count.
    fn join(&mut self, deltas: Vec<Delta<'_, I>>) {
        let ghost start = self@;
        let mut i: usize = 0;
        while i < deltas.len()
            invariant
                i <= deltas@.len(),
                self@ == max_merge_all(
                    start,
                    deltas@.take(i as int).map_values(|d: Delta<'_, I>| d@),
                ),
            decreases deltas@.len() - i,
        {
            self.absorb(&deltas[i]);
            proof {
                assert(deltas@.take(i + 1).map_values(|d: Delta<'_, I>| d@).drop_last()
                    =~= deltas@.take(i as int).map_values(|d: Delta<'_, I>| d@));
            }
            i = i + 1;
        }
        assert(deltas@.take(deltas@.len() as int) =~= deltas@);
    }

    /// The entries of `self` that `remote` lacks or holds with a smaller count.
    fn difference<'a>(&'a self, remote: &'a Self) -> (r: Delta<'a, I>)
        ensures
            r@ == ahead_of(self@, remote@),
    {
        proof {
            use_type_invariant(self);
            use_type_invariant(remote);
        }
        let elems = entries_ahead(&self.inner, &remote.inner);
        let r = Delta { counter: self, elems };
        assert(max_merge(remote@, r@) =~= max_merge(self@, remote@));
        assert(max_merge(self@, r@) =~= self@);
        r
    }
}

impl<'a, I: Datum + core::hash::Hash> Extract for Delta<'a, I> {
    type Output = (&'a I, &'a u64);

    open spec fn spec_values(&self) -> nat {
        self@.dom().len()
    }

    /// The single entry of the delta.
    fn extract(&self) -> (r: Result<(&'a I, &'a u64), ExtractError>)
        ensures
            r matches Ok(v) ==> self@ == map![v.0@ => *v.1],
    {
        let n = self.len();
        if n != 1 {
            return Err(ExtractError::NotSingle(n));
        }
        proof {
            use_type_invariant(self);
            lemma_ref_entry_map(self.elems@);
        }
        let v = self.elems[0];
        proof {
            assert(ref_entry_keys(self.elems@)[0] == v.0@);
            assert(self@.dom() =~= set![v.0@]) by {
                assert forall|x: I::V| self@.contains_key(x) implies x == v.0@ by {
                    let k = choose|k: int| 0 <= k < ref_entry_keys(self.elems@).len() && #[trigger] ref_entry_keys(self.elems@)[k] == x;
                    assert(k == 0);
                }
            }
            assert(self@ =~= map![v.0@ => *v.1]);
        }
        Ok(v)
    }
}

impl<I: Datum> PartialEq for GCounter<I> {
    fn eq(&self, other: &Self) -> (r: bool)
        ensures
            r == (self@ == other@),
    {
        proof {
            use_type_invariant(self);
            use_type_invariant(other);
        }
        entries_equal(&self.inner, &other.inner)
    }
}

impl<I: Datum> vstd::std_specs::cmp::PartialEqSpecImpl for GCounter<I> {
    open spec fn obeys_eq_spec() -> bool {
        true
    }

    open spec fn eq_spec(&self, other: &Self) -> bool {
        self@ == other@
    }
}

impl<I: Datum> Eq for GCounter<I> {

}

} // verus!
