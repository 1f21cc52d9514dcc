//! Pairs of replicas of the same cardinality that share a given number of items, built from items
//! and totals drawn beforehand.

use vstd::prelude::*;

use crate::crdt::awset::{holds, live, live_tags_of, AWState};
use crate::crdt::pncounter::Totals;
use crate::crdt::{AWSet, GSet, PNCounter};
use crate::datum::{views, Datum};

verus! {

broadcast use {vstd::seq_lib::group_seq_properties, vstd::set::group_set_axioms};

/// Whether the `k`-th drawn item goes to the local replica: the first `shared` go to both, then
/// the others alternate, local first.
pub open spec fn to_local(shared: int, k: int) -> bool {
    k < shared || (k - shared) % 2 == 0
}

/// Whether the `k`-th drawn item goes to the remote replica.
pub open spec fn to_remote(shared: int, k: int) -> bool {
    k < shared || (k - shared) % 2 == 1
}

/// The items of `items` that go to one side.
pub open spec fn side_items(items: Seq<Seq<char>>, shared: int, local: bool) -> Set<Seq<char>> {
    Set::new(
        |v: Seq<char>|
            exists|k: int|
                0 <= k < items.len() && #[trigger] items[k] == v && (if local {
                    to_local(shared, k)
                } else {
                    to_remote(shared, k)
                }),
    )
}

/// The number of the first `n` drawn items that go to the local replica.
pub open spec fn local_count(shared: int, n: int) -> int {
    if n <= shared {
        n
    } else {
        shared + (n - shared + 1) / 2
    }
}

/// The number of the first `n` drawn items that go to the remote replica.
pub open spec fn remote_count(shared: int, n: int) -> int {
    if n <= shared {
        n
    } else {
        shared + (n - shared) / 2
    }
}

/// An item of `items` other than the `i`-th is not the `i`-th.
proof fn lemma_fresh(items: Seq<Seq<char>>, i: int, shared: int, local: bool)
    requires
        items.no_duplicates(),
        0 <= i < items.len(),
    ensures
        !side_items(items.take(i), shared, local).contains(items[i]),
{
    if side_items(items.take(i), shared, local).contains(items[i]) {
        let k = choose|k: int|
            0 <= k < items.take(i).len() && #[trigger] items.take(i)[k] == items[i] && (if local {
                to_local(shared, k)
            } else {
                to_remote(shared, k)
            });
        assert(items[k] == items[i]);
    }
}

/// Taking one more drawn item adds it to the side it goes to.
proof fn lemma_side_step(items: Seq<Seq<char>>, i: int, shared: int, local: bool)
    requires
        0 <= i < items.len(),
    ensures
        side_items(items.take(i + 1), shared, local) == if (if local {
            to_local(shared, i)
        } else {
            to_remote(shared, i)
        }) {
            side_items(items.take(i), shared, local).insert(items[i])
        } else {
            side_items(items.take(i), shared, local)
        },
{
    let next = items.take(i + 1);
    let prev = items.take(i);
    let picks = |k: int| if local { to_local(shared, k) } else { to_remote(shared, k) };
    let expected = if picks(i) { side_items(prev, shared, local).insert(items[i]) } else { side_items(prev, shared, local) };
    assert forall|v: Seq<char>| side_items(next, shared, local).contains(v) <==> expected.contains(v) by {
        if side_items(next, shared, local).contains(v) {
            let k = choose|k: int| 0 <= k < next.len() && #[trigger] next[k] == v && picks(k);
            if k < i {
                assert(prev[k] == v);
            }
        }
        if side_items(prev, shared, local).contains(v) {
            let k = choose|k: int| 0 <= k < prev.len() && #[trigger] prev[k] == v && picks(k);
            assert(next[k] == v);
        }
        if picks(i) && v == items[i] {
            assert(next[i] == v);
        }
    }
    assert(side_items(next, shared, local) =~= expected);
}

/// Two grow-only sets of `len` items each that share `shared` of them, from `2 * len - shared`
/// distinct items: the first `shared` go to both sets, the others alternately to the local set
/// and to the remote set.
pub fn gsets_with(len: usize, shared: usize, items: Vec<String>) -> (r: (GSet<String>, GSet<String>))
    requires
        shared <= len,
        items@.len() == 2 * len - shared,
        views(items@).no_duplicates(),
    ensures
        r.0@ == side_items(views(items@), shared as int, true),
        r.1@ == side_items(views(items@), shared as int, false),
        r.0@.len() == len,
        r.1@.len() == len,
        r.0@.intersect(r.1@) == views(items@).take(shared as int).to_set(),
        r.0@.intersect(r.1@).len() == shared,
{
    let ghost vs = views(items@);
    let mut local: GSet<String> = GSet::new();
    let mut remote: GSet<String> = GSet::new();
    let mut i: usize = 0;
    proof {
        assert(side_items(vs.take(0), shared as int, true) =~= Set::<Seq<char>>::empty());
        assert(side_items(vs.take(0), shared as int, false) =~= Set::<Seq<char>>::empty());
    }
    while i < items.len()
        invariant
            i <= items@.len(),
            vs == views(items@),
            vs.no_duplicates(),
            local@ == side_items(vs.take(i as int), shared as int, true),
            remote@ == side_items(vs.take(i as int), shared as int, false),
            local@.len() == local_count(shared as int, i as int),
            remote@.len() == remote_count(shared as int, i as int),
        decreases items@.len() - i,
    {
        proof {
            lemma_fresh(vs, i as int, shared as int, true);
            lemma_fresh(vs, i as int, shared as int, false);
            lemma_side_step(vs, i as int, shared as int, true);
            lemma_side_step(vs, i as int, shared as int, false);
            local.lemma_finite();
            remote.lemma_finite();
            assert(vs[i as int] == items@[i as int]@);
        }
        let item = items[i].duplicate();
        if i < shared {
            local.insert(item.duplicate());
            remote.insert(item);
        } else if (i - shared) % 2 == 0 {
            local.insert(item);
        } else {
            remote.insert(item);
        }
        i = i + 1;
    }
    proof {
        assert(vs.take(vs.len() as int) =~= vs);
        let both = local@.intersect(remote@);
        let first = vs.take(shared as int);
        assert forall|v: Seq<char>| both.contains(v) <==> first.to_set().contains(v) by {
            if both.contains(v) {
                let k1 = choose|k: int| 0 <= k < vs.len() && #[trigger] vs[k] == v && to_local(shared as int, k);
                let k2 = choose|k: int| 0 <= k < vs.len() && #[trigger] vs[k] == v && to_remote(shared as int, k);
                assert(k1 == k2);
                assert(first[k1] == v);
            }
            if first.to_set().contains(v) {
                let k = choose|k: int| 0 <= k < first.len() && #[trigger] first[k] == v;
                assert(vs[k] == v);
            }
        }
        assert(both =~= first.to_set());
        first.unique_seq_to_set();
    }
    (local, remote)
}

/// The totals of one replica drawn for both counters: once where both counters agree on them,
/// twice where they differ, with a coin that says whether the local counter is the one ahead.
#[derive(Clone, Copy, Debug)]
pub enum Draw {
    Same(u64, u64),
    Apart(u64, u64, u64, u64, bool),
}

/// The larger of two numbers.
pub open spec fn larger(a: u64, b: u64) -> u64 {
    if a >= b { a } else { b }
}

/// The smaller of two numbers.
pub open spec fn smaller(a: u64, b: u64) -> u64 {
    if a <= b { a } else { b }
}

/// The totals of the local counter for a draw: where they differ, the larger increments and
/// decrements if the local counter is ahead, the smaller ones otherwise.
pub open spec fn local_totals(d: Draw) -> Totals {
    match d {
        Draw::Same(incr, decr) => (incr, decr),
        Draw::Apart(incr1, decr1, incr2, decr2, local_ahead) => if local_ahead {
            (larger(incr1, incr2), larger(decr1, decr2))
        } else {
            (smaller(incr1, incr2), smaller(decr1, decr2))
        },
    }
}

/// The totals of the remote counter for a draw.
pub open spec fn remote_totals(d: Draw) -> Totals {
    match d {
        Draw::Same(incr, decr) => (incr, decr),
        Draw::Apart(incr1, decr1, incr2, decr2, local_ahead) => if local_ahead {
            (smaller(incr1, incr2), smaller(decr1, decr2))
        } else {
            (larger(incr1, incr2), larger(decr1, decr2))
        },
    }
}

/// The totals of both counters for a draw.
fn totals_of(d: Draw) -> (r: (Totals, Totals))
    ensures
        r == (local_totals(d), remote_totals(d)),
{
    match d {
        Draw::Same(incr, decr) => ((incr, decr), (incr, decr)),
        Draw::Apart(incr1, decr1, incr2, decr2, local_ahead) => {
            let hi = (if incr1 >= incr2 { incr1 } else { incr2 }, if decr1 >= decr2 { decr1 } else { decr2 });
            let lo = (if incr1 <= incr2 { incr1 } else { incr2 }, if decr1 <= decr2 { decr1 } else { decr2 });
            if local_ahead {
                (hi, lo)
            } else {
                (lo, hi)
            }
        },
    }
}

/// Two counters over the replicas `ids`, the `k`-th with the totals of `draws[k]` on each side:
/// equal where the draw is `Same`, and where it is `Apart` (with two different pairs of totals)
/// one counter ahead of the other on that replica.
pub fn pncounters_with(ids: Vec<String>, draws: Vec<Draw>) -> (r: (PNCounter<String>, PNCounter<String>))
    requires
        ids@.len() == draws@.len(),
        views(ids@).no_duplicates(),
        forall|k: int| 0 <= k < draws@.len() ==> (#[trigger] draws@[k] matches Draw::Apart(i1, d1, i2, d2, _) ==> i1 != i2 || d1 != d2),
    ensures
        r.0@.dom() == views(ids@).to_set(),
        r.1@.dom() == views(ids@).to_set(),
        forall|k: int| 0 <= k < ids@.len() ==> r.0@[#[trigger] ids@[k]@] == local_totals(draws@[k]),
        forall|k: int| 0 <= k < ids@.len() ==> r.1@[#[trigger] ids@[k]@] == remote_totals(draws@[k]),
        forall|k: int| 0 <= k < ids@.len() ==> ((#[trigger] draws@[k] is Same) <==> r.0@[ids@[k]@] == r.1@[ids@[k]@]),
{
    let ghost vs = views(ids@);
    let mut local: PNCounter<String> = PNCounter::new();
    let mut remote: PNCounter<String> = PNCounter::new();
    let mut i: usize = 0;
    proof {
        assert(vs.take(0).to_set() =~= Set::<Seq<char>>::empty());
        assert(local@.dom() =~= Set::<Seq<char>>::empty());
        assert(remote@.dom() =~= Set::<Seq<char>>::empty());
    }
    while i < ids.len()
        invariant
            i <= ids@.len(),
            ids@.len() == draws@.len(),
            vs == views(ids@),
            vs.no_duplicates(),
            local@.dom() == vs.take(i as int).to_set(),
            remote@.dom() == vs.take(i as int).to_set(),
            forall|k: int| 0 <= k < i ==> local@[#[trigger] vs[k]] == local_totals(draws@[k]),
            forall|k: int| 0 <= k < i ==> remote@[#[trigger] vs[k]] == remote_totals(draws@[k]),
        decreases ids@.len() - i,
    {
        let id = &ids[i];
        proof {
            assert(vs[i as int] == id@);
            if vs.take(i as int).to_set().contains(id@) {
                let k = choose|k: int| 0 <= k < vs.take(i as int).len() && #[trigger] vs.take(i as int)[k] == id@;
                assert(vs[k] == vs[i as int]);
            }
        }
        let ((li, ld), (ri, rd)) = totals_of(draws[i]);
        let ghost l0 = local@;
        let ghost r0 = remote@;
        local.add(id, li);
        local.sub(id, ld);
        remote.add(id, ri);
        remote.sub(id, rd);
        proof {
            assert(local@ == l0.insert(id@, (li, ld)));
            assert(remote@ == r0.insert(id@, (ri, rd)));
            assert(vs.take(i + 1) =~= vs.take(i as int).push(id@));
            assert(local@.dom() =~= vs.take(i + 1).to_set());
            assert(remote@.dom() =~= vs.take(i + 1).to_set());
            assert forall|k: int| 0 <= k < i + 1 implies local@[#[trigger] vs[k]] == local_totals(draws@[k]) by {
                if k < i {
                    assert(vs[k] != vs[i as int]);
                }
            }
            assert forall|k: int| 0 <= k < i + 1 implies remote@[#[trigger] vs[k]] == remote_totals(draws@[k]) by {
                if k < i {
                    assert(vs[k] != vs[i as int]);
                }
            }
        }
        i = i + 1;
    }
    proof {
        assert(vs.take(vs.len() as int) =~= vs);
        assert forall|k: int| 0 <= k < ids@.len() implies local@[#[trigger] ids@[k]@] == local_totals(draws@[k])
            && remote@[ids@[k]@] == remote_totals(draws@[k]) by {
            assert(vs[k] == ids@[k]@);
        }
    }
    (local, remote)
}

/// The kept items of `items` that go to one side: those not drawn for removal.
pub open spec fn kept_items(items: Seq<Seq<char>>, removed: Seq<bool>, shared: int, local: bool) -> Set<Seq<char>> {
    Set::new(
        |v: Seq<char>|
            exists|k: int|
                0 <= k < items.len() && #[trigger] items[k] == v && !removed[k] && (if local {
                    to_local(shared, k)
                } else {
                    to_remote(shared, k)
                }),
    )
}

/// Whether every removed tag of an add-wins state is one of its insertions.
pub open spec fn removals_known<V>(s: AWState<V>) -> bool {
    s.1.subset_of(s.0.dom())
}

/// Whether tag `t` of an add-wins state inserted `v`, and was removed exactly where `removed`.
pub open spec fn tagged(s: AWState<Seq<char>>, t: u64, v: Seq<char>, removed: bool) -> bool {
    &&& s.0.contains_key(t)
    &&& s.0[t] == v
    &&& (s.1.contains(t) <==> removed)
}

/// Whether the `k`-th drawn item goes to the side `local` names.
pub open spec fn picks(shared: int, k: int, local: bool) -> bool {
    if local {
        to_local(shared, k)
    } else {
        to_remote(shared, k)
    }
}

/// Whether the insertions of an add-wins state are those of the first `n` drawn items of one
/// side: each such item has a tag, removed exactly where it was drawn for removal, and each tag
/// belongs to such an item.
#[verifier::opaque]
pub open spec fn tags_match(s: AWState<Seq<char>>, items: Seq<Seq<char>>, removed: Seq<bool>, shared: int, n: int, local: bool) -> bool {
    &&& forall|k: int| 0 <= k < n && #[trigger] picks(shared, k, local) ==> exists|t: u64| #[trigger] tagged(s, t, items[k], removed[k])
    &&& forall|t: u64| #[trigger] s.0.contains_key(t) ==> exists|k: int| 0 <= k < n && picks(shared, k, local) && #[trigger] tagged(s, t, items[k], removed[k])
}

/// Taking one more drawn item adds its insertion, under a fresh tag, to the side it goes to.
#[verifier::rlimit(40)]
proof fn lemma_tags_step(
    s0: AWState<Seq<char>>,
    s1: AWState<Seq<char>>,
    items: Seq<Seq<char>>,
    removed: Seq<bool>,
    shared: int,
    i: int,
    local: bool,
    t: u64,
)
    requires
        0 <= i < items.len(),
        items.len() == removed.len(),
        tags_match(s0, items, removed, shared, i, local),
        picks(shared, i, local) ==> !s0.0.contains_key(t) && !s0.1.contains(t),
        picks(shared, i, local) ==> s1.0 == s0.0.insert(t, items[i]) && s1.1 == (if removed[i] { s0.1.insert(t) } else { s0.1 }),
        !picks(shared, i, local) ==> s1 == s0,
    ensures
        tags_match(s1, items, removed, shared, i + 1, local),
{
    reveal(tags_match);
    if picks(shared, i, local) {
        assert forall|k: int| 0 <= k < i + 1 && #[trigger] picks(shared, k, local) implies exists|u: u64| #[trigger] tagged(s1, u, items[k], removed[k]) by {
            if k < i {
                let u = choose|u: u64| #[trigger] tagged(s0, u, items[k], removed[k]);
                assert(u != t);
                assert(tagged(s1, u, items[k], removed[k]));
            } else {
                assert(tagged(s1, t, items[k], removed[k]));
            }
        }
        assert forall|u: u64| #[trigger] s1.0.contains_key(u) implies exists|k: int| 0 <= k < i + 1 && picks(shared, k, local) && #[trigger] tagged(s1, u, items[k], removed[k]) by {
            if u == t {
                assert(tagged(s1, u, items[i], removed[i]));
            } else {
                assert(s0.0.contains_key(u));
                let k = choose|k: int| 0 <= k < i && picks(shared, k, local) && #[trigger] tagged(s0, u, items[k], removed[k]);
                assert(tagged(s1, u, items[k], removed[k]));
            }
        }
    } else {
        assert forall|k: int| 0 <= k < i + 1 && #[trigger] picks(shared, k, local) implies exists|u: u64| #[trigger] tagged(s1, u, items[k], removed[k]) by {
            assert(k < i);
        }
        assert forall|u: u64| #[trigger] s1.0.contains_key(u) implies exists|k: int| 0 <= k < i + 1 && picks(shared, k, local) && #[trigger] tagged(s1, u, items[k], removed[k]) by {
            let k = choose|k: int| 0 <= k < i && picks(shared, k, local) && #[trigger] tagged(s0, u, items[k], removed[k]);
        }
    }
}

/// No insertion of a state whose tags match the first `i` drawn items holds the `i`-th.
proof fn lemma_tags_fresh(s: AWState<Seq<char>>, items: Seq<Seq<char>>, removed: Seq<bool>, shared: int, i: int, local: bool)
    requires
        0 <= i < items.len(),
        items.no_duplicates(),
        tags_match(s, items, removed, shared, i, local),
    ensures
        forall|u: u64| #[trigger] s.0.contains_key(u) ==> s.0[u] != items[i],
{
    reveal(tags_match);
    assert forall|u: u64| #[trigger] s.0.contains_key(u) implies s.0[u] != items[i] by {
        let k = choose|k: int| 0 <= k < i && picks(shared, k, local) && #[trigger] tagged(s, u, items[k], removed[k]);
    }
}

/// Inserts `item`, then removes it again where `remove` is set: the set holds what it held
/// besides `item`, and `item` exactly where it was not removed. The insertion gets a fresh tag,
/// which is the only one removed.
fn insert_maybe_removed(set: &mut AWSet<String>, item: String, remove: bool)
    requires
        removals_known(old(set)@),
        forall|u: u64| #[trigger] old(set)@.0.contains_key(u) ==> old(set)@.0[u] != item@,
    ensures
        removals_known(final(set)@),
        forall|v: Seq<char>| #[trigger] holds(final(set)@, v) <==> (if v == item@ {
            !remove
        } else {
            holds(old(set)@, v)
        }),
        exists|t: u64|
            {
                &&& !old(set)@.0.contains_key(t)
                &&& final(set)@.0 == old(set)@.0.insert(t, item@)
                &&& #[trigger] final(set)@.1 == (if remove { old(set)@.1.insert(t) } else { old(set)@.1 })
            },
{
    let ghost s0 = set@;
    let ghost x = item@;
    let copy = item.duplicate();
    proof {
        if holds(s0, x) {
            let t = choose|t: u64| #[trigger] live(s0).contains_key(t) && live(s0)[t] == x;
            assert(s0.0.contains_key(t));
        }
    }
    set.insert(item);
    let ghost s1 = set@;
    let ghost id = choose|id: u64| {
        &&& !s0.0.contains_key(id)
        &&& s1.0 == s0.0.insert(id, x)
        &&& s1.1 == s0.1
    };
    proof {
        assert(!s0.1.contains(id));
        assert forall|v: Seq<char>| #[trigger] holds(s1, v) <==> (holds(s0, v) || v == x) by {
            if holds(s1, v) {
                let t = choose|t: u64| #[trigger] live(s1).contains_key(t) && live(s1)[t] == v;
                if t != id {
                    assert(live(s0).contains_key(t) && live(s0)[t] == v);
                }
            }
            if holds(s0, v) {
                let t = choose|t: u64| #[trigger] live(s0).contains_key(t) && live(s0)[t] == v;
                assert(t != id);
                assert(live(s1).contains_key(t) && live(s1)[t] == v);
            }
            if v == x {
                assert(live(s1).contains_key(id) && live(s1)[id] == v);
            }
        }
        assert(removals_known(s1));
    }
    if remove {
        set.remove(&copy);
        proof {
            let s2 = set@;
            assert(live_tags_of(s1, x) =~= set![id]) by {
                assert(live(s1).contains_key(id));
                assert forall|u: u64| #[trigger] live_tags_of(s1, x).contains(u) implies u == id by {
                    if u != id {
                        assert(s0.0.contains_key(u));
                    }
                }
            }
            assert(s2.1 =~= s0.1.insert(id));
            assert forall|v: Seq<char>| #[trigger] holds(s2, v) <==> (holds(s1, v) && v != x) by {
                if holds(s2, v) {
                    let t = choose|t: u64| #[trigger] live(s2).contains_key(t) && live(s2)[t] == v;
                    assert(live(s1).contains_key(t) && live(s1)[t] == v);
                    if v == x {
                        assert(live_tags_of(s1, x).contains(t));
                    }
                }
                if holds(s1, v) && v != x {
                    let t = choose|t: u64| #[trigger] live(s1).contains_key(t) && live(s1)[t] == v;
                    assert(!live_tags_of(s1, x).contains(t));
                    assert(live(s2).contains_key(t) && live(s2)[t] == v);
                }
            }
        }
    }
    proof {
        let s = set@;
        assert(!s0.0.contains_key(id) && s.0 == s0.0.insert(id, x) && s.1 == (if remove { s0.1.insert(id) } else { s0.1 }));
    }
}

/// Taking one more drawn item adds it to the kept items of the side it goes to, unless it was
/// drawn for removal.
proof fn lemma_kept_step(items: Seq<Seq<char>>, removed: Seq<bool>, i: int, shared: int, local: bool)
    requires
        0 <= i < items.len(),
        items.len() == removed.len(),
    ensures
        kept_items(items.take(i + 1), removed, shared, local) == if !removed[i] && (if local {
            to_local(shared, i)
        } else {
            to_remote(shared, i)
        }) {
            kept_items(items.take(i), removed, shared, local).insert(items[i])
        } else {
            kept_items(items.take(i), removed, shared, local)
        },
{
    let next = items.take(i + 1);
    let prev = items.take(i);
    let picks = |k: int| !removed[k] && if local { to_local(shared, k) } else { to_remote(shared, k) };
    let expected = if picks(i) { kept_items(prev, removed, shared, local).insert(items[i]) } else { kept_items(prev, removed, shared, local) };
    assert forall|v: Seq<char>| kept_items(next, removed, shared, local).contains(v) <==> expected.contains(v) by {
        if kept_items(next, removed, shared, local).contains(v) {
            let k = choose|k: int| 0 <= k < next.len() && #[trigger] next[k] == v && picks(k);
            if k < i {
                assert(prev[k] == v);
            }
        }
        if kept_items(prev, removed, shared, local).contains(v) {
            let k = choose|k: int| 0 <= k < prev.len() && #[trigger] prev[k] == v && picks(k);
            assert(next[k] == v);
        }
        if picks(i) && v == items[i] {
            assert(next[i] == v);
        }
    }
    assert(kept_items(next, removed, shared, local) =~= expected);
}

/// Whether two add-wins states have the same insertions of the first `shared` drawn items, each
/// removed in both or in neither.
pub open spec fn same_shared_tags(a: AWState<Seq<char>>, b: AWState<Seq<char>>, items: Seq<Seq<char>>, removed: Seq<bool>, shared: int) -> bool {
    forall|t: u64, k: int|
        #![trigger tagged(a, t, items[k], removed[k])]
        #![trigger tagged(b, t, items[k], removed[k])]
        0 <= k < shared ==> (tagged(a, t, items[k], removed[k]) <==> tagged(b, t, items[k], removed[k]))
}

/// Whether a state keeps the insertions of the shared items of a common state, and every tag of
/// the common state.
#[verifier::opaque]
pub open spec fn keeps_common(s: AWState<Seq<char>>, c: AWState<Seq<char>>, items: Seq<Seq<char>>, removed: Seq<bool>, shared: int) -> bool {
    &&& same_shared_tags(s, c, items, removed, shared)
    &&& forall|t: u64| #[trigger] c.0.contains_key(t) ==> s.0.contains_key(t)
}

/// Inserting an item that is not shared, under a fresh tag, keeps what a state kept of the common
/// state.
proof fn lemma_keeps_common_step(
    s0: AWState<Seq<char>>,
    s1: AWState<Seq<char>>,
    c: AWState<Seq<char>>,
    items: Seq<Seq<char>>,
    removed: Seq<bool>,
    shared: int,
    j: int,
    t: u64,
)
    requires
        0 <= shared <= j < items.len(),
        items.len() == removed.len(),
        items.no_duplicates(),
        keeps_common(s0, c, items, removed, shared),
        !s0.0.contains_key(t),
        s1.0 == s0.0.insert(t, items[j]),
        s1.1 == (if removed[j] { s0.1.insert(t) } else { s0.1 }),
    ensures
        keeps_common(s1, c, items, removed, shared),
{
    reveal(keeps_common);
    assert forall|u: u64, k: int| 0 <= k < shared implies (tagged(s1, u, items[k], removed[k]) <==> tagged(c, u, items[k], removed[k])) by {
        if u == t {
            assert(items[j] != items[k]);
            if c.0.contains_key(u) {
                assert(s0.0.contains_key(u));
            }
        } else {
            assert(tagged(s1, u, items[k], removed[k]) <==> tagged(s0, u, items[k], removed[k]));
        }
    }
}

/// Two add-wins sets from `2 * len - shared` distinct items, of which the first `shared` go to
/// both sets and the others alternately to the local set and to the remote set; each item drawn
/// for removal is inserted and removed again. Each set holds exactly its items not drawn for
/// removal, and has one insertion per item, removed exactly where the item was drawn for removal.
pub fn awsets_with(len: usize, shared: usize, items: Vec<String>, removed: Vec<bool>) -> (r: (AWSet<String>, AWSet<String>))
    requires
        shared <= len,
        items@.len() == 2 * len - shared,
        removed@.len() == items@.len(),
        views(items@).no_duplicates(),
    ensures
        forall|v: Seq<char>| #[trigger] holds(r.0@, v) <==> kept_items(views(items@), removed@, shared as int, true).contains(v),
        forall|v: Seq<char>| #[trigger] holds(r.1@, v) <==> kept_items(views(items@), removed@, shared as int, false).contains(v),
        tags_match(r.0@, views(items@), removed@, shared as int, items@.len() as int, true),
        tags_match(r.1@, views(items@), removed@, shared as int, items@.len() as int, false),
        removals_known(r.0@),
        removals_known(r.1@),
        same_shared_tags(r.0@, r.1@, views(items@), removed@, shared as int),
{
    let ghost vs = views(items@);
    let mut common: AWSet<String> = AWSet::new();
    let mut i: usize = 0;
    proof {
        assert(kept_items(vs.take(0), removed@, shared as int, true) =~= Set::<Seq<char>>::empty());
        assert(kept_items(vs.take(0), removed@, shared as int, false) =~= Set::<Seq<char>>::empty());
        assert(common@.1.subset_of(common@.0.dom()));
        reveal(tags_match);
    }
    while i < shared
        invariant
            i <= shared <= items@.len(),
            removed@.len() == items@.len(),
            vs == views(items@),
            vs.no_duplicates(),
            removals_known(common@),
            forall|v: Seq<char>| #[trigger] holds(common@, v) <==> kept_items(vs.take(i as int), removed@, shared as int, true).contains(v),
            forall|v: Seq<char>| #[trigger] holds(common@, v) <==> kept_items(vs.take(i as int), removed@, shared as int, false).contains(v),
            tags_match(common@, vs, removed@, shared as int, i as int, true),
            tags_match(common@, vs, removed@, shared as int, i as int, false),
        decreases shared - i,
    {
        proof {
            lemma_kept_step(vs, removed@, i as int, shared as int, true);
            lemma_kept_step(vs, removed@, i as int, shared as int, false);
            lemma_tags_fresh(common@, vs, removed@, shared as int, i as int, true);
            assert(vs[i as int] == items@[i as int]@);
        }
        let ghost s0 = common@;
        insert_maybe_removed(&mut common, items[i].duplicate(), removed[i]);
        proof {
            let t = choose|t: u64| {
                &&& !s0.0.contains_key(t)
                &&& common@.0 == s0.0.insert(t, vs[i as int])
                &&& #[trigger] common@.1 == (if removed@[i as int] { s0.1.insert(t) } else { s0.1 })
            };
            lemma_tags_step(s0, common@, vs, removed@, shared as int, i as int, true, t);
            lemma_tags_step(s0, common@, vs, removed@, shared as int, i as int, false, t);
        }
        i = i + 1;
    }
    let mut local = common.clone();
    let ghost c = common@;
    let mut remote = common;
    proof {
        reveal(keeps_common);
    }
    while i < items.len()
        invariant
            keeps_common(local@, c, vs, removed@, shared as int),
            keeps_common(remote@, c, vs, removed@, shared as int),
            shared <= i <= items@.len(),
            removed@.len() == items@.len(),
            vs == views(items@),
            vs.no_duplicates(),
            removals_known(local@),
            removals_known(remote@),
            forall|v: Seq<char>| #[trigger] holds(local@, v) <==> kept_items(vs.take(i as int), removed@, shared as int, true).contains(v),
            forall|v: Seq<char>| #[trigger] holds(remote@, v) <==> kept_items(vs.take(i as int), removed@, shared as int, false).contains(v),
            tags_match(local@, vs, removed@, shared as int, i as int, true),
            tags_match(remote@, vs, removed@, shared as int, i as int, false),
        decreases items@.len() - i,
    {
        proof {
            lemma_kept_step(vs, removed@, i as int, shared as int, true);
            lemma_kept_step(vs, removed@, i as int, shared as int, false);
            lemma_tags_fresh(local@, vs, removed@, shared as int, i as int, true);
            lemma_tags_fresh(remote@, vs, removed@, shared as int, i as int, false);
            assert(vs[i as int] == items@[i as int]@);
        }
        let ghost l0 = local@;
        let ghost r0 = remote@;
        if (i - shared) % 2 == 0 {
            insert_maybe_removed(&mut local, items[i].duplicate(), removed[i]);
            proof {
                let t = choose|t: u64| {
                    &&& !l0.0.contains_key(t)
                    &&& local@.0 == l0.0.insert(t, vs[i as int])
                    &&& #[trigger] local@.1 == (if removed@[i as int] { l0.1.insert(t) } else { l0.1 })
                };
                lemma_tags_step(l0, local@, vs, removed@, shared as int, i as int, true, t);
                lemma_tags_step(r0, remote@, vs, removed@, shared as int, i as int, false, 0);
                lemma_keeps_common_step(l0, local@, c, vs, removed@, shared as int, i as int, t);
            }
        } else {
            insert_maybe_removed(&mut remote, items[i].duplicate(), removed[i]);
            proof {
                let t = choose|t: u64| {
                    &&& !r0.0.contains_key(t)
                    &&& remote@.0 == r0.0.insert(t, vs[i as int])
                    &&& #[trigger] remote@.1 == (if removed@[i as int] { r0.1.insert(t) } else { r0.1 })
                };
                lemma_tags_step(r0, remote@, vs, removed@, shared as int, i as int, false, t);
                lemma_tags_step(l0, local@, vs, removed@, shared as int, i as int, true, 0);
                lemma_keeps_common_step(r0, remote@, c, vs, removed@, shared as int, i as int, t);
            }
        }
        i = i + 1;
    }
    proof {
        assert(vs.take(vs.len() as int) =~= vs);
        reveal(keeps_common);
        assert forall|t: u64, k: int| 0 <= k < shared implies (tagged(local@, t, vs[k], removed@[k]) <==> tagged(remote@, t, vs[k], removed@[k])) by {
            assert(tagged(local@, t, vs[k], removed@[k]) <==> tagged(c, t, vs[k], removed@[k]));
            assert(tagged(remote@, t, vs[k], removed@[k]) <==> tagged(c, t, vs[k], removed@[k]));
        }
    }
    (local, remote)
}

} // verus!
