//! Causal contexts: the set of operations (dots) a replica has seen, kept as a per-replica
//! contiguous clock plus a cloud of the dots beyond it.

use vstd::prelude::*;

use crate::datum::{lemma_take_to_set_step, Datum};

use super::gcounter::{
    ahead_of, borrow_entries, entries_ahead, entries_equal, entry_keys, entry_map,
    lemma_entry_map, lemma_entry_map_witness, lemma_ref_entry_map, lemma_ref_entry_map_push,
    max_merge, merge_entries, position_of_entry, push_entry, ref_entry_keys, ref_entry_map,
    set_entry,
};
use super::gset::union_all;
use super::{Decompose, Extract, ExtractError};

verus! {

broadcast use {vstd::seq_lib::group_seq_properties, vstd::set::group_set_axioms, vstd::map::group_map_axioms};

/// A Dot is pair of the form (replica id, sequence number) that uniquely identifies an operation.
#[derive(Clone, Debug, Default, PartialEq, Eq, PartialOrd, Ord, Hash)]
pub struct Dot<I>(pub I, pub u64);

impl<I: View> View for Dot<I> {
    type V = (I::V, u64);

    open spec fn view(&self) -> (I::V, u64) {
        (self.0@, self.1)
    }
}

/// The views of a sequence of dots, in order.
pub open spec fn dot_views<I: View>(s: Seq<Dot<I>>) -> Seq<(I::V, u64)> {
    s.map_values(|d: Dot<I>| d@)
}

/// The views of a sequence of borrowed dots, in order.
pub open spec fn ref_dot_views<'a, I: View>(s: Seq<(&'a I, &'a u64)>) -> Seq<(I::V, u64)> {
    s.map_values(|p: (&'a I, &'a u64)| (p.0@, *p.1))
}

/// The dots that a clock and a cloud cover: every sequence number up to the clock of its
/// replica, and every dot of the cloud.
pub open spec fn covered<V>(clock: Map<V, u64>, cloud: Set<(V, u64)>) -> Set<(V, u64)> {
    Set::new(|d: (V, u64)| (clock.contains_key(d.0) && d.1 <= clock[d.0]) || cloud.contains(d))
}

/// The end of the run of consecutive dots of replica `i` in `cloud` that starts right after `c`.
pub open spec fn run_end<V>(cloud: Set<(V, u64)>, i: V, c: u64) -> u64
    decreases u64::MAX - c,
{
    if c < u64::MAX && cloud.contains((i, (c + 1) as u64)) {
        run_end(cloud, i, (c + 1) as u64)
    } else {
        c
    }
}

/// The clock after compression: each replica's clock advanced over the consecutive dots of the
/// cloud that follow it.
pub open spec fn compressed_clock<V>(clock: Map<V, u64>, cloud: Set<(V, u64)>) -> Map<V, u64> {
    Map::new(|i: V| clock.contains_key(i), |i: V| run_end(cloud, i, clock[i]))
}

/// The cloud after compression: the dots not covered by the compressed clock.
pub open spec fn compressed_cloud<V>(clock: Map<V, u64>, cloud: Set<(V, u64)>) -> Set<(V, u64)> {
    cloud.filter(
        |d: (V, u64)| !clock.contains_key(d.0) || d.1 > run_end(cloud, d.0, clock[d.0]),
    )
}

/// No dot of the cloud is covered by, or follows right after, the clock of its replica.
pub open spec fn is_compressed_state<V>(clock: Map<V, u64>, cloud: Set<(V, u64)>) -> bool {
    forall|d: (V, u64)|
        #[trigger] cloud.contains(d) ==> !(clock.contains_key(d.0) && d.1 <= clock[d.0] + 1)
}

/// The largest sequence number of replica `id` seen in a clock and a cloud, or 0.
pub open spec fn max_seq<V>(clock: Map<V, u64>, cloud: Set<(V, u64)>, id: V) -> u64 {
    choose|r: u64| is_max_of(clock, cloud, id, r)
}

/// Two numbers that are both the largest sequence number of a replica are the same.
pub proof fn lemma_max_unique<V>(clock: Map<V, u64>, cloud: Set<(V, u64)>, id: V, r: u64)
    requires
        is_max_of(clock, cloud, id, r),
    ensures
        max_seq(clock, cloud, id) == r,
{
    let q = max_seq(clock, cloud, id);
    assert(is_max_of(clock, cloud, id, q));
    if r != 0 && !(clock.contains_key(id) && clock[id] == r) {
        assert(cloud.contains((id, r)));
    }
    if q != 0 && !(clock.contains_key(id) && clock[id] == q) {
        assert(cloud.contains((id, q)));
    }
}

/// `r` is the largest sequence number of replica `id` seen in a clock and a cloud, or 0.
pub open spec fn is_max_of<V>(clock: Map<V, u64>, cloud: Set<(V, u64)>, id: V, r: u64) -> bool {
    &&& clock.contains_key(id) ==> clock[id] <= r
    &&& forall|n: u64| #[trigger] cloud.contains((id, n)) ==> n <= r
    &&& r == 0 || (clock.contains_key(id) && clock[id] == r) || cloud.contains((id, r))
}

/// A clock and a finite cloud have a largest sequence number for every replica.
pub proof fn lemma_max_exists<V>(clock: Map<V, u64>, cloud: Set<(V, u64)>, id: V)
    requires
        cloud.finite(),
    ensures
        exists|r: u64| is_max_of(clock, cloud, id, r),
    decreases cloud.len(),
{
    if cloud.len() == 0 {
        let r: u64 = if clock.contains_key(id) { clock[id] } else { 0 };
        assert(cloud =~= Set::<(V, u64)>::empty());
        assert(is_max_of(clock, cloud, id, r));
    } else {
        let d = cloud.choose();
        let rest = cloud.remove(d);
        lemma_max_exists(clock, rest, id);
        let r0 = choose|r: u64| is_max_of(clock, rest, id, r);
        if d.0 == id && d.1 > r0 {
            let r = d.1;
            assert forall|n: u64| #[trigger] cloud.contains((id, n)) implies n <= r by {
                if (id, n) != d {
                    assert(rest.contains((id, n)));
                }
            }
            assert(is_max_of(clock, cloud, id, r));
        } else {
            assert forall|n: u64| #[trigger] cloud.contains((id, n)) implies n <= r0 by {
                if (id, n) != d {
                    assert(rest.contains((id, n)));
                }
            }
            if r0 != 0 && !(clock.contains_key(id) && clock[id] == r0) {
                assert(rest.contains((id, r0)));
            }
            assert(is_max_of(clock, cloud, id, r0));
        }
    }
}

/// The largest sequence number of a replica depends only on the dots that a clock and a cloud
/// cover: two contexts that cover the same dots have the same largest sequence numbers.
pub proof fn law_max_follows_covered<V>(
    clock1: Map<V, u64>,
    cloud1: Set<(V, u64)>,
    clock2: Map<V, u64>,
    cloud2: Set<(V, u64)>,
    id: V,
)
    requires
        cloud1.finite(),
        covered(clock1, cloud1) == covered(clock2, cloud2),
    ensures
        max_seq(clock1, cloud1, id) == max_seq(clock2, cloud2, id),
{
    lemma_max_exists(clock1, cloud1, id);
    let q = max_seq(clock1, cloud1, id);
    assert(is_max_of(clock1, cloud1, id, q));
    let c1 = covered(clock1, cloud1);
    assert forall|n: u64| c1.contains((id, n)) implies n <= q by {
        if !(clock1.contains_key(id) && n <= clock1[id]) {
            assert(cloud1.contains((id, n)));
        }
    }
    if clock2.contains_key(id) {
        assert(c1.contains((id, clock2[id])));
    }
    assert forall|n: u64| #[trigger] cloud2.contains((id, n)) implies n <= q by {
        assert(c1.contains((id, n)));
    }
    if q != 0 {
        assert(c1.contains((id, q)));
        if !cloud2.contains((id, q)) {
            assert(clock2.contains_key(id) && q <= clock2[id]);
        }
    }
    assert(is_max_of(clock2, cloud2, id, q));
    lemma_max_unique(clock2, cloud2, id, q);
}

/// The run of consecutive dots ends where the next dot is missing.
pub proof fn lemma_run_end<V>(cloud: Set<(V, u64)>, i: V, c: u64)
    ensures
        c <= run_end(cloud, i, c),
        run_end(cloud, i, c) < u64::MAX ==> !cloud.contains((i, (run_end(cloud, i, c) + 1) as u64)),
        forall|n: u64| c < n <= run_end(cloud, i, c) ==> cloud.contains((i, n)),
        run_end(cloud, i, c) == c || cloud.contains((i, run_end(cloud, i, c))),
    decreases u64::MAX - c,
{
    if c < u64::MAX && cloud.contains((i, (c + 1) as u64)) {
        lemma_run_end(cloud, i, (c + 1) as u64);
        assert forall|n: u64| c < n <= run_end(cloud, i, c) implies cloud.contains((i, n)) by {
            if n > c + 1 {
            }
        }
    }
}

/// Compressing keeps the covered dots and leaves a compressed state.
pub proof fn lemma_compress_covered<V>(clock: Map<V, u64>, cloud: Set<(V, u64)>)
    ensures
        covered(compressed_clock(clock, cloud), compressed_cloud(clock, cloud)) == covered(clock, cloud),
        is_compressed_state(compressed_clock(clock, cloud), compressed_cloud(clock, cloud)),
{
    let nc = compressed_clock(clock, cloud);
    let nd = compressed_cloud(clock, cloud);
    assert forall|d: (V, u64)| covered(nc, nd).contains(d) <==> covered(clock, cloud).contains(d) by {
        if clock.contains_key(d.0) {
            lemma_run_end(cloud, d.0, clock[d.0]);
        }
    }
    assert(covered(nc, nd) =~= covered(clock, cloud));
    assert forall|d: (V, u64)| #[trigger] nd.contains(d) implies !(nc.contains_key(d.0) && d.1 <= nc[d.0] + 1) by {
        if nc.contains_key(d.0) {
            lemma_run_end(cloud, d.0, clock[d.0]);
            if d.1 == nc[d.0] + 1 {
                assert(cloud.contains((d.0, (run_end(cloud, d.0, clock[d.0]) + 1) as u64)));
            }
        }
    }
}

/// Compressing a compressed context changes nothing: its clock and its cloud stay as they are.
pub proof fn law_compress_idempotent<V>(clock: Map<V, u64>, cloud: Set<(V, u64)>)
    requires
        is_compressed_state(clock, cloud),
    ensures
        compressed_clock(clock, cloud) == clock,
        compressed_cloud(clock, cloud) == cloud,
{
    assert forall|i: V| clock.contains_key(i) implies run_end(cloud, i, clock[i]) == clock[i] by {
        if clock[i] < u64::MAX {
            assert(!cloud.contains((i, (clock[i] + 1) as u64)));
        }
    }
    assert(compressed_clock(clock, cloud) =~= clock);
    assert(compressed_cloud(clock, cloud) =~= cloud);
}

/// A causal context: for each replica, every sequence number up to its clock, plus a cloud of
/// dots that are not contiguous with the clock yet.
///
/// Its state is modelled by the set of the dots it covers; `clock_map` and `cloud_set` give its
/// two parts.
#[derive(Debug)]
pub struct DotContext<I: View> {
    clock: Vec<(I, u64)>,
    cloud: Vec<Dot<I>>,
}

/// A read-only view into clock entries and dots of a [`DotContext`].
#[derive(Debug)]
pub struct Delta<'a, I: View> {
    ctx: &'a DotContext<I>,
    clock: Vec<(&'a I, &'a u64)>,
    cloud: Vec<(&'a I, &'a u64)>,
}

/// A single piece of a causal context: a clock entry or a dot of the cloud.
#[derive(Clone, Debug, Hash)]
pub enum DotKind<'a, I> {
    Clock(&'a I, &'a u64),
    Cloud(&'a I, &'a u64),
}

impl<I: View> DotContext<I> {
    /// The clock: the largest contiguous sequence number of each replica.
    pub closed spec fn clock_map(&self) -> Map<I::V, u64> {
        entry_map(self.clock@)
    }

    /// The cloud: the dots beyond the clock.
    pub closed spec fn cloud_set(&self) -> Set<(I::V, u64)> {
        dot_views(self.cloud@).to_set()
    }

    #[verifier::type_invariant]
    spec fn inv(self) -> bool {
        &&& entry_keys(self.clock@).no_duplicates()
        &&& dot_views(self.cloud@).no_duplicates()
    }

    proof fn lemma_wf(&self)
        requires
            entry_keys(self.clock@).no_duplicates(),
            dot_views(self.cloud@).no_duplicates(),
        ensures
            self.clock_map().dom().finite(),
            self.clock_map().dom().len() == self.clock@.len(),
            self.clock_map().dom() == entry_keys(self.clock@).to_set(),
            forall|k: int| 0 <= k < self.clock@.len() ==> self.clock_map()[(#[trigger] self.clock@[k]).0@] == self.clock@[k].1,
            self.cloud_set().finite(),
            self.cloud_set().len() == self.cloud@.len(),
    {
        lemma_entry_map(self.clock@);
        dot_views(self.cloud@).unique_seq_to_set();
        vstd::seq_lib::seq_to_set_is_finite(dot_views(self.cloud@));
    }
}

impl<I: View> View for DotContext<I> {
    type V = Set<(I::V, u64)>;

    open spec fn view(&self) -> Set<(I::V, u64)> {
        covered(self.clock_map(), self.cloud_set())
    }
}

impl<'a, I: View> Delta<'a, I> {
    /// The clock entries of the delta.
    pub closed spec fn clock_map(&self) -> Map<I::V, u64> {
        ref_entry_map(self.clock@)
    }

    /// The dots of the delta.
    pub closed spec fn cloud_set(&self) -> Set<(I::V, u64)> {
        ref_dot_views(self.cloud@).to_set()
    }

    #[verifier::type_invariant]
    spec fn inv(self) -> bool {
        &&& ref_entry_keys(self.clock@).no_duplicates()
        &&& ref_dot_views(self.cloud@).no_duplicates()
    }

    /// A delta of `ctx` with nothing in it.
    pub fn empty_with(ctx: &'a DotContext<I>) -> (r: Self)
        ensures
            r.clock_map() == Map::<I::V, u64>::empty(),
            r.cloud_set() == Set::<(I::V, u64)>::empty(),
            r@ == Set::<(I::V, u64)>::empty(),
    {
        let r = Delta { ctx, clock: Vec::new(), cloud: Vec::new() };
        proof {
            assert(r.clock_map() =~= Map::<I::V, u64>::empty());
            assert(r.cloud_set() =~= Set::<(I::V, u64)>::empty());
            assert(r@ =~= Set::<(I::V, u64)>::empty());
        }
        r
    }

    /// The number of clock entries and dots of the delta.
    pub fn len(&self) -> (r: usize)
        requires
            self.clock_map().dom().len() + self.cloud_set().len() <= usize::MAX,
        ensures
            r == self.clock_map().dom().len() + self.cloud_set().len(),
    {
        proof {
            use_type_invariant(self);
            lemma_ref_entry_map(self.clock@);
            ref_dot_views(self.cloud@).unique_seq_to_set();
        }
        self.clock.len() + self.cloud.len()
    }
}

impl<'a, I: View> View for Delta<'a, I> {
    type V = Set<(I::V, u64)>;

    open spec fn view(&self) -> Set<(I::V, u64)> {
        covered(self.clock_map(), self.cloud_set())
    }
}

/// Returns `true` if `cloud` holds the dot `(id, n)`.
fn has_dot<I: Datum>(cloud: &Vec<Dot<I>>, id: &I, n: u64) -> (r: bool)
    ensures
        r == dot_views(cloud@).contains((id@, n)),
{
    let mut i: usize = 0;
    while i < cloud.len()
        invariant
            i <= cloud@.len(),
            forall|j: int| 0 <= j < i ==> cloud@[j]@ != (id@, n),
        decreases cloud@.len() - i,
    {
        if cloud[i].1 == n && cloud[i].0.same(id) {
            assert(dot_views(cloud@)[i as int] == (id@, n));
            return true;
        }
        i = i + 1;
    }
    assert forall|k: int| 0 <= k < dot_views(cloud@).len() implies dot_views(cloud@)[k] != (id@, n) by {
        assert(dot_views(cloud@)[k] == cloud@[k]@);
    }
    false
}

/// Appends a dot that a list of dots lacks.
fn push_dot<I: View>(dots: &mut Vec<Dot<I>>, dot: Dot<I>)
    requires
        dot_views(old(dots)@).no_duplicates(),
        !dot_views(old(dots)@).contains(dot@),
    ensures
        dot_views(final(dots)@).no_duplicates(),
        dot_views(final(dots)@).to_set() == dot_views(old(dots)@).to_set().insert(dot@),
{
    let ghost before = dots@;
    dots.push(dot);
    proof {
        assert(dot_views(dots@) =~= dot_views(before).push(dot@));
        assert forall|a: int, b: int|
            0 <= a < dot_views(dots@).len() && 0 <= b < dot_views(dots@).len() && a != b
            implies dot_views(dots@)[a] != dot_views(dots@)[b] by {
            if a < before.len() && b < before.len() {
                assert(dot_views(before)[a] != dot_views(before)[b]);
            } else if a < before.len() {
                assert(dot_views(before)[a] == dot_views(dots@)[a]);
            } else {
                assert(dot_views(before)[b] == dot_views(dots@)[b]);
            }
        }
        assert(dot_views(dots@).to_set() =~= dot_views(before).to_set().insert(dot@));
    }
}


/// Joins the clocks of `parts` into `start`, in order.
pub open spec fn clocks_merged<V>(start: Map<V, u64>, parts: Seq<Map<V, u64>>) -> Map<V, u64>
    decreases parts.len(),
{
    if parts.len() == 0 {
        start
    } else {
        max_merge(clocks_merged(start, parts.drop_last()), parts.last())
    }
}

/// Adds the clouds of `parts` to `start`.
pub open spec fn clouds_merged<V>(start: Set<(V, u64)>, parts: Seq<Set<(V, u64)>>) -> Set<(V, u64)>
    decreases parts.len(),
{
    if parts.len() == 0 {
        start
    } else {
        clouds_merged(start, parts.drop_last()).union(parts.last())
    }
}

/// The dots of the join of two clocks and clouds are the dots of both.
pub proof fn lemma_covered_merge<V>(a: Map<V, u64>, c1: Set<(V, u64)>, b: Map<V, u64>, c2: Set<(V, u64)>)
    ensures
        covered(max_merge(a, b), c1.union(c2)) == covered(a, c1).union(covered(b, c2)),
{
    assert(covered(max_merge(a, b), c1.union(c2)) =~= covered(a, c1).union(covered(b, c2)));
}

/// The dots of merged clocks and clouds are the union of the dots of each part.
pub proof fn lemma_covered_merged<'a, I: View>(clock: Map<I::V, u64>, cloud: Set<(I::V, u64)>, parts: Seq<Delta<'a, I>>)
    ensures
        covered(
            clocks_merged(clock, parts.map_values(|d: Delta<'a, I>| d.clock_map())),
            clouds_merged(cloud, parts.map_values(|d: Delta<'a, I>| d.cloud_set())),
        ) == union_all(covered(clock, cloud), parts.map_values(|d: Delta<'a, I>| d@)),
    decreases parts.len(),
{
    if parts.len() > 0 {
        let q = parts.drop_last();
        assert(parts.map_values(|d: Delta<'a, I>| d.clock_map()).drop_last() =~= q.map_values(|d: Delta<'a, I>| d.clock_map()));
        assert(parts.map_values(|d: Delta<'a, I>| d.cloud_set()).drop_last() =~= q.map_values(|d: Delta<'a, I>| d.cloud_set()));
        assert(parts.map_values(|d: Delta<'a, I>| d@).drop_last() =~= q.map_values(|d: Delta<'a, I>| d@));
        lemma_covered_merged(clock, cloud, q);
        lemma_covered_merge(
            clocks_merged(clock, q.map_values(|d: Delta<'a, I>| d.clock_map())),
            clouds_merged(cloud, q.map_values(|d: Delta<'a, I>| d.cloud_set())),
            parts.last().clock_map(),
            parts.last().cloud_set(),
        );
    }
}

impl<I: Datum> DotContext<I> {
    /// Creates an empty context.
    pub fn new() -> (r: Self)
        ensures
            r.clock_map() == Map::<I::V, u64>::empty(),
            r.cloud_set() == Set::<(I::V, u64)>::empty(),
            r@ == Set::<(I::V, u64)>::empty(),
    {
        let r = DotContext { clock: Vec::new(), cloud: Vec::new() };
        assert(r.cloud_set() =~= Set::<(I::V, u64)>::empty());
        assert(r@ =~= Set::<(I::V, u64)>::empty());
        r
    }

    /// A context with the clock entries of `clock` (a later entry replacing an earlier one of
    /// the same replica) and the dots of `cloud`.
    pub fn from_parts(clock: Vec<(I, u64)>, cloud: Vec<Dot<I>>) -> (r: Self)
        ensures
            r.clock_map() == entry_map(clock@),
            r.cloud_set() == dot_views(cloud@).to_set(),
    {
        let mut clk: Vec<(I, u64)> = Vec::new();
        let mut i: usize = 0;
        assert(clock@.take(0) =~= Seq::<(I, u64)>::empty());
        while i < clock.len()
            invariant
                i <= clock@.len(),
                entry_keys(clk@).no_duplicates(),
                entry_map(clk@) == entry_map(clock@.take(i as int)),
            decreases clock@.len() - i,
        {
            proof {
                assert(clock@.take(i + 1).drop_last() =~= clock@.take(i as int));
            }
            match position_of_entry(&clk, &clock[i].0) {
                Some(k) => set_entry(&mut clk, k, clock[i].1),
                None => push_entry(&mut clk, clock[i].0.duplicate(), clock[i].1),
            }
            i = i + 1;
        }
        assert(clock@.take(clock@.len() as int) =~= clock@);
        let mut cld: Vec<Dot<I>> = Vec::new();
        let mut j: usize = 0;
        assert(dot_views(cloud@).take(0).to_set() =~= Set::<(I::V, u64)>::empty());
        while j < cloud.len()
            invariant
                j <= cloud@.len(),
                dot_views(cld@).no_duplicates(),
                dot_views(cld@).to_set() == dot_views(cloud@).take(j as int).to_set(),
            decreases cloud@.len() - j,
        {
            proof {
                assert(dot_views(cloud@)[j as int] == cloud@[j as int]@);
                lemma_take_to_set_step(dot_views(cloud@), j as int);
            }
            if !has_dot(&cld, &cloud[j].0, cloud[j].1) {
                push_dot(&mut cld, Dot(cloud[j].0.duplicate(), cloud[j].1));
            }
            assert(dot_views(cld@).to_set() =~= dot_views(cloud@).take(j + 1).to_set());
            j = j + 1;
        }
        assert(dot_views(cloud@).take(cloud@.len() as int) =~= dot_views(cloud@));
        DotContext { clock: clk, cloud: cld }
    }

    /// Returns `true` if both the clock and the cloud are empty.
    pub fn is_empty(&self) -> (r: bool)
        ensures
            r == (self.clock_map().dom().len() == 0 && self.cloud_set().len() == 0),
    {
        proof {
            use_type_invariant(self);
            self.lemma_wf();
        }
        self.clock.len() == 0 && self.cloud.len() == 0
    }

    /// The clock of replica `id`, if it has one.
    fn clock_of(&self, id: &I) -> (r: Option<u64>)
        ensures
            r == (if self.clock_map().contains_key(id@) { Some(self.clock_map()[id@]) } else { None::<u64> }),
    {
        proof {
            use_type_invariant(self);
            self.lemma_wf();
        }
        match position_of_entry(&self.clock, id) {
            Some(k) => Some(self.clock[k].1),
            None => None,
        }
    }

    /// Returns `true` if no dot of the cloud is covered by, or follows right after, the clock of
    /// its replica.
    pub fn is_compressed(&self) -> (r: bool)
        ensures
            r == is_compressed_state(self.clock_map(), self.cloud_set()),
    {
        let mut i: usize = 0;
        while i < self.cloud.len()
            invariant
                i <= self.cloud@.len(),
                forall|k: int| 0 <= k < i ==> !(self.clock_map().contains_key(#[trigger] self.cloud@[k].0@) && self.cloud@[k].1 <= self.clock_map()[self.cloud@[k].0@] + 1),
            decreases self.cloud@.len() - i,
        {
            let n = self.cloud[i].1;
            match self.clock_of(&self.cloud[i].0) {
                Some(c) => {
                    if c == u64::MAX || n <= c + 1 {
                        proof {
                            assert(dot_views(self.cloud@)[i as int] == self.cloud@[i as int]@);
                            assert(self.cloud_set().contains(self.cloud@[i as int]@));
                        }
                        return false;
                    }
                },
                None => {},
            }
            i = i + 1;
        }
        proof {
            assert forall|d: (I::V, u64)| #[trigger] self.cloud_set().contains(d) implies !(self.clock_map().contains_key(d.0) && d.1 <= self.clock_map()[d.0] + 1) by {
                let k = choose|k: int| 0 <= k < dot_views(self.cloud@).len() && #[trigger] dot_views(self.cloud@)[k] == d;
                assert(self.cloud@[k]@ == d);
            }
        }
        true
    }

    /// The largest sequence number of replica `id` in the clock or the cloud, or 0.
    pub fn max(&self, id: &I) -> (r: u64)
        ensures
            is_max_of(self.clock_map(), self.cloud_set(), id@, r),
            r == self.max_of(id@),
    {
        let lower = match self.clock_of(id) {
            Some(c) => c,
            None => 0,
        };
        let mut upper: u64 = 0;
        let mut i: usize = 0;
        while i < self.cloud.len()
            invariant
                i <= self.cloud@.len(),
                forall|k: int| 0 <= k < i && (#[trigger] self.cloud@[k]).0@ == id@ ==> self.cloud@[k].1 <= upper,
                upper == 0 || self.cloud_set().contains((id@, upper)),
            decreases self.cloud@.len() - i,
        {
            if self.cloud[i].0.same(id) && self.cloud[i].1 > upper {
                upper = self.cloud[i].1;
                proof {
                    assert(dot_views(self.cloud@)[i as int] == self.cloud@[i as int]@);
                }
            }
            i = i + 1;
        }
        proof {
            assert forall|n: u64| #[trigger] self.cloud_set().contains((id@, n)) implies n <= upper by {
                let k = choose|k: int| 0 <= k < dot_views(self.cloud@).len() && #[trigger] dot_views(self.cloud@)[k] == (id@, n);
                assert(self.cloud@[k]@ == (id@, n));
            }
        }
        let r = if lower >= upper { lower } else { upper };
        proof {
            lemma_max_unique(self.clock_map(), self.cloud_set(), id@, r);
        }
        r
    }

    /// Returns `true` if the context covers `dot`.
    pub fn contains(&self, dot: &Dot<I>) -> (r: bool)
        ensures
            r == self@.contains(dot@),
    {
        proof {
            use_type_invariant(self);
        }
        let in_clock = match self.clock_of(&dot.0) {
            Some(c) => dot.1 <= c,
            None => false,
        };
        in_clock || has_dot(&self.cloud, &dot.0, dot.1)
    }

    /// References to every clock entry.
    fn borrow_clock(&self) -> (r: Vec<(&I, &u64)>)
        ensures
            ref_entry_keys(r@).no_duplicates(),
            ref_entry_map(r@) == self.clock_map(),
    {
        proof {
            use_type_invariant(self);
        }
        borrow_entries(&self.clock)
    }

    /// References to every dot of the cloud.
    fn borrow_cloud(&self) -> (r: Vec<(&I, &u64)>)
        ensures
            ref_dot_views(r@).no_duplicates(),
            ref_dot_views(r@).to_set() == self.cloud_set(),
    {
        proof {
            use_type_invariant(self);
        }
        let mut elems: Vec<(&I, &u64)> = Vec::new();
        let mut i: usize = 0;
        while i < self.cloud.len()
            invariant
                i <= self.cloud@.len(),
                ref_dot_views(elems@) == dot_views(self.cloud@).take(i as int),
            decreases self.cloud@.len() - i,
        {
            let ghost before = elems@;
            let dot = &self.cloud[i];
            elems.push((&dot.0, &dot.1));
            proof {
                assert(elems@ =~= before.push((&dot.0, &dot.1)));
                assert(ref_dot_views(elems@) =~= ref_dot_views(before).push(self.cloud@[i as int]@));
                assert(dot_views(self.cloud@).take(i + 1) =~= dot_views(self.cloud@).take(i as int).push(self.cloud@[i as int]@));
            }
            i = i + 1;
        }
        assert(dot_views(self.cloud@).take(self.cloud@.len() as int) =~= dot_views(self.cloud@));
        elems
    }

    /// The largest sequence number of replica `id` in the clock or the cloud, or 0.
    pub open spec fn max_of(&self, id: I::V) -> u64 {
        max_seq(self.clock_map(), self.cloud_set(), id)
    }

    /// A delta that contains the entire context.
    pub fn as_delta(&self) -> (r: Delta<'_, I>)
        ensures
            r.clock_map() == self.clock_map(),
            r.cloud_set() == self.cloud_set(),
            r@ == self@,
    {
        Delta { ctx: self, clock: self.borrow_clock(), cloud: self.borrow_cloud() }
    }

    /// Advances the clock of replica `id` by one (starting it at 1) and returns a delta with the
    /// new clock entry.
    pub fn next(&mut self, id: &I) -> (r: Delta<'_, I>)
        requires
            old(self).clock_map().contains_key(id@) ==> old(self).clock_map()[id@] < u64::MAX,
        ensures
            final(self).clock_map() == old(self).clock_map().insert(
                id@,
                if old(self).clock_map().contains_key(id@) {
                    (old(self).clock_map()[id@] + 1) as u64
                } else {
                    1u64
                },
            ),
            final(self).cloud_set() == old(self).cloud_set(),
            r.clock_map() == map![id@ => final(self).clock_map()[id@]],
            r.cloud_set() == Set::<(I::V, u64)>::empty(),
    {
        proof {
            use_type_invariant(&*self);
            self.lemma_wf();
        }
        let mut clock = Vec::new();
        std::mem::swap(&mut clock, &mut self.clock);
        let k = match position_of_entry(&clock, id) {
            Some(k) => {
                let c = clock[k].1;
                set_entry(&mut clock, k, c + 1);
                k
            },
            None => {
                push_entry(&mut clock, id.duplicate(), 1);
                clock.len() - 1
            },
        };
        self.clock = clock;
        proof {
            use_type_invariant(&*self);
            self.lemma_wf();
        }
        let entry = &self.clock[k];
        let mut elems: Vec<(&I, &u64)> = Vec::new();
        elems.push((&entry.0, &entry.1));
        proof {
            lemma_ref_entry_map_push(Seq::empty(), (&entry.0, &entry.1));
            assert(Seq::<(&I, &u64)>::empty().push((&entry.0, &entry.1)) =~= elems@);
            assert(ref_entry_map(elems@) =~= map![id@ => self.clock_map()[id@]]);
        }
        let r = Delta { ctx: &*self, clock: elems, cloud: Vec::new() };
        assert(r.cloud_set() =~= Set::<(I::V, u64)>::empty());
        r
    }

    /// Moves into the clock every dot of the cloud that continues it, and drops the dots that the
    /// clock covers.
    pub fn compress(&mut self)
        ensures
            final(self).clock_map() == compressed_clock(old(self).clock_map(), old(self).cloud_set()),
            final(self).cloud_set() == compressed_cloud(old(self).clock_map(), old(self).cloud_set()),
            final(self)@ == old(self)@,
            is_compressed_state(final(self).clock_map(), final(self).cloud_set()),
            forall|id: I::V| #[trigger] final(self).max_of(id) == old(self).max_of(id),
    {
        proof {
            use_type_invariant(&*self);
            self.lemma_wf();
            lemma_compress_covered(self.clock_map(), self.cloud_set());
        }
        let ghost cloud_set = self.cloud_set();
        let ghost start = self.clock@;
        let ghost start_map = self.clock_map();
        let mut clock = Vec::new();
        std::mem::swap(&mut clock, &mut self.clock);
        let mut k: usize = 0;
        while k < clock.len()
            invariant
                k <= clock@.len(),
                clock@.len() == start.len(),
                entry_keys(clock@) == entry_keys(start),
                entry_keys(start).no_duplicates(),
                cloud_set == dot_views(self.cloud@).to_set(),
                forall|j: int| 0 <= j < k ==> (#[trigger] clock@[j]).1 == run_end(cloud_set, start[j].0@, start[j].1) && clock@[j].0 == start[j].0,
                forall|j: int| k <= j < clock@.len() ==> #[trigger] clock@[j] == start[j],
            decreases clock@.len() - k,
        {
            let mut c = clock[k].1;
            while c < u64::MAX && has_dot(&self.cloud, &clock[k].0, c + 1)
                invariant
                    k < clock@.len(),
                    clock@.len() == start.len(),
                    clock@[k as int] == start[k as int],
                    cloud_set == dot_views(self.cloud@).to_set(),
                    run_end(cloud_set, start[k as int].0@, c) == run_end(cloud_set, start[k as int].0@, start[k as int].1),
                decreases u64::MAX - c,
            {
                c = c + 1;
            }
            proof {
                assert(run_end(cloud_set, start[k as int].0@, c) == c);
            }
            let ghost before = clock@;
            set_entry(&mut clock, k, c);
            proof {
                assert forall|j: int| 0 <= j < k + 1 implies (#[trigger] clock@[j]).1 == run_end(cloud_set, start[j].0@, start[j].1) && clock@[j].0 == start[j].0 by {
                    if j < k {
                        assert(clock@[j] == before[j]);
                    }
                }
                assert forall|j: int| k + 1 <= j < clock@.len() implies #[trigger] clock@[j] == start[j] by {
                    assert(clock@[j] == before[j]);
                }
            }
            k = k + 1;
        }
        proof {
            lemma_entry_map(clock@);
            lemma_entry_map(start);
            assert(entry_map(clock@) =~= compressed_clock(start_map, cloud_set)) by {
                assert forall|t: I::V| #[trigger] entry_map(clock@).contains_key(t) implies entry_map(clock@)[t] == compressed_clock(start_map, cloud_set)[t] by {
                    let j = lemma_entry_map_witness(clock@, t);
                    assert(entry_keys(clock@)[j] == entry_keys(start)[j]);
                    assert(start[j].0@ == t);
                    lemma_entry_map_witness(start, t);
                }
            }
        }
        let mut cloud: Vec<Dot<I>> = Vec::new();
        let mut i: usize = 0;
        let ghost new_map = entry_map(clock@);
        let ghost cc = compressed_cloud(start_map, cloud_set);
        assert(dot_views(self.cloud@).take(0).to_set() =~= Set::<(I::V, u64)>::empty());
        assert(dot_views(cloud@).to_set() =~= Set::<(I::V, u64)>::empty());
        while i < self.cloud.len()
            invariant
                i <= self.cloud@.len(),
                entry_keys(clock@).no_duplicates(),
                new_map == entry_map(clock@),
                new_map == compressed_clock(start_map, cloud_set),
                cc == compressed_cloud(start_map, cloud_set),
                cloud_set == dot_views(self.cloud@).to_set(),
                dot_views(self.cloud@).no_duplicates(),
                dot_views(cloud@).no_duplicates(),
                dot_views(cloud@).to_set() == dot_views(self.cloud@).take(i as int).to_set().intersect(cc),
            decreases self.cloud@.len() - i,
        {
            let ghost d = self.cloud@[i as int]@;
            proof {
                assert(dot_views(self.cloud@)[i as int] == d);
                assert(cloud_set.contains(d));
                lemma_take_to_set_step(dot_views(self.cloud@), i as int);
                assert(!dot_views(self.cloud@).take(i as int).to_set().contains(d)) by {
                    if dot_views(self.cloud@).take(i as int).contains(d) {
                        let m = choose|m: int| 0 <= m < i && #[trigger] dot_views(self.cloud@).take(i as int)[m] == d;
                        assert(dot_views(self.cloud@)[m] == dot_views(self.cloud@)[i as int]);
                    }
                }
                lemma_entry_map(clock@);
            }
            let keep = match position_of_entry(&clock, &self.cloud[i].0) {
                Some(p) => self.cloud[i].1 > clock[p].1,
                None => true,
            };
            proof {
                assert(new_map.contains_key(d.0) <==> start_map.contains_key(d.0));
                if new_map.contains_key(d.0) {
                    assert(entry_keys(clock@).contains(d.0)) by {
                        assert(entry_map(clock@).dom().contains(d.0));
                    }
                    assert(new_map[d.0] == run_end(cloud_set, d.0, start_map[d.0]));
                }
                assert(keep <==> cc.contains(d));
            }
            if keep {
                proof {
                    assert(!dot_views(cloud@).to_set().contains(d));
                }
                push_dot(&mut cloud, Dot(self.cloud[i].0.duplicate(), self.cloud[i].1));
            }
            assert(dot_views(cloud@).to_set() =~= dot_views(self.cloud@).take(i + 1).to_set().intersect(cc));
            i = i + 1;
        }
        proof {
            assert(dot_views(self.cloud@).take(self.cloud@.len() as int) =~= dot_views(self.cloud@));
            assert(cloud_set.intersect(cc) =~= cc);
        }
        self.clock = clock;
        self.cloud = cloud;
        proof {
            assert(self@ == old(self)@);
            assert forall|id: I::V| #[trigger] self.max_of(id) == old(self).max_of(id) by {
                law_max_follows_covered(old(self).clock_map(), old(self).cloud_set(), self.clock_map(), self.cloud_set(), id);
            }
        }
    }
}

/// Adds to a list of dots every borrowed dot of `add` that it lacks.
fn merge_dots<I: Datum>(cloud: &mut Vec<Dot<I>>, add: &Vec<(&I, &u64)>)
    requires
        dot_views(old(cloud)@).no_duplicates(),
    ensures
        dot_views(final(cloud)@).no_duplicates(),
        dot_views(final(cloud)@).to_set() == dot_views(old(cloud)@).to_set().union(ref_dot_views(add@).to_set()),
{
    let ghost start = dot_views(cloud@).to_set();
    assert(ref_dot_views(add@).take(0).to_set() =~= Set::<(I::V, u64)>::empty());
    assert(start.union(Set::<(I::V, u64)>::empty()) =~= start);
    let mut j: usize = 0;
    while j < add.len()
        invariant
            j <= add@.len(),
            dot_views(cloud@).no_duplicates(),
            dot_views(cloud@).to_set() == start.union(ref_dot_views(add@).take(j as int).to_set()),
        decreases add@.len() - j,
    {
        let (id, n) = add[j];
        proof {
            lemma_take_to_set_step(ref_dot_views(add@), j as int);
            assert(ref_dot_views(add@)[j as int] == (id@, *n));
        }
        if !has_dot(&*cloud, id, *n) {
            push_dot(cloud, Dot(id.duplicate(), *n));
        }
        assert(dot_views(cloud@).to_set() =~= start.union(ref_dot_views(add@).take(j + 1).to_set()));
        j = j + 1;
    }
    assert(ref_dot_views(add@).take(add@.len() as int) =~= ref_dot_views(add@));
}

/// Returns `true` if two lists of distinct dots hold the same dots.
fn dots_equal<I: Datum>(a: &Vec<Dot<I>>, b: &Vec<Dot<I>>) -> (r: bool)
    requires
        dot_views(a@).no_duplicates(),
        dot_views(b@).no_duplicates(),
    ensures
        r == (dot_views(a@).to_set() == dot_views(b@).to_set()),
{
    let ghost sa = dot_views(a@).to_set();
    let ghost sb = dot_views(b@).to_set();
    proof {
        dot_views(a@).unique_seq_to_set();
        dot_views(b@).unique_seq_to_set();
        vstd::seq_lib::seq_to_set_is_finite(dot_views(a@));
        vstd::seq_lib::seq_to_set_is_finite(dot_views(b@));
    }
    if a.len() != b.len() {
        return false;
    }
    let mut i: usize = 0;
    while i < a.len()
        invariant
            i <= a@.len(),
            sa == dot_views(a@).to_set(),
            sb == dot_views(b@).to_set(),
            forall|k: int| 0 <= k < i ==> sb.contains(#[trigger] dot_views(a@)[k]),
        decreases a@.len() - i,
    {
        proof {
            assert(dot_views(a@)[i as int] == a@[i as int]@);
        }
        if !has_dot(b, &a[i].0, a[i].1) {
            proof {
                assert(sa.contains(dot_views(a@)[i as int]));
            }
            return false;
        }
        i = i + 1;
    }
    proof {
        assert forall|x: (I::V, u64)| sa.contains(x) implies sb.contains(x) by {
            let k = choose|k: int| 0 <= k < dot_views(a@).len() && #[trigger] dot_views(a@)[k] == x;
        }
        vstd::set_lib::lemma_subset_equality(sa, sb);
    }
    true
}

/// The dots of `local` that `remote` lacks, borrowed.
fn dots_missing<'a, I: Datum>(local: &'a Vec<Dot<I>>, remote: &Vec<Dot<I>>) -> (r: Vec<(&'a I, &'a u64)>)
    requires
        dot_views(local@).no_duplicates(),
    ensures
        ref_dot_views(r@).no_duplicates(),
        ref_dot_views(r@).to_set() == dot_views(local@).to_set().difference(dot_views(remote@).to_set()),
{
    let ghost rs = dot_views(remote@).to_set();
    let mut elems: Vec<(&I, &u64)> = Vec::new();
    let mut i: usize = 0;
    assert(dot_views(local@).take(0).to_set() =~= Set::<(I::V, u64)>::empty());
    assert(ref_dot_views(elems@).to_set() =~= Set::<(I::V, u64)>::empty());
    while i < local.len()
        invariant
            i <= local@.len(),
            rs == dot_views(remote@).to_set(),
            dot_views(local@).no_duplicates(),
            ref_dot_views(elems@).no_duplicates(),
            ref_dot_views(elems@).to_set() == dot_views(local@).take(i as int).to_set().difference(rs),
        decreases local@.len() - i,
    {
        let ghost d = local@[i as int]@;
        proof {
            assert(dot_views(local@)[i as int] == d);
            lemma_take_to_set_step(dot_views(local@), i as int);
            assert(!dot_views(local@).take(i as int).to_set().contains(d)) by {
                if dot_views(local@).take(i as int).contains(d) {
                    let m = choose|m: int| 0 <= m < i && #[trigger] dot_views(local@).take(i as int)[m] == d;
                    assert(dot_views(local@)[m] == dot_views(local@)[i as int]);
                }
            }
        }
        let dot = &local[i];
        if !has_dot(remote, &dot.0, dot.1) {
            let ghost before = elems@;
            elems.push((&dot.0, &dot.1));
            proof {
                assert(elems@ =~= before.push((&dot.0, &dot.1)));
                assert(ref_dot_views(elems@) =~= ref_dot_views(before).push(d));
                assert(!ref_dot_views(before).contains(d)) by {
                    if ref_dot_views(before).contains(d) {
                        assert(ref_dot_views(before).to_set().contains(d));
                    }
                }
                assert forall|a: int, b: int|
                    0 <= a < ref_dot_views(elems@).len() && 0 <= b < ref_dot_views(elems@).len() && a != b
                    implies ref_dot_views(elems@)[a] != ref_dot_views(elems@)[b] by {
                    if a < before.len() && b < before.len() {
                        assert(ref_dot_views(before)[a] != ref_dot_views(before)[b]);
                    } else if a < before.len() {
                        assert(ref_dot_views(before)[a] == ref_dot_views(elems@)[a]);
                    } else {
                        assert(ref_dot_views(before)[b] == ref_dot_views(elems@)[b]);
                    }
                }
                assert(ref_dot_views(elems@).to_set() =~= ref_dot_views(before).to_set().insert(d));
                assert(!rs.contains(d));
            }
        } else {
            assert(rs.contains(d));
        }
        assert(ref_dot_views(elems@).to_set() =~= dot_views(local@).take(i + 1).to_set().difference(rs));
        i = i + 1;
    }
    assert(dot_views(local@).take(local@.len() as int) =~= dot_views(local@));
    elems
}

impl<I: Datum> DotContext<I> {
    /// Joins the clock entries of `delta` (the larger of both clocks of a replica) and its dots
    /// into `self`, without compressing.
    fn absorb(&mut self, delta: &Delta<'_, I>)
        ensures
            final(self).clock_map() == max_merge(old(self).clock_map(), delta.clock_map()),
            final(self).cloud_set() == old(self).cloud_set().union(delta.cloud_set()),
    {
        proof {
            use_type_invariant(&*self);
            use_type_invariant(delta);
        }
        let mut clock = Vec::new();
        std::mem::swap(&mut clock, &mut self.clock);
        merge_entries(&mut clock, &delta.clock);
        let mut cloud = Vec::new();
        std::mem::swap(&mut cloud, &mut self.cloud);
        merge_dots(&mut cloud, &delta.cloud);
        self.clock = clock;
        self.cloud = cloud;
    }

    /// A context with the clock entries and the dots of `delta`.
    pub fn from_delta(delta: Delta<'_, I>) -> (r: Self)
        ensures
            r.clock_map() == delta.clock_map(),
            r.cloud_set() == delta.cloud_set(),
            r@ == delta@,
    {
        let mut r = Self::new();
        r.absorb(&delta);
        assert(r.clock_map() =~= delta.clock_map());
        assert(r.cloud_set() =~= delta.cloud_set());
        r
    }
}

impl<I: Datum> Default for DotContext<I> {
    fn default() -> (r: Self)
        ensures
            r.clock_map() == Map::<I::V, u64>::empty(),
            r.cloud_set() == Set::<(I::V, u64)>::empty(),
    {
        Self::new()
    }
}

impl<I: Datum> Clone for DotContext<I> {
    fn clone(&self) -> (r: Self)
        ensures
            r.clock_map() == self.clock_map(),
            r.cloud_set() == self.cloud_set(),
    {
        Self::from_delta(self.as_delta())
    }
}

impl<I: Datum> PartialEq for DotContext<I> {
    /// Two contexts are equal when their clocks and their clouds are; two contexts that cover the
    /// same dots but differ in how they are compressed are not.
    fn eq(&self, other: &Self) -> (r: bool)
        ensures
            r == (self.clock_map() == other.clock_map() && self.cloud_set() == other.cloud_set()),
    {
        proof {
            use_type_invariant(self);
            use_type_invariant(other);
        }
        entries_equal(&self.clock, &other.clock) && dots_equal(&self.cloud, &other.cloud)
    }
}

impl<I: Datum> vstd::std_specs::cmp::PartialEqSpecImpl for DotContext<I> {
    open spec fn obeys_eq_spec() -> bool {
        true
    }

    open spec fn eq_spec(&self, other: &Self) -> bool {
        self.clock_map() == other.clock_map() && self.cloud_set() == other.cloud_set()
    }
}

impl<I: Datum> Eq for DotContext<I> {

}

impl<I: Datum + core::hash::Hash + 'static> Decompose for DotContext<I> {
    type Decomposition<'a> = Delta<'a, I>;

    open spec fn spec_join(a: Set<(I::V, u64)>, b: Set<(I::V, u64)>) -> Set<(I::V, u64)> {
        a.union(b)
    }

    open spec fn spec_bottom() -> Set<(I::V, u64)> {
        Set::empty()
    }

    open spec fn spec_part_count(&self) -> nat {
        self.clock_map().dom().len() + self.cloud_set().len()
    }

    open spec fn spec_wf(&self) -> bool {
        true
    }

    open spec fn spec_difference(&self, remote: &Self) -> Set<(I::V, u64)> {
        covered(
            ahead_of(self.clock_map(), remote.clock_map()),
            self.cloud_set().difference(remote.cloud_set()),
        )
    }

    open spec fn spec_join_all(start: Set<(I::V, u64)>, parts: Seq<Set<(I::V, u64)>>) -> Set<(I::V, u64)> {
        union_all(start, parts)
    }

    proof fn lemma_join_all(start: Set<(I::V, u64)>, parts: Seq<Set<(I::V, u64)>>, last: Set<(I::V, u64)>) {
        assert(parts.push(last).drop_last() =~= parts);
    }

    proof fn lemma_lattice(a: Set<(I::V, u64)>, b: Set<(I::V, u64)>, c: Set<(I::V, u64)>) {
        assert(a.union(b) =~= b.union(a));
        assert(a.union(b).union(c) =~= a.union(b.union(c)));
        assert(a.union(a) =~= a);
        assert(Set::<(I::V, u64)>::empty().union(a) =~= a);
    }

    fn empty() -> (r: Self) {
        Self::new()
    }

    fn as_delta(&self) -> (r: Delta<'_, I>) {
        DotContext::as_delta(self)
    }

    /// One delta per clock entry, then one per dot of the cloud.
    fn split(&self) -> (r: Vec<Delta<'_, I>>)
        ensures
            r@.len() == self.clock_map().dom().len() + self.cloud_set().len(),
            forall|k: int| 0 <= k < r@.len() ==> (#[trigger] r@[k]).clock_map().dom().len() + r@[k].cloud_set().len() == 1,
            clocks_merged(Map::empty(), r@.map_values(|d: Delta<'_, I>| d.clock_map())) == self.clock_map(),
            clouds_merged(Set::empty(), r@.map_values(|d: Delta<'_, I>| d.cloud_set())) == self.cloud_set(),
    {
        proof {
            use_type_invariant(self);
            self.lemma_wf();
        }
        let mut parts: Vec<Delta<'_, I>> = Vec::new();
        let mut i: usize = 0;
        assert(self.clock@.take(0) =~= Seq::<(I, u64)>::empty());
        assert(parts@.map_values(|d: Delta<'_, I>| d.clock_map()) =~= Seq::<Map<I::V, u64>>::empty());
        assert(parts@.map_values(|d: Delta<'_, I>| d.cloud_set()) =~= Seq::<Set<(I::V, u64)>>::empty());
        assert(union_all(Set::empty(), parts@.map_values(|d: Delta<'_, I>| d@))
            =~= covered(entry_map(self.clock@.take(0)), Set::empty()));
        while i < self.clock.len()
            invariant
                i <= self.clock@.len(),
                entry_keys(self.clock@).no_duplicates(),
                parts@.len() == i,
                forall|k: int| 0 <= k < parts@.len() ==> (#[trigger] parts@[k]).clock_map().dom().len() + parts@[k].cloud_set().len() == 1,
                union_all(Set::empty(), parts@.map_values(|d: Delta<'_, I>| d@))
                    == covered(entry_map(self.clock@.take(i as int)), Set::empty()),
                clocks_merged(Map::empty(), parts@.map_values(|d: Delta<'_, I>| d.clock_map()))
                    == entry_map(self.clock@.take(i as int)),
                clouds_merged(Set::empty(), parts@.map_values(|d: Delta<'_, I>| d.cloud_set()))
                    == Set::<(I::V, u64)>::empty(),
            decreases self.clock@.len() - i,
        {
            let entry = &self.clock[i];
            let mut elems: Vec<(&I, &u64)> = Vec::new();
            elems.push((&entry.0, &entry.1));
            proof {
                lemma_ref_entry_map_push(Seq::empty(), (&entry.0, &entry.1));
                assert(Seq::<(&I, &u64)>::empty().push((&entry.0, &entry.1)) =~= elems@);
                assert(ref_entry_map(Seq::<(&I, &u64)>::empty()) =~= Map::<I::V, u64>::empty());
                assert(ref_entry_keys(elems@).no_duplicates());
                assert(ref_dot_views(Seq::<(&I, &u64)>::empty()).to_set() =~= Set::<(I::V, u64)>::empty());
            }
            let part = Delta { ctx: self, clock: elems, cloud: Vec::new() };
            let ghost before = parts@;
            parts.push(part);
            proof {
                vstd::set_lib::lemma_set_empty_equivalency_len(part.cloud_set());
                assert(part.clock_map().dom() =~= set![entry.0@]);
                assert(parts@.map_values(|d: Delta<'_, I>| d@).drop_last() =~= before.map_values(
                    |d: Delta<'_, I>| d@,
                ));
                super::gcounter::lemma_entry_map_prefix(self.clock@, i as int);
                assert(union_all(Set::empty(), parts@.map_values(|d: Delta<'_, I>| d@))
                    =~= covered(entry_map(self.clock@.take(i + 1)), Set::empty()));
                assert(parts@.map_values(|d: Delta<'_, I>| d.clock_map()).drop_last() =~= before.map_values(
                    |d: Delta<'_, I>| d.clock_map(),
                ));
                assert(parts@.map_values(|d: Delta<'_, I>| d.cloud_set()).drop_last() =~= before.map_values(
                    |d: Delta<'_, I>| d.cloud_set(),
                ));
                assert(part.clock_map() =~= map![entry.0@ => entry.1]);
                assert(clocks_merged(Map::empty(), parts@.map_values(|d: Delta<'_, I>| d.clock_map()))
                    =~= entry_map(self.clock@.take(i + 1)));
                assert(clouds_merged(Set::empty(), parts@.map_values(|d: Delta<'_, I>| d.cloud_set()))
                    =~= Set::<(I::V, u64)>::empty());
            }
            i = i + 1;
        }
        assert(self.clock@.take(self.clock@.len() as int) =~= self.clock@);
        assert(Set::<(I::V, u64)>::empty() =~= dot_views(self.cloud@).take(0).to_set());
        let mut j: usize = 0;
        assert(dot_views(self.cloud@).take(0).to_set() =~= Set::<(I::V, u64)>::empty());
        while j < self.cloud.len()
            invariant
                j <= self.cloud@.len(),
                parts@.len() == self.clock@.len() + j,
                forall|k: int| 0 <= k < parts@.len() ==> (#[trigger] parts@[k]).clock_map().dom().len() + parts@[k].cloud_set().len() == 1,
                union_all(Set::empty(), parts@.map_values(|d: Delta<'_, I>| d@))
                    == covered(self.clock_map(), dot_views(self.cloud@).take(j as int).to_set()),
                clocks_merged(Map::empty(), parts@.map_values(|d: Delta<'_, I>| d.clock_map()))
                    == self.clock_map(),
                clouds_merged(Set::empty(), parts@.map_values(|d: Delta<'_, I>| d.cloud_set()))
                    == dot_views(self.cloud@).take(j as int).to_set(),
            decreases self.cloud@.len() - j,
        {
            let dot = &self.cloud[j];
            let mut elems: Vec<(&I, &u64)> = Vec::new();
            elems.push((&dot.0, &dot.1));
            proof {
                assert(ref_entry_map(Seq::<(&I, &u64)>::empty()) =~= Map::<I::V, u64>::empty());
                assert(ref_dot_views(elems@) =~= seq![dot@]);
                assert(ref_dot_views(elems@).to_set() =~= set![dot@]);
                assert(ref_dot_views(elems@).no_duplicates());
                assert(dot_views(self.cloud@)[j as int] == dot@);
                lemma_take_to_set_step(dot_views(self.cloud@), j as int);
            }
            let part = Delta { ctx: self, clock: Vec::new(), cloud: elems };
            let ghost before = parts@;
            parts.push(part);
            proof {
                assert(part.clock_map().dom() =~= Set::<I::V>::empty());
                assert(parts@.map_values(|d: Delta<'_, I>| d@).drop_last() =~= before.map_values(
                    |d: Delta<'_, I>| d@,
                ));
                assert(union_all(Set::empty(), parts@.map_values(|d: Delta<'_, I>| d@))
                    =~= covered(self.clock_map(), dot_views(self.cloud@).take(j + 1).to_set()));
                assert(parts@.map_values(|d: Delta<'_, I>| d.clock_map()).drop_last() =~= before.map_values(
                    |d: Delta<'_, I>| d.clock_map(),
                ));
                assert(parts@.map_values(|d: Delta<'_, I>| d.cloud_set()).drop_last() =~= before.map_values(
                    |d: Delta<'_, I>| d.cloud_set(),
                ));
                assert(part.clock_map() =~= Map::<I::V, u64>::empty());
                assert(clocks_merged(Map::empty(), parts@.map_values(|d: Delta<'_, I>| d.clock_map()))
                    =~= self.clock_map());
                assert(clouds_merged(Set::empty(), parts@.map_values(|d: Delta<'_, I>| d.cloud_set()))
                    =~= dot_views(self.cloud@).take(j + 1).to_set());
            }
            j = j + 1;
        }
        assert(dot_views(self.cloud@).take(self.cloud@.len() as int) =~= dot_views(self.cloud@));
        parts
    }

    /// Joins the clock entries and the dots of every delta, then compresses.
    fn join(&mut self, deltas: Vec<Delta<'_, I>>)
        ensures
            final(self).clock_map() == compressed_clock(
                clocks_merged(old(self).clock_map(), deltas@.map_values(|d: Delta<'_, I>| d.clock_map())),
                clouds_merged(old(self).cloud_set(), deltas@.map_values(|d: Delta<'_, I>| d.cloud_set())),
            ),
            final(self).cloud_set() == compressed_cloud(
                clocks_merged(old(self).clock_map(), deltas@.map_values(|d: Delta<'_, I>| d.clock_map())),
                clouds_merged(old(self).cloud_set(), deltas@.map_values(|d: Delta<'_, I>| d.cloud_set())),
            ),
            is_compressed_state(final(self).clock_map(), final(self).cloud_set()),
    {
        let ghost c0 = self.clock_map();
        let ghost d0 = self.cloud_set();
        let mut i: usize = 0;
        while i < deltas.len()
            invariant
                i <= deltas@.len(),
                self.clock_map() == clocks_merged(c0, deltas@.take(i as int).map_values(|d: Delta<'_, I>| d.clock_map())),
                self.cloud_set() == clouds_merged(d0, deltas@.take(i as int).map_values(|d: Delta<'_, I>| d.cloud_set())),
            decreases deltas@.len() - i,
        {
            self.absorb(&deltas[i]);
            proof {
                assert(deltas@.take(i + 1).map_values(|d: Delta<'_, I>| d.clock_map()).drop_last()
                    =~= deltas@.take(i as int).map_values(|d: Delta<'_, I>| d.clock_map()));
                assert(deltas@.take(i + 1).map_values(|d: Delta<'_, I>| d.cloud_set()).drop_last()
                    =~= deltas@.take(i as int).map_values(|d: Delta<'_, I>| d.cloud_set()));
            }
            i = i + 1;
        }
        assert(deltas@.take(deltas@.len() as int) =~= deltas@);
        proof {
            lemma_covered_merged(c0, d0, deltas@);
        }
        self.compress();
    }

    /// The clock entries of `self` that `remote` lacks or holds with a smaller clock, and the
    /// dots of `self` that the cloud of `remote` lacks.
    fn difference<'a>(&'a self, remote: &'a Self) -> (r: Delta<'a, I>)
        ensures
            r.clock_map() == ahead_of(self.clock_map(), remote.clock_map()),
            r.cloud_set() == self.cloud_set().difference(remote.cloud_set()),
    {
        proof {
            use_type_invariant(self);
            use_type_invariant(remote);
        }
        let clock = entries_ahead(&self.clock, &remote.clock);
        let cloud = dots_missing(&self.cloud, &remote.cloud);
        let r = Delta { ctx: self, clock, cloud };
        proof {
            assert(remote@.union(r@) =~= self@.union(remote@));
            assert(self@.union(r@) =~= self@);
        }
        r
    }
}

impl<'a, I: Datum + core::hash::Hash> Extract for Delta<'a, I> {
    type Output = DotKind<'a, I>;

    open spec fn spec_values(&self) -> nat {
        self.clock_map().dom().len() + self.cloud_set().len()
    }

    /// The single clock entry or dot of the delta.
    fn extract(&self) -> (r: Result<DotKind<'a, I>, ExtractError>)
        ensures
            r matches Ok(DotKind::Clock(i, n)) ==> self.clock_map() == map![i@ => *n]
                && self.cloud_set() == Set::<(I::V, u64)>::empty(),
            r matches Ok(DotKind::Cloud(i, n)) ==> self.clock_map() == Map::<I::V, u64>::empty()
                && self.cloud_set() == set![(i@, *n)],
    {
        proof {
            use_type_invariant(self);
            lemma_ref_entry_map(self.clock@);
            ref_dot_views(self.cloud@).unique_seq_to_set();
        }
        let n = self.clock.len().saturating_add(self.cloud.len());
        if n != 1 {
            return Err(ExtractError::NotSingle(n));
        }
        if self.clock.len() == 1 {
            let (i, c) = self.clock[0];
            proof {
                assert(ref_entry_keys(self.clock@)[0] == i@);
                assert(self.clock_map().dom() =~= set![i@]) by {
                    assert forall|x: I::V| self.clock_map().contains_key(x) implies x == i@ by {
                        let k = choose|k: int| 0 <= k < ref_entry_keys(self.clock@).len() && #[trigger] ref_entry_keys(self.clock@)[k] == x;
                        assert(k == 0);
                    }
                }
                assert(self.clock_map() =~= map![i@ => *c]);
                vstd::set_lib::lemma_set_empty_equivalency_len(self.cloud_set());
            }
            Ok(DotKind::Clock(i, c))
        } else {
            let (i, c) = self.cloud[0];
            proof {
                assert(ref_dot_views(self.cloud@)[0] == (i@, *c));
                assert forall|x: (I::V, u64)| self.cloud_set().contains(x) implies x == (i@, *c) by {
                    let k = choose|k: int| 0 <= k < ref_dot_views(self.cloud@).len() && #[trigger] ref_dot_views(self.cloud@)[k] == x;
                    assert(k == 0);
                }
                assert(self.cloud_set() =~= set![(i@, *c)]);
                assert(self.clock_map().dom() =~= Set::<I::V>::empty());
                assert(self.clock_map() =~= Map::<I::V, u64>::empty());
            }
            Ok(DotKind::Cloud(i, c))
        }
    }
}

} // verus!
