//! Algorithms that synchronize two replicas of a delta-state CRDT and record what they send.

use vstd::prelude::*;

use crate::bloom::{fx_hash_word, fx_step};
use crate::delta::gset::sizes;
use crate::delta::{saturated, Decompose, Extract, MemSized};
use crate::telemetry::{Telemetry, Tracker, TransferEvent, TransferKind};

verus! {

/// The core trait of the synchronization algorithms; `R` is the type of the replicas.
pub trait Algorithm<R> {
    /// The number of messages that a synchronization sends.
    const HOPS: usize;
    type Tracker: Telemetry;

    /// Syncs replicas `alpha` and `beta`, where `alpha` takes the initiative. Upon termination,
    /// the tracker holds the transfers that took place.
    fn sync(&self, alpha: &mut R, beta: &mut R, tracker: &mut Self::Tracker);
}

/// An event of `state` bytes and no metadata.
pub open spec fn state_event(state: nat, kind: TransferKind) -> TransferEvent {
    TransferEvent { state: saturated(state) as usize, metadata: 0, kind }
}

/// The state of `r` after joining the single delta `d`.
proof fn lemma_join_one<R: Decompose>(start: R::V, d: R::V)
    ensures
        R::spec_join_all(start, seq![d]) == R::spec_join(start, d),
{
    R::lemma_join_all(start, Seq::empty(), d);
    assert(Seq::<R::V>::empty().push(d) =~= seq![d]);
}

/// Sends the whole state of `alpha` and gets back only what `alpha` lacks.
#[derive(Clone, Copy, Debug, Default)]
pub struct Baseline {}

impl<R: Decompose + MemSized> Algorithm<R> for Baseline {
    const HOPS: usize = 2;
    type Tracker = Tracker;

    /// `alpha` sends its whole state; `beta` answers with the part of its state that `alpha`
    /// lacks, and both end with the join of their states.
    fn sync(&self, alpha: &mut R, beta: &mut R, tracker: &mut Tracker)
        ensures
            final(alpha)@ == R::spec_join(old(alpha)@, old(beta)@),
            final(beta)@ == R::spec_join(old(alpha)@, old(beta)@),
            final(tracker).spec_events().len() == 2,
            final(tracker).spec_events()[0] == state_event(old(alpha).spec_size_of(), TransferKind::LocalToRemote),
            exists|d: R|
                #![trigger d.spec_size_of()]
                final(tracker).spec_events()[1] == state_event(d.spec_size_of(), TransferKind::RemoteToLocal)
                && d.spec_wf() && d@ == old(beta).spec_difference(&*old(alpha)),
            final(alpha).spec_wf(),
            final(beta).spec_wf(),
            final(tracker).link() == old(tracker).link(),
    {
        let ghost a0 = alpha@;
        let ghost b0 = beta@;
        tracker.reset();
        tracker.register(TransferEvent { state: alpha.size_of(), metadata: 0, kind: TransferKind::LocalToRemote });
        let mut optimal_diff = R::empty();
        let diff = beta.difference(alpha);
        let ghost dv = diff@;
        let parts = vec![diff];
        assert(parts@.map_values(|d: R::Decomposition<'_>| d@) =~= seq![dv]);
        optimal_diff.join(parts);
        proof {
            lemma_join_one::<R>(R::spec_bottom(), dv);
            R::lemma_lattice(dv, R::spec_bottom(), dv);
            assert(optimal_diff@ == dv);
        }
        tracker.register(TransferEvent { state: optimal_diff.size_of(), metadata: 0, kind: TransferKind::RemoteToLocal });
        let d = optimal_diff.as_delta();
        let ghost ov = d@;
        let parts = vec![d];
        assert(parts@.map_values(|d: R::Decomposition<'_>| d@) =~= seq![ov]);
        alpha.join(parts);
        proof {
            lemma_join_one::<R>(a0, ov);
            R::lemma_lattice(a0, b0, dv);
            R::lemma_lattice(b0, a0, dv);
            assert(alpha@ == R::spec_join(a0, b0));
        }
        let e = alpha.as_delta();
        let ghost ev = e@;
        let parts = vec![e];
        assert(parts@.map_values(|d: R::Decomposition<'_>| d@) =~= seq![ev]);
        beta.join(parts);
        proof {
            lemma_join_one::<R>(b0, ev);
            R::lemma_lattice(b0, a0, b0);
            R::lemma_lattice(a0, b0, b0);
            R::lemma_lattice(b0, b0, a0);
            assert(beta@ == R::spec_join(a0, b0));
            assert(tracker.spec_events()[1] == state_event(optimal_diff.spec_size_of(), TransferKind::RemoteToLocal));
        }
    }
}

/// Each replica sends its whole state to the other.
#[derive(Clone, Copy, Debug, Default)]
pub struct Classic {}

impl<R: Decompose + MemSized> Algorithm<R> for Classic {
    const HOPS: usize = 2;
    type Tracker = Tracker;

    /// `alpha` sends its whole state, `beta` joins it and sends back its new state, which `alpha`
    /// joins: both end with the join of their states.
    fn sync(&self, alpha: &mut R, beta: &mut R, tracker: &mut Tracker)
        ensures
            final(alpha)@ == R::spec_join(old(alpha)@, old(beta)@),
            final(beta)@ == R::spec_join(old(alpha)@, old(beta)@),
            final(tracker).spec_events() == seq![
                state_event(old(alpha).spec_size_of(), TransferKind::LocalToRemote),
                state_event(final(beta).spec_size_of(), TransferKind::RemoteToLocal),
            ],
            final(alpha).spec_wf(),
            final(beta).spec_wf(),
            final(tracker).link() == old(tracker).link(),
    {
        let ghost a0 = alpha@;
        let ghost b0 = beta@;
        let ghost s0 = alpha.spec_size_of();
        tracker.reset();
        let alpha_delta = alpha.as_delta();
        let ghost av = alpha_delta@;
        tracker.register(TransferEvent { state: alpha.size_of(), metadata: 0, kind: TransferKind::LocalToRemote });
        let parts = vec![alpha_delta];
        assert(parts@.map_values(|d: R::Decomposition<'_>| d@) =~= seq![av]);
        beta.join(parts);
        proof {
            lemma_join_one::<R>(b0, av);
            R::lemma_lattice(b0, a0, b0);
        }
        let beta_delta = beta.as_delta();
        let ghost bv = beta_delta@;
        tracker.register(TransferEvent { state: beta.size_of(), metadata: 0, kind: TransferKind::RemoteToLocal });
        let parts = vec![beta_delta];
        assert(parts@.map_values(|d: R::Decomposition<'_>| d@) =~= seq![bv]);
        alpha.join(parts);
        proof {
            lemma_join_one::<R>(a0, bv);
            R::lemma_lattice(a0, a0, b0);
            R::lemma_lattice(a0, b0, a0);
            assert(tracker.spec_events() =~= seq![
                state_event(s0, TransferKind::LocalToRemote),
                state_event(beta.spec_size_of(), TransferKind::RemoteToLocal),
            ]);
        }
    }
}

/// Whether `x` lies below `y` in the join-semilattice of `R`: joining `x` into `y` changes nothing.
pub open spec fn below<R: Decompose>(x: R::V, y: R::V) -> bool {
    R::spec_join(x, y) == y
}

/// Lying below is transitive.
pub proof fn lemma_below_trans<R: Decompose>(x: R::V, y: R::V, z: R::V)
    requires
        below::<R>(x, y),
        below::<R>(y, z),
    ensures
        below::<R>(x, z),
{
    R::lemma_lattice(x, y, z);
}

/// Both sides of a join lie below it.
pub proof fn lemma_below_join<R: Decompose>(x: R::V, y: R::V)
    ensures
        below::<R>(x, R::spec_join(x, y)),
        below::<R>(y, R::spec_join(x, y)),
{
    R::lemma_lattice(x, x, y);
    R::lemma_lattice(x, y, y);
    R::lemma_lattice(y, x, x);
    R::lemma_lattice(y, y, x);
}

/// A join lies below every state that both of its sides lie below.
pub proof fn lemma_join_below<R: Decompose>(x: R::V, y: R::V, z: R::V)
    requires
        below::<R>(x, z),
        below::<R>(y, z),
    ensures
        below::<R>(R::spec_join(x, y), z),
{
    R::lemma_lattice(x, y, z);
}

/// The start and every part lie below the join of the parts into the start.
pub proof fn lemma_join_all_upper<R: Decompose>(start: R::V, parts: Seq<R::V>)
    ensures
        below::<R>(start, R::spec_join_all(start, parts)),
        forall|k: int| 0 <= k < parts.len() ==> below::<R>(#[trigger] parts[k], R::spec_join_all(start, parts)),
    decreases parts.len(),
{
    if parts.len() == 0 {
        R::lemma_join_all(start, parts, start);
        R::lemma_lattice(start, start, start);
        assert(parts =~= Seq::<R::V>::empty());
    } else {
        let q = parts.drop_last();
        let l = parts.last();
        assert(q.push(l) =~= parts);
        R::lemma_join_all(start, q, l);
        lemma_join_all_upper::<R>(start, q);
        let jq = R::spec_join_all(start, q);
        lemma_below_join::<R>(jq, l);
        lemma_below_trans::<R>(start, jq, R::spec_join(jq, l));
        assert forall|k: int| 0 <= k < parts.len() implies below::<R>(#[trigger] parts[k], R::spec_join_all(start, parts)) by {
            if k < q.len() {
                assert(parts[k] == q[k]);
                lemma_below_trans::<R>(q[k], jq, R::spec_join(jq, l));
            }
        }
    }
}

/// The join of the states of `parts`.
pub open spec fn joined<R: Decompose>(parts: Seq<R::V>) -> R::V {
    R::spec_join_all(R::spec_bottom(), parts)
}

/// Joining parts into a start is joining their join into it.
pub proof fn lemma_join_all_start<R: Decompose>(start: R::V, parts: Seq<R::V>)
    ensures
        R::spec_join_all(start, parts) == R::spec_join(start, joined::<R>(parts)),
    decreases parts.len(),
{
    if parts.len() == 0 {
        R::lemma_join_all(start, parts, start);
        R::lemma_join_all(R::spec_bottom(), parts, start);
        assert(parts =~= Seq::<R::V>::empty());
        R::lemma_lattice(R::spec_bottom(), start, start);
        R::lemma_lattice(start, R::spec_bottom(), start);
    } else {
        let q = parts.drop_last();
        let l = parts.last();
        assert(q.push(l) =~= parts);
        R::lemma_join_all(start, q, l);
        R::lemma_join_all(R::spec_bottom(), q, l);
        lemma_join_all_start::<R>(start, q);
        R::lemma_lattice(start, joined::<R>(q), l);
    }
}

/// Inserting a part anywhere joins it into the join of the others.
pub proof fn lemma_joined_insert<R: Decompose>(parts: Seq<R::V>, p: int, x: R::V)
    requires
        0 <= p <= parts.len(),
    ensures
        joined::<R>(parts.insert(p, x)) == R::spec_join(joined::<R>(parts), x),
    decreases parts.len(),
{
    if p == parts.len() {
        assert(parts.insert(p, x) =~= parts.push(x));
        R::lemma_join_all(R::spec_bottom(), parts, x);
    } else {
        let q = parts.drop_last();
        let l = parts.last();
        assert(q.push(l) =~= parts);
        assert(q.insert(p, x).push(l) =~= parts.insert(p, x));
        lemma_joined_insert::<R>(q, p, x);
        R::lemma_join_all(R::spec_bottom(), q.insert(p, x), l);
        R::lemma_join_all(R::spec_bottom(), q, l);
        let jq = joined::<R>(q);
        R::lemma_lattice(jq, x, l);
        R::lemma_lattice(x, l, x);
        R::lemma_lattice(jq, l, x);
    }
}

/// The states of the decompositions of a bucket, in order.
pub open spec fn entry_views<'b, R: Decompose + 'b>(bucket: Seq<(u64, R::Decomposition<'b>)>) -> Seq<R::V> {
    bucket.map_values(|e: (u64, R::Decomposition<'b>)| e.1@)
}

/// The join of the decompositions of a bucket.
pub open spec fn bucket_join<'b, R: Decompose + 'b>(bucket: Seq<(u64, R::Decomposition<'b>)>) -> R::V {
    joined::<R>(entry_views::<R>(bucket))
}

/// The join of the decompositions of all the buckets.
pub open spec fn buckets_join<'b, R: Decompose + 'b>(buckets: Seq<Vec<(u64, R::Decomposition<'b>)>>) -> R::V
    decreases buckets.len(),
{
    if buckets.len() == 0 {
        R::spec_bottom()
    } else {
        R::spec_join(buckets_join::<R>(buckets.drop_last()), bucket_join::<R>(buckets.last()@))
    }
}

/// Buckets with nothing in them join to the empty state.
proof fn lemma_buckets_join_empty<'b, R: Decompose + 'b>(buckets: Seq<Vec<(u64, R::Decomposition<'b>)>>)
    requires
        forall|x: int| 0 <= x < buckets.len() ==> (#[trigger] buckets[x])@.len() == 0,
    ensures
        buckets_join::<R>(buckets) == R::spec_bottom(),
    decreases buckets.len(),
{
    if buckets.len() > 0 {
        let q = buckets.drop_last();
        assert forall|x: int| 0 <= x < q.len() implies (#[trigger] q[x])@.len() == 0 by {
            assert(q[x] == buckets[x]);
        }
        lemma_buckets_join_empty::<R>(q);
        assert(entry_views::<R>(buckets.last()@) =~= Seq::<R::V>::empty());
        R::lemma_join_all(R::spec_bottom(), Seq::<R::V>::empty(), R::spec_bottom());
        R::lemma_lattice(R::spec_bottom(), R::spec_bottom(), R::spec_bottom());
    }
}

/// Replacing a bucket with one that also holds `x` joins `x` into the join of all the buckets.
proof fn lemma_buckets_join_update<'b, R: Decompose + 'b>(
    buckets: Seq<Vec<(u64, R::Decomposition<'b>)>>,
    i: int,
    bucket: Vec<(u64, R::Decomposition<'b>)>,
    x: R::V,
)
    requires
        0 <= i < buckets.len(),
        bucket_join::<R>(bucket@) == R::spec_join(bucket_join::<R>(buckets[i]@), x),
    ensures
        buckets_join::<R>(buckets.update(i, bucket)) == R::spec_join(buckets_join::<R>(buckets), x),
    decreases buckets.len(),
{
    let q = buckets.drop_last();
    let updated = buckets.update(i, bucket);
    if i == buckets.len() - 1 {
        assert(updated.drop_last() =~= q);
        R::lemma_lattice(buckets_join::<R>(q), bucket_join::<R>(buckets[i]@), x);
    } else {
        assert(updated.drop_last() =~= q.update(i, bucket));
        assert(q[i] == buckets[i]);
        lemma_buckets_join_update::<R>(q, i, bucket, x);
        let jq = buckets_join::<R>(q);
        let l = bucket_join::<R>(buckets.last()@);
        assert(updated.last() == buckets.last());
        R::lemma_lattice(jq, x, l);
        R::lemma_lattice(x, l, x);
        R::lemma_lattice(jq, l, x);
    }
}

/// The Fx hash of the words of `words`, in order, from the state 0.
pub open spec fn fx_fold(words: Seq<u64>) -> u64
    decreases words.len(),
{
    if words.len() == 0 {
        0
    } else {
        fx_step(fx_fold(words.drop_last()), words.last())
    }
}

/// The hashes of the entries of a bucket, in order.
pub open spec fn bucket_hashes<D>(bucket: Seq<(u64, D)>) -> Seq<u64> {
    bucket.map_values(|e: (u64, D)| e.0)
}

/// Whether the entries of a bucket come in the order of their hashes.
pub open spec fn sorted_by_hash<D>(bucket: Seq<(u64, D)>) -> bool {
    forall|i: int, j: int| 0 <= i < j < bucket.len() ==> bucket[i].0 <= bucket[j].0
}

/// Hashes `value` with the Fx hasher of `fxhash` (`FxBuildHasher::hash_one`). Nothing is stated
/// of the result: it is a function of the value alone, but a name for it would need the value's
/// type as a parameter.
#[verifier::external_body]
fn fx_hash_one<T: core::hash::Hash>(value: &T) -> u64 {
    std::hash::BuildHasher::hash_one(&fxhash::FxBuildHasher::default(), value)
}

/// Inserts `entry` into a bucket sorted by hash, after the entries with a hash no larger.
fn insert_sorted<D>(bucket: &mut Vec<(u64, D)>, entry: (u64, D)) -> (p: usize)
    requires
        sorted_by_hash(old(bucket)@),
    ensures
        p <= old(bucket)@.len(),
        final(bucket)@ == old(bucket)@.insert(p as int, entry),
        sorted_by_hash(final(bucket)@),
{
    let mut p: usize = 0;
    while p < bucket.len() && bucket[p].0 <= entry.0
        invariant
            p <= bucket@.len(),
            forall|i: int| 0 <= i < p ==> bucket@[i].0 <= entry.0,
        decreases bucket@.len() - p,
    {
        p = p + 1;
    }
    let ghost before = bucket@;
    let ghost h = entry.0;
    bucket.insert(p, entry);
    proof {
        assert forall|i: int, j: int| 0 <= i < j < bucket@.len() implies bucket@[i].0 <= bucket@[j].0 by {
            if i < p && j == p {
            } else if i < p && j > p {
                assert(bucket@[j] == before[j - 1]);
            } else if i == p {
                assert(bucket@[j] == before[j - 1]);
                assert(before[p as int].0 > h);
            } else if j < p {
            } else {
                assert(bucket@[i] == before[i - 1]);
                assert(bucket@[j] == before[j - 1]);
            }
        }
    }
    p
}

/// The number of entries of all the buckets.
pub open spec fn total_len<X>(buckets: Seq<Seq<X>>) -> nat
    decreases buckets.len(),
{
    if buckets.len() == 0 {
        0
    } else {
        total_len(buckets.drop_last()) + buckets.last().len()
    }
}

/// Buckets with nothing in them hold no entry.
proof fn lemma_total_len_empty<X>(buckets: Seq<Seq<X>>)
    requires
        forall|x: int| 0 <= x < buckets.len() ==> (#[trigger] buckets[x]).len() == 0,
    ensures
        total_len(buckets) == 0,
    decreases buckets.len(),
{
    if buckets.len() > 0 {
        lemma_total_len_empty(buckets.drop_last());
    }
}

/// Replacing a bucket changes the number of entries by the difference of their lengths.
proof fn lemma_total_len_update<X>(buckets: Seq<Seq<X>>, i: int, bucket: Seq<X>)
    requires
        0 <= i < buckets.len(),
    ensures
        total_len(buckets.update(i, bucket)) == total_len(buckets) - buckets[i].len() + bucket.len(),
    decreases buckets.len(),
{
    let updated = buckets.update(i, bucket);
    if i == buckets.len() - 1 {
        assert(updated.drop_last() =~= buckets.drop_last());
    } else {
        assert(updated.drop_last() =~= buckets.drop_last().update(i, bucket));
        lemma_total_len_update(buckets.drop_last(), i, bucket);
    }
}

/// The number of buckets for `parts` decompositions: the number asked for, or the load factor
/// (in thousandths) times the number of decompositions when none is asked for (`usize::MAX` where
/// that does not fit); at least one where there is a decomposition.
pub open spec fn bucket_count(load_factor_millis: nat, parts: nat, asked: Option<usize>) -> nat {
    let len = match asked {
        Some(k) => k as nat,
        None => saturated(load_factor_millis * parts / 1000),
    };
    if len == 0 && parts > 0 {
        1
    } else {
        len
    }
}

/// Divides the join-decompositions of replicas among buckets by the hashes of the items they
/// hold; the load factor, in thousandths, is the expected number of decompositions per bucket.
#[derive(Clone, Copy, Debug)]
pub struct Dispatcher {
    load_factor_millis: usize,
}

impl Dispatcher {
    /// A dispatcher with `load_factor_millis` thousandths of decompositions per bucket.
    pub fn new(load_factor_millis: usize) -> (r: Self)
        ensures
            r.load_factor() == load_factor_millis,
    {
        Dispatcher { load_factor_millis }
    }

    /// The load factor, in thousandths.
    pub closed spec fn load_factor(&self) -> usize {
        self.load_factor_millis
    }

    /// Divides the irredundant join-decompositions of `replica` among `num_of_buckets` buckets, or
    /// among as many as the load factor asks for when that is `None` (at least one where there is
    /// a decomposition, none where there is none). Each decomposition goes to the bucket of its
    /// hash modulo their number, and each bucket is sorted by hash.
    fn distribute<'b, R: Decompose>(&self, replica: &'b R, num_of_buckets: Option<usize>) -> (r: Vec<Vec<(u64, R::Decomposition<'b>)>>)
        ensures
            r@.len() == bucket_count(self.load_factor() as nat, replica.spec_part_count(), num_of_buckets),
            forall|b: int| 0 <= b < r@.len() ==> sorted_by_hash(#[trigger] r@[b]@),
            forall|b: int, e: int| 0 <= b < r@.len() && 0 <= e < r@[b]@.len() ==> (#[trigger] r@[b]@[e]).0 as int % r@.len() as int == b,
            forall|b: int, e: int| 0 <= b < r@.len() && 0 <= e < r@[b]@.len() ==> (#[trigger] r@[b]@[e]).1.spec_values() == 1,
            forall|b: int, e: int| 0 <= b < r@.len() && 0 <= e < r@[b]@.len() ==> below::<R>(#[trigger] r@[b]@[e].1@, replica@),
            buckets_join::<R>(r@) == replica@,
            total_len(buckets_view::<R>(r@)) == replica.spec_part_count(),
    {
        let mut parts = replica.split();
        let ghost pv = parts@;
        proof {
            lemma_join_all_upper::<R>(R::spec_bottom(), pv.map_values(|d: R::Decomposition<'b>| d@));
            assert forall|k: int| 0 <= k < pv.len() implies below::<R>((#[trigger] pv[k])@, replica@) by {
                assert(pv.map_values(|d: R::Decomposition<'b>| d@)[k] == pv[k]@);
            }
        }
        let n = parts.len();
        let mut len: usize = match num_of_buckets {
            Some(k) => k,
            None => {
                let lf = self.load_factor_millis as u128;
                let count = n as u128;
                assert(lf * count <= u128::MAX) by (nonlinear_arith)
                    requires
                        lf <= u64::MAX,
                        count <= u64::MAX,
                ;
                let c: u128 = lf * count / 1000;
                if c > usize::MAX as u128 { usize::MAX } else { c as usize }
            },
        };
        if len == 0 && n > 0 {
            len = 1;
        }
        let mut buckets: Vec<Vec<(u64, R::Decomposition<'b>)>> = Vec::new();
        let mut b: usize = 0;
        while b < len
            invariant
                b <= len,
                buckets@.len() == b,
                forall|x: int| 0 <= x < buckets@.len() ==> (#[trigger] buckets@[x])@.len() == 0,
            decreases len - b,
        {
            buckets.push(Vec::new());
            b = b + 1;
        }
        proof {
            lemma_buckets_join_empty::<R>(buckets@);
            assert forall|x: int| 0 <= x < buckets_view::<R>(buckets@).len() implies (#[trigger] buckets_view::<R>(buckets@)[x]).len() == 0 by {
                assert(buckets_view::<R>(buckets@)[x] == bucket_view::<R>(buckets@[x]));
            }
            lemma_total_len_empty(buckets_view::<R>(buckets@));
            R::lemma_lattice(R::spec_bottom(), replica@, replica@);
            assert(parts@ =~= pv.take(pv.len() as int));
        }
        while parts.len() > 0
            invariant
                buckets@.len() == len,
                n == pv.len(),
                len > 0 || pv.len() == 0,
                parts@.len() <= pv.len(),
                parts@ == pv.take(parts@.len() as int),
                forall|k: int| 0 <= k < pv.len() ==> below::<R>((#[trigger] pv[k])@, replica@),
                forall|k: int| 0 <= k < pv.len() ==> (#[trigger] pv[k]).spec_values() == 1,
                forall|x: int| 0 <= x < buckets@.len() ==> sorted_by_hash(#[trigger] buckets@[x]@),
                forall|x: int, e: int| 0 <= x < buckets@.len() && 0 <= e < buckets@[x]@.len() ==> below::<R>(#[trigger] buckets@[x]@[e].1@, replica@),
                forall|x: int, e: int| 0 <= x < buckets@.len() && 0 <= e < buckets@[x]@.len() ==> (#[trigger] buckets@[x]@[e]).0 as int % len as int == x,
                forall|x: int, e: int| 0 <= x < buckets@.len() && 0 <= e < buckets@[x]@.len() ==> (#[trigger] buckets@[x]@[e]).1.spec_values() == 1,
                R::spec_join(buckets_join::<R>(buckets@), joined::<R>(parts@.map_values(|d: R::Decomposition<'b>| d@))) == replica@,
                total_len(buckets_view::<R>(buckets@)) + parts@.len() == replica.spec_part_count(),
                pv.len() == replica.spec_part_count(),
            decreases parts@.len(),
        {
            let ghost k = parts@.len() - 1;
            let ghost pre = parts@;
            let d = parts.pop().unwrap();
            proof {
                assert(d == pre[k]);
                assert(pre[k] == pv[k]);
                assert(parts@ =~= pv.take(parts@.len() as int));
            }
            let item = match d.extract() {
                Ok(item) => item,
                Err(_) => vstd::pervasive::unreached(),
            };
            let h = fx_hash_one(&item);
            let i = (h % (len as u64)) as usize;
            let ghost before = buckets@;
            let mut bucket = Vec::new();
            std::mem::swap(&mut bucket, &mut buckets[i]);
            let ghost old_bucket = bucket@;
            let ghost dv = d@;
            let pos = insert_sorted(&mut bucket, (h, d));
            proof {
                assert(old_bucket == before[i as int]@);
                assert(entry_views::<R>(bucket@) =~= entry_views::<R>(old_bucket).insert(pos as int, dv));
                lemma_joined_insert::<R>(entry_views::<R>(old_bucket), pos as int, dv);
                lemma_buckets_join_update::<R>(before, i as int, bucket, dv);
                let rest = parts@.map_values(|x: R::Decomposition<'b>| x@);
                assert(pre.map_values(|x: R::Decomposition<'b>| x@) =~= rest.push(dv));
                R::lemma_join_all(R::spec_bottom(), rest, dv);
                R::lemma_lattice(buckets_join::<R>(before), dv, joined::<R>(rest));
                R::lemma_lattice(buckets_join::<R>(before), joined::<R>(rest), dv);
                R::lemma_lattice(dv, joined::<R>(rest), dv);
            }
            let ghost new_bucket = bucket;
            buckets.set(i, bucket);
            proof {
                assert(buckets@ =~= before.update(i as int, new_bucket));
                assert(buckets_view::<R>(buckets@) =~= buckets_view::<R>(before).update(i as int, bucket_view::<R>(new_bucket)));
                assert(buckets_view::<R>(before)[i as int] == bucket_view::<R>(before[i as int]));
                lemma_total_len_update(buckets_view::<R>(before), i as int, bucket_view::<R>(new_bucket));
                assert forall|x: int, e: int| 0 <= x < buckets@.len() && 0 <= e < buckets@[x]@.len() implies below::<R>(#[trigger] buckets@[x]@[e].1@, replica@) by {
                    if x != i {
                        assert(buckets@[x] == before[x]);
                    } else {
                        assert(old_bucket == before[x]@);
                    }
                }
                assert forall|x: int| 0 <= x < buckets@.len() implies sorted_by_hash(#[trigger] buckets@[x]@) by {
                    if x != i {
                        assert(buckets@[x] == before[x]);
                    }
                }
                assert forall|x: int, e: int| 0 <= x < buckets@.len() && 0 <= e < buckets@[x]@.len() implies (#[trigger] buckets@[x]@[e]).0 as int % len as int == x
                    && buckets@[x]@[e].1.spec_values() == 1 by {
                    if x != i {
                        assert(buckets@[x] == before[x]);
                    } else {
                        assert(old_bucket == before[x]@);
                    }
                }
            }
        }
        proof {
            assert(parts@.map_values(|d: R::Decomposition<'b>| d@) =~= Seq::<R::V>::empty());
            R::lemma_join_all(R::spec_bottom(), Seq::<R::V>::empty(), R::spec_bottom());
            R::lemma_lattice(buckets_join::<R>(buckets@), R::spec_bottom(), buckets_join::<R>(buckets@));
        }
        buckets
    }

    /// The hash of a bucket under the "Merkle trick": the Fx hash of the hashes of its entries,
    /// which are sorted.
    fn hash<D>(bucket: &Vec<(u64, D)>) -> (r: u64)
        ensures
            r == fx_fold(bucket_hashes(bucket@)),
    {
        let mut h: u64 = 0;
        let mut i: usize = 0;
        while i < bucket.len()
            invariant
                i <= bucket@.len(),
                h == fx_fold(bucket_hashes(bucket@).take(i as int)),
            decreases bucket@.len() - i,
        {
            proof {
                assert(bucket_hashes(bucket@).take(i + 1).drop_last() =~= bucket_hashes(bucket@).take(i as int));
            }
            h = fx_hash_word(h, bucket[i].0);
            i = i + 1;
        }
        assert(bucket_hashes(bucket@).take(bucket@.len() as int) =~= bucket_hashes(bucket@));
        h
    }
}

/// The state that joins the decompositions of a bucket.
fn bucket_state<'b, R: Decompose>(bucket: Vec<(u64, R::Decomposition<'b>)>) -> (r: R)
    ensures
        r@ == bucket_join::<R>(bucket@),
{
    let ghost whole = bucket_join::<R>(bucket@);
    let mut bucket = bucket;
    let mut deltas: Vec<R::Decomposition<'b>> = Vec::new();
    proof {
        assert(deltas@.map_values(|d: R::Decomposition<'b>| d@) =~= Seq::<R::V>::empty());
        R::lemma_join_all(R::spec_bottom(), Seq::<R::V>::empty(), R::spec_bottom());
        R::lemma_lattice(whole, whole, whole);
    }
    while bucket.len() > 0
        invariant
            R::spec_join(joined::<R>(deltas@.map_values(|d: R::Decomposition<'b>| d@)), bucket_join::<R>(bucket@)) == whole,
        decreases bucket@.len(),
    {
        let ghost pre = bucket@;
        let ghost pre_deltas = deltas@;
        let (_, d) = bucket.pop().unwrap();
        proof {
            assert(d == pre[pre.len() - 1].1);
            let dv = d@;
            assert(entry_views::<R>(pre) =~= entry_views::<R>(bucket@).push(dv));
            R::lemma_join_all(R::spec_bottom(), entry_views::<R>(bucket@), dv);
            let jd = joined::<R>(pre_deltas.map_values(|x: R::Decomposition<'b>| x@));
            let jb = bucket_join::<R>(bucket@);
            R::lemma_join_all(R::spec_bottom(), pre_deltas.map_values(|x: R::Decomposition<'b>| x@), dv);
            assert(pre_deltas.push(d).map_values(|x: R::Decomposition<'b>| x@) =~= pre_deltas.map_values(|x: R::Decomposition<'b>| x@).push(dv));
            R::lemma_lattice(jd, dv, jb);
            R::lemma_lattice(jd, jb, dv);
            R::lemma_lattice(dv, jb, dv);
        }
        deltas.push(d);
    }
    let mut r = R::empty();
    let ghost views = deltas@.map_values(|d: R::Decomposition<'b>| d@);
    proof {
        assert(bucket@ =~= Seq::<(u64, R::Decomposition<'b>)>::empty());
        assert(entry_views::<R>(bucket@) =~= Seq::<R::V>::empty());
        R::lemma_join_all(R::spec_bottom(), Seq::<R::V>::empty(), R::spec_bottom());
        R::lemma_lattice(joined::<R>(views), R::spec_bottom(), joined::<R>(views));
    }
    r.join(deltas);
    r
}

/// The delta of every state of `states`, in order.
fn deltas_of<'x, R: Decompose>(states: &'x Vec<R>) -> (r: Vec<R::Decomposition<'x>>)
    ensures
        r@.len() == states@.len(),
        forall|k: int| 0 <= k < r@.len() ==> (#[trigger] r@[k])@ == states@[k]@,
{
    let mut out: Vec<R::Decomposition<'x>> = Vec::new();
    let mut i: usize = 0;
    while i < states.len()
        invariant
            i <= states@.len(),
            out@.len() == i,
            forall|k: int| 0 <= k < out@.len() ==> (#[trigger] out@[k])@ == states@[k]@,
        decreases states@.len() - i,
    {
        let ghost before = out@;
        out.push(states[i].as_delta());
        proof {
            assert forall|k: int| 0 <= k < out@.len() implies (#[trigger] out@[k])@ == states@[k]@ by {
                if k < before.len() {
                    assert(out@[k] == before[k]);
                }
            }
        }
        i = i + 1;
    }
    out
}

/// The sizes of the states of `states`, added up (`usize::MAX` where that would not fit).
fn sizes_of<R: MemSized>(states: &Vec<R>) -> (r: usize)
    ensures
        r == saturated(sizes(states@)),
{
    let mut total: usize = 0;
    let mut i: usize = 0;
    assert(states@.take(0) =~= Seq::<R>::empty());
    while i < states.len()
        invariant
            i <= states@.len(),
            total == saturated(sizes(states@.take(i as int))),
        decreases states@.len() - i,
    {
        proof {
            assert(states@.take(i + 1).drop_last() =~= states@.take(i as int));
        }
        total = total.saturating_add(states[i].size_of());
        i = i + 1;
    }
    assert(states@.take(states@.len() as int) =~= states@);
    total
}

/// The bytes of `count` items of `size` bytes each (`usize::MAX` where that would not fit).
fn bytes_of(count: usize, size: usize) -> (r: usize)
    ensures
        r == saturated((count * size) as nat),
{
    match count.checked_mul(size) {
        Some(bytes) => bytes,
        None => usize::MAX,
    }
}

/// The hashes of the buckets, in order.
fn hashes_of<D>(buckets: &Vec<Vec<(u64, D)>>) -> (r: Vec<u64>)
    ensures
        r@.len() == buckets@.len(),
        forall|b: int| 0 <= b < r@.len() ==> r@[b] == fx_fold(bucket_hashes(#[trigger] buckets@[b]@)),
{
    let mut out: Vec<u64> = Vec::new();
    let mut i: usize = 0;
    while i < buckets.len()
        invariant
            i <= buckets@.len(),
            out@.len() == i,
            forall|b: int| 0 <= b < out@.len() ==> out@[b] == fx_fold(bucket_hashes(#[trigger] buckets@[b]@)),
        decreases buckets@.len() - i,
    {
        out.push(Dispatcher::hash(&buckets[i]));
        i = i + 1;
    }
    out
}

/// The hash of a bucket: the Fx hash of the hashes of its entries, in order.
pub open spec fn bucket_hash<D>(bucket: Seq<(u64, D)>) -> u64 {
    fx_fold(bucket_hashes(bucket))
}

/// The join of the buckets from position `m` on.
pub open spec fn suffix_join<'b, R: Decompose + 'b>(buckets: Seq<Vec<(u64, R::Decomposition<'b>)>>, m: int) -> R::V
    decreases buckets.len() - m,
{
    if m >= buckets.len() || m < 0 {
        R::spec_bottom()
    } else {
        R::spec_join(suffix_join::<R>(buckets, m + 1), bucket_join::<R>(buckets[m]@))
    }
}

/// The join of the buckets from a position on is the join of those before the last, joined with
/// the last.
proof fn lemma_suffix_join_last<'b, R: Decompose + 'b>(buckets: Seq<Vec<(u64, R::Decomposition<'b>)>>, m: int)
    requires
        0 <= m < buckets.len(),
    ensures
        suffix_join::<R>(buckets, m) == R::spec_join(
            suffix_join::<R>(buckets.drop_last(), m),
            bucket_join::<R>(buckets.last()@),
        ),
    decreases buckets.len() - m,
{
    let q = buckets.drop_last();
    let l = bucket_join::<R>(buckets.last()@);
    let bm = bucket_join::<R>(buckets[m]@);
    if m == buckets.len() - 1 {
        assert(suffix_join::<R>(buckets, m + 1) == R::spec_bottom());
        assert(suffix_join::<R>(q, m) == R::spec_bottom());
        assert(buckets[m] == buckets.last());
    } else {
        lemma_suffix_join_last::<R>(buckets, m + 1);
        assert(q[m] == buckets[m]);
        let sq = suffix_join::<R>(q, m + 1);
        assert(suffix_join::<R>(q, m) == R::spec_join(sq, bm));
        assert(suffix_join::<R>(buckets, m) == R::spec_join(R::spec_join(sq, l), bm));
        R::lemma_lattice(sq, l, bm);
        R::lemma_lattice(l, bm, l);
        R::lemma_lattice(sq, bm, l);
    }
}

/// The join of all the buckets is the join of the buckets from position 0 on.
proof fn lemma_suffix_join_all<'b, R: Decompose + 'b>(buckets: Seq<Vec<(u64, R::Decomposition<'b>)>>)
    ensures
        suffix_join::<R>(buckets, 0) == buckets_join::<R>(buckets),
    decreases buckets.len(),
{
    if buckets.len() > 0 {
        lemma_suffix_join_last::<R>(buckets, 0);
        lemma_suffix_join_all::<R>(buckets.drop_last());
    }
}

/// Joining the same state into both sides keeps one below the other.
proof fn lemma_below_mono<R: Decompose>(x: R::V, y: R::V, z: R::V)
    requires
        below::<R>(x, y),
    ensures
        below::<R>(R::spec_join(x, z), R::spec_join(y, z)),
{
    lemma_below_join::<R>(y, z);
    lemma_below_trans::<R>(x, y, R::spec_join(y, z));
    lemma_join_below::<R>(x, z, R::spec_join(y, z));
}

/// Two states each below the other are the same.
proof fn lemma_below_antisym<R: Decompose>(x: R::V, y: R::V)
    requires
        below::<R>(x, y),
        below::<R>(y, x),
    ensures
        x == y,
{
    R::lemma_lattice(x, y, x);
}

/// Whether every pair of buckets at the same position, up from `m`, whose hashes agree holds
/// equal states: no two differing buckets share a hash.
pub open spec fn hashes_tell_apart<'a, 'b, R: Decompose + 'a + 'b>(
    alpha_buckets: Seq<Vec<(u64, R::Decomposition<'a>)>>,
    beta_buckets: Seq<Vec<(u64, R::Decomposition<'b>)>>,
    m: int,
) -> bool {
    forall|i: int|
        m <= i < alpha_buckets.len() && bucket_hash(#[trigger] alpha_buckets[i]@) == bucket_hash(beta_buckets[i]@)
            ==> bucket_join::<R>(alpha_buckets[i]@) == bucket_join::<R>(beta_buckets[i]@)
}

/// The number of pairs of buckets at the same position, up from `m`, whose hashes differ.
pub open spec fn differing_count<'a, 'b, R: Decompose + 'a + 'b>(
    alpha_buckets: Seq<Vec<(u64, R::Decomposition<'a>)>>,
    beta_buckets: Seq<Vec<(u64, R::Decomposition<'b>)>>,
    m: int,
) -> nat
    decreases alpha_buckets.len() - m,
{
    if m >= alpha_buckets.len() || m < 0 {
        0
    } else {
        differing_count::<R>(alpha_buckets, beta_buckets, m + 1) + if bucket_hash(alpha_buckets[m]@) != bucket_hash(
            beta_buckets[m]@,
        ) {
            1nat
        } else {
            0nat
        }
    }
}

/// The hashes and states of the entries of a bucket, in order.
pub open spec fn bucket_view<'b, R: Decompose + 'b>(bucket: Vec<(u64, R::Decomposition<'b>)>) -> Seq<(u64, R::V)> {
    bucket@.map_values(|e: (u64, R::Decomposition<'b>)| (e.0, e.1@))
}

/// The hashes and states of the entries of every bucket, in order.
pub open spec fn buckets_view<'b, R: Decompose + 'b>(buckets: Seq<Vec<(u64, R::Decomposition<'b>)>>) -> Seq<Seq<(u64, R::V)>> {
    buckets.map_values(|b: Vec<(u64, R::Decomposition<'b>)>| bucket_view::<R>(b))
}

/// The join of the states of a bucket, given by its hashes and states.
pub open spec fn view_join<R: Decompose>(bucket: Seq<(u64, R::V)>) -> R::V {
    joined::<R>(bucket.map_values(|e: (u64, R::V)| e.1))
}

/// The join of the states of all the buckets, given by their hashes and states.
pub open spec fn views_join<R: Decompose>(buckets: Seq<Seq<(u64, R::V)>>) -> R::V
    decreases buckets.len(),
{
    if buckets.len() == 0 {
        R::spec_bottom()
    } else {
        R::spec_join(views_join::<R>(buckets.drop_last()), view_join::<R>(buckets.last()))
    }
}

/// Whether every pair of buckets at the same position whose hashes agree holds equal states.
pub open spec fn views_tell_apart<R: Decompose>(alpha: Seq<Seq<(u64, R::V)>>, beta: Seq<Seq<(u64, R::V)>>) -> bool {
    forall|i: int|
        0 <= i < alpha.len() && bucket_hash(#[trigger] alpha[i]) == bucket_hash(beta[i])
            ==> view_join::<R>(alpha[i]) == view_join::<R>(beta[i])
}

/// The number of pairs of buckets at the same position, up from `m`, whose hashes differ.
pub open spec fn views_differing<R: Decompose>(alpha: Seq<Seq<(u64, R::V)>>, beta: Seq<Seq<(u64, R::V)>>, m: int) -> nat
    decreases alpha.len() - m,
{
    if m >= alpha.len() || m < 0 {
        0
    } else {
        views_differing::<R>(alpha, beta, m + 1) + if bucket_hash(alpha[m]) != bucket_hash(beta[m]) {
            1nat
        } else {
            0nat
        }
    }
}

/// Equal buckets on both sides differ nowhere, so the exchange sends no state either way.
pub proof fn law_equal_buckets_differ_nowhere<R: Decompose>(buckets: Seq<Seq<(u64, R::V)>>, m: int)
    requires
        0 <= m <= buckets.len(),
    ensures
        views_differing::<R>(buckets, buckets, m) == 0,
    decreases buckets.len() - m,
{
    if m < buckets.len() {
        law_equal_buckets_differ_nowhere::<R>(buckets, m + 1);
    }
}

/// A bucket and its hashes and states have the same join and the same hash.
proof fn lemma_bucket_view<'b, R: Decompose + 'b>(bucket: Vec<(u64, R::Decomposition<'b>)>)
    ensures
        bucket_join::<R>(bucket@) == view_join::<R>(bucket_view::<R>(bucket)),
        bucket_hash(bucket@) == bucket_hash(bucket_view::<R>(bucket)),
{
    assert(entry_views::<R>(bucket@) =~= bucket_view::<R>(bucket).map_values(|e: (u64, R::V)| e.1));
    assert(bucket_hashes(bucket@) =~= bucket_hashes(bucket_view::<R>(bucket)));
}

/// Buckets and their hashes and states have the same join.
proof fn lemma_buckets_view_join<'b, R: Decompose + 'b>(buckets: Seq<Vec<(u64, R::Decomposition<'b>)>>)
    ensures
        buckets_join::<R>(buckets) == views_join::<R>(buckets_view::<R>(buckets)),
        buckets_view::<R>(buckets).len() == buckets.len(),
    decreases buckets.len(),
{
    if buckets.len() > 0 {
        assert(buckets_view::<R>(buckets).drop_last() =~= buckets_view::<R>(buckets.drop_last()));
        lemma_buckets_view_join::<R>(buckets.drop_last());
        lemma_bucket_view::<R>(buckets.last());
    }
}

/// Two sequences of buckets and their hashes and states count the same differing pairs, and
/// hashes that tell their states apart tell the buckets apart.
proof fn lemma_buckets_view_differing<'a, 'b, R: Decompose + 'a + 'b>(
    alpha: Seq<Vec<(u64, R::Decomposition<'a>)>>,
    beta: Seq<Vec<(u64, R::Decomposition<'b>)>>,
    m: int,
)
    requires
        alpha.len() == beta.len(),
        0 <= m <= alpha.len(),
    ensures
        differing_count::<R>(alpha, beta, m) == views_differing::<R>(buckets_view::<R>(alpha), buckets_view::<R>(beta), m),
        m == 0 && views_tell_apart::<R>(buckets_view::<R>(alpha), buckets_view::<R>(beta))
            ==> hashes_tell_apart::<R>(alpha, beta, 0),
    decreases alpha.len() - m,
{
    if m < alpha.len() {
        lemma_buckets_view_differing::<R>(alpha, beta, m + 1);
        lemma_bucket_view::<R>(alpha[m]);
        lemma_bucket_view::<R>(beta[m]);
    }
    if m == 0 && views_tell_apart::<R>(buckets_view::<R>(alpha), buckets_view::<R>(beta)) {
        assert forall|i: int|
            0 <= i < alpha.len() && bucket_hash(#[trigger] alpha[i]@) == bucket_hash(beta[i]@)
                implies bucket_join::<R>(alpha[i]@) == bucket_join::<R>(beta[i]@) by {
            lemma_bucket_view::<R>(alpha[i]);
            lemma_bucket_view::<R>(beta[i]);
            assert(buckets_view::<R>(alpha)[i] == bucket_view::<R>(alpha[i]));
            assert(buckets_view::<R>(beta)[i] == bucket_view::<R>(beta[i]));
        }
    }
}

/// Compares the buckets of two replicas pair by pair, from the last: for each pair whose hashes
/// differ, the state of the bucket of beta goes to alpha, and the part of the bucket of alpha
/// that beta's lacks goes to beta. What goes to each side lies below the other side's buckets;
/// where no two differing buckets share a hash, joining what they get brings both sides to the
/// join of all the buckets.
pub fn exchange_buckets<'a, 'b, R: Decompose + 'a + 'b>(
    alpha_buckets: Vec<Vec<(u64, R::Decomposition<'a>)>>,
    alpha_hashes: &Vec<u64>,
    beta_buckets: Vec<Vec<(u64, R::Decomposition<'b>)>>,
    beta_hashes: &Vec<u64>,
) -> (r: (Vec<R>, Vec<R>))
    requires
        beta_buckets@.len() == alpha_buckets@.len(),
        alpha_hashes@.len() == alpha_buckets@.len(),
        beta_hashes@.len() == beta_buckets@.len(),
        forall|b: int| 0 <= b < alpha_buckets@.len() ==> alpha_hashes@[b] == bucket_hash(#[trigger] alpha_buckets@[b]@),
        forall|b: int| 0 <= b < beta_buckets@.len() ==> beta_hashes@[b] == bucket_hash(#[trigger] beta_buckets@[b]@),
    ensures
        r.0@.len() == differing_count::<R>(alpha_buckets@, beta_buckets@, 0),
        r.1@.len() == r.0@.len(),
        below::<R>(joined::<R>(r.0@.map_values(|x: R| x@)), buckets_join::<R>(beta_buckets@)),
        below::<R>(joined::<R>(r.1@.map_values(|x: R| x@)), buckets_join::<R>(alpha_buckets@)),
        hashes_tell_apart::<R>(alpha_buckets@, beta_buckets@, 0) ==> R::spec_join(
            buckets_join::<R>(alpha_buckets@),
            joined::<R>(r.0@.map_values(|x: R| x@)),
        ) == R::spec_join(buckets_join::<R>(alpha_buckets@), buckets_join::<R>(beta_buckets@)),
        hashes_tell_apart::<R>(alpha_buckets@, beta_buckets@, 0) ==> R::spec_join(
            buckets_join::<R>(beta_buckets@),
            joined::<R>(r.1@.map_values(|x: R| x@)),
        ) == R::spec_join(buckets_join::<R>(alpha_buckets@), buckets_join::<R>(beta_buckets@)),
{
    let ghost all_a = alpha_buckets@;
    let ghost all_b = beta_buckets@;
    let ghost n = all_a.len() as int;
    let mut alpha_buckets = alpha_buckets;
    let mut beta_buckets = beta_buckets;
    let mut to_alpha: Vec<R> = Vec::new();
    let mut to_beta: Vec<R> = Vec::new();
    proof {
        assert(to_alpha@.map_values(|x: R| x@) =~= Seq::<R::V>::empty());
        assert(to_beta@.map_values(|x: R| x@) =~= Seq::<R::V>::empty());
        R::lemma_join_all(R::spec_bottom(), Seq::<R::V>::empty(), R::spec_bottom());
        R::lemma_lattice(R::spec_bottom(), R::spec_bottom(), R::spec_bottom());
    }
    while alpha_buckets.len() > 0
        invariant
            alpha_buckets@.len() == beta_buckets@.len(),
            alpha_buckets@.len() <= n,
            n == all_a.len(),
            all_b.len() == all_a.len(),
            alpha_hashes@.len() == n,
            beta_hashes@.len() == n,
            forall|b: int| 0 <= b < n ==> alpha_hashes@[b] == bucket_hash(#[trigger] all_a[b]@),
            forall|b: int| 0 <= b < n ==> beta_hashes@[b] == bucket_hash(#[trigger] all_b[b]@),
            alpha_buckets@ == all_a.take(alpha_buckets@.len() as int),
            beta_buckets@ == all_b.take(beta_buckets@.len() as int),
            to_alpha@.len() == differing_count::<R>(all_a, all_b, alpha_buckets@.len() as int),
            to_beta@.len() == to_alpha@.len(),
            below::<R>(joined::<R>(to_alpha@.map_values(|x: R| x@)), suffix_join::<R>(all_b, alpha_buckets@.len() as int)),
            below::<R>(joined::<R>(to_beta@.map_values(|x: R| x@)), suffix_join::<R>(all_a, alpha_buckets@.len() as int)),
            hashes_tell_apart::<R>(all_a, all_b, alpha_buckets@.len() as int) ==> below::<R>(
                suffix_join::<R>(all_b, alpha_buckets@.len() as int),
                R::spec_join(suffix_join::<R>(all_a, alpha_buckets@.len() as int), joined::<R>(to_alpha@.map_values(|x: R| x@))),
            ),
            hashes_tell_apart::<R>(all_a, all_b, alpha_buckets@.len() as int) ==> below::<R>(
                suffix_join::<R>(all_a, alpha_buckets@.len() as int),
                R::spec_join(suffix_join::<R>(all_b, alpha_buckets@.len() as int), joined::<R>(to_beta@.map_values(|x: R| x@))),
            ),
        decreases alpha_buckets@.len(),
    {
        let ghost m = alpha_buckets@.len() as int;
        let ghost i = m - 1;
        let a_bucket = alpha_buckets.pop().unwrap();
        let b_bucket = beta_buckets.pop().unwrap();
        proof {
            assert(a_bucket == all_a[i]);
            assert(b_bucket == all_b[i]);
            assert(alpha_buckets@ =~= all_a.take(i));
            assert(beta_buckets@ =~= all_b.take(i));
        }
        let ghost ai = bucket_join::<R>(all_a[i]@);
        let ghost bi = bucket_join::<R>(all_b[i]@);
        let ghost sa = suffix_join::<R>(all_a, m);
        let ghost sb = suffix_join::<R>(all_b, m);
        let ghost ja = joined::<R>(to_alpha@.map_values(|x: R| x@));
        let ghost jb = joined::<R>(to_beta@.map_values(|x: R| x@));
        let k = alpha_buckets.len();
        proof {
            assert(suffix_join::<R>(all_a, i) == R::spec_join(sa, ai));
            assert(suffix_join::<R>(all_b, i) == R::spec_join(sb, bi));
            lemma_below_join::<R>(sa, ai);
            lemma_below_join::<R>(sb, bi);
        }
        if alpha_hashes[k] != beta_hashes[k] {
            let b_state: R = bucket_state(b_bucket);
            let a_state: R = bucket_state(a_bucket);
            let d = a_state.difference(&b_state);
            let ghost dv = d@;
            let mut diff = R::empty();
            let parts = vec![d];
            assert(parts@.map_values(|x: R::Decomposition<'_>| x@) =~= seq![dv]);
            diff.join(parts);
            proof {
                lemma_join_one::<R>(R::spec_bottom(), dv);
                R::lemma_lattice(dv, dv, dv);
                R::lemma_lattice(ai, dv, dv);
                assert(diff@ == dv);
                // bi joined with the difference is the join of both buckets; the difference lies
                // below ai
                assert(R::spec_join(bi, dv) == R::spec_join(ai, bi));
                assert(below::<R>(dv, ai));
            }
            let ghost ta = to_alpha@;
            let ghost tb = to_beta@;
            to_alpha.push(b_state);
            to_beta.push(diff);
            proof {
                let va = ta.map_values(|x: R| x@);
                let vb = tb.map_values(|x: R| x@);
                assert(to_alpha@.map_values(|x: R| x@) =~= va.push(bi));
                assert(to_beta@.map_values(|x: R| x@) =~= vb.push(dv));
                R::lemma_join_all(R::spec_bottom(), va, bi);
                R::lemma_join_all(R::spec_bottom(), vb, dv);
                // what goes to alpha stays below the buckets of beta
                lemma_below_mono::<R>(ja, sb, bi);
                R::lemma_lattice(bi, bi, bi);
                lemma_below_mono::<R>(bi, bi, sb);
                R::lemma_lattice(sb, bi, sb);
                lemma_below_trans::<R>(dv, ai, R::spec_join(sa, ai));
                lemma_below_mono::<R>(jb, sa, dv);
                lemma_join_below::<R>(sa, dv, R::spec_join(sa, ai));
                lemma_below_trans::<R>(R::spec_join(jb, dv), R::spec_join(sa, dv), R::spec_join(sa, ai));
                if hashes_tell_apart::<R>(all_a, all_b, i) {
                    assert(hashes_tell_apart::<R>(all_a, all_b, m));
                    let ja2 = R::spec_join(ja, bi);
                    let jb2 = R::spec_join(jb, dv);
                    let top_a = R::spec_join(R::spec_join(sa, ai), ja2);
                    let top_b = R::spec_join(R::spec_join(sb, bi), jb2);
                    // the buckets of beta lie below alpha's side
                    lemma_below_join::<R>(sa, ja);
                    lemma_below_join::<R>(ja, bi);
                    lemma_below_join::<R>(R::spec_join(sa, ai), ja2);
                    lemma_below_join::<R>(sa, ai);
                    assert(below::<R>(sb, top_a)) by {
                        lemma_below_mono::<R>(sa, R::spec_join(sa, ai), ja);
                        lemma_below_mono::<R>(ja, ja2, R::spec_join(sa, ai));
                        R::lemma_lattice(sa, ai, ja);
                        R::lemma_lattice(R::spec_join(sa, ai), ja, ja2);
                        R::lemma_lattice(ja, R::spec_join(sa, ai), ja2);
                        R::lemma_lattice(R::spec_join(sa, ai), ja2, ja);
                        lemma_join_below::<R>(R::spec_join(sa, ai), ja, top_a);
                        lemma_below_trans::<R>(R::spec_join(sa, ja), R::spec_join(R::spec_join(sa, ai), ja), top_a);
                        lemma_below_trans::<R>(sb, R::spec_join(sa, ja), top_a);
                    }
                    assert(below::<R>(bi, top_a)) by {
                        lemma_below_trans::<R>(bi, ja2, top_a);
                    }
                    lemma_join_below::<R>(sb, bi, top_a);
                    // the buckets of alpha lie below beta's side
                    lemma_below_join::<R>(jb, dv);
                    lemma_below_join::<R>(R::spec_join(sb, bi), jb2);
                    assert(below::<R>(sa, top_b)) by {
                        lemma_below_mono::<R>(sb, R::spec_join(sb, bi), jb);
                        lemma_below_mono::<R>(jb, jb2, R::spec_join(sb, bi));
                        R::lemma_lattice(R::spec_join(sb, bi), jb, jb2);
                        R::lemma_lattice(jb, R::spec_join(sb, bi), jb2);
                        R::lemma_lattice(R::spec_join(sb, bi), jb2, jb);
                        lemma_join_below::<R>(R::spec_join(sb, bi), jb, top_b);
                        lemma_below_trans::<R>(R::spec_join(sb, jb), R::spec_join(R::spec_join(sb, bi), jb), top_b);
                        lemma_below_trans::<R>(sa, R::spec_join(sb, jb), top_b);
                    }
                    assert(below::<R>(ai, top_b)) by {
                        lemma_below_join::<R>(bi, dv);
                        lemma_below_join::<R>(ai, bi);
                        lemma_below_mono::<R>(bi, R::spec_join(sb, bi), dv);
                        lemma_below_mono::<R>(dv, jb2, R::spec_join(sb, bi));
                        R::lemma_lattice(R::spec_join(sb, bi), dv, jb2);
                        R::lemma_lattice(dv, R::spec_join(sb, bi), jb2);
                        R::lemma_lattice(R::spec_join(sb, bi), jb2, dv);
                        R::lemma_lattice(bi, R::spec_join(sb, bi), dv);
                        lemma_below_join::<R>(sb, bi);
                        lemma_below_trans::<R>(bi, R::spec_join(sb, bi), top_b);
                        lemma_below_trans::<R>(dv, jb2, top_b);
                        lemma_join_below::<R>(bi, dv, top_b);
                        lemma_below_trans::<R>(ai, R::spec_join(bi, dv), top_b);
                    }
                    lemma_join_below::<R>(sa, ai, top_b);
                }
            }
        } else {
            proof {
                lemma_below_trans::<R>(ja, sb, R::spec_join(sb, bi));
                lemma_below_trans::<R>(jb, sa, R::spec_join(sa, ai));
                if hashes_tell_apart::<R>(all_a, all_b, i) {
                    assert(hashes_tell_apart::<R>(all_a, all_b, m));
                    assert(bucket_hash(all_a[i]@) == bucket_hash(all_b[i]@));
                    assert(ai == bi);
                    let top_a = R::spec_join(R::spec_join(sa, ai), ja);
                    let top_b = R::spec_join(R::spec_join(sb, bi), jb);
                    lemma_below_mono::<R>(sa, R::spec_join(sa, ai), ja);
                    lemma_below_trans::<R>(sb, R::spec_join(sa, ja), top_a);
                    lemma_below_join::<R>(R::spec_join(sa, ai), ja);
                    lemma_below_trans::<R>(bi, R::spec_join(sa, ai), top_a);
                    lemma_join_below::<R>(sb, bi, top_a);
                    lemma_below_mono::<R>(sb, R::spec_join(sb, bi), jb);
                    lemma_below_trans::<R>(sa, R::spec_join(sb, jb), top_b);
                    lemma_below_join::<R>(R::spec_join(sb, bi), jb);
                    lemma_below_trans::<R>(ai, R::spec_join(sb, bi), top_b);
                    lemma_join_below::<R>(sa, ai, top_b);
                }
            }
        }
    }
    proof {
        lemma_suffix_join_all::<R>(all_a);
        lemma_suffix_join_all::<R>(all_b);
        let ta = buckets_join::<R>(all_a);
        let tb = buckets_join::<R>(all_b);
        let ja = joined::<R>(to_alpha@.map_values(|x: R| x@));
        let jb = joined::<R>(to_beta@.map_values(|x: R| x@));
        if hashes_tell_apart::<R>(all_a, all_b, 0) {
            lemma_below_join::<R>(ta, tb);
            lemma_below_join::<R>(ta, ja);
            lemma_below_trans::<R>(ja, tb, R::spec_join(ta, tb));
            lemma_join_below::<R>(ta, ja, R::spec_join(ta, tb));
            lemma_join_below::<R>(ta, tb, R::spec_join(ta, ja));
            lemma_below_antisym::<R>(R::spec_join(ta, ja), R::spec_join(ta, tb));
            lemma_below_join::<R>(tb, jb);
            lemma_below_join::<R>(tb, ta);
            R::lemma_lattice(ta, tb, ta);
            lemma_below_trans::<R>(jb, ta, R::spec_join(ta, tb));
            lemma_join_below::<R>(tb, jb, R::spec_join(ta, tb));
            lemma_join_below::<R>(ta, tb, R::spec_join(tb, jb));
            lemma_below_antisym::<R>(R::spec_join(tb, jb), R::spec_join(ta, tb));
        }
    }
    (to_alpha, to_beta)
}

/// Synchronization through buckets: `alpha` sends the hash of each of its buckets of
/// decompositions; `beta` answers with the states of its buckets whose hashes differ, and
/// `alpha` sends back the part of its own state in those buckets that `beta` lacks.
#[derive(Clone, Copy, Debug)]
pub struct Buckets {
    dispatcher: Dispatcher,
}

impl Buckets {
    /// The algorithm with the given dispatcher.
    pub fn new(dispatcher: Dispatcher) -> (r: Self)
        ensures
            r.spec_dispatcher() == dispatcher,
    {
        Buckets { dispatcher }
    }

    /// The dispatcher of the algorithm.
    pub closed spec fn spec_dispatcher(&self) -> Dispatcher {
        self.dispatcher
    }
}

/// The bytes that the first message spends on each bucket hash: the hash and its position.
pub open spec fn hash_entry_bytes() -> nat {
    8 + vstd::layout::size_of::<usize>()
}

/// What a synchronization through buckets did, given the buckets of both replicas (by their
/// hashes and states) with the `pa` decompositions of alpha and the `nb` of beta, the `na`
/// buckets whose hashes alpha sent (one more, empty, where it has none and beta has some
/// decomposition), and the states that went each
/// way: the buckets join to the replicas and hold each entry at its hash modulo their number;
/// alpha sends its hashes, beta the states of its buckets whose hashes differ, alpha the parts of
/// its own such buckets that beta lacks; each replica ends with what it got joined in, and both
/// end with the join of their states where no two differing buckets share a hash.
pub open spec fn buckets_outcome<R: Decompose + MemSized>(
    alpha: R::V,
    beta: R::V,
    pa: nat,
    na: nat,
    nb: nat,
    a: Seq<Seq<(u64, R::V)>>,
    b: Seq<Seq<(u64, R::V)>>,
    to_alpha: Seq<R>,
    to_beta: Seq<R>,
    events: Seq<TransferEvent>,
    final_alpha: R::V,
    final_beta: R::V,
) -> bool {
    &&& a.len() == b.len()
    &&& a.len() == (if na == 0 && nb > 0 { 1 } else { na })
    &&& total_len(a) == pa
    &&& total_len(b) == nb
    &&& views_join::<R>(a) == alpha
    &&& views_join::<R>(b) == beta
    &&& forall|i: int, e: int| 0 <= i < a.len() && 0 <= e < a[i].len() ==> (#[trigger] a[i][e]).0 as int % a.len() as int == i
    &&& forall|i: int, e: int| 0 <= i < b.len() && 0 <= e < b[i].len() ==> (#[trigger] b[i][e]).0 as int % b.len() as int == i
    &&& to_alpha.len() == views_differing::<R>(a, b, 0)
    &&& to_beta.len() == to_alpha.len()
    &&& below::<R>(joined::<R>(to_alpha.map_values(|x: R| x@)), beta)
    &&& below::<R>(joined::<R>(to_beta.map_values(|x: R| x@)), alpha)
    &&& events == seq![
        TransferEvent { state: 0, metadata: saturated(na * hash_entry_bytes()) as usize, kind: TransferKind::LocalToRemote },
        TransferEvent {
            state: saturated(sizes(to_alpha)) as usize,
            metadata: saturated(to_alpha.len() * vstd::layout::size_of::<usize>()) as usize,
            kind: TransferKind::RemoteToLocal,
        },
        TransferEvent { state: saturated(sizes(to_beta)) as usize, metadata: 0, kind: TransferKind::LocalToRemote },
    ]
    &&& final_alpha == R::spec_join_all(alpha, to_alpha.map_values(|x: R| x@))
    &&& final_beta == R::spec_join_all(beta, to_beta.map_values(|x: R| x@))
    &&& views_tell_apart::<R>(a, b) ==> final_alpha == R::spec_join(alpha, beta) && final_beta == R::spec_join(alpha, beta)
}

impl<R: Decompose + MemSized> Algorithm<R> for Buckets {
    const HOPS: usize = 3;
    type Tracker = Tracker;

    /// `alpha` sends the hash of each of its buckets; `beta` answers with the states of its
    /// buckets whose hashes differ, and `alpha` sends back the part of its own state in those
    /// buckets that `beta` lacks. Where `alpha` has no bucket and `beta` has one, the missing
    /// bucket counts as empty. Neither replica loses a part of its state or gains one that neither
    /// had, and both end with the join of their states where no two differing buckets share a
    /// hash.
    fn sync(&self, alpha: &mut R, beta: &mut R, tracker: &mut Tracker)
        ensures
            below::<R>(old(alpha)@, final(alpha)@),
            below::<R>(final(alpha)@, R::spec_join(old(alpha)@, old(beta)@)),
            below::<R>(old(beta)@, final(beta)@),
            below::<R>(final(beta)@, R::spec_join(old(alpha)@, old(beta)@)),
            exists|a: Seq<Seq<(u64, R::V)>>, b: Seq<Seq<(u64, R::V)>>, to_alpha: Seq<R>, to_beta: Seq<R>|
                #[trigger] buckets_outcome::<R>(
                    old(alpha)@,
                    old(beta)@,
                    old(alpha).spec_part_count(),
                    bucket_count(self.spec_dispatcher().load_factor() as nat, old(alpha).spec_part_count(), None),
                    old(beta).spec_part_count(),
                    a,
                    b,
                    to_alpha,
                    to_beta,
                    final(tracker).spec_events(),
                    final(alpha)@,
                    final(beta)@,
                ),
            final(tracker).link() == old(tracker).link(),
            final(alpha).spec_wf(),
            final(beta).spec_wf(),
    {
        broadcast use vstd::layout::group_layout_axioms;
        let ghost a0 = alpha@;
        let ghost b0 = beta@;
        let ghost top = R::spec_join(a0, b0);
        let ghost na = bucket_count(self.dispatcher.load_factor() as nat, alpha.spec_part_count(), None);
        let ghost nb = beta.spec_part_count();
        let ghost pa = alpha.spec_part_count();
        proof {
            lemma_below_join::<R>(a0, b0);
        }
        tracker.reset();
        let ghost mut av: Seq<Seq<(u64, R::V)>> = Seq::empty();
        let ghost mut bv: Seq<Seq<(u64, R::V)>> = Seq::empty();
        let (at_beta, diffs) = {
            let mut alpha_buckets = self.dispatcher.distribute(&*alpha, None);
            let mut alpha_hashes = hashes_of(&alpha_buckets);
            let entry_bytes = core::mem::size_of::<u64>() + core::mem::size_of::<usize>();
            tracker.register(TransferEvent {
                state: 0,
                metadata: bytes_of(alpha_hashes.len(), entry_bytes),
                kind: TransferKind::LocalToRemote,
            });
            let beta_buckets = self.dispatcher.distribute(&*beta, Some(alpha_hashes.len()));
            let beta_hashes = hashes_of(&beta_buckets);
            if alpha_buckets.len() == 0 && beta_buckets.len() > 0 {
                proof {
                    lemma_buckets_join_empty::<R>(alpha_buckets@);
                }
                let ghost before_pad = alpha_buckets@;
                alpha_buckets.push(Vec::new());
                alpha_hashes.push(0);
                proof {
                    assert(buckets_view::<R>(alpha_buckets@).drop_last() =~= buckets_view::<R>(before_pad));
                    assert(buckets_view::<R>(alpha_buckets@).last() =~= Seq::<(u64, R::V)>::empty());
                    lemma_buckets_join_empty::<R>(alpha_buckets@);
                    assert(bucket_hashes(alpha_buckets@[0]@) =~= Seq::<u64>::empty());
                }
            }
            proof {
                av = buckets_view::<R>(alpha_buckets@);
                bv = buckets_view::<R>(beta_buckets@);
                lemma_buckets_view_join::<R>(alpha_buckets@);
                lemma_buckets_view_join::<R>(beta_buckets@);
                lemma_buckets_view_differing::<R>(alpha_buckets@, beta_buckets@, 0);
                assert forall|i: int, e: int| 0 <= i < av.len() && 0 <= e < av[i].len() implies (#[trigger] av[i][e]).0 as int % av.len() as int == i by {
                    assert(av[i] == bucket_view::<R>(alpha_buckets@[i]));
                    assert(av[i][e].0 == alpha_buckets@[i]@[e].0);
                }
                assert forall|i: int, e: int| 0 <= i < bv.len() && 0 <= e < bv[i].len() implies (#[trigger] bv[i][e]).0 as int % bv.len() as int == i by {
                    assert(bv[i] == bucket_view::<R>(beta_buckets@[i]));
                    assert(bv[i][e].0 == beta_buckets@[i]@[e].0);
                }
            }
            exchange_buckets::<R>(alpha_buckets, &alpha_hashes, beta_buckets, &beta_hashes)
        };
        let state_b = sizes_of(&at_beta);
        tracker.register(TransferEvent {
            state: state_b,
            metadata: bytes_of(at_beta.len(), core::mem::size_of::<usize>()),
            kind: TransferKind::RemoteToLocal,
        });
        let state_d = sizes_of(&diffs);
        tracker.register(TransferEvent { state: state_d, metadata: 0, kind: TransferKind::LocalToRemote });
        let to_alpha = deltas_of(&at_beta);
        let ghost va = to_alpha@.map_values(|x: R::Decomposition<'_>| x@);
        proof {
            assert(va =~= at_beta@.map_values(|x: R| x@));
            lemma_join_all_start::<R>(a0, va);
            lemma_below_join::<R>(a0, joined::<R>(va));
            lemma_below_mono::<R>(joined::<R>(va), b0, a0);
            R::lemma_lattice(joined::<R>(va), a0, a0);
            R::lemma_lattice(b0, a0, a0);
        }
        alpha.join(to_alpha);
        let to_beta = deltas_of(&diffs);
        let ghost vb = to_beta@.map_values(|x: R::Decomposition<'_>| x@);
        proof {
            assert(vb =~= diffs@.map_values(|x: R| x@));
            lemma_join_all_start::<R>(b0, vb);
            lemma_below_join::<R>(b0, joined::<R>(vb));
            lemma_below_mono::<R>(joined::<R>(vb), a0, b0);
            R::lemma_lattice(joined::<R>(vb), b0, b0);
            R::lemma_lattice(a0, b0, b0);
        }
        beta.join(to_beta);
        proof {
            R::lemma_lattice(a0, b0, a0);
            assert(tracker.spec_events() =~= seq![
                TransferEvent { state: 0, metadata: saturated(na * hash_entry_bytes()) as usize, kind: TransferKind::LocalToRemote },
                TransferEvent {
                    state: saturated(sizes(at_beta@)) as usize,
                    metadata: saturated(at_beta@.len() * vstd::layout::size_of::<usize>()) as usize,
                    kind: TransferKind::RemoteToLocal,
                },
                TransferEvent { state: saturated(sizes(diffs@)) as usize, metadata: 0, kind: TransferKind::LocalToRemote },
            ]);
            assert(buckets_outcome::<R>(a0, b0, pa, na, nb, av, bv, at_beta@, diffs@, tracker.spec_events(), alpha@, beta@));
            assert(na == bucket_count(self.spec_dispatcher().load_factor() as nat, old(alpha).spec_part_count(), None));
            assert(a0 == old(alpha)@ && b0 == old(beta)@);
        }
    }
}

} // verus!
