//! Rateless Bloom filters: a stack of one-hash Bloom filters over the same keys, grown one slice
//! at a time. A key is a member while every slice holds it, so a key of the filter's own data is
//! always a member and other keys drop out as slices are added.

use vstd::prelude::*;

use crate::bloom::{hit, lemma_holds_grow, BloomFilter};

verus! {

/// Whether bit `j` of a slice of `m` bits with the hashers `seeds` is set by some key of `keys`.
#[verifier::opaque]
pub open spec fn slice_bit(keys: Seq<u64>, seeds: (u64, u64), m: nat, j: int) -> bool {
    exists|d: int| 0 <= d < keys.len() && #[trigger] hit(seeds, 1, keys[d], m, j)
}

/// The bits that the first `i + 1` keys set are those of the first `i` keys and those of key `i`.
proof fn lemma_slice_bit_step(keys: Seq<u64>, i: int, seeds: (u64, u64), m: nat, j: int)
    requires
        0 <= i < keys.len(),
    ensures
        slice_bit(keys.take(i + 1), seeds, m, j) <==> (slice_bit(keys.take(i), seeds, m, j) || hit(seeds, 1, keys[i], m, j)),
        !slice_bit(keys.take(0), seeds, m, j),
{
    reveal(slice_bit);
    let next = keys.take(i + 1);
    let prev = keys.take(i);
    if slice_bit(next, seeds, m, j) {
        let d = choose|d: int| 0 <= d < next.len() && #[trigger] hit(seeds, 1, next[d], m, j);
        if d < i {
            assert(prev[d] == next[d]);
        }
    }
    if slice_bit(prev, seeds, m, j) {
        let d = choose|d: int| 0 <= d < prev.len() && #[trigger] hit(seeds, 1, prev[d], m, j);
        assert(next[d] == prev[d]);
    }
    if hit(seeds, 1, keys[i], m, j) {
        assert(next[i] == keys[i]);
    }
}

/// The bytes of `n` slices of `m` bits, and the 8 bytes that give `m`; nothing when `n` is 0.
pub open spec fn rateless_size(n: nat, m: nat) -> nat {
    if n == 0 {
        0
    } else {
        n * ((m + 7) / 8) + 8
    }
}

/// The bytes of a hash.
pub const HASH_SIZE: usize = 8;

/// The bytes of a coded symbol of a rateless IBLT: a symbol, its hash and a counter.
pub const IBLT_SYMBOL_SIZE: usize = 24;

/// The coded symbols that rateless set reconciliation sends per difference, in thousandths.
pub const RATELESS_SET_RECONCILIATION_MULTIPLIER_MILLIS: usize = 1350;

/// `value` times `multiplier_millis` thousandths, rounded to the nearest integer (halves up).
pub fn round_mul(multiplier_millis: usize, value: usize) -> (r: usize)
    requires
        multiplier_millis * value + 500 <= usize::MAX,
    ensures
        r == (multiplier_millis * value + 500) / 1000,
{
    (multiplier_millis * value + 500) / 1000
}

/// The bytes that rateless set reconciliation spends per difference: a hash, and the coded
/// symbols that it sends per difference.
pub fn reconciliation_overhead() -> (r: usize)
    ensures
        r == 40,
{
    assert(1350 * 24 + 500 == 32900);
    HASH_SIZE + round_mul(RATELESS_SET_RECONCILIATION_MULTIPLIER_MILLIS, IBLT_SYMBOL_SIZE)
}

/// The number of keys of `keys` that are not members of `filter`.
pub open spec fn absent_count(filter: RatelessBF, keys: Seq<u64>) -> nat
    decreases keys.len(),
{
    if keys.len() == 0 {
        0
    } else {
        absent_count(filter, keys.drop_last()) + if filter.spec_contains(keys.last()) {
            0nat
        } else {
            1nat
        }
    }
}

/// The 64-bit key of `item` under the Fx hasher of `fxhash` (`fxhash::hash64`). Nothing is
/// stated of the result: it is a function of the item alone, but a name for it would need the
/// item's type as a parameter.
#[verifier::external_body]
fn fx_hash64<T: core::hash::Hash>(item: &T) -> u64 {
    fxhash::hash64(item)
}

/// The keys that stand for `items` in a rateless Bloom filter, one per item, in order.
pub fn fingerprints<T: core::hash::Hash>(items: &Vec<T>) -> (r: Vec<u64>)
    ensures
        r@.len() == items@.len(),
{
    let mut keys: Vec<u64> = Vec::new();
    let mut i: usize = 0;
    while i < items.len()
        invariant
            i <= items@.len(),
            keys@.len() == i,
        decreases items@.len() - i,
    {
        keys.push(fx_hash64(&items[i]));
        i = i + 1;
    }
    keys
}

/// The first seeds of the hashers of the slices, in order.
pub open spec fn first_seeds(filters: Seq<BloomFilter>) -> Seq<int> {
    filters.map_values(|f: BloomFilter| f.seeds().0 as int)
}

/// Of the numbers `0..=n`, one is the first seed of none of `n` slices.
proof fn lemma_free_seed(filters: Seq<BloomFilter>)
    ensures
        exists|c: int| 0 <= c <= filters.len() && !first_seeds(filters).contains(c),
{
    let n = filters.len() as int;
    let seeds = first_seeds(filters);
    if forall|c: int| 0 <= c <= n ==> seeds.contains(c) {
        vstd::set_lib::lemma_int_range(0, n + 1);
        vstd::seq_lib::seq_to_set_is_finite(seeds);
        seeds.lemma_cardinality_of_set();
        assert forall|c: int| vstd::set_lib::set_int_range(0, n + 1).contains(c) implies seeds.to_set().contains(c) by {
            assert(seeds.contains(c));
        }
        vstd::set_lib::lemma_len_subset(vstd::set_lib::set_int_range(0, n + 1), seeds.to_set());
    }
}

/// A rateless Bloom filter over the keys `data`, whose slices have `m` bits each.
pub struct RatelessBF {
    bloom_filters: Vec<BloomFilter>,
    data: Vec<u64>,
    m: usize,
}

impl RatelessBF {
    /// The slices, oldest first.
    pub closed spec fn filters(&self) -> Seq<BloomFilter> {
        self.bloom_filters@
    }

    /// The keys that every slice holds.
    pub closed spec fn keys(&self) -> Seq<u64> {
        self.data@
    }

    /// The number of bits of each slice.
    pub closed spec fn bits_per_slice(&self) -> nat {
        self.m as nat
    }

    /// Whether every slice holds `key`.
    pub open spec fn spec_contains(&self, key: u64) -> bool {
        forall|s: int| 0 <= s < self.filters().len() ==> (#[trigger] self.filters()[s]).holds(key)
    }

    /// Whether every slice is a one-hash filter of `m` bits that has exactly the bits that the
    /// keys set under its hashers.
    pub open spec fn well_built(&self) -> bool {
        forall|s: int| #![trigger self.filters()[s]] 0 <= s < self.filters().len() ==> {
            &&& self.filters()[s].hash_count() == 1
            &&& self.filters()[s].bits().len() == self.bits_per_slice()
            &&& forall|j: int| 0 <= j < self.bits_per_slice() ==> (#[trigger] self.filters()[s].bits()[j]
                <==> slice_bit(self.keys(), self.filters()[s].seeds(), self.bits_per_slice(), j))
        }
    }

    #[verifier::type_invariant]
    spec fn inv(self) -> bool {
        forall|s: int| #![trigger self.bloom_filters@[s]] 0 <= s < self.bloom_filters@.len() ==> {
            &&& self.bloom_filters@[s].bits().len() == self.m
            &&& self.m > 0
            &&& forall|d: int| 0 <= d < self.data@.len() ==> #[trigger] self.bloom_filters@[s].holds(self.data@[d])
        }
    }

    /// A filter over `data` with no slice yet.
    pub fn new(data: Vec<u64>, m: usize) -> (r: Self)
        ensures
            r.filters() == Seq::<BloomFilter>::empty(),
            r.keys() == data@,
            r.bits_per_slice() == m,
            r.well_built(),
    {
        RatelessBF { bloom_filters: Vec::new(), data, m }
    }

    /// A slice with the given hashers that holds every key.
    fn slice(&self, mut filter: BloomFilter) -> (r: BloomFilter)
        requires
            filter.bits() == Seq::new(self.m as nat, |j: int| false),
            filter.hash_count() == 1,
            self.m > 0,
        ensures
            r.bits().len() == self.m,
            r.hash_count() == 1,
            r.seeds() == filter.seeds(),
            forall|j: int| 0 <= j < self.m ==> (#[trigger] r.bits()[j] <==> slice_bit(self.data@, r.seeds(), self.m as nat, j)),
            forall|d: int| 0 <= d < self.data@.len() ==> #[trigger] r.holds(self.data@[d]),
    {
        let ghost seeds = filter.seeds();
        let ghost m = self.m as nat;
        let mut i: usize = 0;
        proof {
            assert forall|j: int| 0 <= j < self.m implies (#[trigger] filter.bits()[j] <==> slice_bit(self.data@.take(0), seeds, m, j)) by {
                lemma_slice_bit_step(self.data@.push(0), 0, seeds, m, j);
                assert(self.data@.push(0).take(0) =~= self.data@.take(0));
            }
        }
        while i < self.data.len()
            invariant
                i <= self.data@.len(),
                m == self.m,
                self.m > 0,
                filter.bits().len() == self.m,
                filter.hash_count() == 1,
                filter.seeds() == seeds,
                forall|j: int| 0 <= j < self.m ==> (#[trigger] filter.bits()[j] <==> slice_bit(self.data@.take(i as int), seeds, m, j)),
                forall|d: int| 0 <= d < i ==> #[trigger] filter.holds(self.data@[d]),
            decreases self.data@.len() - i,
        {
            let ghost before = filter;
            filter.insert(self.data[i]);
            proof {
                assert forall|j: int| 0 <= j < self.m implies (#[trigger] filter.bits()[j] <==> slice_bit(self.data@.take(i + 1), seeds, m, j)) by {
                    lemma_slice_bit_step(self.data@, i as int, seeds, m, j);
                }
                assert forall|d: int| 0 <= d < i + 1 implies #[trigger] filter.holds(self.data@[d]) by {
                    if d < i {
                        assert(before.holds(self.data@[d]));
                        lemma_holds_grow(before.bits(), filter.bits(), seeds, 1, self.data@[d]);
                    }
                }
            }
            i = i + 1;
        }
        assert(self.data@.take(self.data@.len() as int) =~= self.data@);
        filter
    }

    /// Returns `true` if some slice has the hashers `hashers`.
    fn hashers_used(&self, hashers: [u64; 2]) -> (r: bool)
        ensures
            r == exists|s: int| 0 <= s < self.filters().len() && #[trigger] self.filters()[s].seeds() == (hashers[0], hashers[1]),
    {
        let mut s: usize = 0;
        while s < self.bloom_filters.len()
            invariant
                s <= self.bloom_filters@.len(),
                forall|t: int| 0 <= t < s ==> (#[trigger] self.bloom_filters@[t]).seeds() != (hashers[0], hashers[1]),
            decreases self.bloom_filters@.len() - s,
        {
            let h = self.bloom_filters[s].hashers();
            if h[0] == hashers[0] && h[1] == hashers[1] {
                proof {
                    assert(self.filters()[s as int].seeds() == (hashers[0], hashers[1]));
                }
                return true;
            }
            s = s + 1;
        }
        false
    }

    /// Returns `true` if some slice has `c` as the first seed of its hashers.
    fn first_seed_used(&self, c: u64) -> (r: bool)
        ensures
            r == first_seeds(self.filters()).contains(c as int),
    {
        let mut s: usize = 0;
        while s < self.bloom_filters.len()
            invariant
                s <= self.bloom_filters@.len(),
                forall|t: int| 0 <= t < s ==> (#[trigger] self.bloom_filters@[t]).seeds().0 != c,
            decreases self.bloom_filters@.len() - s,
        {
            let h = self.bloom_filters[s].hashers();
            if h[0] == c {
                proof {
                    assert(first_seeds(self.filters())[s as int] == c as int);
                }
                return true;
            }
            s = s + 1;
        }
        proof {
            if first_seeds(self.filters()).contains(c as int) {
                let t = choose|t: int| 0 <= t < first_seeds(self.filters()).len() && #[trigger] first_seeds(self.filters())[t] == c as int;
                assert(self.bloom_filters@[t].seeds().0 != c);
            }
        }
        false
    }

    /// The hashers `drawn` where no slice has them yet; otherwise hashers whose first seed no
    /// slice has. Either way they differ from the hashers of every slice.
    fn fresh_hashers(&self, drawn: [u64; 2]) -> (r: [u64; 2])
        ensures
            forall|s: int| 0 <= s < self.filters().len() ==> (r[0], r[1]) != (#[trigger] self.filters()[s]).seeds(),
            (forall|s: int| 0 <= s < self.filters().len() ==> (drawn[0], drawn[1]) != (#[trigger] self.filters()[s]).seeds()) ==> r == drawn,
    {
        if !self.hashers_used(drawn) {
            return drawn;
        }
        let ghost used = choose|s: int| 0 <= s < self.filters().len() && #[trigger] self.filters()[s].seeds() == (drawn[0], drawn[1]);
        let n = self.bloom_filters.len() as u64;
        proof {
            lemma_free_seed(self.filters());
        }
        let mut c: u64 = 0;
        loop
            invariant
                c <= n,
                n == self.filters().len(),
                0 <= used < self.filters().len(),
                self.filters()[used].seeds() == (drawn[0], drawn[1]),
                exists|d: int| 0 <= d <= n && !first_seeds(self.filters()).contains(d),
                forall|d: int| 0 <= d < c ==> first_seeds(self.filters()).contains(d),
            decreases n - c,
        {
            if !self.first_seed_used(c) {
                let r = [c, drawn[1]];
                proof {
                    assert((drawn[0], drawn[1]) == self.filters()[used].seeds());
                    assert forall|s: int| 0 <= s < self.filters().len() implies (r[0], r[1]) != (#[trigger] self.filters()[s]).seeds() by {
                        assert(first_seeds(self.filters())[s] == self.filters()[s].seeds().0 as int);
                    }
                }
                return r;
            }
            if c == n {
                proof {
                    let d = choose|d: int| 0 <= d <= n && !first_seeds(self.filters()).contains(d);
                    assert(first_seeds(self.filters()).contains(d));
                }
                return drawn;
            }
            c = c + 1;
        }
    }

    /// Adds a slice with two hashers of random seeds, drawn anew where an earlier slice has the
    /// same ones: the new slice's hashers differ from those of every earlier slice.
    pub fn extend(&mut self)
        requires
            old(self).bits_per_slice() > 0,
        ensures
            final(self).keys() == old(self).keys(),
            final(self).bits_per_slice() == old(self).bits_per_slice(),
            final(self).filters().len() == old(self).filters().len() + 1,
            final(self).filters().drop_last() == old(self).filters(),
            final(self).filters().last().bits().len() == old(self).bits_per_slice(),
            final(self).filters().last().hash_count() == 1,
            forall|j: int| 0 <= j < old(self).bits_per_slice() ==> (#[trigger] final(self).filters().last().bits()[j]
                <==> slice_bit(old(self).keys(), final(self).filters().last().seeds(), old(self).bits_per_slice(), j)),
            old(self).well_built() ==> final(self).well_built(),
            forall|s: int| 0 <= s < old(self).filters().len() ==> final(self).filters().last().seeds() != (#[trigger] old(self).filters()[s]).seeds(),
    {
        let drawn = BloomFilter::from_raw_parts(self.m, 1);
        let hashers = self.fresh_hashers(drawn.hashers());
        let filter = BloomFilter::from_raw_parts_with_hashers(self.m, 1, hashers);
        let filter = self.slice(filter);
        self.push_slice(filter);
        proof {
            assert(self.filters().drop_last() =~= old(self).filters());
            self.lemma_push_keeps_built(*old(self));
        }
    }

    /// Adds a slice with the given hashers.
    pub fn extend_with_hashers(&mut self, hashers: [u64; 2])
        requires
            old(self).bits_per_slice() > 0,
        ensures
            final(self).keys() == old(self).keys(),
            final(self).bits_per_slice() == old(self).bits_per_slice(),
            final(self).filters().len() == old(self).filters().len() + 1,
            final(self).filters().drop_last() == old(self).filters(),
            final(self).filters().last().bits().len() == old(self).bits_per_slice(),
            final(self).filters().last().hash_count() == 1,
            final(self).filters().last().seeds() == (hashers[0], hashers[1]),
            forall|j: int| 0 <= j < old(self).bits_per_slice() ==> (#[trigger] final(self).filters().last().bits()[j]
                <==> slice_bit(old(self).keys(), (hashers[0], hashers[1]), old(self).bits_per_slice(), j)),
            old(self).well_built() ==> final(self).well_built(),
    {
        let filter = BloomFilter::from_raw_parts_with_hashers(self.m, 1, hashers);
        let filter = self.slice(filter);
        self.push_slice(filter);
        proof {
            assert(self.filters().drop_last() =~= old(self).filters());
            self.lemma_push_keeps_built(*old(self));
        }
    }

    /// A well-built filter with one more well-built slice on top is well built.
    proof fn lemma_push_keeps_built(&self, before: Self)
        requires
            self.keys() == before.keys(),
            self.bits_per_slice() == before.bits_per_slice(),
            self.filters().len() == before.filters().len() + 1,
            self.filters().drop_last() == before.filters(),
            self.filters().last().bits().len() == self.bits_per_slice(),
            self.filters().last().hash_count() == 1,
            forall|j: int| 0 <= j < self.bits_per_slice() ==> (#[trigger] self.filters().last().bits()[j]
                <==> slice_bit(self.keys(), self.filters().last().seeds(), self.bits_per_slice(), j)),
        ensures
            before.well_built() ==> self.well_built(),
    {
        if before.well_built() {
            assert forall|s: int| #![trigger self.filters()[s]] 0 <= s < self.filters().len() implies {
                &&& self.filters()[s].hash_count() == 1
                &&& self.filters()[s].bits().len() == self.bits_per_slice()
                &&& forall|j: int| 0 <= j < self.bits_per_slice() ==> (#[trigger] self.filters()[s].bits()[j]
                    <==> slice_bit(self.keys(), self.filters()[s].seeds(), self.bits_per_slice(), j))
            } by {
                if s < before.filters().len() {
                    assert(self.filters()[s] == before.filters()[s]);
                }
            }
        }
    }

    /// Puts a slice that holds every key on top.
    fn push_slice(&mut self, filter: BloomFilter)
        requires
            filter.bits().len() == old(self).bits_per_slice(),
            old(self).bits_per_slice() > 0,
            forall|d: int| 0 <= d < old(self).keys().len() ==> #[trigger] filter.holds(old(self).keys()[d]),
        ensures
            final(self).keys() == old(self).keys(),
            final(self).bits_per_slice() == old(self).bits_per_slice(),
            final(self).filters() == old(self).filters().push(filter),
    {
        proof {
            use_type_invariant(&*self);
        }
        let ghost old_filters = self.bloom_filters@;
        proof {
            assert forall|s: int| 0 <= s < old_filters.len() implies {
                &&& (#[trigger] old_filters[s]).bits().len() == self.m
                &&& forall|d: int| 0 <= d < self.data@.len() ==> #[trigger] old_filters[s].holds(self.data@[d])
            } by {
                assert(old_filters[s] == self.bloom_filters@[s]);
            }
        }
        let mut filters = Vec::new();
        std::mem::swap(&mut filters, &mut self.bloom_filters);
        let ghost before = filters@;
        filters.push(filter);
        proof {
            assert forall|s: int| #![trigger filters@[s]] 0 <= s < filters@.len() implies {
                &&& filters@[s].bits().len() == self.m
                &&& self.m > 0
                &&& forall|d: int| 0 <= d < self.data@.len() ==> #[trigger] filters@[s].holds(self.data@[d])
            } by {
                assert(before == old_filters);
                assert(filters@ == old_filters.push(filter));
                if s < before.len() {
                    assert(filters@[s] == old_filters[s]);
                    assert(old_filters[s].bits().len() == self.m);
                } else {
                    assert(filters@[s] == filter);
                    assert forall|d: int| 0 <= d < self.data@.len() implies #[trigger] filters@[s].holds(self.data@[d]) by {
                        assert(filter.holds(old(self).keys()[d]));
                    }
                }
            }
        }
        self.bloom_filters = filters;
        assert(self.bloom_filters@.drop_last() =~= old(self).bloom_filters@);
    }

    /// Returns `true` if every slice holds `value`; every key of the filter's data is a member.
    pub fn contains(&self, value: u64) -> (r: bool)
        ensures
            r == self.spec_contains(value),
            self.keys().contains(value) ==> r,
    {
        proof {
            use_type_invariant(self);
        }
        let mut s: usize = 0;
        while s < self.bloom_filters.len()
            invariant
                s <= self.bloom_filters@.len(),
                forall|t: int| 0 <= t < s ==> (#[trigger] self.bloom_filters@[t]).holds(value),
                forall|t: int| #![trigger self.bloom_filters@[t]] 0 <= t < self.bloom_filters@.len() ==> self.bloom_filters@[t].bits().len() == self.m && self.m > 0,
            decreases self.bloom_filters@.len() - s,
        {
            if !self.bloom_filters[s].contains(value) {
                proof {
                    assert(!self.filters()[s as int].holds(value));
                    use_type_invariant(self);
                    if self.keys().contains(value) {
                        let d = choose|d: int| 0 <= d < self.data@.len() && self.data@[d] == value;
                        assert(self.bloom_filters@[s as int].holds(self.data@[d]));
                    }
                }
                return false;
            }
            s = s + 1;
        }
        proof {
            if self.keys().contains(value) {
                let d = choose|d: int| 0 <= d < self.data@.len() && self.data@[d] == value;
                assert forall|t: int| 0 <= t < self.bloom_filters@.len() implies (#[trigger] self.bloom_filters@[t]).holds(value) by {
                    assert(self.bloom_filters@[t].holds(self.data@[d]));
                }
            }
        }
        true
    }

    /// The bytes that the filter takes on the wire: the bits of every slice, and 8 bytes that give
    /// the number of bits of a slice; nothing while there is no slice.
    pub fn size_of(&self) -> (r: usize)
        requires
            rateless_size(self.filters().len(), self.bits_per_slice()) <= usize::MAX,
        ensures
            r == rateless_size(self.filters().len(), self.bits_per_slice()),
    {
        proof {
            use_type_invariant(self);
        }
        if self.bloom_filters.len() == 0 {
            return 0;
        }
        let bytes = self.bloom_filters[0].bitslice().len() / 8 + if self.bloom_filters[0].bitslice().len() % 8 == 0 { 0 } else { 1 };
        let n = self.bloom_filters.len();
        proof {
            assert(bytes == (self.m + 7) / 8);
            assert(n * bytes <= n * bytes + 8);
        }
        n * bytes + 8
    }

    /// The number of keys of `keys` that are not members: the negatives that the filter finds.
    pub fn count_absent(&self, keys: &Vec<u64>) -> (r: usize)
        ensures
            r == absent_count(*self, keys@),
    {
        let mut count: usize = 0;
        let mut i: usize = 0;
        while i < keys.len()
            invariant
                i <= keys@.len(),
                count == absent_count(*self, keys@.take(i as int)),
                count <= i,
            decreases keys@.len() - i,
        {
            proof {
                assert(keys@.take(i + 1).drop_last() =~= keys@.take(i as int));
            }
            if !self.contains(keys[i]) {
                count = count + 1;
            }
            i = i + 1;
        }
        assert(keys@.take(keys@.len() as int) =~= keys@);
        count
    }

    /// The number of slices.
    pub fn slices(&self) -> (r: usize)
        ensures
            r == self.filters().len(),
    {
        self.bloom_filters.len()
    }

    /// The slice at position `s`, the oldest first.
    pub fn slice_at(&self, s: usize) -> (r: &BloomFilter)
        requires
            s < self.filters().len(),
        ensures
            *r == self.filters()[s as int],
    {
        &self.bloom_filters[s]
    }

    /// The keys of the filter.
    pub fn data(&self) -> (r: &Vec<u64>)
        ensures
            r@ == self.keys(),
    {
        &self.data
    }

    /// The number of bits of each slice.
    pub fn m(&self) -> (r: usize)
        ensures
            r == self.bits_per_slice(),
    {
        self.m
    }
}

/// Filters built over the same number of bits with the same hashers, in the same order, answer
/// for a subset of keys with a subset of members: whatever the first holds, the second holds too
/// when its keys include those of the first (so filters over the same keys answer alike).
pub proof fn law_same_hashers_subset_members(a: RatelessBF, b: RatelessBF, key: u64)
    requires
        a.well_built(),
        b.well_built(),
        a.bits_per_slice() == b.bits_per_slice(),
        a.bits_per_slice() > 0,
        a.filters().len() == b.filters().len(),
        forall|s: int| 0 <= s < a.filters().len() ==> (#[trigger] a.filters()[s]).seeds() == b.filters()[s].seeds(),
        forall|d: int| 0 <= d < a.keys().len() ==> b.keys().contains(#[trigger] a.keys()[d]),
        a.spec_contains(key),
    ensures
        b.spec_contains(key),
{
    let m = a.bits_per_slice();
    assert forall|s: int| 0 <= s < b.filters().len() implies (#[trigger] b.filters()[s]).holds(key) by {
        let fa = a.filters()[s];
        let fb = b.filters()[s];
        assert(fa.holds(key));
        assert forall|j: int| 0 <= j < fa.bits().len() && fa.bits()[j] implies fb.bits()[j] by {
            assert(slice_bit(a.keys(), fa.seeds(), m, j));
            reveal(slice_bit);
            let d = choose|d: int| 0 <= d < a.keys().len() && #[trigger] hit(fa.seeds(), 1, a.keys()[d], m, j);
            assert(b.keys().contains(a.keys()[d]));
            let e = choose|e: int| 0 <= e < b.keys().len() && b.keys()[e] == a.keys()[d];
            assert(hit(fb.seeds(), 1, b.keys()[e], m, j));
            assert(slice_bit(b.keys(), fb.seeds(), m, j));
        }
        lemma_holds_grow(fa.bits(), fb.bits(), fa.seeds(), 1, key);
    }
}

/// Adding a slice of `m >= 1` bits adds its bytes to the size on the wire, and the 8 bytes that
/// give `m` with the first slice: the size always grows.
pub proof fn law_extend_grows_size(n: nat, m: nat)
    requires
        m >= 1,
    ensures
        rateless_size(n + 1, m) == rateless_size(n, m) + (m + 7) / 8 + (if n == 0 { 8nat } else { 0nat }),
        rateless_size(n + 1, m) > rateless_size(n, m),
{
    let q: nat = (m + 7) / 8;
    vstd::arithmetic::mul::lemma_mul_is_distributive_add_other_way(q as int, n as int, 1);
}

/// Adding a slice never makes a key a member: a member of the grown filter was a member before.
pub proof fn law_extend_never_adds_members(before: RatelessBF, after: RatelessBF, key: u64)
    requires
        after.filters().len() == before.filters().len() + 1,
        after.filters().drop_last() == before.filters(),
        after.spec_contains(key),
    ensures
        before.spec_contains(key),
{
    assert forall|s: int| 0 <= s < before.filters().len() implies (#[trigger] before.filters()[s]).holds(key) by {
        assert(before.filters()[s] == after.filters().drop_last()[s]);
        assert(after.filters()[s].holds(key));
    }
}

} // verus!
