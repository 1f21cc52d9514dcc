//! Bloom filters over 64-bit keys.
//!
//! A key is hashed with the Fx hash seeded by one of the filter's two hashers; the `i`-th of its
//! `k` bits is found by double hashing, `h0 + i * h1`, modulo the number of bits.

use vstd::prelude::*;

use crate::random::random_u64;

verus! {

/// The multiplier of the Fx hash.
pub const FX_SEED: u64 = 0x517cc1b727220a95;

/// One word of the Fx hash: the state rotated left by 5 bits, xored with the word, times
/// [`FX_SEED`] modulo 2^64.
pub open spec fn fx_step(hash: u64, word: u64) -> u64 {
    (((hash << 5u64) | (hash >> 59u64)) ^ word).wrapping_mul(FX_SEED)
}

/// The Fx hash of the words `seed` and `key`, in this order.
pub open spec fn seeded_hash(seed: u64, key: u64) -> u64 {
    fx_step(fx_step(0, seed), key)
}

/// The position of the `i`-th bit of `key` among `m` bits, for the hashers `seeds`.
pub open spec fn bit_position(seeds: (u64, u64), i: nat, key: u64, m: nat) -> nat {
    (seeded_hash(seeds.0, key).wrapping_add((i as u64).wrapping_mul(seeded_hash(seeds.1, key)))
        % (m as u64)) as nat
}

/// Whether every bit of `key` is set in `bits`.
#[verifier::opaque]
pub open spec fn holds_key(bits: Seq<bool>, seeds: (u64, u64), k: nat, key: u64) -> bool {
    forall|i: nat| i < k ==> #[trigger] bits[bit_position(seeds, i, key, bits.len()) as int]
}

/// Whether bit `j` is the `i`-th bit of `key` for some `i < n`.
#[verifier::opaque]
pub open spec fn hit(seeds: (u64, u64), n: nat, key: u64, m: nat, j: int) -> bool {
    exists|i: nat| i < n && #[trigger] bit_position(seeds, i, key, m) == j
}

/// The first `n + 1` bits of a key are its first `n` bits and its `n`-th bit.
proof fn lemma_hit_step(seeds: (u64, u64), n: nat, key: u64, m: nat, j: int)
    ensures
        hit(seeds, n + 1, key, m, j) <==> (hit(seeds, n, key, m, j) || bit_position(seeds, n, key, m) == j),
        !hit(seeds, 0, key, m, j),
{
    reveal(hit);
    if hit(seeds, n + 1, key, m, j) && bit_position(seeds, n, key, m) != j {
        let i = choose|i: nat| i < n + 1 && #[trigger] bit_position(seeds, i, key, m) == j;
        assert(i < n);
    }
}

/// A bit position lies among the `m` bits.
proof fn lemma_position_bound(seeds: (u64, u64), i: nat, key: u64, m: nat)
    requires
        0 < m <= u64::MAX,
    ensures
        bit_position(seeds, i, key, m) < m,
{
}

/// Setting more bits keeps every key that the bits held.
pub proof fn lemma_holds_grow(before: Seq<bool>, after: Seq<bool>, seeds: (u64, u64), k: nat, key: u64)
    requires
        before.len() == after.len(),
        0 < before.len() <= u64::MAX,
        forall|j: int| 0 <= j < before.len() && before[j] ==> after[j],
        holds_key(before, seeds, k, key),
    ensures
        holds_key(after, seeds, k, key),
{
    reveal(holds_key);
    assert forall|i: nat| i < k implies #[trigger] after[bit_position(seeds, i, key, after.len()) as int] by {
        lemma_position_bound(seeds, i, key, before.len());
        assert(before[bit_position(seeds, i, key, before.len()) as int]);
    }
}

/// The number of positions where both sequences of bits are set.
pub open spec fn common_count(a: Seq<bool>, b: Seq<bool>) -> nat
    decreases a.len(),
{
    if a.len() == 0 {
        0
    } else {
        common_count(a.drop_last(), b) + if a.last() && b[a.len() - 1] {
            1nat
        } else {
            0nat
        }
    }
}

/// Hashes `word` into the Fx hash state `hash`.
pub fn fx_hash_word(hash: u64, word: u64) -> (r: u64)
    ensures
        r == fx_step(hash, word),
{
    (((hash << 5u64) | (hash >> 59u64)) ^ word).wrapping_mul(FX_SEED)
}

/// A Bloom filter of `k` hash functions over a fixed number of bits.
#[derive(Clone, Debug)]
pub struct BloomFilter {
    bits: Vec<bool>,
    k: usize,
    hashers: [u64; 2],
}

impl BloomFilter {
    /// The bits of the filter.
    pub closed spec fn bits(&self) -> Seq<bool> {
        self.bits@
    }

    /// The number of hash functions.
    pub closed spec fn hash_count(&self) -> nat {
        self.k as nat
    }

    /// The seeds of the two hashers.
    pub closed spec fn seeds(&self) -> (u64, u64) {
        (self.hashers[0], self.hashers[1])
    }

    /// Whether every bit of `key` is set.
    pub open spec fn holds(&self, key: u64) -> bool {
        holds_key(self.bits(), self.seeds(), self.hash_count(), key)
    }

    /// A filter of `m` cleared bits, `k` hash functions and two hashers with random seeds.
    pub fn from_raw_parts(m: usize, k: usize) -> (r: Self)
        requires
            m > 0,
        ensures
            r.bits() == Seq::new(m as nat, |j: int| false),
            r.hash_count() == k,
    {
        let hashers = [random_u64(), random_u64()];
        Self::from_raw_parts_with_hashers(m, k, hashers)
    }

    /// A filter of `m` cleared bits, `k` hash functions and the given hashers.
    pub fn from_raw_parts_with_hashers(m: usize, k: usize, hashers: [u64; 2]) -> (r: Self)
        requires
            m > 0,
        ensures
            r.bits() == Seq::new(m as nat, |j: int| false),
            r.hash_count() == k,
            r.seeds() == (hashers[0], hashers[1]),
    {
        let mut bits: Vec<bool> = Vec::new();
        let mut j: usize = 0;
        while j < m
            invariant
                j <= m,
                bits@ == Seq::new(j as nat, |x: int| false),
            decreases m - j,
        {
            bits.push(false);
            j = j + 1;
            assert(bits@ =~= Seq::new(j as nat, |x: int| false));
        }
        BloomFilter { bits, k, hashers }
    }

    /// The seeds of the two hashers.
    pub fn hashers(&self) -> (r: [u64; 2])
        ensures
            (r[0], r[1]) == self.seeds(),
    {
        self.hashers
    }

    /// The bits of the filter.
    pub fn bitslice(&self) -> (r: &Vec<bool>)
        ensures
            r@ == self.bits(),
    {
        &self.bits
    }

    /// The number of bits set both in `self` and in `other`.
    pub fn common_ones(&self, other: &BloomFilter) -> (r: usize)
        requires
            self.bits().len() == other.bits().len(),
        ensures
            r == common_count(self.bits(), other.bits()),
    {
        let mut count: usize = 0;
        let mut j: usize = 0;
        while j < self.bits.len()
            invariant
                j <= self.bits@.len(),
                self.bits@.len() == other.bits@.len(),
                count == common_count(self.bits@.take(j as int), other.bits@),
                count <= j,
            decreases self.bits@.len() - j,
        {
            proof {
                assert(self.bits@.take(j + 1).drop_last() =~= self.bits@.take(j as int));
            }
            if self.bits[j] && other.bits[j] {
                count = count + 1;
            }
            j = j + 1;
        }
        assert(self.bits@.take(self.bits@.len() as int) =~= self.bits@);
        count
    }

    /// The position of the `i`-th bit of `key`.
    fn position(&self, i: usize, key: u64) -> (r: usize)
        requires
            self.bits().len() > 0,
        ensures
            r == bit_position(self.seeds(), i as nat, key, self.bits().len()),
            r < self.bits().len(),
    {
        let h0 = fx_hash_word(fx_hash_word(0, self.hashers[0]), key);
        let h1 = fx_hash_word(fx_hash_word(0, self.hashers[1]), key);
        let m = self.bits.len() as u64;
        let v = h0.wrapping_add((i as u64).wrapping_mul(h1));
        (v % m) as usize
    }

    /// Sets the bits of `key`.
    pub fn insert(&mut self, key: u64)
        requires
            old(self).bits().len() > 0,
        ensures
            final(self).bits().len() == old(self).bits().len(),
            final(self).hash_count() == old(self).hash_count(),
            final(self).seeds() == old(self).seeds(),
            forall|j: int| 0 <= j < final(self).bits().len() ==> (#[trigger] final(self).bits()[j] <==> (
                old(self).bits()[j] || hit(old(self).seeds(), old(self).hash_count(), key, old(self).bits().len(), j))),
            final(self).holds(key),
    {
        let ghost start = self.bits@;
        let ghost seeds = self.seeds();
        let k = self.k;
        let m = self.bits.len();
        let mut i: usize = 0;
        proof {
            assert forall|j: int| 0 <= j < m implies !hit(seeds, 0, key, m as nat, j) by {
                lemma_hit_step(seeds, 0, key, m as nat, j);
            }
        }
        while i < k
            invariant
                i <= k,
                k == self.k,
                seeds == self.seeds(),
                m == start.len(),
                m > 0,
                self.bits@.len() == m,
                forall|j: int| 0 <= j < m ==> (#[trigger] self.bits@[j] <==> (start[j] || hit(seeds, i as nat, key, m as nat, j))),
            decreases k - i,
        {
            let p = self.position(i, key);
            let ghost before = self.bits@;
            self.bits.set(p, true);
            proof {
                assert forall|j: int| 0 <= j < m implies (#[trigger] self.bits@[j] <==> (start[j] || hit(seeds, (i + 1) as nat, key, m as nat, j))) by {
                    lemma_hit_step(seeds, i as nat, key, m as nat, j);
                    if j != p {
                        assert(self.bits@[j] == before[j]);
                    }
                }
            }
            i = i + 1;
        }
        proof {
            reveal(holds_key);
            assert forall|i2: nat| i2 < k implies #[trigger] self.bits@[bit_position(seeds, i2, key, m as nat) as int] by {
                let j = bit_position(seeds, i2, key, m as nat) as int;
                lemma_position_bound(seeds, i2, key, m as nat);
                reveal(hit);
                assert(hit(seeds, k as nat, key, m as nat, j));
            }
        }
    }

    /// Returns `true` if every bit of `key` is set.
    pub fn contains(&self, key: u64) -> (r: bool)
        requires
            self.bits().len() > 0,
        ensures
            r == self.holds(key),
    {
        let mut i: usize = 0;
        while i < self.k
            invariant
                i <= self.k,
                self.bits@.len() > 0,
                forall|i2: nat| i2 < i ==> #[trigger] self.bits@[bit_position(self.seeds(), i2, key, self.bits@.len()) as int],
            decreases self.k - i,
        {
            let p = self.position(i, key);
            if !self.bits[p] {
                proof {
                    reveal(holds_key);
                }
                return false;
            }
            i = i + 1;
        }
        proof {
            reveal(holds_key);
        }
        true
    }
}

} // verus!
