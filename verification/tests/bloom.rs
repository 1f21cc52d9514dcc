use std::hash::Hasher;

use xp::bloom::{fx_hash_word, BloomFilter};
use xp::rateless_bloom::{reconciliation_overhead, round_mul, RatelessBF};
use xp::sync::RibltHashes;

#[test]
fn fx_hash_word_matches_the_fx_hasher() {
    for (seed, word) in [(0u64, 5u64), (17, 0), (u64::MAX, 123456789)] {
        let mut hasher = fxhash::FxHasher64::default();
        hasher.write_u64(seed);
        hasher.write_u64(word);
        assert_eq!(fx_hash_word(fx_hash_word(0, seed), word), hasher.finish());
    }
    assert_eq!(fx_hash_word(0, 1), 0x517cc1b727220a95);
}

#[test]
fn bloom_filter_has_no_false_negatives() {
    let mut filter = BloomFilter::from_raw_parts_with_hashers(64, 3, [11, 22]);
    assert!(filter.bitslice().iter().all(|b| !*b));
    for key in [1u64, 99, 12345, u64::MAX] {
        filter.insert(key);
        assert!(filter.contains(key));
    }
    for key in [1u64, 99, 12345, u64::MAX] {
        assert!(filter.contains(key));
    }
    assert_eq!(filter.hashers(), [11, 22]);
    assert_eq!(filter.bitslice().len(), 64);
}

#[test]
fn bloom_filter_with_one_hash_sets_one_bit() {
    let mut filter = BloomFilter::from_raw_parts_with_hashers(1000, 1, [5, 6]);
    filter.insert(42);
    assert_eq!(filter.bitslice().iter().filter(|b| **b).count(), 1);
    let copy = filter.clone();
    assert_eq!(filter.common_ones(&copy), 1);
}

#[test]
fn rateless_filter_holds_its_own_data() {
    let data: Vec<u64> = (0..50).map(|x| x * 7919).collect();
    let mut rbf = RatelessBF::new(data.clone(), 128);
    assert_eq!(rbf.slices(), 0);
    assert_eq!(rbf.size_of(), 0);
    for _ in 0..5 {
        rbf.extend();
    }
    assert_eq!(rbf.slices(), 5);
    for key in &data {
        assert!(rbf.contains(*key));
    }
    assert_eq!(rbf.count_absent(&data), 0);
    assert_eq!(rbf.size_of(), 5 * 16 + 8);
}

#[test]
fn rateless_filter_size_rounds_up_to_bytes() {
    let mut rbf = RatelessBF::new(vec![1, 2, 3], 100);
    rbf.extend_with_hashers([1, 2]);
    rbf.extend_with_hashers([3, 4]);
    rbf.extend_with_hashers([5, 6]);
    assert_eq!(rbf.size_of(), 3 * 13 + 8);
    assert_eq!(rbf.m(), 100);
    assert_eq!(rbf.data(), &vec![1, 2, 3]);
}

#[test]
fn rateless_slices_with_the_same_hashers_agree() {
    let mut sender = RatelessBF::new(vec![10, 20, 30], 256);
    sender.extend();
    let hashers = sender.slice_at(0).hashers();
    let mut receiver = RatelessBF::new(vec![10, 20, 30], 256);
    receiver.extend_with_hashers(hashers);
    let ones = sender.slice_at(0).bitslice().iter().filter(|b| **b).count();
    assert_eq!(sender.slice_at(0).common_ones(receiver.slice_at(0)), ones);
    assert!(ones >= 1 && ones <= 3);
}

#[test]
fn rateless_filter_drops_foreign_keys_as_it_grows() {
    let mut rbf = RatelessBF::new(vec![1], 8);
    let foreign: Vec<u64> = (1000..1200).collect();
    rbf.extend_with_hashers([7, 8]);
    let after_one = rbf.count_absent(&foreign);
    for s in 0..20u64 {
        rbf.extend_with_hashers([s * 2 + 100, s * 2 + 101]);
    }
    let after_many = rbf.count_absent(&foreign);
    assert!(after_many >= after_one);
    assert!(rbf.contains(1));
}

#[test]
fn round_mul_rounds_to_nearest() {
    assert_eq!(round_mul(1350, 24), 32);
    assert_eq!(round_mul(1500, 1), 2);
    assert_eq!(round_mul(1499, 1), 1);
    assert_eq!(round_mul(1000, 7), 7);
    assert_eq!(reconciliation_overhead(), 40);
}

#[test]
fn riblt_hashes_has_a_name() {
    let algorithm: RibltHashes<u64> = RibltHashes::new();
    assert_eq!(algorithm.name(), "RIBLT+Hashing");
}

#[test]
fn rateless_filters_with_the_same_hashers_answer_for_a_subset_with_a_subset() {
    let mut small = RatelessBF::new(vec![1, 2, 3], 64);
    let mut large = RatelessBF::new(vec![1, 2, 3, 4, 5, 6], 64);
    for s in 0..4u64 {
        small.extend_with_hashers([s + 11, s + 29]);
        large.extend_with_hashers([s + 11, s + 29]);
    }
    for v in 0..500u64 {
        if small.contains(v) {
            assert!(large.contains(v));
        }
    }
    let mut same = RatelessBF::new(vec![3, 2, 1], 64);
    for s in 0..4u64 {
        same.extend_with_hashers([s + 11, s + 29]);
    }
    for v in 0..500u64 {
        assert_eq!(small.contains(v), same.contains(v));
    }
}

#[test]
fn fingerprints_are_the_fx_hashes_of_the_items() {
    let items = vec!["a".to_string(), "b".to_string(), "a".to_string()];
    let keys = xp::rateless_bloom::fingerprints(&items);
    assert_eq!(keys.len(), 3);
    assert_eq!(keys[0], fxhash::hash64(&items[0]));
    assert_eq!(keys[0], keys[2]);
    assert_ne!(keys[0], keys[1]);
}
