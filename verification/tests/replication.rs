use std::mem;

use xp::delta::{Decompose, Extract, GSet};
use xp::replication::{Algorithm, Baseline, Buckets, Classic, Dispatcher};
use xp::telemetry::{Telemetry, Tracker, TransferEvent, TransferKind};

fn range(from: i32, to: i32) -> GSet<i32> {
    let mut set = GSet::new();
    for e in from..to {
        set.insert(e);
    }
    set
}

#[test]
fn baseline_sync_test() {
    let mut alpha = range(0, 70);
    let mut beta = range(30, 100);

    let baseline = Baseline {};
    let mut tracker = Tracker::new(10 * Tracker::MBPS, 10 * Tracker::MBPS);

    baseline.sync(&mut alpha, &mut beta, &mut tracker);
    assert_eq!(alpha, beta);
    assert_eq!(alpha.len(), 100);

    assert_eq!(tracker.events().len(), <Baseline as Algorithm<GSet<i32>>>::HOPS);

    let totals = tracker.collect();
    assert_eq!(totals.sent, (70 + 30) * mem::size_of::<i32>());
    assert_eq!(totals.metadata, 0);
}

#[test]
fn classic_sync_test() {
    let mut alpha = range(0, 70);
    let mut beta = range(30, 100);

    let classic = Classic {};
    let mut tracker = Tracker::new(10 * Tracker::MBPS, 10 * Tracker::MBPS);

    classic.sync(&mut alpha, &mut beta, &mut tracker);
    assert_eq!(alpha, beta);
    assert_eq!(alpha.len(), 100);

    assert_eq!(tracker.events().len(), <Classic as Algorithm<GSet<i32>>>::HOPS);

    let totals = tracker.collect();
    assert_eq!(totals.sent, (70 + 100) * mem::size_of::<i32>());
    assert_eq!(totals.metadata, 0);
}

#[test]
fn buckets_sync_test() {
    let mut alpha = range(0, 70);
    let mut beta = range(30, 100);

    let buckets = Buckets::new(Dispatcher::new(1000));
    let mut tracker = Tracker::new(10 * Tracker::MBPS, 10 * Tracker::MBPS);

    buckets.sync(&mut alpha, &mut beta, &mut tracker);
    assert_eq!(alpha, beta);
    assert_eq!(alpha.len(), 100);

    assert_eq!(tracker.events().len(), <Buckets as Algorithm<GSet<i32>>>::HOPS);

    let totals = tracker.collect();
    assert_ne!(totals.state, 0);
    assert_ne!(totals.metadata, 0);
}

#[test]
fn eq_sync_test() {
    let mut alpha = range(0, 100);
    let mut beta = range(0, 100);

    let buckets = Buckets::new(Dispatcher::new(1000));
    let mut tracker = Tracker::new(10 * Tracker::MBPS, 10 * Tracker::MBPS);

    assert_eq!(alpha, beta);
    buckets.sync(&mut alpha, &mut beta, &mut tracker);
    assert_eq!(alpha, beta);

    assert_eq!(tracker.events().len(), <Buckets as Algorithm<GSet<i32>>>::HOPS);

    let totals = tracker.collect();
    assert_eq!(totals.sent, 100 * (mem::size_of::<u64>() + mem::size_of::<usize>()));
    assert_eq!(totals.sent, totals.metadata);
}

#[test]
fn baseline_sends_only_what_alpha_lacks() {
    let mut alpha = range(0, 10);
    let mut beta = range(0, 10);
    let mut tracker = Tracker::new(1, 1);
    Baseline {}.sync(&mut alpha, &mut beta, &mut tracker);
    let events = tracker.events();
    assert_eq!(events[0].state, 40);
    assert_eq!(events[1].state, 0);
    assert!(matches!(events[0].kind, TransferKind::LocalToRemote));
    assert!(matches!(events[1].kind, TransferKind::RemoteToLocal));
    assert_eq!(alpha, range(0, 10));
}

#[test]
fn classic_sync_with_an_empty_replica() {
    let mut alpha = GSet::new();
    let mut beta = range(5, 8);
    let mut tracker = Tracker::new(1, 1);
    Classic {}.sync(&mut alpha, &mut beta, &mut tracker);
    assert_eq!(alpha, range(5, 8));
    assert_eq!(beta, range(5, 8));
    let totals = tracker.collect();
    assert_eq!(totals.state, 12);
}

#[test]
fn buckets_sync_from_an_empty_alpha_hands_beta_over() {
    let mut alpha = GSet::new();
    let mut beta = range(0, 3);
    let mut tracker = Tracker::new(1, 1);
    Buckets::new(Dispatcher::new(1000)).sync(&mut alpha, &mut beta, &mut tracker);
    assert_eq!(alpha, range(0, 3));
    assert_eq!(beta, range(0, 3));
    let events = tracker.events();
    assert_eq!(events[0].metadata, 0);
    assert_eq!(events[1].state, 12);
}

#[test]
fn buckets_sync_of_two_empty_replicas_sends_nothing() {
    let mut alpha: GSet<i32> = GSet::new();
    let mut beta: GSet<i32> = GSet::new();
    let mut tracker = Tracker::new(1, 1);
    Buckets::new(Dispatcher::new(1000)).sync(&mut alpha, &mut beta, &mut tracker);
    assert!(alpha.is_empty() && beta.is_empty());
    let totals = tracker.collect();
    assert_eq!(totals.state, 0);
    assert_eq!(totals.metadata, 0);
}

#[test]
fn tracker_collects_and_resets() {
    let mut tracker = Tracker::new(8, 16);
    tracker.register(TransferEvent { state: 3, metadata: 4, kind: TransferKind::LocalToRemote });
    tracker.register(TransferEvent { state: 10, metadata: 0, kind: TransferKind::RemoteToLocal });
    let totals = tracker.collect();
    assert_eq!(totals.state, 13);
    assert_eq!(totals.metadata, 4);
    assert_eq!(totals.sent, 17);
    tracker.reset();
    assert!(tracker.events().is_empty());
    assert_eq!(tracker.upload, 8);
    assert_eq!(tracker.download, 16);
}

fn bucket_of(set: &GSet<i32>) -> Vec<(u64, xp::delta::gset::Delta<'_, i32>)> {
    let mut bucket: Vec<(u64, xp::delta::gset::Delta<'_, i32>)> = Vec::new();
    for part in set.split() {
        let h = *part.extract().unwrap() as u64;
        bucket.push((h, part));
    }
    bucket.sort_by_key(|e| e.0);
    bucket
}

fn hash_of<D>(bucket: &[(u64, D)]) -> u64 {
    bucket.iter().fold(0u64, |h, e| xp::bloom::fx_hash_word(h, e.0))
}

#[test]
fn exchange_buckets_hands_over_what_differs() {
    let alpha = range(1, 3);
    let beta = range(2, 4);
    let a = bucket_of(&alpha);
    let b = bucket_of(&beta);
    let (ha, hb) = (vec![hash_of(&a)], vec![hash_of(&b)]);
    let (to_alpha, to_beta) = xp::replication::exchange_buckets::<GSet<i32>>(vec![a], &ha, vec![b], &hb);
    assert_eq!(to_alpha.len(), 1);
    assert_eq!(to_beta.len(), 1);
    assert_eq!(to_alpha[0], range(2, 4));
    assert_eq!(to_beta[0], range(1, 2));
}

#[test]
fn exchange_buckets_skips_equal_buckets() {
    let alpha = range(1, 3);
    let beta = range(1, 3);
    let a = bucket_of(&alpha);
    let b = bucket_of(&beta);
    let (ha, hb) = (vec![hash_of(&a)], vec![hash_of(&b)]);
    let (to_alpha, to_beta) = xp::replication::exchange_buckets::<GSet<i32>>(vec![a], &ha, vec![b], &hb);
    assert!(to_alpha.is_empty());
    assert!(to_beta.is_empty());
}
