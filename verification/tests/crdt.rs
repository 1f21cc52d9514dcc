use std::collections::{HashMap, HashSet};

use xp::crdt::{AWItem, AWSet, Decompose, Extract, GSet, Measure, PNCounter};

fn s(x: &str) -> String {
    x.to_string()
}

fn gset_range(from: i32, to: i32) -> GSet<i32> {
    let mut set = GSet::new();
    for e in from..to {
        set.insert(e);
    }
    set
}

fn awset_of(inserted: &[(u64, &str)], removed: &[u64]) -> AWSet<String> {
    AWSet::from_parts(inserted.iter().map(|(t, v)| (*t, s(v))).collect(), removed.to_vec())
}

fn awset_nums(inserted: &[(u64, i32)], removed: &[u64]) -> AWSet<i32> {
    AWSet::from_parts(inserted.to_vec(), removed.to_vec())
}

fn pncounter_of(entries: &[(&str, (u64, u64))]) -> PNCounter<String> {
    PNCounter::from_entries(entries.iter().map(|(i, t)| (s(i), *t)).collect())
}

fn int_elements(mut elements: xp::crdt::Elements<'_, i32>) -> HashSet<i32> {
    let mut out = HashSet::new();
    while let Some(v) = elements.next() {
        out.insert(*v);
    }
    out
}

fn string_elements(mut elements: xp::crdt::Elements<'_, String>) -> HashSet<String> {
    let mut out = HashSet::new();
    while let Some(v) = elements.next() {
        out.insert(v.clone());
    }
    out
}

fn inserted_of(set: &AWSet<i32>) -> HashMap<u64, i32> {
    set.inserted().into_iter().map(|(t, v)| (t, *v)).collect()
}

fn removed_of(set: &AWSet<i32>) -> HashSet<u64> {
    set.removed().into_iter().collect()
}

fn entries_of(counter: &PNCounter<String>) -> HashMap<String, (u64, u64)> {
    counter.entries_of().into_iter().map(|(i, t)| (i.clone(), t)).collect()
}

#[test]
fn crdt_test_split_and_join() {
    let mut splittable = GSet::new();

    splittable.insert(1);
    splittable.insert(2);
    splittable.insert(2);
    assert_eq!(splittable.len(), 2);

    let decompositions = splittable.split();
    assert_eq!(decompositions.len(), splittable.len());

    let mut joinable = GSet::new();

    joinable.join(decompositions);
    assert_eq!(joinable.len(), splittable.len());
    assert!(joinable.contains(&1));
    assert!(joinable.contains(&2));

    joinable.insert(3);
}

#[test]
fn crdt_test_difference() {
    let local = gset_range(0, 3);
    let remote = gset_range(2, 5);

    let diff = local.difference(&remote);
    assert!(diff.contains(&0));
    assert!(diff.contains(&1));
    assert!(!diff.contains(&2));
    assert!(!diff.contains(&3));
    assert!(!diff.contains(&4));
}

#[test]
fn crdt_test_difference_synced() {
    let local = gset_range(0, 3);
    let remote = local.clone();

    assert_eq!(int_elements(local.elements()), int_elements(remote.elements()));

    let diff = local.difference(&remote);
    assert!(diff.is_empty());
}

#[test]
fn gset_insert_returns_the_delta() {
    let mut set = GSet::new();
    let delta = set.insert(s("a"));
    assert_eq!(delta.len(), 1);
    assert!(delta.contains(&s("a")));
    assert_eq!(delta.extract(), s("a"));
    let again = set.insert(s("a"));
    assert!(again.is_empty());
    assert_eq!(set.len(), 1);
}

#[test]
fn gset_measures() {
    let mut a = GSet::new();
    a.insert(s("ab"));
    a.insert(s("cde"));
    let mut b = GSet::new();
    b.insert(s("ab"));
    b.insert(s("x"));
    assert_eq!(<GSet<String> as Measure>::len(&a), 2);
    assert_eq!(<GSet<String> as Measure>::size_of(&a), 5);
    assert_eq!(a.false_matches(&b), 2);
    assert_eq!(a.false_matches(&a.clone()), 0);
}

#[test]
fn gset_join_is_commutative_on_examples() {
    let a = gset_range(0, 4);
    let b = gset_range(2, 7);
    let mut ab = a.clone();
    ab.join(vec![b.clone()]);
    let mut ba = b.clone();
    ba.join(vec![a.clone()]);
    assert_eq!(ab, ba);
    assert_eq!(ab, gset_range(0, 7));
}

#[test]
fn test_insert_and_remove() {
    let mut awset = AWSet::new();
    assert_eq!(awset.len(), 0);
    assert!(awset.is_empty());

    awset.insert(1);
    awset.insert(2);
    awset.insert(3);
    assert_eq!(awset.len(), 3);
    assert!(!awset.is_empty());

    awset.remove(&2);
    awset.remove(&2);
    awset.remove(&4);
    assert_eq!(awset.len(), 2);

    awset.insert(2);
    awset.insert(4);
    assert_eq!(awset.len(), 4);
}

#[test]
fn test_elements() {
    let mut awset = AWSet::new();
    awset.insert(1);
    awset.insert(2);
    awset.insert(3);
    awset.insert(3);

    assert_eq!(awset.elements().remaining(), 3);
    assert!(int_elements(awset.elements()).iter().all(|v| vec![1, 2, 3].contains(v)));

    awset.remove(&1);
    awset.insert(3);
    awset.remove(&3);

    assert_eq!(awset.elements().next(), Some(&2));

    awset.remove(&2);
    assert_eq!(awset.elements().next(), None);
}

#[test]
fn awset_test_split_and_join() {
    let mut splittable = AWSet::new();

    splittable.insert(1);
    splittable.insert(2);
    splittable.insert(3);
    splittable.remove(&2);
    splittable.remove(&4);

    assert!(splittable.contains(&1));
    assert!(splittable.contains(&3));

    let decompositions = splittable.split();
    assert_eq!(decompositions.len(), 4);

    let mut joinable = AWSet::new();
    joinable.join(decompositions);

    assert_eq!(splittable, joinable);
}

#[test]
fn awset_test_difference() {
    let local = awset_nums(&[(1, 1), (2, 3), (3, 2), (4, 4), (5, 10)], &[1, 3]);
    let remote = awset_nums(&[(1, 1), (2, 3), (3, 2)], &[1, 2]);

    let diff = local.difference(&remote);
    assert_eq!(inserted_of(&diff), HashMap::from([(4, 4), (5, 10)]));
    assert_eq!(removed_of(&diff), HashSet::from([3]));
}

#[test]
fn awset_test_difference_synced() {
    let local = awset_nums(&[(1, 1), (2, 3), (3, 2), (4, 4), (5, 10)], &[1, 3]);
    let remote = awset_nums(&[(1, 1), (2, 3), (3, 2), (4, 4), (5, 10)], &[1, 3]);

    assert_eq!(local, remote);

    let diff = local.difference(&remote);
    assert!(inserted_of(&diff).is_empty());
    assert!(removed_of(&diff).is_empty());
}

#[test]
fn crdt_test_false_matches() {
    let local = awset_of(&[(1, "1"), (4, "4"), (5, "10")], &[1, 4]);
    let remote = awset_of(&[(1, "1"), (2, "3"), (3, "2")], &[1, 2]);

    let local_elems = string_elements(local.elements());
    let remote_elems = string_elements(remote.elements());
    assert_eq!(
        local.false_matches(&remote),
        local_elems.symmetric_difference(&remote_elems).count()
    )
}

#[test]
fn awset_removal_only_cancels_observed_insertions() {
    let mut a = AWSet::new();
    a.insert(s("x"));
    let mut b = a.clone();
    b.remove(&s("x"));
    a.remove(&s("x"));
    a.insert(s("x"));
    a.join(vec![b.clone()]);
    assert!(a.contains(&s("x")));
    b.join(vec![a.clone()]);
    assert!(b.contains(&s("x")));
    assert_eq!(a, b);
}

#[test]
fn awset_extract_single_pieces() {
    let single = awset_of(&[(7, "x")], &[]);
    assert_eq!(single.extract(), AWItem::Inserted(7, s("x")));
    let removal = awset_of(&[], &[9]);
    assert_eq!(removal.extract(), AWItem::Removed(9));
}

#[test]
fn awset_measures() {
    let set = awset_of(&[(1, "ab"), (2, "c")], &[2]);
    assert_eq!(<AWSet<String> as Measure>::len(&set), 3);
    assert_eq!(<AWSet<String> as Measure>::size_of(&set), 2 + 8 + 1 + 8 + 8);
}

#[test]
fn test_increment_and_decrement() {
    let mut counter = PNCounter::new();
    assert_eq!(counter.count(), 0);

    counter.increment(&s("a"));
    assert_eq!(counter.count(), 1);

    counter.add(&s("b"), 5);
    assert_eq!(counter.count(), 6);

    counter.decrement(&s("a"));
    assert_eq!(counter.count(), 5);

    counter.sub(&s("b"), 2);
    assert_eq!(counter.count(), 3);

    counter.increment(&s("c"));
    assert_eq!(counter.count(), 4);

    counter.sub(&s("d"), 10);
    assert_eq!(counter.count(), -6);
}

#[test]
fn test_count() {
    let mut counter = PNCounter::new();
    counter.increment(&s("item1"));
    counter.increment(&s("item1"));
    counter.decrement(&s("item1"));
    counter.increment(&s("item2"));
    counter.sub(&s("item3"), 5);

    assert_eq!(counter.count(), -3);
}

#[test]
fn pncounter_test_split_and_join() {
    let mut splittable = PNCounter::new();
    splittable.increment(&s("a"));
    splittable.add(&s("b"), 3);
    splittable.decrement(&s("a"));
    splittable.sub(&s("c"), 2);

    let initial_count = splittable.count();
    let decompositions = splittable.split();
    assert_eq!(decompositions.len(), splittable.entries_of().len());

    let mut joinable = PNCounter::new();
    joinable.join(decompositions);

    assert_eq!(joinable.count(), initial_count);
    assert_eq!(joinable, splittable);
}

#[test]
fn pncounter_test_difference() {
    let local = pncounter_of(&[("a", (5, 2)), ("b", (3, 1)), ("c", (0, 4))]);
    let remote = pncounter_of(&[("a", (4, 2)), ("b", (3, 2)), ("d", (1, 0))]);

    let diff = local.difference(&remote);

    let expected_inner = HashMap::from([(s("a"), (5, 2)), (s("c"), (0, 4))]);
    assert_eq!(entries_of(&diff), expected_inner);
}

#[test]
fn pncounter_test_difference_synced() {
    let local = pncounter_of(&[("a", (5, 2)), ("b", (3, 1))]);
    let remote = local.clone();

    let diff = local.difference(&remote);
    assert!(entries_of(&diff).is_empty());
}

#[test]
fn pncounter_test_false_matches() {
    let local = pncounter_of(&[("a", (5, 2)), ("b", (3, 1)), ("c", (0, 4))]);
    let remote = pncounter_of(&[("a", (5, 2)), ("b", (3, 2)), ("d", (1, 0))]);

    assert_eq!(local.false_matches(&remote), 3);
}

#[test]
fn test_join() {
    let mut counter1 = PNCounter::new();
    counter1.increment(&s("a"));
    counter1.add(&s("b"), 5);

    let mut counter2 = PNCounter::new();
    counter2.increment(&s("a"));
    counter2.add(&s("a"), 2);
    counter2.decrement(&s("b"));
    counter2.sub(&s("c"), 4);

    let delta1 = pncounter_of(&[("a", (1, 0)), ("b", (5, 0))]);
    let delta2 = pncounter_of(&[("a", (3, 0)), ("b", (0, 1)), ("c", (0, 4))]);

    let mut combined_counter = PNCounter::new();
    combined_counter.join(vec![delta1, delta2]);

    let expected_inner = HashMap::from([(s("a"), (3, 0)), (s("b"), (5, 1)), (s("c"), (0, 4))]);

    assert_eq!(entries_of(&combined_counter), expected_inner);
    assert_eq!(combined_counter.count(), 3 + 5 - 1 - 4);
}

#[test]
fn pncounter_measures() {
    let counter = pncounter_of(&[("ab", (1, 2)), ("c", (0, 3))]);
    assert_eq!(<PNCounter<String> as Measure>::len(&counter), 2);
    assert_eq!(<PNCounter<String> as Measure>::size_of(&counter), 2 + 16 + 1 + 16);
}

#[test]
fn pncounter_count_of_large_totals_whose_net_fits() {
    let big = i64::MAX as u64;
    let mut counter = PNCounter::new();
    counter.add(&s("a"), big);
    counter.sub(&s("b"), big);
    counter.add(&s("c"), 7);
    assert_eq!(counter.count(), 7);
}
