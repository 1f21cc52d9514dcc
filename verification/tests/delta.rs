use xp::delta::{
    AWSet, Decompose, Dot, DotContext, DotKind, Element, Extract, ExtractError, GCounter, GSet,
    MemSized,
};

fn s(x: &str) -> String {
    x.to_string()
}

fn gset_of(items: &[&str]) -> GSet<String> {
    GSet::from_values(items.iter().map(|x| s(x)).collect())
}

fn gcounter_of(entries: &[(&str, u64)]) -> GCounter<String> {
    GCounter::from_entries(entries.iter().map(|(i, n)| (s(i), *n)).collect())
}

fn ctx_of(clock: &[(&str, u64)], cloud: &[(&str, u64)]) -> DotContext<String> {
    DotContext::from_parts(
        clock.iter().map(|(i, n)| (s(i), *n)).collect(),
        cloud.iter().map(|(i, n)| Dot(s(i), *n)).collect(),
    )
}

#[test]
fn insertion_and_membership_test() {
    let mut set = GSet::new();
    assert!(set.is_empty());
    assert_eq!(set.len(), 0);

    assert!(set.insert(s("a")).is_some_and(|d| d.len() == 1));
    assert!(set.insert(s("b")).is_some_and(|d| d.len() == 1));
    assert!(set.insert(s("b")).is_none());

    assert!(!set.is_empty(), "set shouldn't be empty");
    assert_eq!(set.len(), 2, "set should have only 2 elements");

    let elems = ["a", "b"];
    for x in elems {
        assert!(set.contains(&s(x)), "set does not contain element {x}");
    }
}

#[test]
fn gset_irredudant_join_decomposition_test() {
    let mut set = GSet::new();

    set.insert(s("a"));
    set.insert(s("b"));
    set.insert(s("c"));

    let irredudant_join_decomposition = set.split();
    assert_eq!(set.len(), irredudant_join_decomposition.len());

    assert!(irredudant_join_decomposition.iter().all(|d| d.len() == 1));

    let mut remote = GSet::new();
    remote.join(irredudant_join_decomposition);

    assert_eq!(set, remote);
}

#[test]
fn gset_difference_test() {
    let mut local = gset_of(&["a", "b", "c", "e"]);
    let mut remote = gset_of(&["a", "b", "d", "f"]);

    let actual_local_diff = GSet::from_delta(local.difference(&remote));
    let expected_local_diff = gset_of(&["c", "e"]);
    assert_eq!(actual_local_diff, expected_local_diff);

    let actual_remote_diff = GSet::from_delta(remote.difference(&local));
    let expected_remote_diff = gset_of(&["d", "f"]);
    assert_eq!(actual_remote_diff, expected_remote_diff);

    local.join(vec![actual_remote_diff.as_delta()]);
    remote.join(vec![actual_local_diff.as_delta()]);
    assert_eq!(local, remote);

    let local_diff = GSet::from_delta(local.difference(&remote));
    assert!(local_diff.is_empty(), "difference between equal sets has items");

    let remote_diff = GSet::from_delta(remote.difference(&local));
    assert!(remote_diff.is_empty(), "difference between equal sets has items");
}

#[test]
fn gset_extraction_test() {
    let mut set = GSet::new();

    let empty_delta = set.as_delta();
    let extraction = empty_delta.extract();
    assert!(extraction.is_err(), "extraction is working with empty deltas");

    let delta = set
        .insert(s("a"))
        .expect("insertion of a new element should produce `Some`");
    let extraction = delta.extract();
    assert!(extraction.is_ok_and(|v| v == "a"));

    set.insert(s("b"));
    let large_delta = set.as_delta();
    let extraction = large_delta.extract();
    assert!(extraction.is_err(), "extraction is working with large deltas");
}

#[test]
fn gset_extraction_counts_values() {
    let set = gset_of(&["a", "b", "c"]);
    assert_eq!(set.as_delta().extract(), Err(ExtractError::NotSingle(3)));
    let empty: GSet<String> = GSet::new();
    assert_eq!(empty.as_delta().extract(), Err(ExtractError::NotSingle(0)));
}

#[test]
fn gset_relations() {
    let small = gset_of(&["a", "b"]);
    let large = gset_of(&["a", "b", "c"]);
    let other = gset_of(&["x"]);
    assert!(small.is_subset(&large));
    assert!(!large.is_subset(&small));
    assert!(large.is_superset(&small));
    assert!(small.is_disjoint(&other));
    assert!(!small.is_disjoint(&large));
}

#[test]
fn gset_size_of_sums_value_sizes() {
    let set = gset_of(&["ab", "cde"]);
    assert_eq!(set.size_of(), 5);
    let numbers = GSet::from_values(vec![1i32, 2, 3]);
    assert_eq!(numbers.size_of(), 12);
}

#[test]
fn gset_join_is_union() {
    let mut a = gset_of(&["a", "b"]);
    let b = gset_of(&["b", "c"]);
    a.join(vec![b.as_delta()]);
    assert_eq!(a, gset_of(&["a", "b", "c"]));
}

#[test]
fn addition_and_counting_test() {
    let mut counter = GCounter::new();
    assert_eq!(counter.count(), 0, "empty counter different than 0");

    counter.increment(&s("a"));
    counter.increment(&s("b"));
    counter.increment(&s("a"));

    assert_eq!(counter.count(), 3);
    assert_eq!(counter.count_of(&s("a")), Some(2));
    assert_eq!(counter.count_of(&s("b")), Some(1));
    assert_eq!(counter.count_of(&s("c")), None);

    counter.add(&s("c"), 42);
    assert_eq!(counter.count_of(&s("c")), Some(42));
    assert_eq!(counter.count(), 45);
}

#[test]
fn gcounter_irredudant_join_decomposition_test() {
    let mut counter = GCounter::new();

    counter.increment(&s("a"));
    counter.increment(&s("b"));
    counter.increment(&s("a"));

    let irredundant_join_decomposition = counter.split();
    assert_eq!(irredundant_join_decomposition.len(), 2);

    assert!(irredundant_join_decomposition.iter().all(|d| d.len() == 1));

    let mut remote = GCounter::new();
    remote.join(irredundant_join_decomposition);

    assert_eq!(counter, remote);
}

#[test]
fn gcounter_difference_test() {
    let mut local = gcounter_of(&[("a", 2), ("b", 3), ("c", 1), ("e", 1)]);
    let mut remote = gcounter_of(&[("a", 2), ("b", 1), ("d", 1), ("e", 3)]);

    let actual_local_diff = GCounter::from_delta(local.difference(&remote));
    let expected_local_diff = gcounter_of(&[("b", 3), ("c", 1)]);
    assert_eq!(actual_local_diff, expected_local_diff);

    let actual_remote_diff = GCounter::from_delta(remote.difference(&local));
    let expected_remote_diff = gcounter_of(&[("d", 1), ("e", 3)]);
    assert_eq!(actual_remote_diff, expected_remote_diff);

    local.join(vec![actual_remote_diff.as_delta()]);
    remote.join(vec![actual_local_diff.as_delta()]);
    assert_eq!(local, remote);

    let local_diff = GCounter::from_delta(local.difference(&remote));
    assert_eq!(local_diff.count(), 0, "difference between equal counters different than 0");

    let remote_diff = GCounter::from_delta(remote.difference(&local));
    assert_eq!(remote_diff.count(), 0, "difference between equal counters different than 0");
}

#[test]
fn gcounter_extraction_test() {
    let mut counter = GCounter::new();

    let empty_delta = counter.as_delta();
    let extraction = empty_delta.extract();
    assert!(extraction.is_err(), "extraction is working with empty deltas");

    let delta = counter.increment(&s("a"));
    let extraction = delta.extract();
    assert!(extraction.is_ok_and(|(i, n)| i == "a" && *n == 1));

    counter.increment(&s("b"));
    let large_delta = counter.as_delta();
    let extraction = large_delta.extract();
    assert!(extraction.is_err(), "extraction is working with large deltas");
}

#[test]
fn gcounter_join_keeps_the_larger_count() {
    let mut a = gcounter_of(&[("a", 5), ("b", 1)]);
    let b = gcounter_of(&[("a", 2), ("b", 7), ("c", 3)]);
    a.join(vec![b.as_delta()]);
    assert_eq!(a, gcounter_of(&[("a", 5), ("b", 7), ("c", 3)]));
    assert_eq!(a.count(), 15);
}

#[test]
fn gcounter_from_entries_keeps_the_last_entry() {
    let counter = gcounter_of(&[("a", 5), ("a", 2)]);
    assert_eq!(counter.count_of(&s("a")), Some(2));
}

#[test]
fn emptiness_test() {
    let empty_ctx = DotContext::<String>::new();
    assert!(empty_ctx.is_empty());
    assert!(empty_ctx.is_compressed());
}

#[test]
fn membership_test() {
    let ctx = ctx_of(&[("a", 2), ("b", 3)], &[("a", 3), ("c", 3)]);

    assert!(!ctx.is_empty());

    for i in 1..=3 {
        assert_eq!(ctx.contains(&Dot(s("a"), i)), true);
        assert_eq!(ctx.contains(&Dot(s("b"), i)), true);
    }

    for i in 4..=5 {
        assert_eq!(ctx.contains(&Dot(s("a"), i)), false);
        assert_eq!(ctx.contains(&Dot(s("b"), i)), false);
    }

    assert_eq!(ctx.contains(&Dot(s("c"), 2)), false);
    assert_eq!(ctx.contains(&Dot(s("c"), 3)), true);
    assert_eq!(ctx.contains(&Dot(s("c"), 4)), false);
}

#[test]
fn max_and_next_test() {
    let mut ctx = ctx_of(&[("a", 2), ("b", 3), ("d", 3)], &[("a", 3), ("b", 2), ("c", 3)]);

    let expected = [("a", 3, 3), ("b", 4, 4), ("c", 1, 3), ("d", 4, 4), ("e", 1, 1)];
    for (i, n, m) in expected {
        let delta = ctx.next(&s(i));
        let ctx_from_delta = DotContext::from_delta(delta);
        assert_eq!(ctx_from_delta.max(&s(i)), n);
        assert_eq!(ctx.max(&s(i)), m);
    }
}

#[test]
fn compression_test() {
    let mut ctx = ctx_of(
        &[("a", 2), ("b", 3)],
        &[("a", 1), ("a", 2), ("a", 3), ("b", 5), ("c", 3)],
    );

    assert!(!ctx.is_compressed());

    ctx.compress();
    assert!(ctx.is_compressed());

    let expected_ctx = ctx_of(&[("a", 3), ("b", 3)], &[("b", 5), ("c", 3)]);

    assert_eq!(ctx, expected_ctx);
}

#[test]
fn causal_irredudant_join_decomposition_test() {
    let mut ctx = ctx_of(&[("a", 2), ("b", 3)], &[("a", 3), ("b", 5), ("c", 3)]);

    assert!(!ctx.is_compressed());

    let irredundant_join_decomposition = ctx.split();
    assert_eq!(irredundant_join_decomposition.len(), 5);

    let single_items = irredundant_join_decomposition.iter().all(|d| d.len() == 1);
    assert!(single_items);

    let mut cloned_ctx = DotContext::new();
    cloned_ctx.join(irredundant_join_decomposition);

    assert!(cloned_ctx.is_compressed());
    assert_ne!(ctx, cloned_ctx);

    ctx.compress();
    assert_eq!(ctx, cloned_ctx);
}

#[test]
fn causal_difference_test() {
    let local = ctx_of(&[("a", 2), ("b", 3), ("c", 3), ("d", 9)], &[("a", 3), ("b", 5), ("c", 3)]);
    let remote = ctx_of(&[("a", 2), ("b", 2), ("c", 4), ("e", 5)], &[("a", 3), ("b", 5), ("c", 2)]);

    let diff = DotContext::from_delta(local.difference(&remote));
    let expected_diff = ctx_of(&[("b", 3), ("d", 9)], &[("c", 3)]);
    assert_eq!(diff, expected_diff);

    let local = ctx_of(&[("a", 2), ("b", 3)], &[("a", 3), ("b", 5)]);
    let remote = ctx_of(&[("a", 2), ("b", 3), ("c", 3), ("e", 5)], &[("a", 3), ("b", 5), ("c", 3)]);

    let empty_diff = DotContext::from_delta(local.difference(&remote));
    assert!(empty_diff.is_empty());
}

#[test]
fn causal_extraction_test() {
    let empty_ctx = DotContext::<String>::new();
    let empty_delta = empty_ctx.as_delta();

    let extraction = empty_delta.extract();
    assert!(extraction.is_err(), "extraction is working with empty deltas");

    let ctx = ctx_of(&[("a", 3)], &[]);
    let clock_delta = ctx.as_delta();

    let extraction = clock_delta.extract();
    assert!(matches!(extraction, Ok(DotKind::Clock(i, 3)) if i == "a"));

    let ctx = ctx_of(&[], &[("a", 3)]);
    let cloud_delta = ctx.as_delta();

    let extraction = cloud_delta.extract();
    assert!(matches!(extraction, Ok(DotKind::Cloud(i, 3)) if i == "a"));

    let ctx = ctx_of(&[("a", 3)], &[("a", 3)]);
    let large_delta = ctx.as_delta();

    let extraction = large_delta.extract();
    assert!(extraction.is_err(), "extraction is working with large deltas");
}

#[test]
fn compression_is_idempotent() {
    let mut ctx = ctx_of(&[("a", 2)], &[("a", 3), ("a", 4), ("b", 2)]);
    ctx.compress();
    let once = ctx.clone();
    ctx.compress();
    assert_eq!(ctx, once);
    assert_eq!(ctx, ctx_of(&[("a", 4)], &[("b", 2)]));
}

#[test]
fn compression_keeps_the_covered_dots() {
    let mut ctx = ctx_of(&[("a", 1)], &[("a", 2), ("a", 5), ("b", 1)]);
    let dots = [("a", 1), ("a", 2), ("a", 3), ("a", 5), ("b", 1), ("b", 2)];
    let before: Vec<bool> = dots.iter().map(|(i, n)| ctx.contains(&Dot(s(i), *n))).collect();
    ctx.compress();
    let after: Vec<bool> = dots.iter().map(|(i, n)| ctx.contains(&Dot(s(i), *n))).collect();
    assert_eq!(before, after);
    assert_eq!(before, vec![true, true, false, true, true, false]);
}

#[test]
fn causal_join_covers_both_contexts() {
    let mut a = ctx_of(&[("a", 2)], &[("b", 2)]);
    let b = ctx_of(&[("b", 1)], &[("c", 4)]);
    a.join(vec![b.as_delta()]);
    assert_eq!(a, ctx_of(&[("a", 2), ("b", 2)], &[("c", 4)]));
}

#[test]
fn awset_delta_insert_and_remove() {
    let mut set: AWSet<String, String> = AWSet::new();
    assert!(set.is_empty());
    {
        let delta = set.insert(&s("r1"), s("x"));
        assert!(matches!(delta.extract(), Err(ExtractError::NotSingle(2))));
        let rebuilt = AWSet::from_delta(delta);
        let parts = rebuilt.split();
        assert!(matches!(parts[0].extract(), Ok(Element::Entry(v, Dot(i, 1))) if v == "x" && i == "r1"));
        assert!(matches!(parts[1].extract(), Ok(Element::Context(DotKind::Clock(i, 1))) if i == "r1"));
    }
    set.insert(&s("r1"), s("y"));
    set.insert(&s("r2"), s("x"));
    assert_eq!(set.len(), 2);
    assert!(set.contains(&s("x")));
    {
        let delta = set.remove(&s("x"));
        assert!(matches!(delta.extract(), Err(ExtractError::NotSingle(0))));
    }
    assert!(!set.contains(&s("x")));
    assert_eq!(set.len(), 1);
    let mut items: Vec<String> = set.iter().into_iter().cloned().collect();
    items.sort();
    assert_eq!(items, vec![s("y")]);
}

#[test]
fn awset_delta_dots_follow_the_context() {
    let mut set: AWSet<String, String> = AWSet::new();
    set.insert(&s("r1"), s("a"));
    set.insert(&s("r1"), s("b"));
    let delta = set.insert(&s("r1"), s("a"));
    let rebuilt = AWSet::from_delta(delta);
    let parts = rebuilt.split();
    assert_eq!(parts.len(), 2);
    assert!(matches!(parts[0].extract(), Ok(Element::Entry(v, Dot(i, 3))) if v == "a" && i == "r1"));
}

#[test]
fn awset_delta_split_and_rebuild() {
    let mut set: AWSet<String, String> = AWSet::new();
    set.insert(&s("r1"), s("a"));
    set.insert(&s("r2"), s("b"));
    set.remove(&s("a"));
    let parts = set.split();
    assert_eq!(parts.len(), 3);
    assert!(parts.iter().all(|p| p.extract().is_ok()));
    let entries = parts.iter().filter(|p| matches!(p.extract(), Ok(Element::Entry(..)))).count();
    assert_eq!(entries, 1);
    let contexts = parts
        .iter()
        .filter(|p| matches!(p.extract(), Ok(Element::Context(DotKind::Clock(..)))))
        .count();
    assert_eq!(contexts, 2);
}

#[test]
fn awset_delta_equality_ignores_dots() {
    let mut a: AWSet<String, String> = AWSet::new();
    let mut b: AWSet<String, String> = AWSet::new();
    a.insert(&s("r1"), s("x"));
    b.insert(&s("r2"), s("x"));
    b.insert(&s("r2"), s("x"));
    assert_eq!(a, b);
    let copy = AWSet::from_delta(a.split().remove(0));
    assert!(copy.contains(&s("x")));
    assert_eq!(a.clone(), a);
}

#[test]
fn mem_sized_of_numbers_and_strings() {
    assert_eq!(7i32.size_of(), 4);
    assert_eq!(7u64.size_of(), 8);
    assert_eq!(s("hello").size_of(), 5);
}

#[test]
fn gset_into_values_gives_each_value_once() {
    let set = gset_of(&["b", "a", "b", "c"]);
    let mut values = set.into_values();
    values.sort();
    assert_eq!(values, vec![s("a"), s("b"), s("c")]);
}

#[test]
fn compression_keeps_the_largest_sequence_numbers() {
    let mut ctx = ctx_of(&[("a", 2), ("b", 3)], &[("a", 3), ("a", 5), ("b", 2), ("c", 3)]);
    let before: Vec<u64> = ["a", "b", "c", "d"].iter().map(|i| ctx.max(&s(i))).collect();
    assert_eq!(before, vec![5, 3, 3, 0]);
    ctx.compress();
    let after: Vec<u64> = ["a", "b", "c", "d"].iter().map(|i| ctx.max(&s(i))).collect();
    assert_eq!(after, before);
}
