use std::collections::HashSet;

use xp::replicas::{awsets_with, gsets_with, pncounters_with, Draw};

fn strings(mut elements: xp::crdt::Elements<'_, String>) -> HashSet<String> {
    let mut out = HashSet::new();
    while let Some(v) = elements.next() {
        out.insert(v.clone());
    }
    out
}

fn items(names: &[&str]) -> Vec<String> {
    names.iter().map(|n| n.to_string()).collect()
}

#[test]
fn gsets_with_shares_the_first_items() {
    let (local, remote) = gsets_with(3, 1, items(&["common", "l1", "r1", "l2", "r2"]));
    assert_eq!(local.len(), 3);
    assert_eq!(remote.len(), 3);
    for item in ["common", "l1", "l2"] {
        assert!(local.contains(&item.to_string()));
    }
    for item in ["common", "r1", "r2"] {
        assert!(remote.contains(&item.to_string()));
    }
    assert!(!local.contains(&"r1".to_string()));
    assert!(!remote.contains(&"l2".to_string()));
}

#[test]
fn gsets_with_all_shared_gives_equal_sets() {
    let (local, remote) = gsets_with(2, 2, items(&["a", "b"]));
    assert_eq!(local, remote);
    assert_eq!(local.len(), 2);
}

#[test]
fn gsets_with_nothing_shared_gives_disjoint_sets() {
    let (local, remote) = gsets_with(2, 0, items(&["a", "b", "c", "d"]));
    let l = strings(local.elements());
    let r = strings(remote.elements());
    assert_eq!(l.len(), 2);
    assert_eq!(r.len(), 2);
    assert!(l.is_disjoint(&r));
}

#[test]
fn awsets_with_keeps_the_items_not_removed() {
    let (local, remote) = awsets_with(
        2,
        1,
        items(&["shared", "mine", "yours"]),
        vec![false, true, false],
    );
    assert!(local.contains(&"shared".to_string()));
    assert!(!local.contains(&"mine".to_string()));
    assert!(!local.contains(&"yours".to_string()));
    assert!(remote.contains(&"shared".to_string()));
    assert!(remote.contains(&"yours".to_string()));
    assert_eq!(local.len(), 1);
    assert_eq!(remote.len(), 2);
    // the items drawn for removal leave an insertion and a tombstone
    let inserted = local.inserted();
    assert_eq!(inserted.len(), 2);
    let removed = local.removed();
    assert_eq!(removed.len(), 1);
    let mine = inserted.iter().find(|(_, v)| v.as_str() == "mine").unwrap().0;
    assert_eq!(removed[0], mine);
    assert_eq!(remote.inserted().len(), 2);
    assert!(remote.removed().is_empty());
    // the shared item has the same insertion on both sides
    let local_shared = inserted.iter().find(|(_, v)| v.as_str() == "shared").unwrap().0;
    let remote_inserted = remote.inserted();
    let remote_shared = remote_inserted.iter().find(|(_, v)| v.as_str() == "shared").unwrap().0;
    assert_eq!(local_shared, remote_shared);
}

#[test]
fn awsets_with_shares_removals_of_shared_items() {
    let (local, remote) = awsets_with(2, 1, items(&["gone", "mine", "yours"]), vec![true, false, false]);
    assert!(!local.contains(&"gone".to_string()));
    assert!(!remote.contains(&"gone".to_string()));
    assert_eq!(local.removed(), remote.removed());
    assert_eq!(local.removed().len(), 1);
}

#[test]
fn pncounters_with_sets_the_drawn_totals() {
    let (local, remote) = pncounters_with(
        items(&["a", "b", "c"]),
        vec![Draw::Same(3, 1), Draw::Apart(5, 2, 7, 1, true), Draw::Apart(5, 2, 7, 1, false)],
    );
    // a: 3 - 1 on both sides; b: local (7, 2), remote (5, 1); c: local (5, 1), remote (7, 2).
    assert_eq!(local.count(), 2 + 5 + 4);
    assert_eq!(remote.count(), 2 + 4 + 5);
    let (local_b, remote_b) = pncounters_with(items(&["b"]), vec![Draw::Apart(5, 2, 7, 1, true)]);
    assert_eq!(local_b.count(), 5);
    assert_eq!(remote_b.count(), 4);
}
