use seismic::clusters::{merge_assignments, split_clusters};
use std::collections::HashSet;

#[test]
fn clusters_of_at_most_the_limit_are_dissolved() {
    let assignments = [(1, 2), (1, 3), (4, 5), (6, 0), (6, 1), (6, 9)];
    let (kept, moved, removed) = split_clusters(&assignments, 2);
    assert_eq!(kept, vec![(6, 0), (6, 1), (6, 9)]);
    assert_eq!(moved, vec![2, 3, 5]);
    assert_eq!(removed, HashSet::from([1, 4]));
}

#[test]
fn a_limit_of_zero_dissolves_nothing() {
    let assignments = [(1, 2), (4, 5)];
    let (kept, moved, removed) = split_clusters(&assignments, 0);
    assert_eq!(kept, assignments);
    assert_eq!(moved, vec![]);
    assert!(removed.is_empty());
}

#[test]
fn a_high_limit_dissolves_everything() {
    let (kept, moved, removed) = split_clusters(&[(1, 2), (1, 3), (4, 5)], usize::MAX);
    assert_eq!(kept, vec![]);
    assert_eq!(moved, vec![2, 3, 5]);
    assert_eq!(removed, HashSet::from([1, 4]));
}

#[test]
fn no_assignments_make_no_clusters() {
    let (kept, moved, removed) = split_clusters(&[], 3);
    assert!(kept.is_empty() && moved.is_empty() && removed.is_empty());
}

#[test]
fn merged_assignments_are_sorted() {
    let merged = merge_assignments(vec![(6, 1), (6, 9)], vec![(6, 4), (2, 7), (9, 0), (2, 7)]);
    assert_eq!(merged, vec![(2, 7), (2, 7), (6, 1), (6, 4), (6, 9), (9, 0)]);
}
