use itertools::Itertools;
use rand::{Rng, SeedableRng};
use rand_chacha::ChaCha8Rng;
use seismic::selection::{compare_keys, compare_ranks, select_entries, select_highest_scored};
use seismic::FloatBits;
use std::cmp::Ordering;

fn scored(values: &[f32]) -> Vec<(usize, FloatBits)> {
    values.iter().enumerate().map(|(i, value)| (i, FloatBits { bits: value.to_bits() })).collect()
}

fn labels(entries: &[(usize, FloatBits)]) -> Vec<usize> {
    entries.iter().map(|entry| entry.0).collect()
}

#[test]
fn the_highest_scores_come_first() {
    let list = scored(&[0.5, 3.0, -1.0, 2.0, 0.75]);
    assert_eq!(labels(&select_highest_scored(&list, 3)), vec![1, 3, 4]);
}

#[test]
fn all_entries_are_selected_if_they_are_few() {
    let list = scored(&[0.5, 3.0]);
    assert_eq!(labels(&select_highest_scored(&list, 10)), vec![1, 0]);
    assert_eq!(labels(&select_highest_scored(&list, usize::MAX)), vec![1, 0]);
}

#[test]
fn nothing_is_selected_from_nothing_or_by_a_limit_of_zero() {
    assert_eq!(labels(&select_highest_scored(&scored(&[]), 3)), vec![]);
    assert_eq!(labels(&select_highest_scored(&scored(&[1.0, 2.0]), 0)), vec![]);
}

#[test]
fn zeros_of_different_sign_are_told_apart() {
    assert_eq!(labels(&select_highest_scored(&scored(&[-0.0, 0.0]), 1)), vec![1]);
}

#[test]
fn ties_are_broken_as_in_a_selection_by_score() {
    let mut rng = ChaCha8Rng::seed_from_u64(11);
    for k in 0..30 {
        let values: Vec<f32> = (0..25).map(|_| rng.random_range(0..6) as f32).collect();
        let list = scored(&values);
        let expected: Vec<usize> = values
            .iter()
            .copied()
            .enumerate()
            .k_largest_by(k, |a, b| a.1.total_cmp(&b.1))
            .map(|entry| entry.0)
            .collect();
        assert_eq!(labels(&select_highest_scored(&list, k)), expected);
    }
}

#[test]
fn entries_are_taken_from_the_chosen_positions() {
    let list = scored(&[1.0, 2.0, 3.0]);
    assert_eq!(labels(&select_entries(&list, &[(0, 2), (0, 0), (0, 2)])), vec![2, 0, 2]);
}

#[test]
fn comparisons_look_at_the_first_field() {
    assert_eq!(compare_keys(&-1, &4), Ordering::Less);
    assert_eq!(compare_keys(&4, &4), Ordering::Equal);
    assert_eq!(compare_ranks(&(5, 0), &(4, 9)), Ordering::Greater);
    assert_eq!(compare_ranks(&(5, 0), &(5, 9)), Ordering::Equal);
}
