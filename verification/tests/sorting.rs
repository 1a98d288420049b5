use advent::common::sorting::{sort_ranked, Ranked};
use advent::year_2025::day8::clusters::{clusters, ClusterRank};
use advent::year_2025::day8::partition::PartitionState;
use std::collections::HashSet;

fn set_of(members: &[usize]) -> HashSet<usize> {
    members.iter().copied().collect()
}

#[test]
fn connections_are_sorted_by_cost_then_pair() {
    let unsorted: Vec<(usize, usize, i64)> =
        vec![(0, 1, 9), (0, 2, 3), (0, 3, 3), (1, 2, 9), (1, 3, 1), (2, 3, 3)];
    assert_eq!(
        sort_ranked(&unsorted),
        vec![(1, 3, 1), (0, 2, 3), (0, 3, 3), (2, 3, 3), (0, 1, 9), (1, 2, 9)]
    );
    let reversed: Vec<(usize, usize, i64)> = unsorted.iter().rev().copied().collect();
    assert_eq!(sort_ranked(&reversed), sort_ranked(&unsorted));
}

#[test]
fn sorting_keeps_repeated_elements() {
    let v: Vec<(usize, usize, i64)> = vec![(1, 2, 5), (0, 1, 5), (1, 2, 5), (0, 0, -4)];
    assert_eq!(sort_ranked(&v), vec![(0, 0, -4), (0, 1, 5), (1, 2, 5), (1, 2, 5)]);
    assert_eq!(sort_ranked(&Vec::<(usize, usize, i64)>::new()), Vec::new());
    assert_eq!(sort_ranked(&vec![(4usize, 5usize, 6i64)]), vec![(4, 5, 6)]);
}

#[test]
fn connections_rank_by_cost_first() {
    assert!((5usize, 6usize, 1i64).comes_before(&(0, 1, 2)));
    assert!(!(0usize, 1usize, 2i64).comes_before(&(5, 6, 1)));
    assert!((0usize, 9usize, 2i64).comes_before(&(1, 2, 2)));
    assert!((1usize, 2usize, 2i64).comes_before(&(1, 3, 2)));
    assert!(!(1usize, 2usize, 2i64).comes_before(&(1, 2, 2)));
}

#[test]
fn cluster_ranks_put_the_larger_first() {
    let small = ClusterRank { size: 2, first: 0 };
    let large = ClusterRank { size: 3, first: 5 };
    let later = ClusterRank { size: 3, first: 7 };
    assert!(large.comes_before(&small));
    assert!(!small.comes_before(&large));
    assert!(large.comes_before(&later));
    assert!(!later.comes_before(&large));
    assert!(!large.comes_before(&large));
    let sorted = sort_ranked(&vec![small, later, large]);
    let keys: Vec<(usize, usize)> = sorted.iter().map(|r| (r.size, r.first)).collect();
    assert_eq!(keys, vec![(3, 5), (3, 7), (2, 0)]);
}

#[test]
fn partition_gives_labels_in_order() {
    let mut state = PartitionState::new(6);
    assert_eq!(state.len(), 6);
    assert_eq!(state.covered(), 0);
    assert_eq!(state.next_label(), 1);
    state.connect(2, 3);
    assert_eq!((state.label(2), state.label(3), state.label(0)), (1, 1, 0));
    assert_eq!(state.covered(), 2);
    state.connect(0, 5);
    assert_eq!((state.label(0), state.label(5)), (2, 2));
    state.connect(3, 4);
    assert_eq!(state.label(4), 1);
    assert_eq!(state.covered(), 5);
    state.connect(1, 5);
    assert_eq!(state.label(1), 2);
    state.connect(2, 4);
    assert_eq!(state.covered(), 6);
    assert_eq!(clusters(&state), vec![set_of(&[0, 1, 5]), set_of(&[2, 3, 4])]);
    state.connect(1, 2);
    let labels: Vec<usize> = (0..6).map(|i| state.label(i)).collect();
    assert_eq!(labels, vec![2, 2, 2, 2, 2, 2]);
    assert_eq!(state.next_label(), 3);
    assert_eq!(clusters(&state), vec![set_of(&[0, 1, 2, 3, 4, 5])]);
}

#[test]
fn fresh_partition_has_no_cluster() {
    assert!(clusters(&PartitionState::new(4)).is_empty());
    assert!(clusters(&PartitionState::new(0)).is_empty());
}
