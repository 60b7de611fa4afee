use deck_forest::candidates::{available_features, pick_features, take_prefix, PickError};
use deck_forest::forest::{check_evaluable, sample_column, evaluate_forest, forest_votes, votes_on_last_sample};
use deck_forest::order::sort_usizes;
use deck_forest::tree::{count_labels, evaluate_data, leaf_node, partition_by_feature, Node};

fn split(feature: usize, on_true: Node, on_false: Node) -> Node {
    Node {
        feature_index: Some(feature),
        on_true: Some(Box::new(on_true)),
        on_false: Some(Box::new(on_false)),
        prediction: None,
    }
}

#[test]
fn leaf_predicts_majority_with_ties_true() {
    assert_eq!(leaf_node(3, 2).prediction, Some(true));
    assert_eq!(leaf_node(2, 2).prediction, Some(true));
    assert_eq!(leaf_node(1, 2).prediction, Some(false));
    assert_eq!(leaf_node(0, 0).feature_index, None);
}

#[test]
fn evaluate_follows_branches() {
    let tree = split(1, leaf_node(1, 0), split(0, leaf_node(0, 1), leaf_node(1, 0)));
    assert!(evaluate_data(&tree, vec![false, true]));
    assert!(!evaluate_data(&tree, vec![true, false]));
    assert!(evaluate_data(&tree, vec![false, false]));
}

#[test]
fn evaluate_without_feature_or_branch_is_false() {
    let no_feature = Node { feature_index: None, on_true: Some(Box::new(leaf_node(1, 0))), on_false: None, prediction: None };
    assert!(!evaluate_data(&no_feature, vec![true]));
    let no_branch = Node { feature_index: Some(0), on_true: None, on_false: None, prediction: None };
    assert!(!evaluate_data(&no_branch, vec![true]));
}

#[test]
fn count_labels_counts_each_label() {
    let target = vec![true, false, true, true];
    assert_eq!(count_labels(&target, &vec![0, 1, 2, 3]), (3, 1));
    assert_eq!(count_labels(&target, &vec![1, 1, 0]), (1, 2));
    assert_eq!(count_labels(&target, &vec![]), (0, 0));
}

#[test]
fn partition_keeps_order_and_labels() {
    let data = vec![vec![true, false, true, false], vec![false, false, true, true]];
    let (t, f) = partition_by_feature(&data, 1, &vec![3, 0, 2, 1]);
    assert_eq!(t, vec![3, 2]);
    assert_eq!(f, vec![0, 1]);
    let target = vec![true, true, false, true];
    let all = count_labels(&target, &vec![3, 0, 2, 1]);
    let left = count_labels(&target, &t);
    let right = count_labels(&target, &f);
    assert_eq!(left.0 + right.0, all.0);
    assert_eq!(left.1 + right.1, all.1);
}

#[test]
fn sort_usizes_sorts() {
    assert_eq!(sort_usizes(&vec![3, 1, 2, 1, 0]), vec![0, 1, 1, 2, 3]);
    assert_eq!(sort_usizes(&vec![]), Vec::<usize>::new());
}

#[test]
fn available_features_drop_the_chosen() {
    assert_eq!(available_features(5, &vec![]), Some(vec![0, 1, 2, 3, 4]));
    assert_eq!(available_features(5, &vec![3, 0]), Some(vec![1, 2, 4]));
    assert_eq!(available_features(4, &vec![usize::MAX, 2]), Some(vec![0, 1, 3]));
}

#[test]
fn available_features_with_repeated_choice() {
    assert_eq!(available_features(5, &vec![3, 3]), Some(vec![0, 1, 4]));
    assert_eq!(available_features(5, &vec![0, 0]), None);
}

#[test]
fn take_prefix_takes_prefix() {
    assert_eq!(take_prefix(&vec![4, 5, 6], 2), vec![4, 5]);
}

#[test]
fn pick_features_picks_unused_features() {
    for _ in 0..20 {
        let picked = pick_features(6, &vec![1, 4], 3).unwrap();
        assert_eq!(picked.len(), 3);
        for f in &picked {
            assert!(*f < 6 && *f != 1 && *f != 4);
        }
        let mut sorted = picked.clone();
        sorted.sort();
        sorted.dedup();
        assert_eq!(sorted.len(), 3);
    }
}

#[test]
fn pick_features_errors() {
    assert_eq!(pick_features(3, &vec![0], 3), Err(PickError::TooFewFeatures));
    assert_eq!(pick_features(3, &vec![0, 0], 1), Err(PickError::PositionUnderflow));
}

#[test]
fn column_gathers_entries() {
    let data = vec![vec![true, false], vec![false, false], vec![true, true]];
    assert_eq!(sample_column(&data, 1), vec![false, false, true]);
}

#[test]
fn check_evaluable_detects_out_of_range() {
    let tree = split(2, leaf_node(1, 0), leaf_node(0, 1));
    assert!(check_evaluable(&tree, &vec![true, false, true]));
    assert!(!check_evaluable(&tree, &vec![true, false]));
    assert!(check_evaluable(&leaf_node(0, 0), &vec![]));
}

#[test]
fn forest_votes_counts_both_sides() {
    let forest = vec![leaf_node(1, 0), split(0, leaf_node(1, 0), leaf_node(0, 1)), leaf_node(0, 1)];
    assert_eq!(forest_votes(&forest, &vec![true]), (2, 1));
    assert_eq!(forest_votes(&forest, &vec![false]), (1, 2));
}

#[test]
fn evaluate_forest_scores_test_samples() {
    let forest = vec![split(0, leaf_node(1, 0), leaf_node(0, 1))];
    let data = vec![vec![true, false, true, false]];
    let labels = vec![true, true, false, false];
    assert_eq!(evaluate_forest(&forest, &data, &labels, 1, 4), Some((3, 1)));
    assert_eq!(evaluate_forest(&forest, &data, &labels, 0, 4), Some((4, 2)));
    assert_eq!(evaluate_forest(&forest, &data, &labels, 2, 2), Some((0, 0)));
    assert_eq!(evaluate_forest(&vec![split(1, leaf_node(1, 0), leaf_node(0, 1))], &data, &labels, 0, 1), None);
}

#[test]
fn tie_vote_counts_as_correct() {
    let forest = vec![leaf_node(1, 0), leaf_node(0, 1)];
    let data = vec![vec![true, true]];
    assert_eq!(evaluate_forest(&forest, &data, &vec![true, false], 0, 2), Some((2, 2)));
}

#[test]
fn votes_on_last_sample_use_last_entries() {
    let forest = vec![split(0, leaf_node(1, 0), leaf_node(0, 1)), split(1, leaf_node(1, 0), leaf_node(0, 1))];
    let data = vec![vec![false, true], vec![true, false]];
    assert_eq!(votes_on_last_sample(&forest, &data), Some((1, 1)));
    assert_eq!(votes_on_last_sample(&forest, &vec![vec![true], vec![]]), None);
    assert_eq!(votes_on_last_sample(&forest, &vec![vec![true]]), None);
}
