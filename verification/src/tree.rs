//! Binary decision trees over boolean features.

use vstd::prelude::*;

verus! {

/// A decision-tree node: a leaf carries a prediction; an inner node tests
/// one feature and continues in the branch that matches its value.
#[derive(Debug)]
pub struct Node {
    pub feature_index: Option<usize>,
    pub on_true: Option<Box<Node>>,
    pub on_false: Option<Box<Node>>,
    pub prediction: Option<bool>,
}

/// The prediction of `tree` for a sample with feature values `data`: a
/// leaf's prediction; otherwise the tested feature's value (false when the
/// node tests none) selects the branch, and a missing branch predicts false.
pub open spec fn evaluate_spec(tree: Node, data: Seq<bool>) -> bool
    decreases tree,
{
    match tree.prediction {
        Some(value) => value,
        None => {
            let data_result = match tree.feature_index {
                Some(f) => data[f as int],
                None => false,
            };
            if data_result {
                match tree.on_true {
                    Some(node) => evaluate_spec(*node, data),
                    None => false,
                }
            } else {
                match tree.on_false {
                    Some(node) => evaluate_spec(*node, data),
                    None => false,
                }
            }
        },
    }
}

/// Every feature that evaluating `tree` on `data` reads is in range.
pub open spec fn evaluable(tree: Node, data: Seq<bool>) -> bool
    decreases tree,
{
    match tree.prediction {
        Some(_) => true,
        None => {
            let in_range = match tree.feature_index {
                Some(f) => f < data.len(),
                None => true,
            };
            let data_result = match tree.feature_index {
                Some(f) => f < data.len() && data[f as int],
                None => false,
            };
            &&& in_range
            &&& if data_result {
                match tree.on_true {
                    Some(node) => evaluable(*node, data),
                    None => true,
                }
            } else {
                match tree.on_false {
                    Some(node) => evaluable(*node, data),
                    None => true,
                }
            }
        },
    }
}

/// Follows `tree` down to a prediction for the sample `data`.
pub fn evaluate_data(tree: &Node, data: Vec<bool>) -> (r: bool)
    requires
        evaluable(*tree, data@),
    ensures
        r == evaluate_spec(*tree, data@),
    decreases tree,
{
    if let Some(value) = tree.prediction {
        return value;
    }
    let mut data_result: bool = false;
    if let Some(feature_index) = tree.feature_index {
        data_result = data[feature_index];
    }
    if data_result {
        if let Some(node) = &tree.on_true {
            return evaluate_data(&node, data);
        }
    } else {
        if let Some(node) = &tree.on_false {
            return evaluate_data(&node, data);
        }
    }
    false
}

/// A leaf that predicts the majority label, true on a tie.
pub fn leaf_node(true_amounts: usize, false_amounts: usize) -> (node: Node)
    ensures
        node.prediction == Some(true_amounts >= false_amounts),
        node.feature_index is None,
        node.on_true is None,
        node.on_false is None,
{
    Node {
        feature_index: None,
        on_true: None,
        on_false: None,
        prediction: Some(true_amounts >= false_amounts),
    }
}

/// Every index points into a sequence of length `len`.
pub open spec fn all_below(indexes: Seq<usize>, len: nat) -> bool {
    forall|k: int| 0 <= k < indexes.len() ==> #[trigger] indexes[k] < len
}

/// An index whose entry in `flags` is true.
pub open spec fn flag_set(flags: Seq<bool>) -> spec_fn(usize) -> bool {
    |i: usize| flags[i as int]
}

/// An index whose entry in `flags` is false.
pub open spec fn flag_clear(flags: Seq<bool>) -> spec_fn(usize) -> bool {
    |i: usize| !flags[i as int]
}

/// The indexes whose entry in `flags` is true, in order.
pub open spec fn where_true(flags: Seq<bool>, indexes: Seq<usize>) -> Seq<usize> {
    indexes.filter(flag_set(flags))
}

/// The indexes whose entry in `flags` is false, in order.
pub open spec fn where_false(flags: Seq<bool>, indexes: Seq<usize>) -> Seq<usize> {
    indexes.filter(flag_clear(flags))
}

/// Counts the samples among `indexes` whose label in `target` is true and
/// those whose label is false.
pub fn count_labels(target: &Vec<bool>, indexes: &Vec<usize>) -> (r: (usize, usize))
    requires
        all_below(indexes@, target@.len()),
    ensures
        r.0 == where_true(target@, indexes@).len(),
        r.1 == where_false(target@, indexes@).len(),
        r.0 + r.1 == indexes@.len(),
{
    let mut true_amounts: usize = 0;
    let mut false_amounts: usize = 0;
    let mut k: usize = 0;
    while k < indexes.len()
        invariant
            k <= indexes@.len(),
            all_below(indexes@, target@.len()),
            true_amounts == where_true(target@, indexes@.take(k as int)).len(),
            false_amounts == where_false(target@, indexes@.take(k as int)).len(),
            true_amounts + false_amounts == k,
        decreases indexes@.len() - k,
    {
        let index = indexes[k];
        assert(indexes@.take(k + 1) =~= indexes@.take(k as int).push(index));
        proof {
            indexes@.take(k as int).lemma_filter_push(index, flag_set(target@));
            indexes@.take(k as int).lemma_filter_push(index, flag_clear(target@));
        }
        if target[index] {
            true_amounts = true_amounts + 1;
        } else {
            false_amounts = false_amounts + 1;
        }
        k = k + 1;
    }
    assert(indexes@.take(k as int) =~= indexes@);
    (true_amounts, false_amounts)
}

/// Splits `indexes` by the value of feature `feature_index`: those where
/// it holds and those where it does not, each in the original order.
pub fn partition_by_feature(data: &Vec<Vec<bool>>, feature_index: usize, indexes: &Vec<usize>) -> (r: (
    Vec<usize>,
    Vec<usize>,
))
    requires
        feature_index < data@.len(),
        all_below(indexes@, data@[feature_index as int]@.len()),
    ensures
        r.0@ == where_true(data@[feature_index as int]@, indexes@),
        r.1@ == where_false(data@[feature_index as int]@, indexes@),
{
    let row = &data[feature_index];
    let mut true_indexes: Vec<usize> = Vec::new();
    let mut false_indexes: Vec<usize> = Vec::new();
    let mut k: usize = 0;
    while k < indexes.len()
        invariant
            k <= indexes@.len(),
            all_below(indexes@, row@.len()),
            true_indexes@ == where_true(row@, indexes@.take(k as int)),
            false_indexes@ == where_false(row@, indexes@.take(k as int)),
        decreases indexes@.len() - k,
    {
        let data_index = indexes[k];
        assert(indexes@.take(k + 1) =~= indexes@.take(k as int).push(data_index));
        proof {
            indexes@.take(k as int).lemma_filter_push(data_index, flag_set(row@));
            indexes@.take(k as int).lemma_filter_push(data_index, flag_clear(row@));
        }
        if row[data_index] {
            true_indexes.push(data_index);
        } else {
            false_indexes.push(data_index);
        }
        k = k + 1;
    }
    assert(indexes@.take(k as int) =~= indexes@);
    (true_indexes, false_indexes)
}

/// Splitting a node's samples by a feature keeps every sample: the samples
/// with each label on the two sides add up to those of the node.
pub proof fn lemma_partition_keeps_labels(target: Seq<bool>, row: Seq<bool>, indexes: Seq<usize>)
    ensures
        where_true(target, where_true(row, indexes)).len() + where_true(
            target,
            where_false(row, indexes),
        ).len() == where_true(target, indexes).len(),
        where_false(target, where_true(row, indexes)).len() + where_false(
            target,
            where_false(row, indexes),
        ).len() == where_false(target, indexes).len(),
    decreases indexes.len(),
{
    if indexes.len() > 0 {
        let e = indexes.drop_last();
        let x = indexes.last();
        lemma_partition_keeps_labels(target, row, e);
        assert(e.push(x) =~= indexes);
        e.lemma_filter_push(x, flag_set(row));
        e.lemma_filter_push(x, flag_clear(row));
        e.lemma_filter_push(x, flag_set(target));
        e.lemma_filter_push(x, flag_clear(target));
        where_true(row, e).lemma_filter_push(x, flag_set(target));
        where_true(row, e).lemma_filter_push(x, flag_clear(target));
        where_false(row, e).lemma_filter_push(x, flag_set(target));
        where_false(row, e).lemma_filter_push(x, flag_clear(target));
    }
}

/// Evaluating a tree goes down one level at a time: a leaf gives its own
/// prediction, and an inner node gives exactly what the branch selected by
/// its tested feature gives, whatever that branch's depth.
pub proof fn lemma_evaluate_descends(tree: Node, data: Seq<bool>)
    ensures
        tree.prediction matches Some(v) ==> evaluate_spec(tree, data) == v,
        ({
            match (tree.prediction, tree.feature_index, tree.on_true) {
                (None, Some(f), Some(sub)) => data[f as int] ==> evaluate_spec(tree, data)
                    == evaluate_spec(*sub, data),
                _ => true,
            }
        }),
        ({
            match (tree.prediction, tree.feature_index, tree.on_false) {
                (None, Some(f), Some(sub)) => !data[f as int] ==> evaluate_spec(tree, data)
                    == evaluate_spec(*sub, data),
                (None, None, Some(sub)) => evaluate_spec(tree, data) == evaluate_spec(*sub, data),
                _ => true,
            }
        }),
{
}

/// Every path of `tree` ends in a leaf predicting `v`: each inner node
/// tests a feature and has both branches.
pub open spec fn all_leaves_predict(tree: Node, v: bool) -> bool
    decreases tree,
{
    match tree.prediction {
        Some(p) => p == v,
        None => {
            &&& tree.feature_index is Some
            &&& match tree.on_true {
                Some(node) => all_leaves_predict(*node, v),
                None => false,
            }
            &&& match tree.on_false {
                Some(node) => all_leaves_predict(*node, v),
                None => false,
            }
        },
    }
}

/// A tree whose every leaf predicts `v` predicts `v` for every sample.
pub proof fn lemma_uniform_tree(tree: Node, data: Seq<bool>, v: bool)
    requires
        all_leaves_predict(tree, v),
    ensures
        evaluate_spec(tree, data) == v,
    decreases tree,
{
    if tree.prediction is None {
        match tree.on_true {
            Some(node) => lemma_uniform_tree(*node, data, v),
            None => {},
        }
        match tree.on_false {
            Some(node) => lemma_uniform_tree(*node, data, v),
            None => {},
        }
    }
}

} // verus!
