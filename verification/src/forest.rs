//! Voting with a forest of decision trees and scoring its predictions.

use vstd::prelude::*;
use crate::tree::{Node, evaluate_data, evaluate_spec, evaluable};

verus! {

/// Whether evaluating `tree` on `data` reads only features in range.
pub fn check_evaluable(tree: &Node, data: &Vec<bool>) -> (r: bool)
    ensures
        r == evaluable(*tree, data@),
    decreases tree,
{
    if tree.prediction.is_some() {
        return true;
    }
    let mut data_result: bool = false;
    if let Some(feature_index) = tree.feature_index {
        if feature_index >= data.len() {
            return false;
        }
        data_result = data[feature_index];
    }
    if data_result {
        match &tree.on_true {
            Some(node) => check_evaluable(node, data),
            None => true,
        }
    } else {
        match &tree.on_false {
            Some(node) => check_evaluable(node, data),
            None => true,
        }
    }
}

/// Entry `index` of every row: the feature values of one sample.
pub open spec fn column_spec(data: Seq<Vec<bool>>, index: int) -> Seq<bool> {
    Seq::new(data.len(), |r: int| data[r]@[index])
}

/// Every row has an entry at `index`.
pub open spec fn rows_reach(data: Seq<Vec<bool>>, index: int) -> bool {
    forall|r: int| 0 <= r < data.len() ==> index < #[trigger] data[r]@.len()
}

/// Gathers entry `index` of every row.
pub fn sample_column(data: &Vec<Vec<bool>>, index: usize) -> (r: Vec<bool>)
    requires
        rows_reach(data@, index as int),
    ensures
        r@ == column_spec(data@, index as int),
{
    let mut vector_data: Vec<bool> = Vec::new();
    let mut k: usize = 0;
    while k < data.len()
        invariant
            k <= data@.len(),
            rows_reach(data@, index as int),
            vector_data@ == column_spec(data@, index as int).take(k as int),
        decreases data@.len() - k,
    {
        assert(index < data@[k as int]@.len());
        vector_data.push(data[k][index]);
        k = k + 1;
        assert(vector_data@ =~= column_spec(data@, index as int).take(k as int));
    }
    assert(column_spec(data@, index as int).take(k as int) =~= column_spec(data@, index as int));
    vector_data
}

/// The trees that predict true for `sample`.
pub open spec fn true_voters(forest: Seq<Node>, sample: Seq<bool>) -> Seq<Node> {
    forest.filter(|tree: Node| evaluate_spec(tree, sample))
}

/// Every tree can be evaluated on `sample`.
pub open spec fn all_evaluable(forest: Seq<Node>, sample: Seq<bool>) -> bool {
    forall|t: int| 0 <= t < forest.len() ==> evaluable(#[trigger] forest[t], sample)
}

/// Counts the trees predicting true and those predicting false for
/// `sample`.
pub fn forest_votes(forest: &Vec<Node>, sample: &Vec<bool>) -> (r: (usize, usize))
    requires
        all_evaluable(forest@, sample@),
    ensures
        r.0 == true_voters(forest@, sample@).len(),
        r.0 + r.1 == forest@.len(),
{
    let mut number_of_true: usize = 0;
    let mut number_of_false: usize = 0;
    let mut t: usize = 0;
    while t < forest.len()
        invariant
            t <= forest@.len(),
            all_evaluable(forest@, sample@),
            number_of_true == true_voters(forest@.take(t as int), sample@).len(),
            number_of_true + number_of_false == t,
        decreases forest@.len() - t,
    {
        let tree = &forest[t];
        proof {
            assert(forest@.take(t + 1) =~= forest@.take(t as int).push(forest@[t as int]));
            forest@.take(t as int).lemma_filter_push(
                forest@[t as int],
                |tree: Node| evaluate_spec(tree, sample@),
            );
        }
        if evaluate_data(tree, sample.clone()) {
            number_of_true = number_of_true + 1;
        } else {
            number_of_false = number_of_false + 1;
        }
        t = t + 1;
    }
    assert(forest@.take(t as int) =~= forest@);
    (number_of_true, number_of_false)
}

/// A majority vote of `number_of_true` against `number_of_false` agrees
/// with `label`; a tie agrees with either label.
pub open spec fn vote_agrees(number_of_true: nat, number_of_false: nat, label: bool) -> bool {
    (number_of_true >= number_of_false && label) || (number_of_false >= number_of_true && !label)
}

/// Whether the forest's vote on sample `index` agrees with its label.
pub open spec fn sample_correct(forest: Seq<Node>, data: Seq<Vec<bool>>, labels: Seq<bool>, index: int) -> bool {
    let votes = true_voters(forest, column_spec(data, index)).len();
    vote_agrees(votes, (forest.len() - votes) as nat, labels[index])
}

/// The samples in `from..to` on which the forest's vote is right.
pub open spec fn correct_count(
    forest: Seq<Node>,
    data: Seq<Vec<bool>>,
    labels: Seq<bool>,
    from: int,
    to: int,
) -> nat
    decreases to - from,
{
    if to <= from {
        0
    } else {
        correct_count(forest, data, labels, from, to - 1) + if sample_correct(
            forest,
            data,
            labels,
            to - 1,
        ) {
            1nat
        } else {
            0nat
        }
    }
}

/// Every tree can be evaluated on every sample in `from..to`.
pub open spec fn forest_fits(forest: Seq<Node>, data: Seq<Vec<bool>>, from: int, to: int) -> bool {
    forall|index: int| from <= index < to ==> all_evaluable(forest, #[trigger] column_spec(data, index))
}

/// Lets the forest vote on each sample in `from..to` and counts the
/// samples and the votes that agree with the labels: `(total, correct)`.
/// `None` where some tree would read a feature out of range.
pub fn evaluate_forest(
    forest: &Vec<Node>,
    data: &Vec<Vec<bool>>,
    labels: &Vec<bool>,
    from: usize,
    to: usize,
) -> (r: Option<(usize, usize)>)
    requires
        from <= to <= labels@.len(),
        forall|index: int| from <= index < to ==> rows_reach(data@, index),
    ensures
        match r {
            Some((total, correct)) => forest_fits(forest@, data@, from as int, to as int) && total
                == to - from && correct <= total && correct == correct_count(
                forest@,
                data@,
                labels@,
                from as int,
                to as int,
            ),
            None => !forest_fits(forest@, data@, from as int, to as int),
        },
{
    let mut correct_predictions: usize = 0;
    let mut total_predictions: usize = 0;
    let mut index: usize = from;
    while index < to
        invariant
            from <= index <= to <= labels@.len(),
            forall|i: int| from <= i < to ==> rows_reach(data@, i),
            forest_fits(forest@, data@, from as int, index as int),
            total_predictions == index - from,
            correct_predictions == correct_count(forest@, data@, labels@, from as int, index as int),
            correct_predictions <= total_predictions,
        decreases to - index,
    {
        total_predictions = total_predictions + 1;
        let vector_data = sample_column(data, index);
        let mut t: usize = 0;
        while t < forest.len()
            invariant
                t <= forest@.len(),
                from <= index < to,
                vector_data@ == column_spec(data@, index as int),
                forall|u: int| 0 <= u < t ==> evaluable(#[trigger] forest@[u], vector_data@),
            decreases forest@.len() - t,
        {
            if !check_evaluable(&forest[t], &vector_data) {
                assert(!all_evaluable(forest@, column_spec(data@, index as int)));
                assert(!forest_fits(forest@, data@, from as int, to as int));
                return None;
            }
            t = t + 1;
        }
        let (number_of_true, number_of_false) = forest_votes(forest, &vector_data);
        if (number_of_true >= number_of_false) && labels[index] {
            correct_predictions = correct_predictions + 1;
        } else if (number_of_false >= number_of_true) && !labels[index] {
            correct_predictions = correct_predictions + 1;
        }
        proof {
            assert(sample_correct(forest@, data@, labels@, index as int) == vote_agrees(
                number_of_true as nat,
                number_of_false as nat,
                labels@[index as int],
            ));
            assert(forest_fits(forest@, data@, from as int, index + 1)) by {
                assert forall|i: int| from <= i < index + 1 implies all_evaluable(
                    forest@,
                    #[trigger] column_spec(data@, i),
                ) by {
                    if i == index {
                        assert(column_spec(data@, i) == vector_data@);
                    }
                }
            }
        }
        index = index + 1;
    }
    Some((total_predictions, correct_predictions))
}

/// The last entry of every row: the sample that the rows end with.
pub open spec fn last_column_spec(data: Seq<Vec<bool>>) -> Seq<bool> {
    Seq::new(data.len(), |r: int| data[r]@.last())
}

/// The forest's votes `(true, false)` on the sample formed by the last entry
/// of every row; `None` where a row is empty or a tree would read a feature
/// out of range.
pub fn votes_on_last_sample(forest: &Vec<Node>, data: &Vec<Vec<bool>>) -> (r: Option<(usize, usize)>)
    ensures
        match r {
            Some((number_of_true, number_of_false)) => {
                &&& forall|k: int| 0 <= k < data@.len() ==> #[trigger] data@[k]@.len() > 0
                &&& all_evaluable(forest@, last_column_spec(data@))
                &&& number_of_true == true_voters(forest@, last_column_spec(data@)).len()
                &&& number_of_true + number_of_false == forest@.len()
            },
            None => (exists|k: int| 0 <= k < data@.len() && #[trigger] data@[k]@.len() == 0)
                || !all_evaluable(forest@, last_column_spec(data@)),
        },
{
    let mut vector_data: Vec<bool> = Vec::new();
    let mut k: usize = 0;
    while k < data.len()
        invariant
            k <= data@.len(),
            forall|j: int| 0 <= j < k ==> #[trigger] data@[j]@.len() > 0,
            vector_data@ == last_column_spec(data@).take(k as int),
        decreases data@.len() - k,
    {
        let row = &data[k];
        if row.len() == 0 {
            return None;
        }
        vector_data.push(row[row.len() - 1]);
        k = k + 1;
        assert(vector_data@ =~= last_column_spec(data@).take(k as int));
    }
    assert(last_column_spec(data@).take(k as int) =~= last_column_spec(data@));
    let mut t: usize = 0;
    while t < forest.len()
        invariant
            t <= forest@.len(),
            vector_data@ == last_column_spec(data@),
            forall|u: int| 0 <= u < t ==> evaluable(#[trigger] forest@[u], vector_data@),
        decreases forest@.len() - t,
    {
        if !check_evaluable(&forest[t], &vector_data) {
            return None;
        }
        t = t + 1;
    }
    Some(forest_votes(forest, &vector_data))
}

/// Scoring one more sample adds one exactly when the majority of the
/// trees agrees with its label: with `t` of `n` trees voting true, a true
/// label needs `2t >= n` and a false label `2t <= n`, so a minority that
/// agrees with the label does not count.
pub proof fn lemma_correct_iff_majority(
    forest: Seq<Node>,
    data: Seq<Vec<bool>>,
    labels: Seq<bool>,
    from: int,
    to: int,
)
    requires
        from <= to,
    ensures
        ({
            let t = true_voters(forest, column_spec(data, to)).len();
            let n = forest.len();
            correct_count(forest, data, labels, from, to + 1) == correct_count(
                forest,
                data,
                labels,
                from,
                to,
            ) + if (labels[to] && 2 * t >= n) || (!labels[to] && 2 * t <= n) {
                1nat
            } else {
                0nat
            }
        }),
{
    broadcast use vstd::seq_lib::group_filter_ensures;
    let sample = column_spec(data, to);
    forest.lemma_filter_len(|tree: Node| evaluate_spec(tree, sample));
}

/// The sample voted on is the last entry of every row: appending one entry
/// to every row makes those entries the sample.
pub proof fn lemma_last_sample_is_appended(data: Seq<Vec<bool>>, grown: Seq<Vec<bool>>, extra: Seq<bool>)
    requires
        grown.len() == data.len(),
        extra.len() == data.len(),
        forall|r: int| 0 <= r < data.len() ==> #[trigger] grown[r]@ == data[r]@.push(extra[r]),
    ensures
        last_column_spec(grown) == extra,
{
    assert forall|r: int| 0 <= r < extra.len() implies #[trigger] last_column_spec(grown)[r] == extra[r] by {
        assert(grown[r]@ == data[r]@.push(extra[r]));
    }
    assert(last_column_spec(grown) =~= extra);
}

/// Entry `r` of the sample voted on is the entry at the last index of row `r`.
pub proof fn lemma_last_sample_entries(data: Seq<Vec<bool>>)
    ensures
        forall|r: int|
            0 <= r < data.len() && data[r]@.len() > 0 ==> #[trigger] last_column_spec(data)[r]
                == data[r]@[data[r]@.len() - 1],
{
}

/// Adding a tree to the forest adds one true vote exactly when that tree
/// predicts true for the sample, and none otherwise.
pub proof fn lemma_true_votes_grow(forest: Seq<Node>, tree: Node, sample: Seq<bool>)
    ensures
        true_voters(forest.push(tree), sample).len() == true_voters(forest, sample).len() + if evaluate_spec(
            tree,
            sample,
        ) {
            1nat
        } else {
            0nat
        },
        true_voters(Seq::<Node>::empty(), sample).len() == 0,
{
    forest.lemma_filter_push(tree, |t: Node| evaluate_spec(t, sample));
}

/// The sample at `index` holds, for every row, that row's entry at `index`.
pub proof fn lemma_column_entries(data: Seq<Vec<bool>>, index: int)
    ensures
        column_spec(data, index).len() == data.len(),
        forall|r: int| 0 <= r < data.len() ==> #[trigger] column_spec(data, index)[r] == data[r]@[index],
{
}

} // verus!
