//! Building the training data: feature rows (one entry per player), the
//! labels, the random row order and bootstrap samples.

use vstd::prelude::*;
use crate::deck::PlayerFeatures;
use crate::order::{sort_usizes, usize_leq};
use crate::search::views;

verus! {

/// Every player's features have one entry per color and per card type.
pub open spec fn well_sized(players: Seq<PlayerFeatures>) -> bool {
    forall|p: int|
        0 <= p < players.len() ==> (#[trigger] players[p]).colors@.len() == 6
            && players[p].type_counts@.len() == 6
}

/// Color flag `c` of every player.
pub open spec fn color_row(players: Seq<PlayerFeatures>, c: int) -> Seq<bool> {
    Seq::new(players.len(), |p: int| players[p].colors@[c])
}

/// Card type count `t` of every player.
pub open spec fn type_row(players: Seq<PlayerFeatures>, t: int) -> Seq<u8> {
    Seq::new(players.len(), |p: int| players[p].type_counts@[t])
}

/// Lays the players' features out as rows: one row per color flag and one
/// per card type count, each with an entry per player.
pub fn feature_rows(players: &Vec<PlayerFeatures>) -> (r: (Vec<Vec<bool>>, Vec<Vec<u8>>))
    requires
        well_sized(players@),
    ensures
        r.0@.len() == 6,
        r.1@.len() == 6,
        forall|c: int| 0 <= c < 6 ==> #[trigger] r.0@[c]@ == color_row(players@, c),
        forall|t: int| 0 <= t < 6 ==> #[trigger] r.1@[t]@ == type_row(players@, t),
{
    let mut color_data_matrix: Vec<Vec<bool>> = Vec::new();
    let mut card_type_matrix: Vec<Vec<u8>> = Vec::new();
    let mut f: usize = 0;
    while f < 6
        invariant
            f <= 6,
            well_sized(players@),
            color_data_matrix@.len() == f,
            card_type_matrix@.len() == f,
            forall|c: int| 0 <= c < f ==> #[trigger] color_data_matrix@[c]@ == color_row(players@, c),
            forall|t: int| 0 <= t < f ==> #[trigger] card_type_matrix@[t]@ == type_row(players@, t),
        decreases 6 - f,
    {
        let mut colors: Vec<bool> = Vec::new();
        let mut counts: Vec<u8> = Vec::new();
        let mut p: usize = 0;
        while p < players.len()
            invariant
                f < 6,
                p <= players@.len(),
                well_sized(players@),
                colors@ == color_row(players@, f as int).take(p as int),
                counts@ == type_row(players@, f as int).take(p as int),
            decreases players@.len() - p,
        {
            assert(players@[p as int].colors@.len() == 6);
            colors.push(players[p].colors[f]);
            counts.push(players[p].type_counts[f]);
            p = p + 1;
            assert(colors@ =~= color_row(players@, f as int).take(p as int));
            assert(counts@ =~= type_row(players@, f as int).take(p as int));
        }
        assert(colors@ =~= color_row(players@, f as int));
        assert(counts@ =~= type_row(players@, f as int));
        color_data_matrix.push(colors);
        card_type_matrix.push(counts);
        f = f + 1;
    }
    (color_data_matrix, card_type_matrix)
}

/// `s` with every repeat of an earlier value left out.
pub open spec fn dedupe(s: Seq<usize>) -> Seq<usize>
    decreases s.len(),
{
    if s.len() == 0 {
        s
    } else {
        let d = dedupe(s.drop_last());
        if d.contains(s.last()) {
            d
        } else {
            d.push(s.last())
        }
    }
}

/// The distinct values of `values`, in increasing order.
pub open spec fn unique_sorted(values: Seq<u8>) -> Seq<usize> {
    dedupe(values.map_values(|v: u8| v as usize)).sort_by(usize_leq())
}

/// The distinct values of `values`, in increasing order.
pub fn unique_values(values: &Vec<u8>) -> (r: Vec<usize>)
    ensures
        r@ == unique_sorted(values@),
{
    let ghost wide = values@.map_values(|v: u8| v as usize);
    let mut tmp_vector: Vec<usize> = Vec::new();
    let mut i: usize = 0;
    while i < values.len()
        invariant
            i <= values@.len(),
            wide == values@.map_values(|v: u8| v as usize),
            tmp_vector@ == dedupe(wide.take(i as int)),
        decreases values@.len() - i,
    {
        let target_value = values[i] as usize;
        let mut contains_value: bool = false;
        let mut j: usize = 0;
        while j < tmp_vector.len()
            invariant
                j <= tmp_vector@.len(),
                contains_value == tmp_vector@.take(j as int).contains(target_value),
            decreases tmp_vector@.len() - j,
        {
            assert(tmp_vector@.take(j + 1) =~= tmp_vector@.take(j as int).push(tmp_vector@[j as int]));
            if tmp_vector[j] == target_value {
                contains_value = true;
                assert(tmp_vector@.take(j + 1)[j as int] == target_value);
            }
            j = j + 1;
        }
        assert(tmp_vector@.take(j as int) =~= tmp_vector@);
        proof {
            assert(wide.take(i + 1).drop_last() =~= wide.take(i as int));
            assert(wide.take(i + 1).last() == target_value);
        }
        if !contains_value {
            tmp_vector.push(target_value);
        }
        i = i + 1;
    }
    assert(wide.take(i as int) =~= wide);
    sort_usizes(&tmp_vector)
}

/// The number of rows cut between neighbouring distinct values.
pub open spec fn cut_count(u: Seq<usize>) -> nat {
    if u.len() == 0 {
        0
    } else {
        (u.len() - 1) as nat
    }
}

/// One row per pair of neighbouring distinct values `a < b` of `values`:
/// entry `p` tells whether `values[p]` lies below their midpoint, compared
/// as `2 * values[p] < a + b`.
pub open spec fn threshold_rows(values: Seq<u8>) -> Seq<Seq<bool>> {
    let u = unique_sorted(values);
    Seq::new(
        cut_count(u),
        |k: int| Seq::new(values.len(), |p: int| 2 * values[p] < u[k] + u[k + 1]),
    )
}

/// The values as `usize`.
pub open spec fn widen(values: Seq<u8>) -> Seq<usize> {
    values.map_values(|v: u8| v as usize)
}

/// The rows splitting `values` at the midpoints between neighbouring
/// distinct values.
pub fn threshold_features(values: &Vec<u8>) -> (r: Vec<Vec<bool>>)
    ensures
        r@.len() == threshold_rows(values@).len(),
        forall|k: int| 0 <= k < r@.len() ==> #[trigger] r@[k]@ == threshold_rows(values@)[k],
{
    let u = unique_values(values);
    proof {
        crate::order::lemma_usize_leq_total();
        dedupe(widen(values@)).lemma_sort_by_ensures(usize_leq());
        lemma_unique_bound(values@);
    }
    let mut rows: Vec<Vec<bool>> = Vec::new();
    if u.len() == 0 {
        return rows;
    }
    let mut k: usize = 1;
    while k < u.len()
        invariant
            1 <= k <= u@.len(),
            u@ == unique_sorted(values@),
            forall|j: int| 0 <= j < u@.len() ==> #[trigger] u@[j] <= 255,
            rows@.len() == k - 1,
            forall|j: int| 0 <= j < k - 1 ==> #[trigger] rows@[j]@ == threshold_rows(values@)[j],
        decreases u@.len() - k,
    {
        let mut row: Vec<bool> = Vec::new();
        let a = u[k - 1];
        let b = u[k];
        let mut p: usize = 0;
        while p < values.len()
            invariant
                p <= values@.len(),
                a <= 255,
                b <= 255,
                row@ == Seq::new(values@.len(), |q: int| 2 * values@[q] < a + b).take(p as int),
            decreases values@.len() - p,
        {
            row.push(2 * (values[p] as usize) < a + b);
            p = p + 1;
            assert(row@ =~= Seq::new(values@.len(), |q: int| 2 * values@[q] < a + b).take(p as int));
        }
        assert(row@ =~= threshold_rows(values@)[k - 1]);
        rows.push(row);
        k = k + 1;
    }
    rows
}

proof fn lemma_dedupe_bound(s: Seq<usize>, bound: usize)
    requires
        forall|i: int| 0 <= i < s.len() ==> #[trigger] s[i] <= bound,
    ensures
        forall|i: int| 0 <= i < dedupe(s).len() ==> #[trigger] dedupe(s)[i] <= bound,
    decreases s.len(),
{
    if s.len() > 0 {
        let e = s.drop_last();
        assert forall|i: int| 0 <= i < e.len() implies #[trigger] e[i] <= bound by {
            assert(e[i] == s[i]);
        }
        lemma_dedupe_bound(e, bound);
        let d = dedupe(e);
        assert(s.last() <= bound);
        if !d.contains(s.last()) {
            assert forall|i: int| 0 <= i < d.push(s.last()).len() implies #[trigger] d.push(
                s.last(),
            )[i] <= bound by {
                if i < d.len() {
                    assert(d.push(s.last())[i] == d[i]);
                }
            }
        }
    }
}

proof fn lemma_unique_bound(values: Seq<u8>)
    ensures
        forall|i: int| 0 <= i < unique_sorted(values).len() ==> #[trigger] unique_sorted(values)[i] <= 255,
{
    let w = widen(values);
    assert(values.map_values(|v: u8| v as usize) == w);
    lemma_dedupe_bound(w, 255);
    crate::order::lemma_usize_leq_total();
    dedupe(w).lemma_sort_by_ensures(usize_leq());
    assert forall|i: int| 0 <= i < unique_sorted(values).len() implies #[trigger] unique_sorted(values)[i] <= 255 by {
        let x = unique_sorted(values)[i];
        assert(unique_sorted(values).contains(x));
        assert(dedupe(w).contains(x));
    }
}

/// The boolean rows held by a vector of rows.
pub open spec fn bool_rows(v: Seq<Vec<bool>>) -> Seq<Seq<bool>> {
    v.map_values(|r: Vec<bool>| r@)
}

/// The threshold rows of every count row, one count row after the other.
pub open spec fn all_threshold_rows(m: Seq<Seq<u8>>) -> Seq<Seq<bool>>
    decreases m.len(),
{
    if m.len() == 0 {
        Seq::empty()
    } else {
        all_threshold_rows(m.drop_last()) + threshold_rows(m.last())
    }
}

/// The threshold rows of every card type count row, in card type order.
pub fn card_type_features(card_type_matrix: &Vec<Vec<u8>>) -> (r: Vec<Vec<bool>>)
    ensures
        bool_rows(r@) == all_threshold_rows(views(card_type_matrix@)),
{
    let mut card_type_data_matrix: Vec<Vec<bool>> = Vec::new();
    let mut t: usize = 0;
    while t < card_type_matrix.len()
        invariant
            t <= card_type_matrix@.len(),
            bool_rows(card_type_data_matrix@) == all_threshold_rows(
                views(card_type_matrix@).take(t as int),
            ),
        decreases card_type_matrix@.len() - t,
    {
        let mut rows = threshold_features(&card_type_matrix[t]);
        let ghost before = card_type_data_matrix@;
        let ghost added = rows@;
        card_type_data_matrix.append(&mut rows);
        proof {
            let m = views(card_type_matrix@).take(t + 1);
            assert(m.drop_last() =~= views(card_type_matrix@).take(t as int));
            assert(m.last() == card_type_matrix@[t as int]@);
            assert(bool_rows(added) =~= threshold_rows(card_type_matrix@[t as int]@));
            assert(bool_rows(card_type_data_matrix@) =~= bool_rows(before) + bool_rows(added));
        }
        t = t + 1;
    }
    assert(views(card_type_matrix@).take(t as int) =~= views(card_type_matrix@));
    card_type_data_matrix
}

/// The highest rank that still counts as a top finish, plus one.
pub const TOP_RANK_LIMIT: u64 = 8;

/// The label of each of the first `count` players: whether the rank is
/// below the limit.
pub fn top_rank_labels(ranks: &Vec<u64>, count: usize) -> (r: Vec<bool>)
    requires
        count <= ranks@.len(),
    ensures
        r@ == Seq::new(count as nat, |i: int| ranks@[i] < TOP_RANK_LIMIT),
{
    let mut labels: Vec<bool> = Vec::new();
    let mut i: usize = 0;
    while i < count
        invariant
            i <= count <= ranks@.len(),
            labels@ == Seq::new(count as nat, |k: int| ranks@[k] < TOP_RANK_LIMIT).take(i as int),
        decreases count - i,
    {
        labels.push(ranks[i] < TOP_RANK_LIMIT);
        i = i + 1;
        assert(labels@ =~= Seq::new(count as nat, |k: int| ranks@[k] < TOP_RANK_LIMIT).take(
            i as int,
        ));
    }
    assert(labels@ =~= Seq::new(count as nat, |k: int| ranks@[k] < TOP_RANK_LIMIT));
    labels
}

/// The first `count` labels.
pub fn take_labels(labels: &Vec<bool>, count: usize) -> (r: Vec<bool>)
    requires
        count <= labels@.len(),
    ensures
        r@ == labels@.take(count as int),
{
    let mut r: Vec<bool> = Vec::new();
    let mut i: usize = 0;
    while i < count
        invariant
            i <= count <= labels@.len(),
            r@ == labels@.take(i as int),
        decreases count - i,
    {
        r.push(labels[i]);
        i = i + 1;
        assert(r@ =~= labels@.take(i as int));
    }
    r
}

/// `s` with the entries at `i` and `j` exchanged.
pub open spec fn swap_spec(s: Seq<bool>, i: int, j: int) -> Seq<bool> {
    s.update(i, s[j]).update(j, s[i])
}

/// `s` after exchanging, for each `k` in turn, the entries at `k` and
/// `order[k]`.
pub open spec fn apply_swaps(s: Seq<bool>, order: Seq<usize>) -> Seq<bool>
    decreases order.len(),
{
    if order.len() == 0 {
        s
    } else {
        swap_spec(apply_swaps(s, order.drop_last()), order.len() - 1, order.last() as int)
    }
}

/// Every row is long enough for all the exchanges that `order` asks for.
pub open spec fn order_fits(data: Seq<Vec<bool>>, order: Seq<usize>) -> bool {
    forall|r: int|
        0 <= r < data.len() ==> order.len() <= (#[trigger] data[r])@.len() && forall|k: int|
            0 <= k < order.len() ==> #[trigger] order[k] < data[r]@.len()
}

/// Applies the exchanges of `order` to every row.
pub fn reorder_rows(data: &Vec<Vec<bool>>, order: &Vec<usize>) -> (r: Vec<Vec<bool>>)
    requires
        order_fits(data@, order@),
    ensures
        r@.len() == data@.len(),
        forall|k: int| 0 <= k < data@.len() ==> #[trigger] r@[k]@ == apply_swaps(data@[k]@, order@),
{
    let mut out: Vec<Vec<bool>> = Vec::new();
    let mut row_index: usize = 0;
    while row_index < data.len()
        invariant
            row_index <= data@.len(),
            order_fits(data@, order@),
            out@.len() == row_index,
            forall|k: int| 0 <= k < row_index ==> #[trigger] out@[k]@ == apply_swaps(data@[k]@, order@),
        decreases data@.len() - row_index,
    {
        let mut data_vector = data[row_index].clone();
        assert(data_vector@ == data@[row_index as int]@);
        let ghost original = data_vector@;
        let mut index: usize = 0;
        while index < order.len()
            invariant
                index <= order@.len(),
                order@.len() <= original.len(),
                forall|k: int| 0 <= k < order@.len() ==> #[trigger] order@[k] < original.len(),
                data_vector@ == apply_swaps(original, order@.take(index as int)),
                data_vector@.len() == original.len(),
            decreases order@.len() - index,
        {
            let value = order[index];
            assert(order@.take(index + 1).drop_last() =~= order@.take(index as int));
            let tmp: bool = data_vector[index];
            let other: bool = data_vector[value];
            data_vector.set(index, other);
            data_vector.set(value, tmp);
            index = index + 1;
        }
        assert(order@.take(index as int) =~= order@);
        out.push(data_vector);
        row_index = row_index + 1;
    }
    out
}

/// Each row's entries at the picked positions, in pick order.
pub open spec fn bootstrap_row(row: Seq<bool>, picks: Seq<usize>) -> Seq<bool> {
    picks.map_values(|p: usize| row[p as int])
}

/// Every pick is a position in every row.
pub open spec fn picks_fit(data: Seq<Vec<bool>>, picks: Seq<usize>) -> bool {
    forall|r: int, k: int|
        0 <= r < data.len() && 0 <= k < picks.len() ==> #[trigger] picks[k] < (#[trigger] data[r])@.len()
}

/// Resamples every row at the picked positions.
pub fn bootstrap(data: &Vec<Vec<bool>>, picks: &Vec<usize>) -> (r: Vec<Vec<bool>>)
    requires
        picks_fit(data@, picks@),
    ensures
        r@.len() == data@.len(),
        forall|k: int| 0 <= k < data@.len() ==> #[trigger] r@[k]@ == bootstrap_row(data@[k]@, picks@),
{
    let mut bootstrapped_data: Vec<Vec<bool>> = Vec::new();
    let mut row_index: usize = 0;
    while row_index < data.len()
        invariant
            row_index <= data@.len(),
            picks_fit(data@, picks@),
            bootstrapped_data@.len() == row_index,
            forall|k: int|
                0 <= k < row_index ==> #[trigger] bootstrapped_data@[k]@ == bootstrap_row(
                    data@[k]@,
                    picks@,
                ),
        decreases data@.len() - row_index,
    {
        let data_vector = &data[row_index];
        let mut bootstrapped_vector: Vec<bool> = Vec::new();
        let mut k: usize = 0;
        while k < picks.len()
            invariant
                k <= picks@.len(),
                row_index < data@.len(),
                data_vector == &data@[row_index as int],
                picks_fit(data@, picks@),
                bootstrapped_vector@ == bootstrap_row(data_vector@, picks@).take(k as int),
            decreases picks@.len() - k,
        {
            let random_number = picks[k];
            assert(picks@[k as int] < data@[row_index as int]@.len());
            bootstrapped_vector.push(data_vector[random_number]);
            k = k + 1;
            assert(bootstrapped_vector@ =~= bootstrap_row(data_vector@, picks@).take(k as int));
        }
        assert(bootstrapped_vector@ =~= bootstrap_row(data_vector@, picks@));
        bootstrapped_data.push(bootstrapped_vector);
        row_index = row_index + 1;
    }
    bootstrapped_data
}

/// Exchanging entries keeps a row's length and its entries, each as often:
/// reordering the rows only permutes every row.
pub proof fn lemma_swaps_permute(s: Seq<bool>, order: Seq<usize>)
    requires
        forall|k: int| 0 <= k < order.len() ==> #[trigger] order[k] < s.len(),
        order.len() <= s.len(),
    ensures
        apply_swaps(s, order).len() == s.len(),
        apply_swaps(s, order).to_multiset() == s.to_multiset(),
    decreases order.len(),
{
    broadcast use vstd::seq_lib::group_to_multiset_ensures;
    broadcast use vstd::multiset::group_multiset_axioms;
    if order.len() > 0 {
        let e = order.drop_last();
        assert forall|k: int| 0 <= k < e.len() implies #[trigger] e[k] < s.len() by {
            assert(e[k] == order[k]);
        }
        lemma_swaps_permute(s, e);
        let x = apply_swaps(s, e);
        let i = order.len() - 1;
        let j = order.last() as int;
        assert(order[order.len() - 1] == order.last());
        let y = x.update(i, x[j]);
        assert(y.to_multiset() == x.to_multiset().insert(x[j]).remove(x[i]));
        assert(y[j] == x[j] || i == j);
        let z = y.update(j, x[i]);
        assert(z.to_multiset() == y.to_multiset().insert(x[i]).remove(y[j]));
        if i == j {
            assert(y[j] == x[j]);
        } else {
            assert(y[j] == x[j]);
        }
        assert(z.to_multiset() =~= x.to_multiset());
    }
}

proof fn lemma_dedupe_props(s: Seq<usize>)
    ensures
        dedupe(s).no_duplicates(),
        forall|x: usize| dedupe(s).contains(x) <==> s.contains(x),
    decreases s.len(),
{
    if s.len() > 0 {
        let e = s.drop_last();
        lemma_dedupe_props(e);
        let d = dedupe(e);
        assert forall|x: usize| s.contains(x) implies dedupe(s).contains(x) by {
            let i = choose|i: int| 0 <= i < s.len() && s[i] == x;
            if i < s.len() - 1 {
                assert(e[i] == x);
                assert(e.contains(x));
                assert(d.contains(x));
                let k = choose|k: int| 0 <= k < d.len() && d[k] == x;
                if !d.contains(s.last()) {
                    assert(d.push(s.last())[k] == x);
                }
            } else {
                assert(x == s.last());
                if !d.contains(x) {
                    assert(d.push(x)[d.len() as int] == x);
                }
            }
        }
        assert forall|x: usize| dedupe(s).contains(x) implies s.contains(x) by {
            if d.contains(x) {
                assert(e.contains(x));
                let i = choose|i: int| 0 <= i < e.len() && e[i] == x;
                assert(s[i] == e[i]);
            } else {
                let i = choose|i: int| 0 <= i < dedupe(s).len() && dedupe(s)[i] == x;
                if i < d.len() {
                    assert(d.push(s.last())[i] == d[i]);
                }
                assert(s[s.len() - 1] == x);
            }
        }
        if !d.contains(s.last()) {
            assert forall|i: int, j: int|
                0 <= i < d.push(s.last()).len() && 0 <= j < d.push(s.last()).len() && i != j
                implies d.push(s.last())[i] != d.push(s.last())[j] by {
                if i < d.len() && j < d.len() {
                } else if i < d.len() {
                    assert(d.push(s.last())[i] == d[i]);
                } else {
                    assert(d.push(s.last())[j] == d[j]);
                }
            }
        }
    }
}

/// The distinct values are in strictly increasing order and are exactly
/// the values that occur.
pub proof fn lemma_unique_sorted(values: Seq<u8>)
    ensures
        forall|i: int, j: int|
            0 <= i < j < unique_sorted(values).len() ==> #[trigger] unique_sorted(values)[i]
                < #[trigger] unique_sorted(values)[j],
        forall|x: usize| unique_sorted(values).contains(x) <==> widen(values).contains(x),
{
    let w = widen(values);
    assert(values.map_values(|v: u8| v as usize) == w);
    let d = dedupe(w);
    let u = d.sort_by(usize_leq());
    lemma_dedupe_props(w);
    crate::order::lemma_usize_leq_total();
    d.lemma_sort_by_ensures(usize_leq());
    d.lemma_multiset_has_no_duplicates();
    assert forall|x: usize| u.to_multiset().contains(x) implies u.to_multiset().count(x) == 1 by {}
    u.lemma_multiset_has_no_duplicates_conv();
    assert forall|x: usize| u.contains(x) <==> d.contains(x) by {
        vstd::seq_lib::to_multiset_contains(u, x);
        vstd::seq_lib::to_multiset_contains(d, x);
    }
    assert forall|i: int, j: int| 0 <= i < j < u.len() implies #[trigger] u[i] < #[trigger] u[j] by {
        assert(usize_leq()(u[i], u[j]));
    }
}

} // verus!
