use deck_forest::dataset::{bootstrap, card_type_features, feature_rows, reorder_rows, take_labels, threshold_features, top_rank_labels, unique_values};
use deck_forest::deck::{bytes_equal, card_type_name_bytes, color_tag_bytes, deck_features, CardData, FeatureError, PlayerFeatures};
use deck_forest::random::{index_range, random_picks, shuffled_range};

fn card(qty: &str, card_type: Option<&str>, cost: Option<&str>, colors: &[&str]) -> CardData {
    CardData {
        has_attributes: true,
        has_colors: true,
        color_texts: colors.iter().map(|c| c.as_bytes().to_vec()).collect(),
        quantity: Some(qty.as_bytes().to_vec()),
        card_type: card_type.map(|t| t.as_bytes().to_vec()),
        cost: cost.map(|c| c.as_bytes().to_vec()),
    }
}

#[test]
fn tag_and_type_texts() {
    let tags: Vec<String> = color_tag_bytes().into_iter().map(|t| String::from_utf8(t).unwrap()).collect();
    assert_eq!(tags, ["COLOR_WHITE", "COLOR_BLUE", "COLOR_BLACK", "COLOR_RED", "COLOR_GREEN", "COLOR_COLORLESS"]);
    let types: Vec<String> = card_type_name_bytes().into_iter().map(|t| String::from_utf8(t).unwrap()).collect();
    assert_eq!(types, ["LAND  ", "ISCREA", "INSTNT", "SORCRY", "ARTFCT", "ENCHMT"]);
}

#[test]
fn bytes_equal_compares() {
    assert!(bytes_equal(&b"ab".to_vec(), &b"ab".to_vec()));
    assert!(!bytes_equal(&b"ab".to_vec(), &b"abc".to_vec()));
    assert!(!bytes_equal(&b"ab".to_vec(), &b"ac".to_vec()));
}

#[test]
fn deck_features_count_types_and_costs() {
    let cards = vec![
        card("4", Some("LAND  "), None, &[]),
        card("2", Some("ISCREA"), Some("3"), &["\"COLOR_BLUE\""]),
        card("+1", Some("OTHER"), Some("0"), &["COLOR_RED"]),
    ];
    let f = deck_features(&cards).unwrap();
    assert_eq!(f.type_counts, vec![4, 2, 0, 0, 0, 0]);
    assert_eq!(f.costs, vec![3, 3, 0]);
    assert_eq!(f.colors, vec![false, false, false, true, false, false]);
}

#[test]
fn quoted_color_texts_never_match() {
    let cards = vec![card("1", None, None, &["\"COLOR_WHITE\"", "\"COLOR_GREEN\""])];
    assert_eq!(deck_features(&cards).unwrap().colors, vec![false; 6]);
}

#[test]
fn deck_features_errors() {
    let mut missing = card("1", None, None, &[]);
    missing.has_attributes = false;
    assert_eq!(deck_features(&vec![missing]).err(), Some(FeatureError::MissingAttributes));
    let mut no_qty = card("1", None, None, &[]);
    no_qty.quantity = None;
    assert_eq!(deck_features(&vec![no_qty]).err(), Some(FeatureError::QuantityNotText));
    assert_eq!(deck_features(&vec![card("256", None, None, &[])]).err(), Some(FeatureError::BadQuantity));
    assert_eq!(deck_features(&vec![card("x", None, None, &[])]).err(), Some(FeatureError::BadQuantity));
    let overflow = vec![card("200", Some("INSTNT"), None, &[]), card("56", Some("INSTNT"), None, &[])];
    assert_eq!(deck_features(&overflow).err(), Some(FeatureError::TypeCountOverflow));
    let fits = vec![card("200", Some("INSTNT"), None, &[]), card("55", Some("INSTNT"), None, &[])];
    assert_eq!(deck_features(&fits).unwrap().type_counts[2], 255);
    assert_eq!(deck_features(&vec![card("1", None, Some("-2"), &[])]).err(), Some(FeatureError::BadCost));
}

#[test]
fn first_bad_card_decides_the_error() {
    let cards = vec![card("1", None, Some("bad"), &[]), card("bad", None, None, &[])];
    assert_eq!(deck_features(&cards).err(), Some(FeatureError::BadCost));
}

#[test]
fn empty_deck_has_no_features() {
    let f = deck_features(&vec![]).unwrap();
    assert_eq!(f.colors, vec![false; 6]);
    assert_eq!(f.type_counts, vec![0; 6]);
    assert!(f.costs.is_empty());
}

#[test]
fn feature_rows_transpose_players() {
    let players = vec![
        PlayerFeatures { colors: vec![true, false, false, false, false, false], type_counts: vec![1, 2, 3, 4, 5, 6], costs: vec![] },
        PlayerFeatures { colors: vec![false, false, false, false, false, true], type_counts: vec![6, 5, 4, 3, 2, 1], costs: vec![2] },
    ];
    let (colors, types) = feature_rows(&players);
    assert_eq!(colors[0], vec![true, false]);
    assert_eq!(colors[5], vec![false, true]);
    assert_eq!(types[1], vec![2, 5]);
    assert_eq!(colors.len(), 6);
    assert_eq!(types.len(), 6);
}

#[test]
fn unique_values_sorted_distinct() {
    assert_eq!(unique_values(&vec![5, 1, 5, 3, 1]), vec![1, 3, 5]);
    assert_eq!(unique_values(&vec![]), Vec::<usize>::new());
}

#[test]
fn threshold_features_split_at_midpoints() {
    let rows = threshold_features(&vec![4, 0, 2, 4]);
    assert_eq!(rows, vec![vec![false, true, false, false], vec![false, true, true, false]]);
    assert!(threshold_features(&vec![7, 7]).is_empty());
    assert!(threshold_features(&vec![]).is_empty());
}

#[test]
fn threshold_matches_float_midpoints() {
    let values: Vec<u8> = vec![0, 1, 3, 254, 255, 128, 3];
    let rows = threshold_features(&values);
    let mut u = values.clone();
    u.sort();
    u.dedup();
    for k in 1..u.len() {
        let mid = (u[k - 1] as f32 + u[k] as f32) / 2.0;
        let want: Vec<bool> = values.iter().map(|v| (*v as f32) < mid).collect();
        assert_eq!(rows[k - 1], want);
    }
}

#[test]
fn card_type_features_concatenate() {
    let rows = card_type_features(&vec![vec![1, 2], vec![3, 3], vec![0, 9]]);
    assert_eq!(rows, vec![vec![true, false], vec![true, false]]);
}

#[test]
fn labels_mark_top_ranks() {
    assert_eq!(top_rank_labels(&vec![1, 8, 7, 20, 3], 4), vec![true, false, true, false]);
    assert_eq!(take_labels(&vec![true, false, true], 2), vec![true, false]);
}

#[test]
fn reorder_rows_swaps_in_turn() {
    let data = vec![vec![true, false, false], vec![false, true, false]];
    let out = reorder_rows(&data, &vec![2, 0]);
    // swap(0,2) then swap(1,0)
    assert_eq!(out[0], vec![false, false, true]);
    assert_eq!(out[1], vec![true, false, false]);
}

#[test]
fn reorder_rows_keep_entries() {
    let data = vec![vec![true, false, true, true, false]];
    let out = reorder_rows(&data, &vec![4, 4, 0, 1]);
    assert_eq!(out[0].iter().filter(|b| **b).count(), 3);
    assert_eq!(out[0].len(), 5);
}

#[test]
fn bootstrap_picks_columns() {
    let data = vec![vec![true, false, true], vec![false, false, true]];
    let out = bootstrap(&data, &vec![2, 2, 1]);
    assert_eq!(out, vec![vec![true, true, false], vec![true, true, false]]);
}

#[test]
fn random_helpers_stay_in_range() {
    assert_eq!(index_range(4), vec![0, 1, 2, 3]);
    let mut order = shuffled_range(10);
    order.sort();
    assert_eq!(order, (0..10).collect::<Vec<usize>>());
    let picks = random_picks(50, 3);
    assert_eq!(picks.len(), 50);
    assert!(picks.iter().all(|p| *p < 3));
    assert!(random_picks(0, 0).is_empty());
}

#[test]
fn shuffled_range_reorders() {
    let identity: Vec<usize> = (0..12).collect();
    let moved = (0..20).any(|_| shuffled_range(12) != identity);
    assert!(moved);
}
