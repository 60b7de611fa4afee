use deck_forest::cache::{encode_cache_entry, read_cached_players, CacheReadError};
use deck_forest::deck::FeatureError;
use deck_forest::json::is_json;
use deck_forest::page::{page_cache_entries, read_page, PageDataError, WrongDeckListCount};
use deck_forest::players::{card_data_from_json, player_features_from_json, PlayerError};

fn b(s: &str) -> Vec<u8> {
    s.as_bytes().to_vec()
}

#[test]
fn is_json_accepts_only_json() {
    assert!(is_json(&b("{\"a\": [1, 2]}")));
    assert!(is_json(&b(" 3 ")));
    assert!(!is_json(&b("{\"a\": ")));
    assert!(!is_json(&b("")));
}

#[test]
fn card_data_reads_fields() {
    let card = card_data_from_json(&b(
        "{\"qty\": \"4\", \"card_attributes\": {\"colors\": [\"COLOR_RED\", 3], \"card_type\": \"ISCREA\", \"cost\": \"2\"}}",
    ));
    assert!(card.has_attributes);
    assert!(card.has_colors);
    assert_eq!(card.color_texts, vec![b("\"COLOR_RED\""), b("3")]);
    assert_eq!(card.quantity, Some(b("4")));
    assert_eq!(card.card_type, Some(b("ISCREA")));
    assert_eq!(card.cost, Some(b("2")));
}

#[test]
fn card_data_missing_parts() {
    let no_attributes = card_data_from_json(&b("{\"qty\": \"4\"}"));
    assert!(!no_attributes.has_attributes);
    assert_eq!(no_attributes.quantity, None);
    let sparse = card_data_from_json(&b("{\"qty\": 4, \"card_attributes\": {\"cost\": 1}}"));
    assert!(sparse.has_attributes);
    assert!(!sparse.has_colors);
    assert!(sparse.color_texts.is_empty());
    assert_eq!(sparse.quantity, None);
    assert_eq!(sparse.card_type, None);
    assert_eq!(sparse.cost, None);
}

#[test]
fn player_features_from_deck_json() {
    let player = b(
        "{\"main_deck\": [
            {\"qty\": \"4\", \"card_attributes\": {\"colors\": [\"COLOR_RED\"], \"card_type\": \"LAND  \"}},
            {\"qty\": \"2\", \"card_attributes\": {\"card_type\": \"INSTNT\", \"cost\": \"1\"}}
        ]}",
    );
    let outcome = player_features_from_json(&player);
    assert_eq!(outcome.missing_color_warnings, 1);
    let features = outcome.features.ok().unwrap();
    assert_eq!(features.type_counts, vec![4, 0, 2, 0, 0, 0]);
    assert_eq!(features.costs, vec![1, 1]);
    assert_eq!(features.colors, vec![false; 6]);
}

#[test]
fn player_features_errors() {
    assert_eq!(player_features_from_json(&b("{}")).features.err(), Some(PlayerError::NoMainDeck));
    assert_eq!(player_features_from_json(&b("not json")).features.err(), Some(PlayerError::NoMainDeck));
    assert_eq!(player_features_from_json(&b("{\"main_deck\": 1}")).features.err(), Some(PlayerError::DeckNotList));
    let bad = player_features_from_json(&b(
        "{\"main_deck\": [{\"qty\": \"1\", \"card_attributes\": {}}, {\"qty\": \"x\", \"card_attributes\": {}}, {\"card_attributes\": {}}]}",
    ));
    assert_eq!(bad.features.err(), Some(PlayerError::Card(FeatureError::BadQuantity)));
    assert_eq!(bad.missing_color_warnings, 2);
}

#[test]
fn read_page_reads_ranks_and_lists() {
    let page = read_page(&b("{\"standings\": [{\"rank\": \"2\"}, {\"rank\": \"+7\"}], \"decklists\": [{\"a\": 1}, []]}")).ok().unwrap();
    assert_eq!(page.ranks, vec![2, 7]);
    assert_eq!(page.deck_lists, vec![b("{\"a\":1}"), b("[]")]);
}

#[test]
fn read_page_errors() {
    assert_eq!(read_page(&b("{")).err(), Some(PageDataError::BadJson));
    assert_eq!(read_page(&b("{\"decklists\": []}")).err(), Some(PageDataError::NoStandings));
    assert_eq!(read_page(&b("{\"standings\": [{\"rank\": 2}]}")).err(), Some(PageDataError::RankNotText));
    assert_eq!(read_page(&b("{\"standings\": [{\"rank\": \"-2\"}]}")).err(), Some(PageDataError::BadRank));
    assert_eq!(read_page(&b("{\"standings\": [], \"decklists\": 5}")).err(), Some(PageDataError::NoDeckLists));
}

#[test]
fn page_cache_entries_pair_lists_with_ranks() {
    let lists: Vec<Vec<u8>> = (0..32).map(|i| b(&format!("{{\"p\":{}}}", i))).collect();
    let ranks: Vec<u64> = (100..140).collect();
    let added = page_cache_entries(&lists, &ranks).ok().unwrap();
    assert!(!added.ranks_ran_out);
    assert_eq!(added.players.len(), 31);
    assert_eq!(added.players[0], lists[1]);
    assert_eq!(added.entries[0], encode_cache_entry(&lists[1], 101));
    assert_eq!(added.entries[30], encode_cache_entry(&lists[31], 131));
}

#[test]
fn page_cache_entries_short_ranks_and_wrong_count() {
    let lists: Vec<Vec<u8>> = (0..32).map(|i| b(&format!("{}", i))).collect();
    let added = page_cache_entries(&lists, &vec![5, 6, 7]).ok().unwrap();
    assert!(added.ranks_ran_out);
    assert_eq!(added.players, vec![b("1"), b("2")]);
    assert_eq!(page_cache_entries(&lists[..31].to_vec(), &vec![1; 40]).err(), Some(WrongDeckListCount));
}

#[test]
fn cached_players_round_trip() {
    let mut content = encode_cache_entry(&b("{\"main_deck\":[]}"), 4);
    content.extend(encode_cache_entry(&b("[1]"), 9));
    let cached = read_cached_players(&content).ok().unwrap();
    assert_eq!(cached.players, vec![b("{\"main_deck\":[]}"), b("[1]")]);
    assert_eq!(cached.ranks, vec![4, 9]);
}

#[test]
fn cached_players_errors() {
    let bad_json = encode_cache_entry(&b("{oops"), 4);
    assert_eq!(read_cached_players(&bad_json).err(), Some(CacheReadError::BadPlayerJson));
    let no_rank = b("{}=-=-=PLAYER SEPARATOR=-=-=");
    assert_eq!(read_cached_players(&no_rank).err(), Some(CacheReadError::MissingRank));
    let bad_rank = b("{}=-=-=RANK SEPARATOR=-=-=z=-=-=PLAYER SEPARATOR=-=-=");
    assert_eq!(read_cached_players(&bad_rank).err(), Some(CacheReadError::BadRank));
}
