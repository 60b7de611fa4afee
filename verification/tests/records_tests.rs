use deck_forest::cache::{encode_cache_entry, parse_cache, player_sep_bytes, rank_sep_bytes, CacheError};
use deck_forest::page::{end_marker_bytes, extract_decklist_json, start_marker_bytes, try_exceeds_max_tries, PageError, MAX_TRIES};

#[test]
fn retry_limit_is_five_tries() {
    assert_eq!(MAX_TRIES, 5);
    assert!(!try_exceeds_max_tries(1));
    assert!(!try_exceeds_max_tries(5));
    assert!(try_exceeds_max_tries(6));
}

#[test]
fn markers_are_the_page_texts() {
    assert_eq!(start_marker_bytes(), b"window.MTGO.decklists.data = ".to_vec());
    assert_eq!(end_marker_bytes(), b"window.MTGO.decklists.type = ".to_vec());
}

#[test]
fn extract_decklist_json_cuts_between_markers() {
    let page = b"<script>window.MTGO.decklists.data = {\"a\":1};\n    window.MTGO.decklists.type = 'x'".to_vec();
    assert_eq!(extract_decklist_json(&page), Ok(b"{\"a\":1}".to_vec()));
}

#[test]
fn extract_decklist_json_errors() {
    assert_eq!(extract_decklist_json(&b"nothing here".to_vec()), Err(PageError::StartMarkerMissing));
    assert_eq!(
        extract_decklist_json(&b"window.MTGO.decklists.data = {}".to_vec()),
        Err(PageError::EndMarkerMissing)
    );
    assert_eq!(
        extract_decklist_json(&b"window.MTGO.decklists.type = window.MTGO.decklists.data = ".to_vec()),
        Err(PageError::MarkersOutOfOrder)
    );
    assert_eq!(
        extract_decklist_json(&b"window.MTGO.decklists.data = ab123window.MTGO.decklists.type = ".to_vec()),
        Err(PageError::MarkersOutOfOrder)
    );
    assert_eq!(
        extract_decklist_json(&b"window.MTGO.decklists.data = 123456window.MTGO.decklists.type = ".to_vec()),
        Ok(Vec::new())
    );
}

#[test]
fn separators_are_the_cache_texts() {
    assert_eq!(player_sep_bytes(), b"=-=-=PLAYER SEPARATOR=-=-=".to_vec());
    assert_eq!(rank_sep_bytes(), b"=-=-=RANK SEPARATOR=-=-=".to_vec());
}

#[test]
fn cache_entry_layout() {
    let entry = encode_cache_entry(&b"{\"p\":1}".to_vec(), 12);
    assert_eq!(entry, b"{\"p\":1}=-=-=RANK SEPARATOR=-=-=12=-=-=PLAYER SEPARATOR=-=-=".to_vec());
}

#[test]
fn cache_round_trip() {
    let players: Vec<(Vec<u8>, u64)> = vec![(b"{\"a\":[1,2]}".to_vec(), 3), (b"{}".to_vec(), 0), (b"[\"=\"]".to_vec(), 31)];
    let mut content: Vec<u8> = Vec::new();
    for (json, rank) in &players {
        content.extend(encode_cache_entry(json, *rank));
    }
    let records = parse_cache(&content);
    assert_eq!(records.len(), players.len());
    for (record, (json, rank)) in records.iter().zip(players.iter()) {
        assert_eq!(&record.player_json, json);
        assert_eq!(record.rank, Ok(*rank));
    }
}

#[test]
fn empty_cache_has_no_records() {
    assert_eq!(parse_cache(&Vec::new()).len(), 0);
}

#[test]
fn cache_record_errors() {
    let content = b"{}=-=-=PLAYER SEPARATOR=-=-={}=-=-=RANK SEPARATOR=-=-=x1=-=-=PLAYER SEPARATOR=-=-=".to_vec();
    let records = parse_cache(&content);
    assert_eq!(records.len(), 2);
    assert_eq!(records[0].player_json, b"{}".to_vec());
    assert_eq!(records[0].rank, Err(CacheError::MissingRank));
    assert_eq!(records[1].rank, Err(CacheError::BadRank));
}

#[test]
fn cache_ignores_fields_after_the_rank() {
    let content = b"j=-=-=RANK SEPARATOR=-=-=4=-=-=RANK SEPARATOR=-=-=zz=-=-=PLAYER SEPARATOR=-=-=tail".to_vec();
    let records = parse_cache(&content);
    assert_eq!(records.len(), 1);
    assert_eq!(records[0].player_json, b"j".to_vec());
    assert_eq!(records[0].rank, Ok(4));
}
