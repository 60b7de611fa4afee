//! Locating the deck-list JSON inside a fetched event page, and the
//! retry limit for fetching it.

use vstd::prelude::*;
use crate::ascii::{ascii_bytes, ascii_literal};
use crate::json::{json_valid, json_field_text, json_item_texts, json_field, json_items, json_parses};
use crate::players::{string_field};
use crate::decimal::{parse_unsigned, parse_unsigned_spec};
use crate::cache::{encode_cache_entry, entry_spec};
use crate::search::views;
use crate::search::{occurs_at, find_first, copy_range, first_match_from, lemma_first_match_from};

verus! {

/// How many attempts a page fetch may take.
pub const MAX_TRIES: usize = 5;

/// Whether the attempt numbered `try_value` is past the retry limit, in
/// which case a failure there is fatal rather than retried.
pub fn try_exceeds_max_tries(try_value: usize) -> (r: bool)
    ensures
        r == (try_value > MAX_TRIES),
{
    try_value > MAX_TRIES
}

/// The text right before the deck-list JSON.
pub open spec fn start_marker() -> Seq<u8> {
    ascii_bytes("window.MTGO.decklists.data = "@)
}

/// The text that follows the deck-list JSON, after a six-byte gap.
pub open spec fn end_marker() -> Seq<u8> {
    ascii_bytes("window.MTGO.decklists.type = "@)
}

/// The bytes between the end of the JSON and the end marker.
pub const END_GAP: usize = 6;

/// Returns the bytes of the start marker.
pub fn start_marker_bytes() -> (v: Vec<u8>)
    ensures
        v@ == start_marker(),
{
    proof {
        reveal_strlit("window.MTGO.decklists.data = ");
    }
    ascii_literal("window.MTGO.decklists.data = ")
}

/// Returns the bytes of the end marker.
pub fn end_marker_bytes() -> (v: Vec<u8>)
    ensures
        v@ == end_marker(),
{
    proof {
        reveal_strlit("window.MTGO.decklists.type = ");
    }
    ascii_literal("window.MTGO.decklists.type = ")
}

/// Why no deck-list JSON could be cut out of a page.
#[derive(Debug, Clone, Copy, PartialEq, Eq, Structural)]
pub enum PageError {
    /// The start marker does not occur.
    StartMarkerMissing,
    /// The start marker occurs but the end marker does not.
    EndMarkerMissing,
    /// The end marker (less the gap) comes before the end of the start marker.
    MarkersOutOfOrder,
}

/// The deck-list JSON of a page: the bytes from the end of the first start
/// marker up to the gap before the first end marker.
pub open spec fn decklist_json_spec(page: Seq<u8>) -> Result<Seq<u8>, PageError> {
    let a = first_match_from(page, start_marker(), 0);
    let b = first_match_from(page, end_marker(), 0);
    if a < 0 {
        Err(PageError::StartMarkerMissing)
    } else if b < 0 {
        Err(PageError::EndMarkerMissing)
    } else if b < END_GAP || a + start_marker().len() > b - END_GAP {
        Err(PageError::MarkersOutOfOrder)
    } else {
        Ok(page.subrange(a + start_marker().len(), b - END_GAP))
    }
}

/// Cuts the deck-list JSON out of an event page.
pub fn extract_decklist_json(page: &Vec<u8>) -> (r: Result<Vec<u8>, PageError>)
    ensures
        match r {
            Ok(v) => decklist_json_spec(page@) == Ok::<Seq<u8>, PageError>(v@),
            Err(e) => decklist_json_spec(page@) == Err::<Seq<u8>, PageError>(e),
        },
{
    let start = start_marker_bytes();
    let end = end_marker_bytes();
    let first_index = match find_first(page, &start) {
        Some(i) => i,
        None => {
            return Err(PageError::StartMarkerMissing);
        },
    };
    let second_index = match find_first(page, &end) {
        Some(i) => i,
        None => {
            return Err(PageError::EndMarkerMissing);
        },
    };
    proof {
        lemma_first_match_from(page@, start@, 0);
    }
    let n = page.len();
    let l = start.len();
    assert(occurs_at(page@, start@, first_index as int));
    assert(first_index + l <= n);
    let from = first_index + l;
    if second_index < END_GAP || from > second_index - END_GAP {
        return Err(PageError::MarkersOutOfOrder);
    }
    let json = copy_range(page, from, second_index - END_GAP);
    Ok(json)
}

/// Why an event's deck-list JSON could not be read.
#[derive(Debug, Clone, Copy, PartialEq, Eq, Structural)]
pub enum PageDataError {
    /// The text is not JSON.
    BadJson,
    /// There is no `standings` list.
    NoStandings,
    /// A standing's `rank` is not a string.
    RankNotText,
    /// A standing's `rank` is not a `u64`.
    BadRank,
    /// There is no `decklists` list.
    NoDeckLists,
}

/// The rank of one standing.
pub open spec fn standing_rank_spec(standing: Seq<u8>) -> Result<u64, PageDataError> {
    match string_field(standing, "rank"@) {
        None => Err(PageDataError::RankNotText),
        Some(text) => match parse_unsigned_spec(text, u64::MAX as nat) {
            None => Err(PageDataError::BadRank),
            Some(v) => Ok(v as u64),
        },
    }
}

/// The ranks of the standings, in order; the first that cannot be read
/// decides the error.
pub open spec fn standings_ranks_spec(standings: Seq<Seq<u8>>) -> Result<Seq<u64>, PageDataError>
    decreases standings.len(),
{
    if standings.len() == 0 {
        Ok(Seq::empty())
    } else {
        match standings_ranks_spec(standings.drop_last()) {
            Err(e) => Err(e),
            Ok(ranks) => match standing_rank_spec(standings.last()) {
                Err(e) => Err(e),
                Ok(v) => Ok(ranks.push(v)),
            },
        }
    }
}

/// The ranks, with the deck-list texts of an event's JSON.
pub open spec fn with_deck_lists(page: Seq<u8>, ranks: Seq<u64>) -> Result<(Seq<u64>, Seq<Seq<u8>>), PageDataError> {
    match json_field_text(page, "decklists"@) {
        None => Err(PageDataError::NoDeckLists),
        Some(g) => match json_item_texts(g) {
            None => Err(PageDataError::NoDeckLists),
            Some(lists) => Ok((ranks, lists)),
        },
    }
}

/// The ranks and the deck-list texts of an event's JSON.
pub open spec fn page_data_spec(page: Seq<u8>) -> Result<(Seq<u64>, Seq<Seq<u8>>), PageDataError> {
    if !json_valid(page) {
        Err(PageDataError::BadJson)
    } else {
        match json_field_text(page, "standings"@) {
            None => Err(PageDataError::NoStandings),
            Some(f) => match json_item_texts(f) {
                None => Err(PageDataError::NoStandings),
                Some(standings) => match standings_ranks_spec(standings) {
                    Err(e) => Err(e),
                    Ok(ranks) => with_deck_lists(page, ranks),
                },
            },
        }
    }
}

/// What an event's JSON holds: the standings' ranks and the deck lists.
pub struct PageData {
    pub ranks: Vec<u64>,
    pub deck_lists: Vec<Vec<u8>>,
}

/// Reads the ranks and the deck lists out of an event's JSON.
pub fn read_page(page: &Vec<u8>) -> (r: Result<PageData, PageDataError>)
    ensures
        match r {
            Ok(d) => page_data_spec(page@) == Ok::<(Seq<u64>, Seq<Seq<u8>>), PageDataError>(
                (d.ranks@, views(d.deck_lists@)),
            ),
            Err(e) => page_data_spec(page@) == Err::<(Seq<u64>, Seq<Seq<u8>>), PageDataError>(e),
        },
{
    if !json_parses(page) {
        return Err(PageDataError::BadJson);
    }
    let standings = match json_field(page, "standings") {
        None => {
            return Err(PageDataError::NoStandings);
        },
        Some(f) => match json_items(&f) {
            None => {
                return Err(PageDataError::NoStandings);
            },
            Some(items) => items,
        },
    };
    let ghost sv = views(standings@);
    assert(page_data_spec(page@) == match standings_ranks_spec(sv) {
        Err(e) => Err(e),
        Ok(ranks) => with_deck_lists(page@, ranks),
    });
    let mut ranks: Vec<u64> = Vec::new();
    let mut i: usize = 0;
    while i < standings.len()
        invariant
            i <= standings@.len(),
            sv == views(standings@),
            sv.len() == standings@.len(),
            page_data_spec(page@) == match standings_ranks_spec(sv) {
                Err(e) => Err(e),
                Ok(ranks) => with_deck_lists(page@, ranks),
            },
            standings_ranks_spec(sv.take(i as int)) == Ok::<Seq<u64>, PageDataError>(ranks@),
        decreases standings@.len() - i,
    {
        proof {
            assert(sv.take(i + 1).drop_last() =~= sv.take(i as int));
            assert(sv.take(i + 1).last() == standings@[i as int]@);
        }
        let rank_text = match json_field(&standings[i], "rank") {
            Some(f) => crate::json::json_string(&f),
            None => None,
        };
        let rank_text = match rank_text {
            None => {
                proof {
                    lemma_ranks_error_stays(sv, i + 1, PageDataError::RankNotText);
                }
                return Err(PageDataError::RankNotText);
            },
            Some(t) => t,
        };
        match parse_unsigned(&rank_text, u64::MAX) {
            None => {
                proof {
                    lemma_ranks_error_stays(sv, i + 1, PageDataError::BadRank);
                }
                return Err(PageDataError::BadRank);
            },
            Some(v) => {
                ranks.push(v);
            },
        }
        i = i + 1;
    }
    assert(sv.take(i as int) =~= sv);
    let deck_lists = match json_field(page, "decklists") {
        None => {
            return Err(PageDataError::NoDeckLists);
        },
        Some(g) => match json_items(&g) {
            None => {
                return Err(PageDataError::NoDeckLists);
            },
            Some(items) => items,
        },
    };
    Ok(PageData { ranks, deck_lists })
}

proof fn lemma_ranks_error_stays(standings: Seq<Seq<u8>>, k: int, e: PageDataError)
    requires
        0 <= k <= standings.len(),
        standings_ranks_spec(standings.take(k)) == Err::<Seq<u64>, PageDataError>(e),
    ensures
        standings_ranks_spec(standings) == Err::<Seq<u64>, PageDataError>(e),
    decreases standings.len() - k,
{
    if k == standings.len() {
        assert(standings.take(k) =~= standings);
    } else {
        assert(standings.take(k + 1).drop_last() =~= standings.take(k));
        lemma_ranks_error_stays(standings, k + 1, e);
    }
}

/// How many deck lists an event page holds.
pub const DECK_LISTS_PER_PAGE: usize = 32;

/// How many deck lists, from the second on, have a rank at the same
/// position of `ranks_len` collected ranks.
pub open spec fn paired_count(ranks_len: nat) -> nat {
    if ranks_len >= DECK_LISTS_PER_PAGE {
        (DECK_LISTS_PER_PAGE - 1) as nat
    } else if ranks_len >= 1 {
        (ranks_len - 1) as nat
    } else {
        0
    }
}

/// The players an event page adds, with their cache records.
pub struct PageEntries {
    /// The deck lists from the second on that have a rank.
    pub players: Vec<Vec<u8>>,
    /// The cache record of each of those players.
    pub entries: Vec<Vec<u8>>,
    /// Some deck list had no rank at its position.
    pub ranks_ran_out: bool,
}

/// The deck list count is not the one every event page has.
#[derive(Debug, Clone, Copy, PartialEq, Eq, Structural)]
pub struct WrongDeckListCount;

/// Pairs the deck lists of a page, from the second on, with the rank at
/// the same position of all ranks collected so far, and writes their
/// cache records; stops where the ranks run out.
pub fn page_cache_entries(deck_lists: &Vec<Vec<u8>>, ranks: &Vec<u64>) -> (r: Result<
    PageEntries,
    WrongDeckListCount,
>)
    ensures
        r is Err <==> deck_lists@.len() != DECK_LISTS_PER_PAGE,
        match r {
            Ok(p) => {
                &&& p.ranks_ran_out == (ranks@.len() < DECK_LISTS_PER_PAGE)
                &&& p.players@.len() == paired_count(ranks@.len())
                &&& p.entries@.len() == paired_count(ranks@.len())
                &&& forall|k: int|
                    0 <= k < paired_count(ranks@.len()) ==> {
                        &&& #[trigger] p.players@[k]@ == deck_lists@[k + 1]@
                        &&& p.entries@[k]@ == entry_spec(deck_lists@[k + 1]@, ranks@[k + 1])
                    }
            },
            Err(_) => true,
        },
{
    if deck_lists.len() != DECK_LISTS_PER_PAGE {
        return Err(WrongDeckListCount);
    }
    let mut players: Vec<Vec<u8>> = Vec::new();
    let mut entries: Vec<Vec<u8>> = Vec::new();
    let mut player_index: usize = 1;
    while player_index < deck_lists.len() && player_index < ranks.len()
        invariant
            deck_lists@.len() == DECK_LISTS_PER_PAGE,
            1 <= player_index <= DECK_LISTS_PER_PAGE,
            ranks@.len() >= 1 ==> player_index <= ranks@.len(),
            ranks@.len() == 0 ==> player_index == 1,
            players@.len() == player_index - 1,
            entries@.len() == player_index - 1,
            forall|k: int|
                0 <= k < player_index - 1 ==> {
                    &&& #[trigger] players@[k]@ == deck_lists@[k + 1]@
                    &&& entries@[k]@ == entry_spec(deck_lists@[k + 1]@, ranks@[k + 1])
                },
        decreases DECK_LISTS_PER_PAGE - player_index,
    {
        assert(deck_lists@[player_index as int]@.subrange(0, deck_lists@[player_index as int]@.len() as int) =~= deck_lists@[player_index as int]@);
        entries.push(encode_cache_entry(&deck_lists[player_index], ranks[player_index]));
        players.push(copy_range(&deck_lists[player_index], 0, deck_lists[player_index].len()));
        player_index = player_index + 1;
    }
    Ok(PageEntries { players, entries, ranks_ran_out: ranks.len() < DECK_LISTS_PER_PAGE })
}

} // verus!
