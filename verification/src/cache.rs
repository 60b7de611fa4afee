//! The player cache: one record per player, each a player's JSON text, a
//! rank separator, the rank in decimal, and a player separator.

use vstd::prelude::*;
use crate::search::{copy_range, split_bytes, split_spec, views, occurs_at, lemma_occurs_in_prefix, lemma_occurs_byte,
    lemma_split_prefix, lemma_split_free};
use crate::decimal::{is_digit, lemma_decimal_digits, lemma_decimal_round_trip, format_decimal, decimal_spec, parse_unsigned, parse_unsigned_spec};
use crate::json::{json_valid, json_parses};
use crate::ascii::{ascii_bytes, ascii_literal};

verus! {

/// The text that ends every record.
pub open spec fn player_sep() -> Seq<u8> {
    ascii_bytes("=-=-=PLAYER SEPARATOR=-=-="@)
}

/// The text between a record's JSON and its rank.
pub open spec fn rank_sep() -> Seq<u8> {
    ascii_bytes("=-=-=RANK SEPARATOR=-=-="@)
}

/// Returns the bytes of the player separator.
pub fn player_sep_bytes() -> (v: Vec<u8>)
    ensures
        v@ == player_sep(),
{
    proof {
        reveal_strlit("=-=-=PLAYER SEPARATOR=-=-=");
    }
    ascii_literal("=-=-=PLAYER SEPARATOR=-=-=")
}

/// Returns the bytes of the rank separator.
pub fn rank_sep_bytes() -> (v: Vec<u8>)
    ensures
        v@ == rank_sep(),
{
    proof {
        reveal_strlit("=-=-=RANK SEPARATOR=-=-=");
    }
    ascii_literal("=-=-=RANK SEPARATOR=-=-=")
}

/// Both separators are non-empty and hold no decimal digit.
pub proof fn lemma_separators()
    ensures
        player_sep().len() == 26,
        rank_sep().len() == 24,
        forall|i: int| 0 <= i < player_sep().len() ==> !is_digit(#[trigger] player_sep()[i]),
        forall|i: int| 0 <= i < rank_sep().len() ==> !is_digit(#[trigger] rank_sep()[i]),
{
    reveal_strlit("=-=-=PLAYER SEPARATOR=-=-=");
    reveal_strlit("=-=-=RANK SEPARATOR=-=-=");
}

/// The record written for a player.
pub open spec fn entry_spec(player_json: Seq<u8>, rank: u64) -> Seq<u8> {
    player_json + rank_sep() + decimal_spec(rank as nat) + player_sep()
}

/// Writes the cache record of a player.
pub fn encode_cache_entry(player_json: &Vec<u8>, rank: u64) -> (r: Vec<u8>)
    ensures
        r@ == entry_spec(player_json@, rank),
{
    let mut r: Vec<u8> = Vec::new();
    let mut i: usize = 0;
    while i < player_json.len()
        invariant
            i <= player_json@.len(),
            r@ == player_json@.take(i as int),
        decreases player_json@.len() - i,
    {
        r.push(player_json[i]);
        i = i + 1;
        assert(r@ =~= player_json@.take(i as int));
    }
    assert(player_json@.take(i as int) =~= player_json@);
    let mut rs = rank_sep_bytes();
    r.append(&mut rs);
    let mut digits = format_decimal(rank);
    r.append(&mut digits);
    let mut ps = player_sep_bytes();
    r.append(&mut ps);
    assert(r@ =~= entry_spec(player_json@, rank));
    r
}

/// Why a cache record has no usable rank.
#[derive(Debug, Clone, Copy, PartialEq, Eq, Structural)]
pub enum CacheError {
    /// The record has no rank separator.
    MissingRank,
    /// The text after the rank separator is not a `u64`.
    BadRank,
}

/// One record read back from the cache.
pub struct CacheRecord {
    /// The player's JSON text.
    pub player_json: Vec<u8>,
    /// The player's rank, or why it could not be read.
    pub rank: Result<u64, CacheError>,
}

/// The abstract content of a record.
pub open spec fn record_view(r: CacheRecord) -> (Seq<u8>, Result<u64, CacheError>) {
    (r.player_json@, r.rank)
}

/// What a record's text holds: the part before the first rank separator,
/// and the part between the first and second read as a `u64`.
pub open spec fn record_spec(piece: Seq<u8>) -> (Seq<u8>, Result<u64, CacheError>) {
    let parts = split_spec(piece, rank_sep());
    if parts.len() < 2 {
        (parts[0], Err(CacheError::MissingRank))
    } else {
        match parse_unsigned_spec(parts[1], u64::MAX as nat) {
            Some(v) => (parts[0], Ok(v as u64)),
            None => (parts[0], Err(CacheError::BadRank)),
        }
    }
}

/// The records of a cache file: the pieces between player separators,
/// all but the last, each read as a record.
pub open spec fn cache_records_spec(content: Seq<u8>) -> Seq<(Seq<u8>, Result<u64, CacheError>)> {
    split_spec(content, player_sep()).drop_last().map_values(
        |p: Seq<u8>| record_spec(p),
    )
}

/// Reads the records of a cache file.
pub fn parse_cache(content: &Vec<u8>) -> (records: Vec<CacheRecord>)
    ensures
        records@.map_values(|r: CacheRecord| record_view(r)) == cache_records_spec(content@),
{
    proof {
        lemma_separators();
    }
    let ps = player_sep_bytes();
    let rs = rank_sep_bytes();
    let mut pieces = split_bytes(content, &ps);
    let ghost all = views(pieces@);
    let _ = pieces.pop();
    proof {
        crate::search::lemma_split_join(content@, player_sep());
    }
    assert(views(pieces@) =~= all.drop_last());
    let mut records: Vec<CacheRecord> = Vec::new();
    let mut i: usize = 0;
    while i < pieces.len()
        invariant
            i <= pieces@.len(),
            rs@ == rank_sep(),
            rank_sep().len() > 0,
            views(pieces@) == split_spec(content@, player_sep()).drop_last(),
            records@.map_values(|r: CacheRecord| record_view(r)) == views(pieces@).take(
                i as int,
            ).map_values(|p: Seq<u8>| record_spec(p)),
        decreases pieces@.len() - i,
    {
        let parts = split_bytes(&pieces[i], &rs);
        proof {
            crate::search::lemma_split_join(pieces@[i as int]@, rank_sep());
        }
        let ghost pv = pieces@[i as int]@;
        assert(views(pieces@)[i as int] == pv);
        let player_json = crate::search::copy_range(&parts[0], 0, parts[0].len());
        assert(player_json@ =~= views(parts@)[0]);
        let rank: Result<u64, CacheError> = if parts.len() < 2 {
            Err(CacheError::MissingRank)
        } else {
            assert(views(parts@)[1] == parts@[1]@);
            match parse_unsigned(&parts[1], u64::MAX) {
                Some(v) => Ok(v),
                None => Err(CacheError::BadRank),
            }
        };
        let rec = CacheRecord { player_json, rank };
        assert(record_view(rec) == record_spec(pv));
        let ghost old_records = records@;
        records.push(rec);
        assert(records@ == old_records.push(rec));
        assert(views(pieces@).take(i + 1) =~= views(pieces@).take(i as int).push(pv));
        assert(records@.map_values(|r: CacheRecord| record_view(r)) =~= old_records.map_values(
            |r: CacheRecord| record_view(r),
        ).push(record_view(rec)));
        i = i + 1;
        assert(records@.map_values(|r: CacheRecord| record_view(r)) =~= views(pieces@).take(
            i as int,
        ).map_values(|p: Seq<u8>| record_spec(p)));
    }
    assert(views(pieces@).take(i as int) =~= views(pieces@));
    records
}

/// The records of several players, one after the other.
pub open spec fn entries_spec(records: Seq<(Seq<u8>, u64)>) -> Seq<u8>
    decreases records.len(),
{
    if records.len() == 0 {
        Seq::empty()
    } else {
        entry_spec(records[0].0, records[0].1) + entries_spec(records.drop_first())
    }
}

/// A player's JSON text can be stored and read back unchanged: no player
/// separator occurs in it or runs into the rank separator after it, and
/// the first rank separator after its start is the one written after it.
pub open spec fn storable(player_json: Seq<u8>) -> bool {
    &&& forall|j: int| !occurs_at(player_json + rank_sep(), player_sep(), j)
    &&& forall|j: int| 0 <= j < player_json.len() ==> !occurs_at(player_json + rank_sep(), rank_sep(), j)
}

proof fn lemma_record_round_trip(player_json: Seq<u8>, rank: u64)
    requires
        storable(player_json),
    ensures
        record_spec(player_json + rank_sep() + decimal_spec(rank as nat)) == (player_json, Ok::<u64, CacheError>(rank)),
{
    lemma_separators();
    lemma_decimal_digits(rank as nat);
    let digits = decimal_spec(rank as nat);
    let j0 = player_json + rank_sep();
    assert(player_json + rank_sep() + digits =~= j0 + digits);
    assert forall|j: int| 0 <= j < player_json.len() implies !occurs_at(player_json + rank_sep() + digits, rank_sep(), j) by {
        if occurs_at(j0 + digits, rank_sep(), j) {
            lemma_occurs_in_prefix(j0, digits, rank_sep(), j);
        }
    }
    lemma_split_prefix(player_json, rank_sep(), digits);
    assert forall|j: int| !occurs_at(digits, rank_sep(), j) by {
        if occurs_at(digits, rank_sep(), j) {
            lemma_occurs_byte(digits, rank_sep(), j, j);
            assert(is_digit(digits[j]));
        }
    }
    lemma_split_free(digits, rank_sep());
    let parts = split_spec(player_json + rank_sep() + digits, rank_sep());
    assert(parts =~= seq![player_json, digits]);
    lemma_decimal_round_trip(rank as nat, u64::MAX as nat);
}

proof fn lemma_entries_split(records: Seq<(Seq<u8>, u64)>)
    requires
        forall|k: int| 0 <= k < records.len() ==> storable(#[trigger] records[k].0),
    ensures
        split_spec(entries_spec(records), player_sep()) == records.map_values(
            |r: (Seq<u8>, u64)| r.0 + rank_sep() + decimal_spec(r.1 as nat),
        ).push(Seq::empty()),
    decreases records.len(),
{
    lemma_separators();
    if records.len() == 0 {
        lemma_split_free(Seq::empty(), player_sep());
        assert(records.map_values(
            |r: (Seq<u8>, u64)| r.0 + rank_sep() + decimal_spec(r.1 as nat),
        ) =~= Seq::empty());
    } else {
        let rest = records.drop_first();
        assert forall|k: int| 0 <= k < rest.len() implies storable(#[trigger] rest[k].0) by {
            assert(rest[k] == records[k + 1]);
        }
        lemma_entries_split(rest);
        let json = records[0].0;
        let digits = decimal_spec(records[0].1 as nat);
        lemma_decimal_digits(records[0].1 as nat);
        let jr = json + rank_sep();
        let piece = jr + digits;
        let tail = entries_spec(rest);
        let whole = piece + player_sep() + tail;
        assert(entries_spec(records) =~= whole);
        assert forall|j: int| 0 <= j < piece.len() implies !occurs_at(whole, player_sep(), j) by {
            if occurs_at(whole, player_sep(), j) {
                if j + player_sep().len() <= jr.len() {
                    assert(whole =~= jr + (digits + player_sep() + tail));
                    lemma_occurs_in_prefix(jr, digits + player_sep() + tail, player_sep(), j);
                } else {
                    let q = if j < jr.len() { jr.len() as int } else { j };
                    lemma_occurs_byte(whole, player_sep(), j, q);
                    assert(whole[q] == digits[q - jr.len()]);
                    assert(is_digit(digits[q - jr.len()]));
                }
            }
        }
        lemma_split_prefix(piece, player_sep(), tail);
        assert(records.map_values(
            |r: (Seq<u8>, u64)| r.0 + rank_sep() + decimal_spec(r.1 as nat),
        ) =~= seq![piece] + rest.map_values(
            |r: (Seq<u8>, u64)| r.0 + rank_sep() + decimal_spec(r.1 as nat),
        ));
    }
}

/// Reading back the records written for players whose JSON is storable
/// gives each player's JSON and rank, in order.
pub proof fn lemma_cache_round_trip(records: Seq<(Seq<u8>, u64)>)
    requires
        forall|k: int| 0 <= k < records.len() ==> storable(#[trigger] records[k].0),
    ensures
        cache_records_spec(entries_spec(records)) == records.map_values(
            |r: (Seq<u8>, u64)| (r.0, Ok::<u64, CacheError>(r.1)),
        ),
{
    lemma_entries_split(records);
    let pieces = records.map_values(
        |r: (Seq<u8>, u64)| r.0 + rank_sep() + decimal_spec(r.1 as nat),
    );
    assert(pieces.push(Seq::empty()).drop_last() =~= pieces);
    assert forall|k: int| 0 <= k < records.len() implies #[trigger] record_spec(pieces[k]) == (
    records[k].0, Ok::<u64, CacheError>(records[k].1)) by {
        lemma_record_round_trip(records[k].0, records[k].1);
    }
    assert(cache_records_spec(entries_spec(records)) =~= records.map_values(
        |r: (Seq<u8>, u64)| (r.0, Ok::<u64, CacheError>(r.1)),
    ));
}

/// Why the cached players could not be read.
#[derive(Debug, Clone, Copy, PartialEq, Eq, Structural)]
pub enum CacheReadError {
    /// A record's player text is not JSON.
    BadPlayerJson,
    /// A record has no rank separator.
    MissingRank,
    /// A record's rank is not a `u64`.
    BadRank,
}

/// The players' JSON texts and ranks of the cache records, in order; per
/// record the JSON is checked before the rank, and the first record that
/// cannot be read decides the error.
pub open spec fn cached_players_spec(records: Seq<(Seq<u8>, Result<u64, CacheError>)>) -> Result<
    (Seq<Seq<u8>>, Seq<u64>),
    CacheReadError,
>
    decreases records.len(),
{
    if records.len() == 0 {
        Ok((Seq::empty(), Seq::empty()))
    } else {
        match cached_players_spec(records.drop_last()) {
            Err(e) => Err(e),
            Ok((players, ranks)) => {
                let (json, rank) = records.last();
                if !json_valid(json) {
                    Err(CacheReadError::BadPlayerJson)
                } else {
                    match rank {
                        Ok(v) => Ok((players.push(json), ranks.push(v))),
                        Err(CacheError::MissingRank) => Err(CacheReadError::MissingRank),
                        Err(CacheError::BadRank) => Err(CacheReadError::BadRank),
                    }
                }
            },
        }
    }
}

/// The cached players: their JSON texts and their ranks.
pub struct CachedPlayers {
    pub players: Vec<Vec<u8>>,
    pub ranks: Vec<u64>,
}

proof fn lemma_cached_error_stays(
    records: Seq<(Seq<u8>, Result<u64, CacheError>)>,
    k: int,
    e: CacheReadError,
)
    requires
        0 <= k <= records.len(),
        cached_players_spec(records.take(k)) == Err::<(Seq<Seq<u8>>, Seq<u64>), CacheReadError>(e),
    ensures
        cached_players_spec(records) == Err::<(Seq<Seq<u8>>, Seq<u64>), CacheReadError>(e),
    decreases records.len() - k,
{
    if k == records.len() {
        assert(records.take(k) =~= records);
    } else {
        assert(records.take(k + 1).drop_last() =~= records.take(k));
        lemma_cached_error_stays(records, k + 1, e);
    }
}

/// Reads the players and ranks held in a cache file.
pub fn read_cached_players(content: &Vec<u8>) -> (r: Result<CachedPlayers, CacheReadError>)
    ensures
        match r {
            Ok(c) => cached_players_spec(cache_records_spec(content@)) == Ok::<
                (Seq<Seq<u8>>, Seq<u64>),
                CacheReadError,
            >((views(c.players@), c.ranks@)),
            Err(e) => cached_players_spec(cache_records_spec(content@)) == Err::<
                (Seq<Seq<u8>>, Seq<u64>),
                CacheReadError,
            >(e),
        },
{
    let records = parse_cache(content);
    let ghost rv = records@.map_values(|r: CacheRecord| record_view(r));
    let mut players: Vec<Vec<u8>> = Vec::new();
    let mut ranks: Vec<u64> = Vec::new();
    let mut i: usize = 0;
    assert(rv.take(0) =~= Seq::<(Seq<u8>, Result<u64, CacheError>)>::empty());
    assert(views(players@) =~= Seq::<Seq<u8>>::empty());
    while i < records.len()
        invariant
            i <= records@.len(),
            rv == records@.map_values(|r: CacheRecord| record_view(r)),
            rv == cache_records_spec(content@),
            rv.len() == records@.len(),
            cached_players_spec(rv.take(i as int)) == Ok::<(Seq<Seq<u8>>, Seq<u64>), CacheReadError>(
                (views(players@), ranks@),
            ),
        decreases records@.len() - i,
    {
        let record = &records[i];
        proof {
            assert(rv.take(i + 1).drop_last() =~= rv.take(i as int));
            assert(rv.take(i + 1).last() == record_view(*record));
        }
        if !json_parses(&record.player_json) {
            proof {
                lemma_cached_error_stays(rv, i + 1, CacheReadError::BadPlayerJson);
            }
            return Err(CacheReadError::BadPlayerJson);
        }
        match record.rank {
            Ok(v) => {
                let ghost before = views(players@);
                players.push(copy_range(&record.player_json, 0, record.player_json.len()));
                ranks.push(v);
                proof {
                    assert(record.player_json@.subrange(0, record.player_json@.len() as int) =~= record.player_json@);
                    assert(views(players@) =~= before.push(record.player_json@));
                }
            },
            Err(CacheError::MissingRank) => {
                proof {
                    lemma_cached_error_stays(rv, i + 1, CacheReadError::MissingRank);
                }
                return Err(CacheReadError::MissingRank);
            },
            Err(CacheError::BadRank) => {
                proof {
                    lemma_cached_error_stays(rv, i + 1, CacheReadError::BadRank);
                }
                return Err(CacheReadError::BadRank);
            },
        }
        i = i + 1;
    }
    assert(rv.take(i as int) =~= rv);
    Ok(CachedPlayers { players, ranks })
}

} // verus!
