//! Reading a player's deck out of the player's JSON text and computing
//! the deck's features.

use vstd::prelude::*;
use crate::deck::{
    add_card, card_facts, deck_features_spec, features_view, CardData, CardFacts, FeatureError,
    FeatureState, PlayerFeatures,
};
use crate::json::{json_field, json_field_text, json_item_texts, json_items, json_string, json_string_bytes};
use crate::search::views;

verus! {

/// The string bytes of field `key` of `text`, where that field is a string.
pub open spec fn string_field(text: Seq<u8>, key: Seq<char>) -> Option<Seq<u8>> {
    match json_field_text(text, key) {
        Some(f) => json_string_bytes(f),
        None => None,
    }
}

/// The item texts of field `key` of `text`, where that field is a list.
pub open spec fn list_field(text: Seq<u8>, key: Seq<char>) -> Option<Seq<Seq<u8>>> {
    match json_field_text(text, key) {
        Some(f) => json_item_texts(f),
        None => None,
    }
}

/// What a card's JSON says: its `card_attributes`; the texts of the
/// attributes' `colors` list; the card's `qty` string; the attributes'
/// `card_type` and `cost` strings.
pub open spec fn card_facts_from_json(card: Seq<u8>) -> CardFacts {
    match json_field_text(card, "card_attributes"@) {
        None => (false, false, Seq::empty(), None, None, None),
        Some(attrs) => {
            let colors = list_field(attrs, "colors"@);
            (
                true,
                colors is Some,
                match colors {
                    Some(c) => c,
                    None => Seq::empty(),
                },
                string_field(card, "qty"@),
                string_field(attrs, "card_type"@),
                string_field(attrs, "cost"@),
            )
        },
    }
}

/// Reads the string field `key` of `text`.
fn string_field_of(text: &Vec<u8>, key: &str) -> (r: Option<Vec<u8>>)
    ensures
        match r {
            Some(v) => string_field(text@, key@) == Some(v@),
            None => string_field(text@, key@) is None,
        },
{
    match json_field(text, key) {
        Some(f) => json_string(&f),
        None => None,
    }
}

/// Reads the list field `key` of `text`.
fn list_field_of(text: &Vec<u8>, key: &str) -> (r: Option<Vec<Vec<u8>>>)
    ensures
        match r {
            Some(v) => list_field(text@, key@) == Some(views(v@)),
            None => list_field(text@, key@) is None,
        },
{
    match json_field(text, key) {
        Some(f) => json_items(&f),
        None => None,
    }
}

/// Reads what a card's JSON says of the card.
pub fn card_data_from_json(card: &Vec<u8>) -> (r: CardData)
    ensures
        card_facts(r) == card_facts_from_json(card@),
{
    let card_attributes = match json_field(card, "card_attributes") {
        Some(a) => a,
        None => {
            let r = CardData {
                has_attributes: false,
                has_colors: false,
                color_texts: Vec::new(),
                quantity: None,
                card_type: None,
                cost: None,
            };
            assert(views(r.color_texts@) =~= Seq::<Seq<u8>>::empty());
            return r;
        },
    };
    let colors = list_field_of(&card_attributes, "colors");
    let has_colors = colors.is_some();
    let color_texts = match colors {
        Some(c) => c,
        None => Vec::new(),
    };
    assert(views(color_texts@) == match list_field(card_attributes@, "colors"@) {
        Some(c) => c,
        None => Seq::<Seq<u8>>::empty(),
    });
    let quantity = string_field_of(card, "qty");
    let card_type = string_field_of(&card_attributes, "card_type");
    let cost = string_field_of(&card_attributes, "cost");
    CardData { has_attributes: true, has_colors, color_texts, quantity, card_type, cost }
}

/// Why a player's deck features could not be computed.
#[derive(Debug, Clone, Copy, PartialEq, Eq, Structural)]
pub enum PlayerError {
    /// The player has no `main_deck` field.
    NoMainDeck,
    /// The `main_deck` field is not a list.
    DeckNotList,
    /// A card could not be read.
    Card(FeatureError),
}

/// The card texts of a player's `main_deck`.
pub open spec fn player_cards_spec(player: Seq<u8>) -> Result<Seq<Seq<u8>>, PlayerError> {
    match json_field_text(player, "main_deck"@) {
        None => Err(PlayerError::NoMainDeck),
        Some(d) => match json_item_texts(d) {
            None => Err(PlayerError::DeckNotList),
            Some(cards) => Ok(cards),
        },
    }
}

/// What each card text says.
pub open spec fn cards_facts(cards: Seq<Seq<u8>>) -> Seq<CardFacts> {
    cards.map_values(|c: Seq<u8>| card_facts_from_json(c))
}

/// The deck features of a player's JSON.
pub open spec fn player_features_spec(player: Seq<u8>) -> Result<FeatureState, PlayerError> {
    match player_cards_spec(player) {
        Err(e) => Err(e),
        Ok(cards) => match deck_features_spec(cards_facts(cards)) {
            Ok(st) => Ok(st),
            Err(e) => Err(PlayerError::Card(e)),
        },
    }
}

/// The cards read, up to and including the first that cannot be read,
/// that have attributes but no color list.
pub open spec fn color_warnings_spec(cards: Seq<CardFacts>) -> nat
    decreases cards.len(),
{
    if cards.len() == 0 {
        0
    } else {
        let before = color_warnings_spec(cards.drop_last());
        match deck_features_spec(cards.drop_last()) {
            Err(_) => before,
            Ok(_) => before + if cards.last().0 && !cards.last().1 {
                1nat
            } else {
                0nat
            },
        }
    }
}

/// The number of color-less cards reported while reading a player's deck.
pub open spec fn player_warnings_spec(player: Seq<u8>) -> nat {
    match player_cards_spec(player) {
        Err(_) => 0,
        Ok(cards) => color_warnings_spec(cards_facts(cards)),
    }
}

/// A player's deck features, with the number of cards read that have no
/// color list.
pub struct PlayerOutcome {
    pub features: Result<PlayerFeatures, PlayerError>,
    pub missing_color_warnings: usize,
}

proof fn lemma_error_stays(cards: Seq<CardFacts>, k: int, e: FeatureError)
    requires
        0 <= k <= cards.len(),
        deck_features_spec(cards.take(k)) == Err::<FeatureState, FeatureError>(e),
    ensures
        deck_features_spec(cards) == Err::<FeatureState, FeatureError>(e),
        color_warnings_spec(cards) == color_warnings_spec(cards.take(k)),
    decreases cards.len() - k,
{
    if k == cards.len() {
        assert(cards.take(k) =~= cards);
    } else {
        assert(cards.take(k + 1).drop_last() =~= cards.take(k));
        lemma_error_stays(cards, k + 1, e);
    }
}

/// Computes a player's deck features from the player's JSON.
pub fn player_features_from_json(player: &Vec<u8>) -> (r: PlayerOutcome)
    ensures
        match r.features {
            Ok(f) => player_features_spec(player@) == Ok::<FeatureState, PlayerError>(features_view(f)),
            Err(e) => player_features_spec(player@) == Err::<FeatureState, PlayerError>(e),
        },
        r.missing_color_warnings == player_warnings_spec(player@),
{
    let main_deck = match json_field(player, "main_deck") {
        Some(d) => d,
        None => {
            return PlayerOutcome { features: Err(PlayerError::NoMainDeck), missing_color_warnings: 0 };
        },
    };
    let cards = match json_items(&main_deck) {
        Some(c) => c,
        None => {
            return PlayerOutcome { features: Err(PlayerError::DeckNotList), missing_color_warnings: 0 };
        },
    };
    let ghost facts = cards_facts(views(cards@));
    assert(player_cards_spec(player@) == Ok::<Seq<Seq<u8>>, PlayerError>(views(cards@)));
    let mut st = PlayerFeatures {
        colors: vec![false, false, false, false, false, false],
        type_counts: vec![0u8, 0u8, 0u8, 0u8, 0u8, 0u8],
        costs: Vec::new(),
    };
    assert(features_view(st) =~= crate::deck::empty_features());
    let mut warnings: usize = 0;
    let mut i: usize = 0;
    while i < cards.len()
        invariant
            i <= cards@.len(),
            facts == cards_facts(views(cards@)),
            facts.len() == cards@.len(),
            player_cards_spec(player@) == Ok::<Seq<Seq<u8>>, PlayerError>(views(cards@)),
            st.colors@.len() == 6,
            st.type_counts@.len() == 6,
            warnings <= i,
            deck_features_spec(facts.take(i as int)) == Ok::<FeatureState, FeatureError>(features_view(st)),
            warnings == color_warnings_spec(facts.take(i as int)),
        decreases cards@.len() - i,
    {
        let data = card_data_from_json(&cards[i]);
        proof {
            assert(views(cards@)[i as int] == cards@[i as int]@);
            assert(facts[i as int] == card_facts(data));
            assert(facts.take(i + 1).drop_last() =~= facts.take(i as int));
            assert(facts.take(i + 1).last() == facts[i as int]);
        }
        if data.has_attributes && !data.has_colors {
            warnings = warnings + 1;
        }
        match add_card(&mut st, &data) {
            Ok(()) => {},
            Err(e) => {
                proof {
                    lemma_error_stays(facts, i + 1, e);
                }
                return PlayerOutcome { features: Err(PlayerError::Card(e)), missing_color_warnings: warnings };
            },
        }
        i = i + 1;
    }
    assert(facts.take(i as int) =~= facts);
    PlayerOutcome { features: Ok(st), missing_color_warnings: warnings }
}

} // verus!
