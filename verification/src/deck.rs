//! Per-player deck features: which colors the deck shows, how many cards
//! of each card type it holds, and the mana cost of every card copy.

use vstd::prelude::*;
use crate::ascii::{ascii_bytes, ascii_literal};
use crate::decimal::{parse_unsigned, parse_unsigned_spec};
use crate::search::views;

verus! {

/// The color tags that a card's colors are compared with.
pub open spec fn color_tags() -> Seq<Seq<u8>> {
    seq![
        ascii_bytes("COLOR_WHITE"@),
        ascii_bytes("COLOR_BLUE"@),
        ascii_bytes("COLOR_BLACK"@),
        ascii_bytes("COLOR_RED"@),
        ascii_bytes("COLOR_GREEN"@),
        ascii_bytes("COLOR_COLORLESS"@),
    ]
}

/// The card types that are counted, in feature order.
pub open spec fn card_type_names() -> Seq<Seq<u8>> {
    seq![
        ascii_bytes("LAND  "@),
        ascii_bytes("ISCREA"@),
        ascii_bytes("INSTNT"@),
        ascii_bytes("SORCRY"@),
        ascii_bytes("ARTFCT"@),
        ascii_bytes("ENCHMT"@),
    ]
}

/// Returns the color tags.
pub fn color_tag_bytes() -> (r: Vec<Vec<u8>>)
    ensures
        views(r@) == color_tags(),
        r@.len() == 6,
{
    proof {
        reveal_strlit("COLOR_WHITE");
        reveal_strlit("COLOR_BLUE");
        reveal_strlit("COLOR_BLACK");
        reveal_strlit("COLOR_RED");
        reveal_strlit("COLOR_GREEN");
        reveal_strlit("COLOR_COLORLESS");
    }
    let mut r: Vec<Vec<u8>> = Vec::new();
    r.push(ascii_literal("COLOR_WHITE"));
    r.push(ascii_literal("COLOR_BLUE"));
    r.push(ascii_literal("COLOR_BLACK"));
    r.push(ascii_literal("COLOR_RED"));
    r.push(ascii_literal("COLOR_GREEN"));
    r.push(ascii_literal("COLOR_COLORLESS"));
    assert(views(r@) =~= color_tags());
    r
}

/// Returns the counted card type names.
pub fn card_type_name_bytes() -> (r: Vec<Vec<u8>>)
    ensures
        views(r@) == card_type_names(),
        r@.len() == 6,
{
    proof {
        reveal_strlit("LAND  ");
        reveal_strlit("ISCREA");
        reveal_strlit("INSTNT");
        reveal_strlit("SORCRY");
        reveal_strlit("ARTFCT");
        reveal_strlit("ENCHMT");
    }
    let mut r: Vec<Vec<u8>> = Vec::new();
    r.push(ascii_literal("LAND  "));
    r.push(ascii_literal("ISCREA"));
    r.push(ascii_literal("INSTNT"));
    r.push(ascii_literal("SORCRY"));
    r.push(ascii_literal("ARTFCT"));
    r.push(ascii_literal("ENCHMT"));
    assert(views(r@) =~= card_type_names());
    r
}

/// Whether two byte strings are equal.
pub fn bytes_equal(a: &Vec<u8>, b: &Vec<u8>) -> (r: bool)
    ensures
        r == (a@ == b@),
{
    if a.len() != b.len() {
        return false;
    }
    let mut i: usize = 0;
    while i < a.len()
        invariant
            i <= a@.len() == b@.len(),
            forall|j: int| 0 <= j < i ==> a@[j] == b@[j],
        decreases a@.len() - i,
    {
        if a[i] != b[i] {
            return false;
        }
        i = i + 1;
    }
    assert(a@ =~= b@);
    true
}

/// What a deck list says of one card, as read from its JSON.
pub struct CardData {
    /// The card has a `card_attributes` field.
    pub has_attributes: bool,
    /// The card's attributes hold a list of colors.
    pub has_colors: bool,
    /// The JSON text of each of the card's colors (none where the card has
    /// no color list).
    pub color_texts: Vec<Vec<u8>>,
    /// The card's `qty` text, where it is a string.
    pub quantity: Option<Vec<u8>>,
    /// The card's type text, where it is a string.
    pub card_type: Option<Vec<u8>>,
    /// The card's mana cost text, where it is a string.
    pub cost: Option<Vec<u8>>,
}

/// Abstract card data: has attributes, has a color list, color texts,
/// quantity, card type and cost texts.
pub type CardFacts = (bool, bool, Seq<Seq<u8>>, Option<Seq<u8>>, Option<Seq<u8>>, Option<Seq<u8>>);

/// The bytes of an optional byte vector.
pub open spec fn opt_view(o: Option<Vec<u8>>) -> Option<Seq<u8>> {
    match o {
        Some(v) => Some(v@),
        None => None,
    }
}

/// The abstract content of card data.
pub open spec fn card_facts(card: CardData) -> CardFacts {
    (
        card.has_attributes,
        card.has_colors,
        views(card.color_texts@),
        opt_view(card.quantity),
        opt_view(card.card_type),
        opt_view(card.cost),
    )
}

/// The abstract content of a list of card data.
pub open spec fn all_facts(cards: Seq<CardData>) -> Seq<CardFacts> {
    cards.map_values(|c: CardData| card_facts(c))
}

/// Why a deck's features could not be computed.
#[derive(Debug, Clone, Copy, PartialEq, Eq, Structural)]
pub enum FeatureError {
    /// A card has no attributes.
    MissingAttributes,
    /// A card's quantity is not a string.
    QuantityNotText,
    /// A card's quantity is not a number that fits in a `u8`.
    BadQuantity,
    /// A card type's count would exceed 255.
    TypeCountOverflow,
    /// A card's cost is not a number that fits in a `usize`.
    BadCost,
}

/// The features of one deck.
pub struct PlayerFeatures {
    /// For each color tag, whether some card shows it.
    pub colors: Vec<bool>,
    /// For each counted card type, the number of such cards.
    pub type_counts: Vec<u8>,
    /// The mana cost of every card copy that has one, in deck order.
    pub costs: Vec<usize>,
}

/// Abstract deck features: color flags, type counts, costs.
pub type FeatureState = (Seq<bool>, Seq<u8>, Seq<usize>);

/// The features of a deck with no cards.
pub open spec fn empty_features() -> FeatureState {
    (Seq::new(6, |i: int| false), Seq::new(6, |i: int| 0u8), Seq::empty())
}

/// Some color text of `card` equals color tag `c`.
pub open spec fn card_shows_color(card: CardFacts, c: int) -> bool {
    exists|j: int| 0 <= j < card.2.len() && #[trigger] card.2[j] == color_tags()[c]
}

/// The card's type is card type `t`.
pub open spec fn type_matches(card: CardFacts, t: int) -> bool {
    card.4 matches Some(ty) && ty == card_type_names()[t]
}

/// The features after adding `card` to a deck with features `st`.
pub open spec fn card_step(st: FeatureState, card: CardFacts) -> Result<FeatureState, FeatureError> {
    let (colors, counts, costs) = st;
    if !card.0 {
        Err(FeatureError::MissingAttributes)
    } else {
        let new_colors = Seq::new(6, |c: int| colors[c] || card_shows_color(card, c));
        match card.3 {
            None => Err(FeatureError::QuantityNotText),
            Some(q) => match parse_unsigned_spec(q, 255) {
                None => Err(FeatureError::BadQuantity),
                Some(qty) => {
                    if exists|t: int| 0 <= t < 6 && #[trigger] type_matches(card, t) && counts[t] + qty > 255 {
                        Err(FeatureError::TypeCountOverflow)
                    } else {
                        let new_counts = Seq::new(
                            6,
                            |t: int|
                                if type_matches(card, t) {
                                    (counts[t] + qty) as u8
                                } else {
                                    counts[t]
                                },
                        );
                        match card.5 {
                            None => Ok((new_colors, new_counts, costs)),
                            Some(c) => match parse_unsigned_spec(c, usize::MAX as nat) {
                                None => Err(FeatureError::BadCost),
                                Some(v) => Ok(
                                    (
                                        new_colors,
                                        new_counts,
                                        costs + Seq::new(qty, |i: int| v as usize),
                                    ),
                                ),
                            },
                        }
                    }
                },
            },
        }
    }
}

/// The features of a deck: its cards added one after the other; the first
/// card that cannot be read decides the error.
pub open spec fn deck_features_spec(cards: Seq<CardFacts>) -> Result<FeatureState, FeatureError>
    decreases cards.len(),
{
    if cards.len() == 0 {
        Ok(empty_features())
    } else {
        match deck_features_spec(cards.drop_last()) {
            Err(e) => Err(e),
            Ok(st) => card_step(st, cards.last()),
        }
    }
}

/// The abstract content of computed deck features.
pub open spec fn features_view(f: PlayerFeatures) -> FeatureState {
    (f.colors@, f.type_counts@, f.costs@)
}

/// Adds one card to the deck features `st`.
pub fn add_card(st: &mut PlayerFeatures, card: &CardData) -> (r: Result<(), FeatureError>)
    requires
        old(st).colors@.len() == 6,
        old(st).type_counts@.len() == 6,
    ensures
        match r {
            Ok(()) => card_step(features_view(*old(st)), card_facts(*card)) == Ok::<FeatureState, FeatureError>(
                features_view(*final(st)),
            ),
            Err(e) => card_step(features_view(*old(st)), card_facts(*card)) == Err::<FeatureState, FeatureError>(e),
        },
        final(st).colors@.len() == 6,
        final(st).type_counts@.len() == 6,
{
    if !card.has_attributes {
        return Err(FeatureError::MissingAttributes);
    }
    let ghost st0 = features_view(*st);
    let ghost expected = Seq::new(6, |c: int| st0.0[c] || card_shows_color(card_facts(*card), c));
    let tags = color_tag_bytes();
    let mut color_index: usize = 0;
    while color_index < 6
        invariant
            color_index <= 6,
            views(tags@) == color_tags(),
            tags@.len() == 6,
            st0.0.len() == 6,
            st0.1.len() == 6,
            st.colors@.len() == 6,
            st.type_counts@ == st0.1,
            st.costs@ == st0.2,
            expected == Seq::new(6, |c: int| st0.0[c] || card_shows_color(card_facts(*card), c)),
            forall|c: int| 0 <= c < color_index ==> #[trigger] st.colors@[c] == expected[c],
            forall|c: int| color_index <= c < 6 ==> #[trigger] st.colors@[c] == st0.0[c],
        decreases 6 - color_index,
    {
        let mut j: usize = 0;
        while j < card.color_texts.len()
            invariant
                color_index < 6,
                j <= card.color_texts@.len(),
                views(tags@) == color_tags(),
            tags@.len() == 6,
                st0.0.len() == 6,
                st0.1.len() == 6,
                st.colors@.len() == 6,
                st.type_counts@ == st0.1,
                st.costs@ == st0.2,
                expected == Seq::new(6, |c: int| st0.0[c] || card_shows_color(card_facts(*card), c)),
            forall|c: int| 0 <= c < color_index ==> #[trigger] st.colors@[c] == expected[c],
                forall|c: int| color_index < c < 6 ==> #[trigger] st.colors@[c] == st0.0[c],
                st.colors@[color_index as int] == (st0.0[color_index as int] || exists|k: int|
                    0 <= k < j && #[trigger] views(card.color_texts@)[k] == color_tags()[color_index as int]),
            decreases card.color_texts@.len() - j,
        {
            assert(views(tags@)[color_index as int] == tags@[color_index as int]@);
            assert(views(card.color_texts@)[j as int] == card.color_texts@[j as int]@);
            if bytes_equal(&card.color_texts[j], &tags[color_index]) {
                st.colors.set(color_index, true);
            }
            j = j + 1;
        }
        assert(card_facts(*card).2 == views(card.color_texts@));
        assert(views(card.color_texts@).len() == card.color_texts@.len());
        assert(st.colors@[color_index as int] == expected[color_index as int]);
        color_index = color_index + 1;
    }
    assert(st.colors@ =~= expected);
    let quantity_text = match &card.quantity {
        None => {
            return Err(FeatureError::QuantityNotText);
        },
        Some(q) => q,
    };
    let card_quantity: u8 = match parse_unsigned(quantity_text, 255) {
        None => {
            return Err(FeatureError::BadQuantity);
        },
        Some(v) => v as u8,
    };
    let names = card_type_name_bytes();
    let ghost colors1 = st.colors@;
    assert(card_facts(*card).3 == Some(quantity_text@));
    if let Some(card_type_value) = &card.card_type {
        assert(card_facts(*card).4 == Some(card_type_value@));
        let mut card_type_index: usize = 0;
        while card_type_index < 6
            invariant
                card_type_index <= 6,
                views(names@) == card_type_names(),
                names@.len() == 6,
                st0.1.len() == 6,
                card.card_type == Some(*card_type_value),
                st.colors@ == colors1,
                colors1.len() == 6,
                parse_unsigned_spec(quantity_text@, 255) == Some(card_quantity as nat),
                card.quantity == Some(*quantity_text),
                card_facts(*card).3 == Some(quantity_text@),
                card_facts(*card).4 == Some(card_type_value@),
                card.has_attributes,
                st0 == features_view(*old(st)),
                st.costs@ == st0.2,
                st.type_counts@.len() == 6,
                forall|t: int| 0 <= t < card_type_index ==> !(#[trigger] type_matches(card_facts(*card), t) && st0.1[t] + card_quantity > 255),
                forall|t: int| 0 <= t < card_type_index ==> st.type_counts@[t] == if type_matches(card_facts(*card), t) {
                    (st0.1[t] + card_quantity) as u8
                } else {
                    st0.1[t]
                },
                forall|t: int| card_type_index <= t < 6 ==> st.type_counts@[t] == st0.1[t],
            decreases 6 - card_type_index,
        {
            assert(views(names@)[card_type_index as int] == names@[card_type_index as int]@);
            if bytes_equal(card_type_value, &names[card_type_index]) {
                let current = st.type_counts[card_type_index];
                if current > 255u8 - card_quantity {
                    assert(type_matches(card_facts(*card), card_type_index as int));
                    assert(current == st0.1[card_type_index as int]);
                    assert(st0.1[card_type_index as int] + card_quantity > 255);
                    assert(exists|t: int| 0 <= t < 6 && #[trigger] type_matches(card_facts(*card), t) && st0.1[t] + card_quantity > 255);
                    return Err(FeatureError::TypeCountOverflow);
                }
                st.type_counts.set(card_type_index, current + card_quantity);
            }
            card_type_index = card_type_index + 1;
        }
    }
    assert(st.type_counts@ =~= Seq::new(
        6,
        |t: int|
            if type_matches(card_facts(*card), t) {
                (st0.1[t] + card_quantity) as u8
            } else {
                st0.1[t]
            },
    ));
    assert(!exists|t: int| 0 <= t < 6 && #[trigger] type_matches(card_facts(*card), t) && st0.1[t] + card_quantity > 255);
    let ghost counts1 = st.type_counts@;
    if let Some(card_cost_string) = &card.cost {
        assert(card_facts(*card).5 == Some(card_cost_string@));
        let card_cost: usize = match parse_unsigned(card_cost_string, usize::MAX as u64) {
            None => {
                return Err(FeatureError::BadCost);
            },
            Some(v) => v as usize,
        };
        let mut k: u8 = 0;
        while k < card_quantity
            invariant
                k <= card_quantity,
                st.costs@ == st0.2 + Seq::new(k as nat, |i: int| card_cost),
                st.colors@ == colors1,
                st.type_counts@ == counts1,
                colors1.len() == 6,
                counts1.len() == 6,
            decreases card_quantity - k,
        {
            st.costs.push(card_cost);
            k = k + 1;
            assert(st.costs@ =~= st0.2 + Seq::new(k as nat, |i: int| card_cost));
        }
    }
    Ok(())
}

/// Computes the features of a deck from its cards.
pub fn deck_features(cards: &Vec<CardData>) -> (r: Result<PlayerFeatures, FeatureError>)
    ensures
        match r {
            Ok(f) => deck_features_spec(all_facts(cards@)) == Ok::<FeatureState, FeatureError>(features_view(f)),
            Err(e) => deck_features_spec(all_facts(cards@)) == Err::<FeatureState, FeatureError>(e),
        },
{
    let mut st = PlayerFeatures {
        colors: vec![false, false, false, false, false, false],
        type_counts: vec![0u8, 0u8, 0u8, 0u8, 0u8, 0u8],
        costs: Vec::new(),
    };
    assert(features_view(st) =~= empty_features());
    let mut i: usize = 0;
    while i < cards.len()
        invariant
            i <= cards@.len(),
            st.colors@.len() == 6,
            st.type_counts@.len() == 6,
            deck_features_spec(all_facts(cards@).take(i as int)) == Ok::<FeatureState, FeatureError>(features_view(st)),
        decreases cards@.len() - i,
    {
        assert(all_facts(cards@).take(i + 1).drop_last() =~= all_facts(cards@).take(i as int));
        assert(all_facts(cards@).take(i + 1).last() == card_facts(cards@[i as int]));
        match add_card(&mut st, &cards[i]) {
            Ok(()) => {},
            Err(e) => {
                proof {
                    lemma_deck_error_persists(all_facts(cards@), i as int + 1, e);
                }
                return Err(e);
            },
        }
        i = i + 1;
    }
    assert(all_facts(cards@).take(i as int) =~= all_facts(cards@));
    Ok(st)
}

proof fn lemma_deck_error_persists(cards: Seq<CardFacts>, k: int, e: FeatureError)
    requires
        0 <= k <= cards.len(),
        deck_features_spec(cards.take(k)) == Err::<FeatureState, FeatureError>(e),
    ensures
        deck_features_spec(cards) == Err::<FeatureState, FeatureError>(e),
    decreases cards.len() - k,
{
    if k == cards.len() {
        assert(cards.take(k) =~= cards);
    } else {
        assert(cards.take(k + 1).drop_last() =~= cards.take(k));
        lemma_deck_error_persists(cards, k + 1, e);
    }
}

/// The quantity a card's `qty` text gives (0 where it gives none).
pub open spec fn quantity_of(card: CardFacts) -> nat {
    match card.3 {
        Some(q) => match parse_unsigned_spec(q, 255) {
            Some(v) => v,
            None => 0,
        },
        None => 0,
    }
}

/// The summed quantities of the cards whose type text is card type name `t`.
pub open spec fn type_total(cards: Seq<CardFacts>, t: int) -> nat
    decreases cards.len(),
{
    if cards.len() == 0 {
        0
    } else {
        type_total(cards.drop_last(), t) + if cards.last().4 == Some(card_type_names()[t]) {
            quantity_of(cards.last())
        } else {
            0
        }
    }
}

/// The cost of every copy of every card that has a cost, card after card.
pub open spec fn cost_copies(cards: Seq<CardFacts>) -> Seq<usize>
    decreases cards.len(),
{
    if cards.len() == 0 {
        Seq::empty()
    } else {
        let c = cards.last();
        cost_copies(cards.drop_last()) + match c.5 {
            Some(text) => match parse_unsigned_spec(text, usize::MAX as nat) {
                Some(v) => Seq::new(quantity_of(c), |i: int| v as usize),
                None => Seq::empty(),
            },
            None => Seq::empty(),
        }
    }
}

/// A deck's features, where they can be computed, are: color flag `c` set
/// exactly when some card's color text equals color tag `c`; the count of
/// each of the six card types (the last, ENCHMT, too) equal to the summed
/// quantities of the cards of that type; and one cost entry per copy of
/// every card that has a cost.
pub proof fn lemma_deck_features_meaning(cards: Seq<CardFacts>)
    ensures
        deck_features_spec(cards) matches Ok(st) ==> {
            &&& st.0.len() == 6
            &&& st.1.len() == 6
            &&& forall|c: int|
                0 <= c < 6 ==> (st.0[c] <==> exists|i: int, j: int|
                    0 <= i < cards.len() && 0 <= j < cards[i].2.len() && #[trigger] cards[i].2[j]
                        == color_tags()[c])
            &&& forall|t: int| 0 <= t < 6 ==> st.1[t] == type_total(cards, t)
            &&& st.2 == cost_copies(cards)
        },
    decreases cards.len(),
{
    if cards.len() == 0 {
    } else {
        let e = cards.drop_last();
        let card = cards.last();
        lemma_deck_features_meaning(e);
        if let Ok(st) = deck_features_spec(cards) {
            let prev = deck_features_spec(e).unwrap();
            assert(deck_features_spec(e) == Ok::<FeatureState, FeatureError>(prev));
            assert forall|c: int| 0 <= c < 6 implies (st.0[c] <==> exists|i: int, j: int|
                0 <= i < cards.len() && 0 <= j < cards[i].2.len() && #[trigger] cards[i].2[j]
                    == color_tags()[c]) by {
                if st.0[c] {
                    if prev.0[c] {
                        let (i, j) = choose|i: int, j: int|
                            0 <= i < e.len() && 0 <= j < e[i].2.len() && #[trigger] e[i].2[j] == color_tags()[c];
                        assert(cards[i] == e[i]);
                        assert(cards[i].2[j] == color_tags()[c]);
                    } else {
                        let j = choose|j: int| 0 <= j < card.2.len() && #[trigger] card.2[j] == color_tags()[c];
                        assert(cards[cards.len() - 1].2[j] == color_tags()[c]);
                    }
                }
                if exists|i: int, j: int|
                    0 <= i < cards.len() && 0 <= j < cards[i].2.len() && #[trigger] cards[i].2[j]
                        == color_tags()[c] {
                    let (i, j) = choose|i: int, j: int|
                        0 <= i < cards.len() && 0 <= j < cards[i].2.len() && #[trigger] cards[i].2[j]
                            == color_tags()[c];
                    if i < e.len() {
                        assert(e[i] == cards[i]);
                        assert(e[i].2[j] == color_tags()[c]);
                    } else {
                        assert(card_shows_color(card, c));
                    }
                }
            }
            assert forall|t: int| 0 <= t < 6 implies st.1[t] == type_total(cards, t) by {
                let q = quantity_of(card);
                assert(card.0);
                assert(card.3 is Some);
                let qv = parse_unsigned_spec(card.3.unwrap(), 255);
                assert(qv is Some);
                assert(q == qv.unwrap());
                assert(type_matches(card, t) <==> card.4 == Some(card_type_names()[t]));
                assert(!(exists|u: int| 0 <= u < 6 && #[trigger] type_matches(card, u) && prev.1[u] + q > 255));
                assert(st.1[t] == if type_matches(card, t) {
                    (prev.1[t] + q) as u8
                } else {
                    prev.1[t]
                });
                if type_matches(card, t) {
                    assert(!(type_matches(card, t) && prev.1[t] + q > 255));
                    assert(prev.1[t] + q <= 255);
                }
                assert(type_total(cards, t) == type_total(e, t) + if card.4 == Some(card_type_names()[t]) {
                    q
                } else {
                    0
                });
            }
        }
    }
}

/// The six counted card type names are distinct, so a card adds to at most
/// one count; the last of them is ENCHMT.
pub proof fn lemma_card_type_names_distinct()
    ensures
        card_type_names().len() == 6,
        forall|a: int, b: int| 0 <= a < b < 6 ==> card_type_names()[a] != card_type_names()[b],
        card_type_names()[5] == ascii_bytes("ENCHMT"@),
{
    reveal_strlit("LAND  ");
    reveal_strlit("ISCREA");
    reveal_strlit("INSTNT");
    reveal_strlit("SORCRY");
    reveal_strlit("ARTFCT");
    reveal_strlit("ENCHMT");
    assert forall|a: int, b: int| 0 <= a < b < 6 implies card_type_names()[a] != card_type_names()[b] by {
        let x = card_type_names()[a];
        let y = card_type_names()[b];
        assert(x[0] != y[0] || x[1] != y[1] || x[2] != y[2]);
    }
}

} // verus!
