//! The record model: one flat record per catalog entity, and an ordered
//! collection of them in document order.

use vstd::prelude::*;

verus! {

/// One card entity, flattened. Numeric fields default to 0 when the source
/// attribute or tag is absent or unparseable; string fields may be empty and
/// the two optional texts absent.
#[derive(Debug, Clone, PartialEq)]
pub struct Card {
    pub id: u32,
    pub version: u8,
    pub cost: u32,
    pub attack: u32,
    pub health: u32,
    pub cardid: String,
    pub name: String,
    pub hand_text: Option<String>,
    pub flavor_text: Option<String>,
}

/// The mathematical model of a [`Card`]: the same fields with strings as
/// character sequences.
pub struct CardV {
    pub id: u32,
    pub version: u8,
    pub cost: u32,
    pub attack: u32,
    pub health: u32,
    pub cardid: Seq<char>,
    pub name: Seq<char>,
    pub hand_text: Option<Seq<char>>,
    pub flavor_text: Option<Seq<char>>,
}

impl View for Card {
    type V = CardV;

    open spec fn view(&self) -> CardV {
        CardV {
            id: self.id,
            version: self.version,
            cost: self.cost,
            attack: self.attack,
            health: self.health,
            cardid: self.cardid@,
            name: self.name@,
            hand_text: opt_view(self.hand_text),
            flavor_text: opt_view(self.flavor_text),
        }
    }
}

/// The zero-valued record allocated the instant an entity-open marker is
/// seen, before any attribute has been read.
pub open spec fn zero_card() -> CardV {
    CardV {
        id: 0,
        version: 0,
        cost: 0,
        attack: 0,
        health: 0,
        cardid: Seq::empty(),
        name: Seq::empty(),
        hand_text: None,
        flavor_text: None,
    }
}

/// An ordered sequence of records, order = document order. Duplicate ids are
/// permitted: the source document's own identity scheme is trusted.
#[derive(Debug, PartialEq)]
pub struct CardCollection {
    pub cards: Vec<Card>,
}

/// The models of a sequence of records, in the same order.
pub open spec fn card_views(cards: Seq<Card>) -> Seq<CardV> {
    Seq::new(cards.len(), |i: int| cards[i]@)
}

impl View for CardCollection {
    type V = Seq<CardV>;

    open spec fn view(&self) -> Seq<CardV> {
        card_views(self.cards@)
    }
}

/// The model of an optional string field.
pub open spec fn opt_view(o: Option<String>) -> Option<Seq<char>> {
    match o {
        Some(s) => Some(s@),
        None => None,
    }
}

} // verus!
