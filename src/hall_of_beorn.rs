//! Card data as the Hall of Beorn catalog exports it.

use vstd::prelude::*;

verus! {

/// One card of the remote catalog; `title` is its only key.
pub struct Card {
    pub title: String,
    pub is_unique: bool,
    pub card_type: String,
    pub card_sub_type: String,
    pub sphere: Option<String>,
    pub front: Side,
    pub back: Option<Side>,
    pub card_set: String,
    pub number: u32,
    pub quantity: u32,
    pub artist: String,
    pub has_errata: bool,
    pub categories: Option<Vec<String>>,
}

pub struct Stats {
    pub threat_cost: Option<String>,
    pub resource_cost: Option<String>,
    pub willpower: Option<String>,
    pub attack: Option<String>,
    pub defense: Option<String>,
    pub hit_points: Option<String>,
}

/// One face of a card; `image_path` locates its picture.
pub struct Side {
    pub subtitle: Option<String>,
    pub image_path: String,
    pub stats: Option<Stats>,
    pub traits: Vec<String>,
    pub keywords: Vec<String>,
    pub text: Vec<String>,
    pub flavor_text: Option<String>,
}

/// One set of the remote catalog, as listed without its cards.
pub struct CardSet {
    pub name: String,
    pub cycle: Option<String>,
    pub set_type: String,
}

} // verus!
