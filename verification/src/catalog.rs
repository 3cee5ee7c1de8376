//! The in-memory catalog of items to track: collections of cards, each
//! expanding to one unit of work per variant class.
use vstd::prelude::*;

verus! {

/// The rarity tier printed on a card.
#[derive(Debug, Clone, Copy, PartialEq, Eq, Structural)]
pub enum Rarity {
    Common,
    Uncommon,
    Rare,
    DoubleRare,
    AceSpecRare,
    IllustrationRare,
    UltraRare,
    SpecialIllustrationRare,
    HyperRare,
}

impl Rarity {
    pub open spec fn spec_name(self) -> Seq<char> {
        match self {
            Rarity::Common => "Common"@,
            Rarity::Uncommon => "Uncommon"@,
            Rarity::Rare => "Rare"@,
            Rarity::DoubleRare => "Double Rare"@,
            Rarity::AceSpecRare => "Ace Spec Rare"@,
            Rarity::IllustrationRare => "Illustration Rare"@,
            Rarity::UltraRare => "Ultra Rare"@,
            Rarity::SpecialIllustrationRare => "Special Illustration Rare"@,
            Rarity::HyperRare => "Hyper Rare"@,
        }
    }

    /// The stored textual form of the tier.
    pub fn name(&self) -> (r: String)
        ensures
            r@ == self.spec_name(),
    {
        match self {
            Rarity::Common => "Common".to_owned(),
            Rarity::Uncommon => "Uncommon".to_owned(),
            Rarity::Rare => "Rare".to_owned(),
            Rarity::DoubleRare => "Double Rare".to_owned(),
            Rarity::AceSpecRare => "Ace Spec Rare".to_owned(),
            Rarity::IllustrationRare => "Illustration Rare".to_owned(),
            Rarity::UltraRare => "Ultra Rare".to_owned(),
            Rarity::SpecialIllustrationRare => "Special Illustration Rare".to_owned(),
            Rarity::HyperRare => "Hyper Rare".to_owned(),
        }
    }
}

/// The variant class a card is tracked under. `Foil` is displayed and
/// stored as "Holo".
#[derive(Debug, Clone, Copy, PartialEq, Eq, Structural)]
pub enum Class {
    Regular,
    ReverseHolo,
    Foil,
}

impl Class {
    pub open spec fn spec_name(self) -> Seq<char> {
        match self {
            Class::Regular => "Regular"@,
            Class::ReverseHolo => "Reverse Holo"@,
            Class::Foil => "Holo"@,
        }
    }

    /// The stored textual form of the class.
    pub fn name(&self) -> (r: String)
        ensures
            r@ == self.spec_name(),
    {
        match self {
            Class::Regular => "Regular".to_owned(),
            Class::ReverseHolo => "Reverse Holo".to_owned(),
            Class::Foil => "Holo".to_owned(),
        }
    }
}

/// One card to track, with the variant classes it is scraped under.
#[derive(Debug, Clone)]
pub struct Pokemon {
    pub name: String,
    pub number: usize,
    pub rarity: Rarity,
    pub class: Vec<Class>,
}

/// One collection of cards, in catalog order.
#[derive(Debug, Clone)]
pub struct Expansion {
    pub set_name: String,
    pub expansion_name: String,
    pub expansion_number: u32,
    pub expansion_total: usize,
    pub cards: Vec<Pokemon>,
}

} // verus!
