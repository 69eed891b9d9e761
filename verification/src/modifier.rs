//! The wave-end modifiers a player chooses between: each choice pairs a
//! helpful effect with a harmful one. Which variants are offered is
//! decided from a caller-supplied random roll, so selection stays
//! reproducible under a seeded generator.

use vstd::prelude::*;

verus! {

/// A modifier that helps the player.
#[derive(Clone, Copy, PartialEq, Eq, Structural, Debug)]
pub enum GoodModifier {
    Glue,
    FoolsGold,
}

/// A modifier that helps the pirates.
#[derive(Clone, Copy, PartialEq, Eq, Structural, Debug)]
pub enum BadModifier {
    Crate,
    Tree,
    BrokenChain,
}

impl GoodModifier {
    /// The button caption for this modifier.
    pub fn get_text(&self) -> (r: &'static str)
        ensures
            r@ == (match self {
                GoodModifier::Glue => "Glue Puddle"@,
                GoodModifier::FoolsGold => "Fool's Gold"@,
            }),
    {
        match self {
            GoodModifier::Glue => "Glue Puddle",
            GoodModifier::FoolsGold => "Fool's Gold",
        }
    }

    /// The explanation shown beneath the caption.
    pub fn get_explanation(&self) -> (r: &'static str)
        ensures
            r@ == (match self {
                GoodModifier::Glue => "Spawn a glue puddle that slows the pirates down"@,
                GoodModifier::FoolsGold => "Spawn a fool's gold that distracts the pirates"@,
            }),
    {
        match self {
            GoodModifier::Glue => "Spawn a glue puddle that slows the pirates down",
            GoodModifier::FoolsGold => "Spawn a fool's gold that distracts the pirates",
        }
    }

    /// The modifier a random roll selects, each variant from one residue.
    pub fn random(roll: u64) -> (m: GoodModifier)
        ensures
            m == (if roll % 2 == 0 {
                GoodModifier::Glue
            } else {
                GoodModifier::FoolsGold
            }),
    {
        if roll % 2 == 0 {
            GoodModifier::Glue
        } else {
            GoodModifier::FoolsGold
        }
    }
}

impl BadModifier {
    /// The button caption for this modifier.
    pub fn get_text(&self) -> (r: &'static str)
        ensures
            r@ == (match self {
                BadModifier::Crate => "Crates"@,
                BadModifier::Tree => "Tree"@,
                BadModifier::BrokenChain => "Broken Chain"@,
            }),
    {
        match self {
            BadModifier::Crate => "Crates",
            BadModifier::Tree => "Tree",
            BadModifier::BrokenChain => "Broken Chain",
        }
    }

    /// The explanation shown beneath the caption.
    pub fn get_explanation(&self) -> (r: &'static str)
        ensures
            r@ == (match self {
                BadModifier::Crate => "Spawn crates that block the path of the pirates"@,
                BadModifier::Tree => "Spawn a tree that and helps the pirates breathe"@,
                BadModifier::BrokenChain => "Break a random chain link"@,
            }),
    {
        match self {
            BadModifier::Crate => "Spawn crates that block the path of the pirates",
            BadModifier::Tree => "Spawn a tree that and helps the pirates breathe",
            BadModifier::BrokenChain => "Break a random chain link",
        }
    }

    /// The modifier a random roll selects, each variant from one residue.
    pub fn random(roll: u64) -> (m: BadModifier)
        ensures
            m == (if roll % 3 == 0 {
                BadModifier::Crate
            } else if roll % 3 == 1 {
                BadModifier::Tree
            } else {
                BadModifier::BrokenChain
            }),
    {
        let r = roll % 3;
        if r == 0 {
            BadModifier::Crate
        } else if r == 1 {
            BadModifier::Tree
        } else {
            BadModifier::BrokenChain
        }
    }
}

} // verus!
