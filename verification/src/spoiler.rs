//! The human-readable record of the critical placements of one seed.

use vstd::prelude::*;

use crate::id::Id;
use crate::sprite::Gear;

verus! {

/// Where each progression item was placed, gathered while a seed is built.
#[derive(Debug, PartialEq, Eq)]
pub struct ItemSpoiler {
    pub gear: Vec<(Gear, Id)>,
}

impl Default for ItemSpoiler {
    fn default() -> (r: ItemSpoiler)
        ensures
            r.gear@.len() == 0,
    {
        ItemSpoiler { gear: Vec::new() }
    }
}

/// The exported spoiler: the seed string and the progression placements.
#[derive(Debug, PartialEq, Eq)]
pub struct Spoiler {
    pub seed: String,
    pub gear: Vec<(Gear, Id)>,
}

impl Spoiler {
    pub fn new(seed: String) -> (r: Spoiler)
        ensures
            r.seed@ == seed@,
            r.gear@.len() == 0,
    {
        Spoiler { seed, gear: Vec::new() }
    }
}

} // verus!
