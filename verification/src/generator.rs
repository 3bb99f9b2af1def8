//! The kinds of generator that can be placed, and the scoring settings.

use vstd::prelude::*;

verus! {

/// One kind of generator: its footprint, its base value and whether it is gold.
#[derive(Clone, Copy, Debug)]
pub struct GeneratorData {
    pub id: u8,
    pub base_value: u32,
    pub width: u8,
    pub height: u8,
    pub gold: bool,
}

impl GeneratorData {
    pub fn new(id: u8, base_value: u32, width: u8, height: u8, gold: bool) -> (g: Self)
        ensures
            g == (GeneratorData { id, base_value, width, height, gold }),
    {
        GeneratorData { id, base_value, width, height, gold }
    }
}

/// Scoring and selection settings.
///
/// `elite_count` is the number of best chromosomes that selection always
/// keeps (the share of the population that the program's settings give as
/// a fraction, already turned into a count).
#[derive(Clone, Copy, Debug)]
pub struct Config {
    pub outside_penalty_multiplier: i32,
    pub overlap_penalty_multiplier: i32,
    pub elite_count: usize,
}

} // verus!
