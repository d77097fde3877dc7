//! Spelling calculations: transformations applied to spellings when a
//! spelling algebra is assembled, and the penalties their results carry.

use vstd::prelude::*;

use crate::algo::spelling::Spelling;

verus! {

/// Penalty carried by a spelling reached through an abbreviation:
/// `ln(0.5)` in millionths.
pub const ABBREVIATION_PENALTY: i64 = -693147;

/// Penalty carried by a fuzzily matched spelling: `ln(0.5)` in millionths.
pub const FUZZY_SPELLING_PENALTY: i64 = -693147;

/// A transformation of one spelling, applied while assembling a spelling
/// algebra; implementations report whether the spelling was transformed.
pub trait Calculation {
    fn apply(&mut self, spelling: &mut Spelling) -> bool;

    /// Whether the calculation may add new spellings.
    fn addition(&self) -> bool {
        true
    }

    /// Whether the calculation may remove spellings.
    fn deletion(&self) -> bool {
        true
    }
}

/// The calculation that leaves every spelling as it is.
#[derive(Debug, Default)]
pub struct DefaultCalculation;

impl Calculation for DefaultCalculation {
    /// Leaves the spelling untouched and reports no transformation.
    fn apply(&mut self, spelling: &mut Spelling) -> (r: bool)
        ensures
            *final(spelling) == *old(spelling),
            r == false,
    {
        let _ = spelling;
        false
    }
}

/// Parses calculation definitions; only the default calculation is known
/// here, richer algebras live with their schemas.
#[derive(Debug, Default)]
pub struct Calculus;

impl Calculus {
    /// A fresh parser.
    pub fn calculus() -> (c: Self) {
        Calculus
    }

    /// The calculation a definition names; every definition currently
    /// resolves to the default calculation.
    pub fn parse() -> (r: Box<DefaultCalculation>) {
        Box::new(DefaultCalculation)
    }
}

} // verus!
