//! Value types describing a single interpreted span of input: its textual
//! content, a classification, and a credibility score.
//!
//! Credibility is an additive log-probability. To keep the arithmetic exact it
//! is stored as a signed integer in millionths of one natural-log unit, so
//! `-693147` stands for `ln(0.5)` and `0` for `ln(1.0)`. Lower (more negative)
//! means less likely; penalties only ever decrease it.

use vstd::prelude::*;

verus! {

/// Classification of how confidently a span matches a known spelling.
/// `NormalSpelling` is the best classification, `InvalidSpelling` the worst;
/// the ordering used throughout the lattice builder is given by [`SpellingType::rank`].
#[derive(Debug, Clone, Copy, PartialEq, Eq, Structural)]
pub enum SpellingType {
    NormalSpelling,
    FuzzySpelling,
    Abbreviation,
    Completion,
    AmbiguousSpelling,
    InvalidSpelling,
}

impl SpellingType {
    /// Position of the classification in the quality order: the best
    /// classification has the smallest rank.
    pub open spec fn spec_rank(self) -> int {
        match self {
            SpellingType::NormalSpelling => 0,
            SpellingType::FuzzySpelling => 1,
            SpellingType::Abbreviation => 2,
            SpellingType::Completion => 3,
            SpellingType::AmbiguousSpelling => 4,
            SpellingType::InvalidSpelling => 5,
        }
    }

    /// Executable counterpart of [`SpellingType::spec_rank`].
    pub fn rank(&self) -> (r: u8)
        ensures
            r == self.spec_rank(),
    {
        match self {
            SpellingType::NormalSpelling => 0,
            SpellingType::FuzzySpelling => 1,
            SpellingType::Abbreviation => 2,
            SpellingType::Completion => 3,
            SpellingType::AmbiguousSpelling => 4,
            SpellingType::InvalidSpelling => 5,
        }
    }
}

/// Properties of one interpreted span: classification, where the span ends,
/// its credibility, and an optional correction tip shown to the user.
#[derive(Debug, Clone)]
pub struct SpellingProperties {
    pub spelling_type: SpellingType,
    pub end_pos: usize,
    pub credibility: i64,
    pub tips: String,
}

impl Default for SpellingProperties {
    /// The neutral spelling: a normal match with certainty `ln(1.0) == 0`.
    fn default() -> (d: Self)
        ensures
            d.spelling_type == SpellingType::NormalSpelling,
            d.end_pos == 0,
            d.credibility == 0,
            d.tips@ == Seq::<char>::empty(),
    {
        SpellingProperties {
            spelling_type: SpellingType::NormalSpelling,
            end_pos: 0,
            credibility: 0,
            tips: String::new(),
        }
    }
}

/// A spelling: the written form of a syllable together with its properties.
#[derive(Debug, Clone)]
pub struct Spelling {
    pub text: String,
    pub properties: SpellingProperties,
}

impl Spelling {
    /// The empty spelling with default properties.
    pub fn new() -> (s: Self)
        ensures
            s.text@ == Seq::<char>::empty(),
            s.properties.spelling_type == SpellingType::NormalSpelling,
            s.properties.credibility == 0,
    {
        Spelling { text: String::new(), properties: SpellingProperties::default() }
    }

    /// A spelling of the given written form with default properties.
    pub fn from(text: String) -> (s: Self)
        ensures
            s.text@ == text@,
            s.properties.spelling_type == SpellingType::NormalSpelling,
            s.properties.credibility == 0,
    {
        Spelling { text, properties: SpellingProperties::default() }
    }
}

/// Spellings are identified by their written form alone, as downstream
/// deduplication only cares about what the user typed.
impl PartialEq for Spelling {
    fn eq(&self, other: &Self) -> (r: bool) {
        self.text == other.text
    }
}

impl vstd::std_specs::cmp::PartialEqSpecImpl for Spelling {
    open spec fn obeys_eq_spec() -> bool {
        true
    }

    open spec fn eq_spec(&self, other: &Self) -> bool {
        self.text@ == other.text@
    }
}

} // verus!
