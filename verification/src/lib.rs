//! Candidate-generation core of a phonetic input method.
//!
//! The library has two halves: a spelling-lattice builder (a syllabification
//! graph over input positions, with ambiguity detection and credibility
//! scoring) and a candidate/translation pipeline (lazy, priority-ordered
//! streams of text candidates composed through union / merge / dedup / cache /
//! prefetch combinators).

pub mod algo;
pub mod candidate;
pub mod config;
pub mod dict;
pub mod gear;
pub mod lever;
pub mod translation;

use vstd::prelude::*;

verus! {

/// Sum of two counters; callers must stay within the machine range.
pub fn add(left: u64, right: u64) -> (r: u64)
    requires
        left + right <= u64::MAX,
    ensures
        r == left + right,
{
    left + right
}

} // verus!
