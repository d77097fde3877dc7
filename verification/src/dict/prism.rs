//! The dictionary lookup collaborator consumed by the syllabifier.
//!
//! The lattice never inspects how a match set is produced; this prism holds
//! its spellings as plain entries and answers prefix queries over them. Each
//! match reports which entry matched (`value`) and how many input characters
//! it covers (`length`).

use vstd::prelude::*;

use crate::algo::spelling::SpellingType;
use crate::algo::syllabifier::SyllableId;

verus! {

/// Credibilities handed out by a dictionary are log-probabilities in
/// millionths, never positive and never below this floor.
pub const MIN_DICTIONARY_CREDIBILITY: i64 = -1_000_000_000_000;

/// One spelling held by the dictionary: the syllable it stands for, its
/// classification, its base credibility and an optional tip.
#[derive(Debug)]
pub struct SpellingDescriptor {
    pub syllable_id: SyllableId,
    pub spelling_type: SpellingType,
    pub credibility: i64,
    pub tips: String,
}

/// A dictionary entry: a written form together with its descriptor.
#[derive(Debug)]
pub struct PrismEntry {
    pub text: Vec<char>,
    pub descriptor: SpellingDescriptor,
}

impl PrismEntry {
    /// A written form at least one character long, with a credibility in the
    /// dictionary range.
    pub open spec fn wf(self) -> bool {
        self.text@.len() >= 1 && MIN_DICTIONARY_CREDIBILITY <= self.descriptor.credibility <= 0
    }
}

/// The dictionary lookup collaborator: a set of spellings answering prefix
/// queries against an input suffix.
#[derive(Debug)]
pub struct Prism {
    pub entries: Vec<PrismEntry>,
}

/// A match of a lookup: `value` indexes the entry that matched, `length` is
/// the number of input characters the match covers.
#[derive(Debug, Default)]
pub struct Match {
    pub value: usize,
    pub length: usize,
}

/// `text` occurs in `input` starting at `pos`.
pub open spec fn is_prefix_at(text: Seq<char>, input: Seq<char>, pos: int) -> bool {
    &&& text.len() >= 1
    &&& 0 <= pos
    &&& pos + text.len() <= input.len()
    &&& text == input.subrange(pos, pos + text.len())
}

/// The input tail from `pos` is a proper prefix of `text`: typing more of
/// `text` would complete it.
pub open spec fn is_completion_at(text: Seq<char>, input: Seq<char>, pos: int) -> bool {
    &&& 0 <= pos < input.len()
    &&& text.len() > input.len() - pos
    &&& input.subrange(pos, input.len() as int) == text.subrange(0, input.len() - pos)
}

/// `text` equals `input[pos..pos + text.len()]`, decided character by
/// character.
fn text_matches_at(text: &Vec<char>, input: &Vec<char>, pos: usize) -> (r: bool)
    requires
        text@.len() >= 1,
    ensures
        r == is_prefix_at(text@, input@, pos as int),
{
    let tn = text.len();
    let n = input.len();
    if pos >= n || tn > n - pos {
        return false;
    }
    let mut i: usize = 0;
    while i < tn
        invariant
            i <= tn,
            tn == text@.len(),
            n == input@.len(),
            pos + tn <= n,
            forall|j: int| 0 <= j < i ==> text@[j] == input@[pos + j],
        decreases tn - i,
    {
        if text[i] != input[pos + i] {
            return false;
        }
        i += 1;
    }
    proof {
        assert(text@ =~= input@.subrange(pos as int, pos + text@.len()));
    }
    true
}

/// The input tail from `pos` is a nonempty proper prefix of `text`.
fn text_completes_at(text: &Vec<char>, input: &Vec<char>, pos: usize) -> (r: bool)
    ensures
        r == is_completion_at(text@, input@, pos as int),
{
    let tn = text.len();
    let n = input.len();
    if pos >= n || tn <= n - pos {
        return false;
    }
    let rest = n - pos;
    let mut i: usize = 0;
    while i < rest
        invariant
            i <= rest,
            rest == n - pos,
            tn == text@.len(),
            n == input@.len(),
            pos < n,
            tn > rest,
            forall|j: int| 0 <= j < i ==> input@[pos + j] == text@[j],
        decreases rest - i,
    {
        if input[pos + i] != text[i] {
            proof {
                assert(input@.subrange(pos as int, n as int)[i as int] == input@[pos + i]);
                assert(text@.subrange(0int, n - pos)[i as int] == text@[i as int]);
            }
            return false;
        }
        i += 1;
    }
    proof {
        assert(input@.subrange(pos as int, n as int) =~= text@.subrange(0, n - pos));
    }
    true
}

impl Prism {
    /// Every entry is well formed.
    pub open spec fn wf(self) -> bool {
        forall|i: int| 0 <= i < self.entries@.len() ==> (#[trigger] self.entries@[i]).wf()
    }

    /// A prism over the given entries.
    pub fn new(entries: Vec<PrismEntry>) -> (p: Self)
        ensures
            p.entries == entries,
    {
        Prism { entries }
    }

    /// All entries whose written form occurs in `input` at `pos`, by
    /// ascending entry index, each reported with the length it covers.
    pub fn common_prefix_search(&self, input: &Vec<char>, pos: usize) -> (r: Vec<Match>)
        requires
            self.wf(),
        ensures
            forall|k: int|
                0 <= k < r@.len() ==> (#[trigger] r@[k]).value < self.entries@.len()
                    && is_prefix_at(self.entries@[r@[k].value as int].text@, input@, pos as int)
                    && r@[k].length == self.entries@[r@[k].value as int].text@.len(),
            forall|i: int|
                0 <= i < self.entries@.len() && is_prefix_at(
                    (#[trigger] self.entries@[i]).text@,
                    input@,
                    pos as int,
                ) ==> exists|k: int| 0 <= k < r@.len() && (#[trigger] r@[k].value) == i,
            forall|k1: int, k2: int| 0 <= k1 < k2 < r@.len() ==> r@[k1].value < r@[k2].value,
    {
        let mut r: Vec<Match> = Vec::new();
        let n = self.entries.len();
        let mut i: usize = 0;
        while i < n
            invariant
                i <= n,
                n == self.entries@.len(),
                self.wf(),
                forall|k: int|
                    0 <= k < r@.len() ==> (#[trigger] r@[k]).value < i && is_prefix_at(
                        self.entries@[r@[k].value as int].text@,
                        input@,
                        pos as int,
                    ) && r@[k].length == self.entries@[r@[k].value as int].text@.len(),
                forall|j: int|
                    0 <= j < i && is_prefix_at(
                        (#[trigger] self.entries@[j]).text@,
                        input@,
                        pos as int,
                    ) ==> exists|k: int| 0 <= k < r@.len() && (#[trigger] r@[k].value) == j,
                forall|k1: int, k2: int| 0 <= k1 < k2 < r@.len() ==> r@[k1].value < r@[k2].value,
            decreases n - i,
        {
            let entry = &self.entries[i];
            let ghost r_pre = r@;
            if text_matches_at(&entry.text, input, pos) {
                r.push(Match { value: i, length: entry.text.len() });
            }
            proof {
                assert forall|j: int|
                    0 <= j < i + 1 && is_prefix_at(
                        (#[trigger] self.entries@[j]).text@,
                        input@,
                        pos as int,
                    ) implies exists|k: int|
                    0 <= k < r@.len() && (#[trigger] r@[k].value) == j by {
                    if j < i {
                        let k0 = choose|k: int| 0 <= k < r_pre.len() && r_pre[k].value == j;
                        assert(r@[k0].value == j);
                    } else {
                        assert(r@[r@.len() - 1].value == i);
                    }
                }
            }
            i += 1;
        }
        r
    }

    /// All entries that the remaining input would complete if typed further,
    /// by ascending entry index, each covering the whole input tail.
    pub fn completion_search(&self, input: &Vec<char>, pos: usize) -> (r: Vec<Match>)
        requires
            self.wf(),
        ensures
            forall|k: int|
                0 <= k < r@.len() ==> (#[trigger] r@[k]).value < self.entries@.len()
                    && is_completion_at(self.entries@[r@[k].value as int].text@, input@, pos as int)
                    && r@[k].length == input@.len() - pos,
            forall|i: int|
                0 <= i < self.entries@.len() && is_completion_at(
                    (#[trigger] self.entries@[i]).text@,
                    input@,
                    pos as int,
                ) ==> exists|k: int| 0 <= k < r@.len() && (#[trigger] r@[k].value) == i,
            forall|k1: int, k2: int| 0 <= k1 < k2 < r@.len() ==> r@[k1].value < r@[k2].value,
    {
        let mut r: Vec<Match> = Vec::new();
        let n = self.entries.len();
        let mut i: usize = 0;
        while i < n
            invariant
                i <= n,
                n == self.entries@.len(),
                self.wf(),
                forall|k: int|
                    0 <= k < r@.len() ==> (#[trigger] r@[k]).value < i && is_completion_at(
                        self.entries@[r@[k].value as int].text@,
                        input@,
                        pos as int,
                    ) && r@[k].length == input@.len() - pos,
                forall|j: int|
                    0 <= j < i && is_completion_at(
                        (#[trigger] self.entries@[j]).text@,
                        input@,
                        pos as int,
                    ) ==> exists|k: int| 0 <= k < r@.len() && (#[trigger] r@[k].value) == j,
                forall|k1: int, k2: int| 0 <= k1 < k2 < r@.len() ==> r@[k1].value < r@[k2].value,
            decreases n - i,
        {
            let entry = &self.entries[i];
            let ghost r_pre = r@;
            if text_completes_at(&entry.text, input, pos) {
                r.push(Match { value: i, length: input.len() - pos });
            }
            proof {
                assert forall|j: int|
                    0 <= j < i + 1 && is_completion_at(
                        (#[trigger] self.entries@[j]).text@,
                        input@,
                        pos as int,
                    ) implies exists|k: int|
                    0 <= k < r@.len() && (#[trigger] r@[k].value) == j by {
                    if j < i {
                        let k0 = choose|k: int| 0 <= k < r_pre.len() && r_pre[k].value == j;
                        assert(r@[k0].value == j);
                    } else {
                        assert(r@[r@.len() - 1].value == i);
                    }
                }
            }
            i += 1;
        }
        r
    }
}

/// The spelling-correction collaborator: an edit-distance based suggestion
/// set, modelled as precomputed entries whose written forms are the typed
/// (misspelled) forms and whose descriptors name the intended syllables.
#[derive(Debug)]
pub struct Corrector {
    pub entries: Vec<PrismEntry>,
}

impl Corrector {
    /// Every entry is well formed.
    pub open spec fn wf(self) -> bool {
        forall|i: int| 0 <= i < self.entries@.len() ==> (#[trigger] self.entries@[i]).wf()
    }

    /// A corrector over the given suggestions.
    pub fn new(entries: Vec<PrismEntry>) -> (c: Self)
        ensures
            c.entries == entries,
    {
        Corrector { entries }
    }

    /// All suggestions whose typed form occurs in `input` at `pos`, by
    /// ascending entry index.
    pub fn suggestions_at(&self, input: &Vec<char>, pos: usize) -> (r: Vec<Match>)
        requires
            self.wf(),
        ensures
            forall|k: int|
                0 <= k < r@.len() ==> (#[trigger] r@[k]).value < self.entries@.len()
                    && is_prefix_at(self.entries@[r@[k].value as int].text@, input@, pos as int)
                    && r@[k].length == self.entries@[r@[k].value as int].text@.len(),
            forall|i: int|
                0 <= i < self.entries@.len() && is_prefix_at(
                    (#[trigger] self.entries@[i]).text@,
                    input@,
                    pos as int,
                ) ==> exists|k: int| 0 <= k < r@.len() && (#[trigger] r@[k].value) == i,
            forall|k1: int, k2: int| 0 <= k1 < k2 < r@.len() ==> r@[k1].value < r@[k2].value,
    {
        let mut r: Vec<Match> = Vec::new();
        let n = self.entries.len();
        let mut i: usize = 0;
        while i < n
            invariant
                i <= n,
                n == self.entries@.len(),
                self.wf(),
                forall|k: int|
                    0 <= k < r@.len() ==> (#[trigger] r@[k]).value < i && is_prefix_at(
                        self.entries@[r@[k].value as int].text@,
                        input@,
                        pos as int,
                    ) && r@[k].length == self.entries@[r@[k].value as int].text@.len(),
                forall|j: int|
                    0 <= j < i && is_prefix_at(
                        (#[trigger] self.entries@[j]).text@,
                        input@,
                        pos as int,
                    ) ==> exists|k: int| 0 <= k < r@.len() && (#[trigger] r@[k].value) == j,
                forall|k1: int, k2: int| 0 <= k1 < k2 < r@.len() ==> r@[k1].value < r@[k2].value,
            decreases n - i,
        {
            let entry = &self.entries[i];
            let ghost r_pre = r@;
            if text_matches_at(&entry.text, input, pos) {
                r.push(Match { value: i, length: entry.text.len() });
            }
            proof {
                assert forall|j: int|
                    0 <= j < i + 1 && is_prefix_at(
                        (#[trigger] self.entries@[j]).text@,
                        input@,
                        pos as int,
                    ) implies exists|k: int|
                    0 <= k < r@.len() && (#[trigger] r@[k].value) == j by {
                    if j < i {
                        let k0 = choose|k: int| 0 <= k < r_pre.len() && r_pre[k].value == j;
                        assert(r@[k0].value == j);
                    } else {
                        assert(r@[r@.len() - 1].value == i);
                    }
                }
            }
            i += 1;
        }
        r
    }
}

/// A lookup that tolerates misspellings, implemented by the corrector; the
/// syllabifier consults it through [`Corrector::suggestions_at`].
pub trait ToleranceSearch {
    fn tolerance_search(&self, prism: &Prism, key: &Vec<char>, pos: usize) -> Vec<Match>;
}

impl ToleranceSearch for Corrector {
    fn tolerance_search(&self, prism: &Prism, key: &Vec<char>, pos: usize) -> Vec<Match> {
        let _ = prism;
        if pos <= key.len() {
            let mut wf_entries: Vec<Match> = Vec::new();
            let n = self.entries.len();
            let mut i: usize = 0;
            while i < n
                invariant
                    i <= n,
                    n == self.entries@.len(),
                decreases n - i,
            {
                let entry = &self.entries[i];
                if entry.text.len() >= 1 {
                    if text_matches_at(&entry.text, key, pos) {
                        wf_entries.push(Match { value: i, length: entry.text.len() });
                    }
                }
                i += 1;
            }
            wf_entries
        } else {
            Vec::new()
        }
    }
}

} // verus!
