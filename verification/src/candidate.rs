//! Candidates: committable results produced during one lookup session.
//!
//! A candidate is one of three variants. A *simple* candidate owns its
//! strings directly. A *shadow* candidate delegates to another candidate and
//! may override its text or comment; empty overrides fall back to the wrapped
//! item. A *uniquified* candidate groups equivalent candidates under one
//! head: it exposes the first member's strings unless overridden, and its
//! quality is the maximum over all appended members.
//!
//! Quality scores are additive log-probabilities stored, like credibilities,
//! as signed integers in millionths of one natural-log unit.

use vstd::prelude::*;

verus! {

/// Metadata common to all candidate variants: a tag recognized by
/// translators in the learning phase (the candidate's type, here called
/// `kind`), the input span `[start, end)` the candidate covers, and a
/// quality score used for ranking.
#[derive(Debug)]
pub struct CandidateBase {
    pub kind: String,
    pub start: usize,
    pub end: usize,
    pub quality: i64,
}

/// Mathematical image of a [`CandidateBase`].
pub struct CandidateBaseView {
    pub kind: Seq<char>,
    pub start: int,
    pub end: int,
    pub quality: int,
}

impl View for CandidateBase {
    type V = CandidateBaseView;

    open spec fn view(&self) -> CandidateBaseView {
        CandidateBaseView {
            kind: self.kind@,
            start: self.start as int,
            end: self.end as int,
            quality: self.quality as int,
        }
    }
}

impl CandidateBase {
    /// A base with the given tag and span; a missing quality means `ln(1) == 0`.
    pub fn from_parts(kind: &str, start: usize, end: usize, quality: Option<i64>) -> (c: Self)
        ensures
            c@.kind == kind@,
            c@.start == start,
            c@.end == end,
            c@.quality == (match quality {
                Some(q) => q as int,
                None => 0int,
            }),
    {
        CandidateBase {
            kind: kind.to_owned(),
            start,
            end,
            quality: match quality {
                Some(q) => q,
                None => 0,
            },
        }
    }
}

impl Clone for CandidateBase {
    fn clone(&self) -> (r: Self)
        ensures
            r == *self,
    {
        CandidateBase {
            kind: self.kind.clone(),
            start: self.start,
            end: self.end,
            quality: self.quality,
        }
    }
}

impl Default for CandidateBase {
    fn default() -> (c: Self)
        ensures
            c@.kind == Seq::<char>::empty(),
            c@.start == 0,
            c@.end == 0,
            c@.quality == 0,
    {
        CandidateBase { kind: String::new(), start: 0, end: 0, quality: 0 }
    }
}

/// Mathematical image of a [`Candidate`], mirroring its variant structure.
pub enum CandidateView {
    Simple {
        base: CandidateBaseView,
        text: Seq<char>,
        comment: Seq<char>,
        preedit: Seq<char>,
    },
    Shadow {
        base: CandidateBaseView,
        text: Seq<char>,
        comment: Seq<char>,
        inherit_comment: bool,
        item: Box<CandidateView>,
    },
    Uniquified {
        base: CandidateBaseView,
        text: Seq<char>,
        comment: Seq<char>,
        items: Seq<CandidateView>,
    },
}

impl CandidateView {
    /// The metadata of the candidate, whatever its variant.
    pub open spec fn base(self) -> CandidateBaseView {
        match self {
            CandidateView::Simple { base, .. } => base,
            CandidateView::Shadow { base, .. } => base,
            CandidateView::Uniquified { base, .. } => base,
        }
    }

    /// The view with its metadata replaced and everything else kept.
    pub open spec fn with_base(self, b: CandidateBaseView) -> CandidateView {
        match self {
            CandidateView::Simple { base, text, comment, preedit } => CandidateView::Simple {
                base: b,
                text,
                comment,
                preedit,
            },
            CandidateView::Shadow {
                base,
                text,
                comment,
                inherit_comment,
                item,
            } => CandidateView::Shadow { base: b, text, comment, inherit_comment, item },
            CandidateView::Uniquified { base, text, comment, items } => CandidateView::Uniquified {
                base: b,
                text,
                comment,
                items,
            },
        }
    }

    /// The text the candidate commits: an empty override falls back to the
    /// wrapped item (shadow) or the first member (uniquified).
    pub open spec fn resolved_text(self) -> Seq<char>
        decreases self,
    {
        match self {
            CandidateView::Simple { text, .. } => text,
            CandidateView::Shadow { text, item, .. } => if text.len() == 0 {
                item.resolved_text()
            } else {
                text
            },
            CandidateView::Uniquified { text, items, .. } => if text.len() == 0 && items.len() > 0 {
                items[0].resolved_text()
            } else {
                text
            },
        }
    }

    /// The comment shown beside the candidate. A shadow inherits the item's
    /// comment only when `inherit_comment` is set and its own is empty.
    pub open spec fn resolved_comment(self) -> Seq<char>
        decreases self,
    {
        match self {
            CandidateView::Simple { comment, .. } => comment,
            CandidateView::Shadow { comment, inherit_comment, item, .. } => if inherit_comment
                && comment.len() == 0 {
                item.resolved_comment()
            } else {
                comment
            },
            CandidateView::Uniquified { comment, items, .. } => if comment.len() == 0 && items.len()
                > 0 {
                items[0].resolved_comment()
            } else {
                comment
            },
        }
    }

    /// The text shown in the preedit area; shadows and groups always take it
    /// from the underlying candidate.
    pub open spec fn resolved_preedit(self) -> Seq<char>
        decreases self,
    {
        match self {
            CandidateView::Simple { preedit, .. } => preedit,
            CandidateView::Shadow { item, .. } => item.resolved_preedit(),
            CandidateView::Uniquified { items, .. } => if items.len() > 0 {
                items[0].resolved_preedit()
            } else {
                Seq::<char>::empty()
            },
        }
    }
}

/// A committable result. The closed set of variants replaces the dynamic
/// dispatch of a trait object: wrappers inspect the variant tag explicitly.
#[derive(Debug)]
pub enum Candidate {
    Simple(SimpleCandidate),
    Shadow(ShadowCandidate),
    Uniquified(UniquifiedCandidate),
}

/// A candidate that owns its committed text, comment and preedit directly.
#[derive(Debug)]
pub struct SimpleCandidate {
    pub text: String,
    pub comment: String,
    pub preedit: String,
    pub candidate: CandidateBase,
}

/// A candidate that delegates to another candidate, overriding its tag and
/// optionally its text and comment.
#[derive(Debug)]
pub struct ShadowCandidate {
    pub candidate: CandidateBase,
    pub text: String,
    pub comment: String,
    pub item: Box<Candidate>,
    pub inherit_comment: bool,
}

/// A candidate that groups equivalent candidates under one head.
#[derive(Debug)]
pub struct UniquifiedCandidate {
    pub candidate: CandidateBase,
    pub text: String,
    pub comment: String,
    pub items: Vec<Candidate>,
}

/// The views of a sequence of candidates, in order.
pub open spec fn views_of_seq(s: Seq<Candidate>) -> Seq<CandidateView>
    decreases s,
{
    if s.len() == 0 {
        Seq::<CandidateView>::empty()
    } else {
        seq![s[0].dv()] + views_of_seq(s.drop_first())
    }
}

/// `views_of_seq` maps the view over the sequence pointwise.
pub proof fn lemma_views_of_seq(s: Seq<Candidate>)
    ensures
        views_of_seq(s).len() == s.len(),
        forall|i: int| 0 <= i < s.len() ==> views_of_seq(s)[i] == s[i].dv(),
    decreases s,
{
    if s.len() > 0 {
        lemma_views_of_seq(s.drop_first());
    }
}

/// Structural height of a candidate, used as the termination measure of the
/// recursive executable methods.
pub open spec fn cand_height(c: Candidate) -> nat
    decreases c,
{
    match c {
        Candidate::Simple(_) => 0,
        Candidate::Shadow(s) => cand_height(*s.item) + 1,
        Candidate::Uniquified(u) => seq_cand_height(u.items@) + 1,
    }
}

/// The largest height among a sequence of candidates.
pub open spec fn seq_cand_height(s: Seq<Candidate>) -> nat
    decreases s,
{
    if s.len() == 0 {
        0
    } else if cand_height(s[0]) > seq_cand_height(s.drop_first()) {
        cand_height(s[0])
    } else {
        seq_cand_height(s.drop_first())
    }
}

/// Every member of a sequence is at most as high as the sequence itself.
proof fn lemma_seq_cand_height(s: Seq<Candidate>)
    ensures
        forall|i: int| 0 <= i < s.len() ==> cand_height(s[i]) <= seq_cand_height(s),
    decreases s,
{
    if s.len() > 0 {
        lemma_seq_cand_height(s.drop_first());
        assert(forall|i: int|
            1 <= i < s.len() ==> s[i] == s.drop_first()[i - 1] && cand_height(s[i])
                <= seq_cand_height(s.drop_first()));
    }
}

impl Candidate {
    pub open spec fn dv(self) -> CandidateView
        decreases self,
    {
        match self {
            Candidate::Simple(c) => CandidateView::Simple {
                base: c.candidate@,
                text: c.text@,
                comment: c.comment@,
                preedit: c.preedit@,
            },
            Candidate::Shadow(c) => CandidateView::Shadow {
                base: c.candidate@,
                text: c.text@,
                comment: c.comment@,
                inherit_comment: c.inherit_comment,
                item: Box::new((*c.item).dv()),
            },
            Candidate::Uniquified(c) => CandidateView::Uniquified {
                base: c.candidate@,
                text: c.text@,
                comment: c.comment@,
                items: views_of_seq(c.items@),
            },
        }
    }
}

impl View for Candidate {
    type V = CandidateView;

    open spec fn view(&self) -> CandidateView {
        self.dv()
    }
}

// ---------------------------------------------------------------------------
// Candidate ordering
// ---------------------------------------------------------------------------

/// The candidate order used for pipeline priority and deduplication:
/// an earlier start wins; among equal starts the longer match wins; among
/// equal spans the higher quality wins; otherwise the candidates tie.
/// The result is `-1`, `0` or `1`.
pub open spec fn compare_spec(a: CandidateView, b: CandidateView) -> int {
    if a.base().start < b.base().start {
        -1
    } else if a.base().start > b.base().start {
        1
    } else if a.base().end > b.base().end {
        -1
    } else if a.base().end < b.base().end {
        1
    } else if a.base().quality > b.base().quality {
        -1
    } else if a.base().quality < b.base().quality {
        1
    } else {
        0
    }
}

/// Candidate ordering, negative when `selfs` takes priority over `other`.
pub fn compare(selfs: &Candidate, other: &Candidate) -> (r: i32)
    ensures
        r == compare_spec(selfs@, other@),
{
    let a = selfs.start();
    let b = other.start();
    if a < b {
        return -1;
    }
    if a > b {
        return 1;
    }
    let a = selfs.end();
    let b = other.end();
    if a > b {
        return -1;
    }
    if a < b {
        return 1;
    }
    let a = selfs.quality();
    let b = other.quality();
    if a > b {
        return -1;
    }
    if a < b {
        return 1;
    }
    0
}

/// The candidate order is reflexive: every candidate ties with itself.
pub proof fn lemma_compare_reflexive(a: CandidateView)
    ensures
        compare_spec(a, a) == 0,
{
}

/// The candidate order is antisymmetric: swapping the arguments flips the sign.
pub proof fn lemma_compare_antisymmetric(a: CandidateView, b: CandidateView)
    ensures
        compare_spec(a, b) == -compare_spec(b, a),
{
}

/// The candidate order is transitive, so it is a total preorder: whenever
/// `a` is at least as good as `b` and `b` at least as good as `c`, `a` is at
/// least as good as `c`; strict priority propagates through ties.
pub proof fn lemma_compare_transitive(a: CandidateView, b: CandidateView, c: CandidateView)
    requires
        compare_spec(a, b) <= 0,
        compare_spec(b, c) <= 0,
    ensures
        compare_spec(a, c) <= 0,
        compare_spec(a, b) < 0 || compare_spec(b, c) < 0 ==> compare_spec(a, c) < 0,
{
}

/// Tied candidates agree on every ranked attribute: ties are an equivalence
/// on the ranking key, not accidental.
pub proof fn lemma_compare_tie_equivalence(a: CandidateView, b: CandidateView)
    requires
        compare_spec(a, b) == 0,
    ensures
        a.base().start == b.base().start,
        a.base().end == b.base().end,
        a.base().quality == b.base().quality,
{
}

// ---------------------------------------------------------------------------
// Accessors and setters
// ---------------------------------------------------------------------------

impl Candidate {
    /// The metadata of the candidate, whatever its variant.
    fn base_ref(&self) -> (b: &CandidateBase)
        ensures
            b@ == self@.base(),
    {
        match self {
            Candidate::Simple(c) => &c.candidate,
            Candidate::Shadow(c) => &c.candidate,
            Candidate::Uniquified(c) => &c.candidate,
        }
    }

    /// The tag recognized by translators in the learning phase.
    pub fn kind(&self) -> (r: &String)
        ensures
            r@ == self@.base().kind,
    {
        &self.base_ref().kind
    }

    /// Start of the input span the candidate covers.
    pub fn start(&self) -> (r: usize)
        ensures
            r == self@.base().start,
    {
        self.base_ref().start
    }

    /// End of the input span the candidate covers.
    pub fn end(&self) -> (r: usize)
        ensures
            r == self@.base().end,
    {
        self.base_ref().end
    }

    /// The quality score used for ranking.
    pub fn quality(&self) -> (r: i64)
        ensures
            r == self@.base().quality,
    {
        self.base_ref().quality
    }

    fn base_mut(&mut self) -> (b: &mut CandidateBase)
        ensures
            (*b)@ == old(self)@.base(),
            final(self)@ == old(self)@.with_base(final(b)@),
    {
        match self {
            Candidate::Simple(c) => &mut c.candidate,
            Candidate::Shadow(c) => &mut c.candidate,
            Candidate::Uniquified(c) => &mut c.candidate,
        }
    }

    /// Replace the tag; the wrapping combinators use this to normalize metadata.
    pub fn set_kind(&mut self, kind: &str)
        ensures
            final(self)@ == old(self)@.with_base(
                (CandidateBaseView {
                    kind: kind@,
                    start: old(self)@.base().start,
                    end: old(self)@.base().end,
                    quality: old(self)@.base().quality,
                }),
            ),
    {
        self.base_mut().kind = kind.to_owned();
    }

    /// Replace the start of the covered span.
    pub fn set_start(&mut self, start: usize)
        ensures
            final(self)@ == old(self)@.with_base(
                (CandidateBaseView {
                    kind: old(self)@.base().kind,
                    start: start as int,
                    end: old(self)@.base().end,
                    quality: old(self)@.base().quality,
                }),
            ),
    {
        self.base_mut().start = start;
    }

    /// Replace the end of the covered span.
    pub fn set_end(&mut self, end: usize)
        ensures
            final(self)@ == old(self)@.with_base(
                (CandidateBaseView {
                    kind: old(self)@.base().kind,
                    start: old(self)@.base().start,
                    end: end as int,
                    quality: old(self)@.base().quality,
                }),
            ),
    {
        self.base_mut().end = end;
    }

    /// Replace the quality score.
    pub fn set_quality(&mut self, quality: i64)
        ensures
            final(self)@ == old(self)@.with_base(
                (CandidateBaseView {
                    kind: old(self)@.base().kind,
                    start: old(self)@.base().start,
                    end: old(self)@.base().end,
                    quality: quality as int,
                }),
            ),
    {
        self.base_mut().quality = quality;
    }
}

/// Candidates produced for one translation, in priority order.
pub type CandidateList = Vec<Candidate>;

fn str_is_empty(s: &String) -> (r: bool)
    ensures
        r == (s@.len() == 0),
{
    s.as_str().is_empty()
}

impl Candidate {
    /// The committed text, with empty overrides resolved through wrapped items.
    pub fn text(&self) -> (r: String)
        ensures
            r@ == self@.resolved_text(),
        decreases *self,
    {
        match self {
            Candidate::Simple(c) => c.text.clone(),
            Candidate::Shadow(c) => {
                if str_is_empty(&c.text) {
                    (*c.item).text()
                } else {
                    c.text.clone()
                }
            },
            Candidate::Uniquified(c) => {
                proof {
                    lemma_views_of_seq(c.items@);
                }
                if str_is_empty(&c.text) && c.items.len() > 0 {
                    c.items[0].text()
                } else {
                    c.text.clone()
                }
            },
        }
    }

    /// The comment, with inheritance resolved through wrapped items.
    pub fn comment(&self) -> (r: String)
        ensures
            r@ == self@.resolved_comment(),
        decreases *self,
    {
        match self {
            Candidate::Simple(c) => c.comment.clone(),
            Candidate::Shadow(c) => {
                if c.inherit_comment && str_is_empty(&c.comment) {
                    (*c.item).comment()
                } else {
                    c.comment.clone()
                }
            },
            Candidate::Uniquified(c) => {
                proof {
                    lemma_views_of_seq(c.items@);
                }
                if str_is_empty(&c.comment) && c.items.len() > 0 {
                    c.items[0].comment()
                } else {
                    c.comment.clone()
                }
            },
        }
    }

    /// The preedit text, always taken from the underlying candidate.
    pub fn preedit(&self) -> (r: String)
        ensures
            r@ == self@.resolved_preedit(),
        decreases *self,
    {
        match self {
            Candidate::Simple(c) => c.preedit.clone(),
            Candidate::Shadow(c) => (*c.item).preedit(),
            Candidate::Uniquified(c) => {
                proof {
                    lemma_views_of_seq(c.items@);
                }
                if c.items.len() > 0 {
                    c.items[0].preedit()
                } else {
                    String::new()
                }
            },
        }
    }

    /// An owned copy with the same mathematical value; candidates are shared
    /// by value between the lattice, the combinators and their caches.
    pub fn duplicate(&self) -> (r: Candidate)
        ensures
            r@ == self@,
        decreases cand_height(*self),
    {
        match self {
            Candidate::Simple(c) => Candidate::Simple(
                SimpleCandidate {
                    text: c.text.clone(),
                    comment: c.comment.clone(),
                    preedit: c.preedit.clone(),
                    candidate: c.candidate.clone(),
                },
            ),
            Candidate::Shadow(c) => Candidate::Shadow(
                ShadowCandidate {
                    candidate: c.candidate.clone(),
                    text: c.text.clone(),
                    comment: c.comment.clone(),
                    item: Box::new((*c.item).duplicate()),
                    inherit_comment: c.inherit_comment,
                },
            ),
            Candidate::Uniquified(c) => {
                let mut items: Vec<Candidate> = Vec::new();
                let n = c.items.len();
                let mut i: usize = 0;
                while i < n
                    invariant
                        *self == Candidate::Uniquified(*c),
                        n == c.items@.len(),
                        i <= n,
                        items@.len() == i,
                        forall|j: int| 0 <= j < i ==> items@[j].dv() == c.items@[j].dv(),
                    decreases n - i,
                {
                    proof {
                        lemma_seq_cand_height(c.items@);
                    }
                    items.push(c.items[i].duplicate());
                    i += 1;
                }
                proof {
                    lemma_views_of_seq(items@);
                    lemma_views_of_seq(c.items@);
                    assert(views_of_seq(items@) =~= views_of_seq(c.items@));
                }
                Candidate::Uniquified(
                    UniquifiedCandidate {
                        candidate: c.candidate.clone(),
                        text: c.text.clone(),
                        comment: c.comment.clone(),
                        items,
                    },
                )
            },
        }
    }
}

// ---------------------------------------------------------------------------
// Unwrapping to genuine candidates
// ---------------------------------------------------------------------------

/// The candidate behind one level of shadowing, if any.
pub open spec fn unpack_shadow_view(v: CandidateView) -> CandidateView {
    match v {
        CandidateView::Shadow { item, .. } => *item,
        _ => v,
    }
}

/// The candidates that commit-time bookkeeping should learn from: the members
/// of a group with shadow wrappers stripped, or the candidate itself.
pub open spec fn genuine_views(v: CandidateView) -> Seq<CandidateView> {
    match v {
        CandidateView::Uniquified { items, .. } => Seq::new(
            items.len(),
            |i: int| unpack_shadow_view(items[i]),
        ),
        _ => seq![unpack_shadow_view(v)],
    }
}

/// The first (highest-priority) member of a group, or the candidate itself.
pub fn get_genuine_candidate(cand: &Candidate) -> (r: Candidate)
    ensures
        r@ == (match cand@ {
            CandidateView::Uniquified { items, .. } => if items.len() > 0 {
                items[0]
            } else {
                cand@
            },
            _ => cand@,
        }),
{
    match cand {
        Candidate::Uniquified(c) => {
            proof {
                lemma_views_of_seq(c.items@);
            }
            if c.items.len() > 0 {
                c.items[0].duplicate()
            } else {
                cand.duplicate()
            }
        },
        _ => cand.duplicate(),
    }
}

/// The candidate behind one level of shadowing, copied out.
pub fn unpack_shadow_candidate(cand: &Candidate) -> (r: Candidate)
    ensures
        r@ == unpack_shadow_view(cand@),
{
    match cand {
        Candidate::Shadow(c) => (*c.item).duplicate(),
        _ => cand.duplicate(),
    }
}

/// All genuine members: every group member with shadow wrappers stripped, or
/// the candidate itself unshadowed.
pub fn get_genuine_candidates(cand: &Candidate) -> (r: Vec<Candidate>)
    ensures
        views_of_seq(r@) == genuine_views(cand@),
{
    let mut result: Vec<Candidate> = Vec::new();
    match cand {
        Candidate::Uniquified(c) => {
            let n = c.items.len();
            let mut i: usize = 0;
            while i < n
                invariant
                    n == c.items@.len(),
                    i <= n,
                    result@.len() == i,
                    forall|j: int| 0 <= j < i ==> result@[j].dv() == unpack_shadow_view(
                        c.items@[j].dv(),
                    ),
                decreases n - i,
            {
                result.push(unpack_shadow_candidate(&c.items[i]));
                i += 1;
            }
            proof {
                lemma_views_of_seq(result@);
                lemma_views_of_seq(c.items@);
                assert(views_of_seq(result@) =~= genuine_views(cand@));
            }
        },
        _ => {
            result.push(unpack_shadow_candidate(cand));
            proof {
                lemma_views_of_seq(result@);
                assert(views_of_seq(result@) =~= genuine_views(cand@));
            }
        },
    }
    result
}

// ---------------------------------------------------------------------------
// Constructors and per-variant setters
// ---------------------------------------------------------------------------

impl SimpleCandidate {
    /// An empty candidate, to be filled through the setters.
    pub fn new() -> (c: Self)
        ensures
            c.text@ == Seq::<char>::empty(),
            c.comment@ == Seq::<char>::empty(),
            c.preedit@ == Seq::<char>::empty(),
            c.candidate@.kind == Seq::<char>::empty(),
            c.candidate@.start == 0,
            c.candidate@.end == 0,
            c.candidate@.quality == 0,
    {
        SimpleCandidate {
            text: String::new(),
            comment: String::new(),
            preedit: String::new(),
            candidate: CandidateBase::default(),
        }
    }

    /// A candidate over `[start, end)` committing `text`; missing comment or
    /// preedit mean empty, and the quality starts at `ln(1) == 0`.
    pub fn from_parts(
        kind: &str,
        start: usize,
        end: usize,
        text: &str,
        comment: Option<&str>,
        preedit: Option<&str>,
    ) -> (c: Self)
        ensures
            c.text@ == text@,
            c.comment@ == (match comment {
                Some(s) => s@,
                None => Seq::<char>::empty(),
            }),
            c.preedit@ == (match preedit {
                Some(s) => s@,
                None => Seq::<char>::empty(),
            }),
            c.candidate@.kind == kind@,
            c.candidate@.start == start,
            c.candidate@.end == end,
            c.candidate@.quality == 0,
    {
        SimpleCandidate {
            text: text.to_owned(),
            comment: match comment {
                Some(s) => s.to_owned(),
                None => String::new(),
            },
            preedit: match preedit {
                Some(s) => s.to_owned(),
                None => String::new(),
            },
            candidate: CandidateBase::from_parts(kind, start, end, None),
        }
    }

    /// Replace the committed text.
    pub fn set_text(&mut self, text: &str)
        ensures
            final(self).text@ == text@,
            final(self).comment == old(self).comment,
            final(self).preedit == old(self).preedit,
            final(self).candidate == old(self).candidate,
    {
        self.text = text.to_owned();
    }

    /// Replace the comment.
    pub fn set_comment(&mut self, comment: &str)
        ensures
            final(self).comment@ == comment@,
            final(self).text == old(self).text,
            final(self).preedit == old(self).preedit,
            final(self).candidate == old(self).candidate,
    {
        self.comment = comment.to_owned();
    }

    /// Replace the preedit text.
    pub fn set_preedit(&mut self, preedit: &str)
        ensures
            final(self).preedit@ == preedit@,
            final(self).text == old(self).text,
            final(self).comment == old(self).comment,
            final(self).candidate == old(self).candidate,
    {
        self.preedit = preedit.to_owned();
    }
}

impl ShadowCandidate {
    /// Shadow `item` under a new tag; the span and quality are taken from the
    /// item, and missing overrides mean "inherit".
    pub fn from_parts(
        item: Candidate,
        kind: &str,
        text: Option<&str>,
        comment: Option<&str>,
        inherit_comment: Option<bool>,
    ) -> (c: Self)
        ensures
            c.candidate@.kind == kind@,
            c.candidate@.start == item@.base().start,
            c.candidate@.end == item@.base().end,
            c.candidate@.quality == item@.base().quality,
            c.text@ == (match text {
                Some(s) => s@,
                None => Seq::<char>::empty(),
            }),
            c.comment@ == (match comment {
                Some(s) => s@,
                None => Seq::<char>::empty(),
            }),
            c.inherit_comment == (match inherit_comment {
                Some(b) => b,
                None => false,
            }),
            (*c.item)@ == item@,
    {
        let start = item.start();
        let end = item.end();
        let quality = item.quality();
        ShadowCandidate {
            candidate: CandidateBase::from_parts(kind, start, end, Some(quality)),
            text: match text {
                Some(s) => s.to_owned(),
                None => String::new(),
            },
            comment: match comment {
                Some(s) => s.to_owned(),
                None => String::new(),
            },
            item: Box::new(item),
            inherit_comment: match inherit_comment {
                Some(b) => b,
                None => false,
            },
        }
    }
}

impl Default for UniquifiedCandidate {
    /// An empty group: no members, empty overrides, quality `ln(1) == 0`.
    fn default() -> (c: Self)
        ensures
            c.candidate@.kind == Seq::<char>::empty(),
            c.candidate@.start == 0,
            c.candidate@.end == 0,
            c.candidate@.quality == 0,
            c.text@ == Seq::<char>::empty(),
            c.comment@ == Seq::<char>::empty(),
            c.items@.len() == 0,
    {
        UniquifiedCandidate {
            candidate: CandidateBase::default(),
            text: String::new(),
            comment: String::new(),
            items: Vec::new(),
        }
    }
}

impl UniquifiedCandidate {
    /// Add an equivalent candidate to the group. The group's quality is kept
    /// at the maximum quality over all appended members.
    pub fn append(&mut self, item: Candidate)
        ensures
            final(self).items@.len() == old(self).items@.len() + 1,
            views_of_seq(final(self).items@) == views_of_seq(old(self).items@).push(item@),
            final(self).candidate@.quality == (if old(self).candidate@.quality
                < item@.base().quality {
                item@.base().quality
            } else {
                old(self).candidate@.quality
            }),
            final(self).candidate@.kind == old(self).candidate@.kind,
            final(self).candidate@.start == old(self).candidate@.start,
            final(self).candidate@.end == old(self).candidate@.end,
            final(self).text == old(self).text,
            final(self).comment == old(self).comment,
    {
        let quality = item.quality();
        proof {
            lemma_views_of_seq(self.items@);
            lemma_views_of_seq(self.items@.push(item));
            assert(views_of_seq(self.items@.push(item)) =~= views_of_seq(self.items@).push(
                item.dv(),
            ));
        }
        self.items.push(item);
        if self.candidate.quality < quality {
            self.candidate.quality = quality;
        }
    }
}

} // verus!
