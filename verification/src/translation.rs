//! Translations: lazy, single-pass cursors over ordered candidate streams,
//! composable through combinators.
//!
//! A translation is `Active` (its current candidate is available through
//! `peek`) or `Exhausted` (a terminal state: `peek` returns nothing and
//! `next` is a no-op returning `false`). `next` advances by exactly one
//! candidate. The closed set of variants replaces the dynamic dispatch of a
//! trait object:
//!
//! * `Unique` wraps zero or one candidate;
//! * `Fifo` wraps a pre-populated list with a cursor and supports `append`;
//! * `Union` concatenates sub-translations, serving the front to exhaustion;
//! * `Merged` is a continuous k-way merge that always elects the
//!   highest-priority sub-translation, breaking ties by insertion order;
//! * `Cache` memoizes the head of its wrapped translation;
//! * `Distinct` suppresses candidates whose committed text was already
//!   surfaced;
//! * `Prefetch` keeps a lookahead buffer without changing the order.

use vstd::prelude::*;

use crate::candidate::{compare, compare_spec, Candidate, CandidateList, CandidateView};

verus! {

/// A lazy stream of ranked candidates. No translation is ever rewound.
pub enum Translation {
    Unique(UniqueTranslation),
    Fifo(FifoTranslation),
    Union(UnionTranslation),
    Merged(MergedTranslation),
    Cache(CacheTranslation),
    Distinct(DistinctTranslation),
    Prefetch(PrefetchTranslation),
}

/// A translation over zero or one candidate.
pub struct UniqueTranslation {
    pub exhausted: bool,
    pub candidate: Option<Candidate>,
}

/// A translation over a pre-populated ordered list, with a cursor.
pub struct FifoTranslation {
    pub exhausted: bool,
    pub candies: CandidateList,
    pub cursor: usize,
}

/// Concatenation of sub-translations: the front one is served to exhaustion,
/// then dropped; no cross-comparison happens.
pub struct UnionTranslation {
    pub exhausted: bool,
    pub translations: Vec<Translation>,
}

/// A continuous k-way merge of pre-sorted streams. The elected
/// sub-translation is the one whose head currently wins the candidate order;
/// an exhausted sub-translation is removed for good.
pub struct MergedTranslation {
    pub exhausted: bool,
    pub previous_candidates: CandidateList,
    pub translations: Vec<Translation>,
    pub elected: usize,
}

/// Memoizes the wrapped translation's head so that repeated peeks do not
/// recompute it.
pub struct CacheTranslation {
    pub exhausted: bool,
    pub translation: Box<Translation>,
    pub cache: Option<Candidate>,
}

/// Suppresses candidates whose committed text duplicates one already
/// surfaced. The surfaced texts are tracked in `candidate_set`; the ghost
/// `yielded` records the order in which they were surfaced.
pub struct DistinctTranslation {
    pub exhausted: bool,
    pub translation: Box<Translation>,
    pub candidate_set: Vec<String>,
    pub yielded: Ghost<Seq<Seq<char>>>,
}

/// Keeps a lookahead buffer of upcoming candidates, replenished lazily; the
/// candidate order is unchanged, only the timing of retrieval.
pub struct PrefetchTranslation {
    pub exhausted: bool,
    pub translation: Box<Translation>,
    pub cache: Vec<Candidate>,
}

// ---------------------------------------------------------------------------
// Structural height: the termination measure for recursive traversals
// ---------------------------------------------------------------------------

/// Structural height of a translation.
pub open spec fn trans_height(t: Translation) -> nat
    decreases t,
{
    match t {
        Translation::Unique(_) => 0,
        Translation::Fifo(_) => 0,
        Translation::Union(u) => seq_trans_height(u.translations@) + 1,
        Translation::Merged(m) => seq_trans_height(m.translations@) + 1,
        Translation::Cache(c) => trans_height(*c.translation) + 1,
        Translation::Distinct(d) => trans_height(*d.translation) + 1,
        Translation::Prefetch(p) => trans_height(*p.translation) + 1,
    }
}

/// The largest height among a sequence of translations.
pub open spec fn seq_trans_height(s: Seq<Translation>) -> nat
    decreases s,
{
    if s.len() == 0 {
        0
    } else if trans_height(s[0]) > seq_trans_height(s.drop_first()) {
        trans_height(s[0])
    } else {
        seq_trans_height(s.drop_first())
    }
}

/// Every member of a sequence is at most as high as the sequence itself.
pub proof fn lemma_seq_trans_height(s: Seq<Translation>)
    ensures
        forall|i: int| 0 <= i < s.len() ==> trans_height(s[i]) <= seq_trans_height(s),
    decreases s,
{
    if s.len() > 0 {
        lemma_seq_trans_height(s.drop_first());
        assert(forall|i: int|
            1 <= i < s.len() ==> s[i] == s.drop_first()[i - 1] && trans_height(s[i])
                <= seq_trans_height(s.drop_first()));
    }
}

/// Removing a member never raises the height of a sequence.
pub proof fn lemma_seq_height_remove(s: Seq<Translation>, i: int)
    requires
        0 <= i < s.len(),
    ensures
        seq_trans_height(s.remove(i)) <= seq_trans_height(s),
    decreases s,
{
    if i == 0 {
        assert(s.remove(0) =~= s.drop_first());
    } else {
        lemma_seq_height_remove(s.drop_first(), i - 1);
        assert(s.remove(i).drop_first() =~= s.drop_first().remove(i - 1));
        assert(s.remove(i)[0] == s[0]);
    }
}

/// Inserting a member bounds the height by the taller of the two sides.
pub proof fn lemma_seq_height_insert(s: Seq<Translation>, i: int, t: Translation)
    requires
        0 <= i <= s.len(),
    ensures
        seq_trans_height(s.insert(i, t)) <= seq_trans_height(s) || seq_trans_height(s.insert(i, t))
            <= trans_height(t),
    decreases s,
{
    if i == 0 {
        assert(s.insert(0, t).drop_first() =~= s);
        assert(s.insert(0, t)[0] == t);
    } else {
        lemma_seq_height_insert(s.drop_first(), i - 1, t);
        assert(s.insert(i, t).drop_first() =~= s.drop_first().insert(i - 1, t));
        assert(s.insert(i, t)[0] == s[0]);
    }
}

// ---------------------------------------------------------------------------
// Exhaustion, head and remaining count
// ---------------------------------------------------------------------------

impl Translation {
    /// Whether the translation is in its terminal state.
    pub open spec fn spec_exhausted(self) -> bool {
        match self {
            Translation::Unique(u) => u.exhausted,
            Translation::Fifo(f) => f.exhausted,
            Translation::Union(u) => u.exhausted,
            Translation::Merged(m) => m.exhausted,
            Translation::Cache(c) => c.exhausted,
            Translation::Distinct(d) => d.exhausted,
            Translation::Prefetch(p) => p.exhausted,
        }
    }

    /// The current candidate, if the translation is active.
    pub open spec fn spec_peek(self) -> Option<CandidateView>
        decreases trans_height(self),
        via Self::spec_peek_dec
    {
        if self.spec_exhausted() {
            None::<CandidateView>
        } else {
            match self {
                Translation::Unique(u) => match u.candidate {
                    Some(c) => Some(c@),
                    None => None,
                },
                Translation::Fifo(f) => if f.cursor < f.candies@.len() {
                    Some(f.candies@[f.cursor as int]@)
                } else {
                    None
                },
                Translation::Union(u) => if u.translations@.len() > 0 {
                    u.translations@[0].spec_peek()
                } else {
                    None
                },
                Translation::Merged(m) => if m.elected < m.translations@.len() {
                    m.translations@[m.elected as int].spec_peek()
                } else {
                    None
                },
                Translation::Cache(c) => match c.cache {
                    Some(cand) => Some(cand@),
                    None => None,
                },
                Translation::Distinct(d) => d.translation.spec_peek(),
                Translation::Prefetch(p) => if p.cache@.len() > 0 {
                    Some(p.cache@[0]@)
                } else {
                    p.translation.spec_peek()
                },
            }
        }
    }

    #[via_fn]
    proof fn spec_peek_dec(self) {
        match self {
            Translation::Union(u) => lemma_seq_trans_height(u.translations@),
            Translation::Merged(m) => lemma_seq_trans_height(m.translations@),
            _ => (),
        }
    }

    /// An upper bound shape of the candidates still to be served; `next`
    /// strictly decreases it while the translation is active.
    pub open spec fn rem(self) -> nat
        decreases trans_height(self), 0int, 0int,
        via Self::rem_dec
    {
        match self {
            Translation::Unique(u) => if u.exhausted {
                0
            } else {
                1
            },
            Translation::Fifo(f) => if f.exhausted || f.candies@.len() < f.cursor {
                0
            } else {
                (f.candies@.len() - f.cursor) as nat
            },
            Translation::Union(u) => seq_rem(u.translations@),
            Translation::Merged(m) => seq_rem(m.translations@),
            Translation::Cache(c) => c.translation.rem(),
            Translation::Distinct(d) => d.translation.rem(),
            Translation::Prefetch(p) => p.cache@.len() + p.translation.rem(),
        }
    }

    #[via_fn]
    proof fn rem_dec(self) {
        match self {
            Translation::Union(u) => lemma_seq_trans_height(u.translations@),
            Translation::Merged(m) => lemma_seq_trans_height(m.translations@),
            _ => (),
        }
    }
}

/// Total remaining count over a sequence of translations.
pub open spec fn seq_rem(s: Seq<Translation>) -> nat
    decreases seq_trans_height(s), 1int, s.len() as int,
    via seq_rem_dec
{
    if s.len() == 0 {
        0
    } else {
        s[0].rem() + seq_rem(s.drop_first())
    }
}

#[via_fn]
proof fn seq_rem_dec(s: Seq<Translation>) {
    if s.len() > 0 {
        lemma_seq_trans_height(s);
        assert(seq_trans_height(s.drop_first()) <= seq_trans_height(s));
    }
}

/// Removing a member subtracts exactly its remaining count from the total.
pub proof fn lemma_seq_rem_remove(s: Seq<Translation>, i: int)
    requires
        0 <= i < s.len(),
    ensures
        seq_rem(s.remove(i)) + s[i].rem() == seq_rem(s),
    decreases s,
{
    if i == 0 {
        assert(s.remove(0) =~= s.drop_first());
    } else {
        lemma_seq_rem_remove(s.drop_first(), i - 1);
        assert(s.remove(i).drop_first() =~= s.drop_first().remove(i - 1));
        assert(s.remove(i)[0] == s[0]);
    }
}

/// Inserting a member adds exactly its remaining count to the total.
pub proof fn lemma_seq_rem_insert(s: Seq<Translation>, i: int, t: Translation)
    requires
        0 <= i <= s.len(),
    ensures
        seq_rem(s.insert(i, t)) == seq_rem(s) + t.rem(),
    decreases s,
{
    if i == 0 {
        assert(s.insert(0, t).drop_first() =~= s);
        assert(s.insert(0, t)[0] == t);
    } else {
        lemma_seq_rem_insert(s.drop_first(), i - 1, t);
        assert(s.insert(i, t).drop_first() =~= s.drop_first().insert(i - 1, t));
        assert(s.insert(i, t)[0] == s[0]);
    }
}

// ---------------------------------------------------------------------------
// Well-formedness
// ---------------------------------------------------------------------------

/// Every member of the sequence is a well-formed, active translation: the
/// state the container combinators maintain for their sub-translations.
pub open spec fn seq_wf_active(s: Seq<Translation>) -> bool
    decreases seq_trans_height(s), 1int, s.len() as int,
    via seq_wf_active_dec
{
    if s.len() == 0 {
        true
    } else {
        s[0].wf() && !s[0].spec_exhausted() && seq_wf_active(s.drop_first())
    }
}

#[via_fn]
proof fn seq_wf_active_dec(s: Seq<Translation>) {
    if s.len() > 0 {
        lemma_seq_trans_height(s);
        assert(seq_trans_height(s.drop_first()) <= seq_trans_height(s));
    }
}

impl Translation {
    /// Internal consistency of a translation, preserved by every operation:
    /// an active translation always has a current candidate, containers hold
    /// only well-formed active members, the merge's elected member wins the
    /// candidate order against every member (strictly against earlier ones),
    /// and a deduplicating translation's head is never a text it has already
    /// surfaced.
    pub open spec fn wf(self) -> bool
        decreases trans_height(self), 0int, 0int,
    {
        match self {
            Translation::Unique(u) => u.candidate is None ==> u.exhausted,
            Translation::Fifo(f) => f.cursor <= f.candies@.len() && (!f.exhausted ==> f.cursor
                < f.candies@.len()),
            Translation::Union(u) => seq_wf_active(u.translations@) && (u.exhausted
                <==> u.translations@.len() == 0),
            Translation::Merged(m) => seq_wf_active(m.translations@) && (m.exhausted
                <==> m.translations@.len() == 0) && (!m.exhausted ==> m.elected
                < m.translations@.len() && merged_elected_ok(m)),
            Translation::Cache(c) => c.translation.wf() && c.exhausted
                == c.translation.spec_exhausted() && (match c.cache {
                Some(cand) => c.translation.spec_peek() == Some(cand@),
                None => c.translation.spec_peek() is None,
            }),
            Translation::Distinct(d) => d.translation.wf() && d.exhausted
                == d.translation.spec_exhausted() && seen_matches(d) && distinct_texts(d.yielded@)
                && (!d.exhausted ==> !d.yielded@.contains(
                d.translation.spec_peek().unwrap().resolved_text(),
            )),
            Translation::Prefetch(p) => p.translation.wf() && (p.exhausted <==> (p.cache@.len()
                == 0 && p.translation.spec_exhausted())),
        }
    }
}

/// The elected member's head wins the candidate order against every member's
/// head, and strictly against every earlier member's head: election is
/// deterministic, ties broken by insertion order.
pub open spec fn merged_elected_ok(m: MergedTranslation) -> bool {
    &&& forall|k: int|
        0 <= k < m.translations@.len() ==> compare_spec(
            m.translations@[m.elected as int].spec_peek().unwrap(),
            (#[trigger] m.translations@[k]).spec_peek().unwrap(),
        ) <= 0
    &&& forall|k: int|
        0 <= k < m.elected ==> compare_spec(
            m.translations@[m.elected as int].spec_peek().unwrap(),
            (#[trigger] m.translations@[k]).spec_peek().unwrap(),
        ) < 0
}

/// The recorded set of surfaced texts holds exactly the texts of the ghost
/// history, without saying in what order.
pub open spec fn seen_matches(d: DistinctTranslation) -> bool {
    seen_matches_on(d.candidate_set@, d.yielded@)
}

/// Every recorded text was surfaced, and every surfaced text is recorded.
pub open spec fn seen_matches_on(set: Seq<String>, yielded: Seq<Seq<char>>) -> bool {
    (forall|i: int| 0 <= i < set.len() ==> yielded.contains(#[trigger] set[i]@)) && (forall|i: int|
        0 <= i < yielded.len() ==> exists|j: int|
            0 <= j < set.len() && set[j]@ == #[trigger] yielded[i])
}

/// No text occurs twice.
pub open spec fn distinct_texts(s: Seq<Seq<char>>) -> bool {
    forall|i: int, j: int| 0 <= i < j < s.len() ==> s[i] != s[j]
}

/// Pointwise reading of `seq_wf_active`.
pub proof fn lemma_seq_wf_active(s: Seq<Translation>)
    ensures
        seq_wf_active(s) <==> (forall|i: int|
            0 <= i < s.len() ==> s[i].wf() && !(#[trigger] s[i]).spec_exhausted()),
    decreases s,
{
    if s.len() > 0 {
        lemma_seq_wf_active(s.drop_first());
        assert(forall|i: int| 1 <= i < s.len() ==> s[i] == s.drop_first()[i - 1]);
        if s[0].wf() && !s[0].spec_exhausted() && seq_wf_active(s.drop_first()) {
            assert(forall|i: int|
                0 <= i < s.len() ==> s[i].wf() && !(#[trigger] s[i]).spec_exhausted());
        }
        if forall|i: int| 0 <= i < s.len() ==> s[i].wf() && !(#[trigger] s[i]).spec_exhausted() {
            assert(forall|i: int|
                0 <= i < s.drop_first().len() ==> #[trigger] s.drop_first()[i] == s[i + 1]);
        }
    }
}

/// A well-formed active translation always has a current candidate, and an
/// exhausted one never has one.
pub proof fn lemma_wf_peek(t: Translation)
    requires
        t.wf(),
    ensures
        !t.spec_exhausted() ==> t.spec_peek() is Some,
        t.spec_exhausted() ==> t.spec_peek() is None,
    decreases trans_height(t),
{
    match t {
        Translation::Union(u) => {
            if !u.exhausted {
                lemma_seq_wf_active(u.translations@);
                lemma_seq_trans_height(u.translations@);
                lemma_wf_peek(u.translations@[0]);
            }
        },
        Translation::Merged(m) => {
            if !m.exhausted {
                lemma_seq_wf_active(m.translations@);
                lemma_seq_trans_height(m.translations@);
                lemma_wf_peek(m.translations@[m.elected as int]);
            }
        },
        Translation::Cache(c) => {
            lemma_wf_peek(*c.translation);
        },
        Translation::Distinct(d) => {
            lemma_wf_peek(*d.translation);
        },
        Translation::Prefetch(p) => {
            if !p.exhausted && p.cache.len() == 0 {
                lemma_wf_peek(*p.translation);
            }
        },
        _ => {},
    }
}

// ---------------------------------------------------------------------------
// Stepping
// ---------------------------------------------------------------------------

/// What one `next` step does, variant by variant. A `Unique` exhausts and a
/// `Fifo` advances its cursor, both pinned exactly. A `Union` steps its
/// front source by exactly one, leaves the rest untouched, and pops the
/// front exactly when it exhausts. A `Merged` steps only its elected source
/// and removes it exactly when it exhausts, keeping every other source. A
/// `Cache` steps its wrapped source exactly once. A `Distinct` surfaces its
/// head, which joins the yielded history. A `Prefetch` serves the front of
/// its buffer, or — with an empty buffer — steps its source exactly once:
/// candidates are never reordered or dropped.
pub open spec fn next_shape(pre: Translation, post: Translation, advanced: bool) -> bool
    decreases trans_height(pre),
    via next_shape_dec
{
    if pre.spec_exhausted() {
        post == pre && !advanced
    } else {
        match pre {
            Translation::Unique(u) => advanced && post == Translation::Unique(
                UniqueTranslation { exhausted: true, candidate: u.candidate },
            ),
            Translation::Fifo(f) => advanced && post == Translation::Fifo(
                FifoTranslation {
                    exhausted: f.cursor + 1 >= f.candies@.len(),
                    candies: f.candies,
                    cursor: (f.cursor + 1) as usize,
                },
            ),
            Translation::Union(u) => {
                &&& advanced
                &&& u.translations@.len() > 0
                &&& (match post {
                    Translation::Union(u2) => {
                        &&& u2.exhausted == (u2.translations@.len() == 0)
                        &&& (if u2.translations@.len() == u.translations@.len() {
                            &&& u2.translations@.drop_first() == u.translations@.drop_first()
                            &&& !u2.translations@[0].spec_exhausted()
                            &&& (next_shape(u.translations@[0], u2.translations@[0], true)
                                || next_shape(u.translations@[0], u2.translations@[0], false))
                        } else {
                            &&& u2.translations@ == u.translations@.drop_first()
                            &&& exists|front2: Translation|
                                #![trigger front2.spec_exhausted()]
                                {
                                    &&& front2.spec_exhausted()
                                    &&& (next_shape(u.translations@[0], front2, true)
                                        || next_shape(u.translations@[0], front2, false))
                                }
                        })
                    },
                    _ => false,
                })
            },
            Translation::Merged(m) => {
                &&& advanced == !post.spec_exhausted()
                &&& m.elected < m.translations@.len()
                &&& (match post {
                    Translation::Merged(m2) => {
                        &&& m2.previous_candidates == m.previous_candidates
                        &&& (if m2.translations@.len() == m.translations@.len() {
                            &&& m2.translations@ == m.translations@.update(
                                m.elected as int,
                                m2.translations@[m.elected as int],
                            )
                            &&& !m2.translations@[m.elected as int].spec_exhausted()
                            &&& (next_shape(
                                m.translations@[m.elected as int],
                                m2.translations@[m.elected as int],
                                true,
                            ) || next_shape(
                                m.translations@[m.elected as int],
                                m2.translations@[m.elected as int],
                                false,
                            ))
                        } else {
                            &&& m2.translations@ == m.translations@.remove(m.elected as int)
                            &&& exists|t2: Translation|
                                #![trigger t2.spec_exhausted()]
                                {
                                    &&& t2.spec_exhausted()
                                    &&& (next_shape(
                                        m.translations@[m.elected as int],
                                        t2,
                                        true,
                                    ) || next_shape(
                                        m.translations@[m.elected as int],
                                        t2,
                                        false,
                                    ))
                                }
                        })
                    },
                    _ => false,
                })
            },
            Translation::Cache(c) => advanced && (match post {
                Translation::Cache(c2) => next_shape(*c.translation, *c2.translation, true)
                    || next_shape(*c.translation, *c2.translation, false),
                _ => false,
            }),
            Translation::Distinct(d) => advanced && (match post {
                Translation::Distinct(d2) => d2.yielded@ == d.yielded@.push(
                    d.translation.spec_peek().unwrap().resolved_text(),
                ),
                _ => false,
            }),
            Translation::Prefetch(p) => advanced && (match post {
                Translation::Prefetch(p2) => if p.cache@.len() > 0 {
                    p2.cache@ == p.cache@.drop_first() && p2.translation == p.translation
                } else {
                    p2.cache@.len() == 0 && (next_shape(*p.translation, *p2.translation, true)
                        || next_shape(*p.translation, *p2.translation, false))
                },
                _ => false,
            }),
        }
    }
}

#[via_fn]
proof fn next_shape_dec(pre: Translation, post: Translation, advanced: bool) {
    match pre {
        Translation::Union(u) => lemma_seq_trans_height(u.translations@),
        Translation::Merged(m) => lemma_seq_trans_height(m.translations@),
        _ => (),
    }
}

impl Translation {
    /// Whether the translation is in its terminal state.
    pub fn is_exhausted(&self) -> (r: bool)
        ensures
            r == self.spec_exhausted(),
    {
        match self {
            Translation::Unique(u) => u.exhausted,
            Translation::Fifo(f) => f.exhausted,
            Translation::Union(u) => u.exhausted,
            Translation::Merged(m) => m.exhausted,
            Translation::Cache(c) => c.exhausted,
            Translation::Distinct(d) => d.exhausted,
            Translation::Prefetch(p) => p.exhausted,
        }
    }

    /// The current candidate of an active translation, copied out; an
    /// exhausted translation yields nothing. `peek` never advances state.
    pub fn peek(&self) -> (r: Option<Candidate>)
        requires
            self.wf(),
        ensures
            (match r {
                Some(c) => self.spec_peek() == Some(c@),
                None => self.spec_peek() is None,
            }),
            !self.spec_exhausted() ==> r is Some,
        decreases trans_height(*self),
    {
        proof {
            lemma_wf_peek(*self);
        }
        match self {
            Translation::Unique(u) => {
                if u.exhausted {
                    None
                } else {
                    match &u.candidate {
                        Some(c) => Some(c.duplicate()),
                        None => None,
                    }
                }
            },
            Translation::Fifo(f) => {
                if f.exhausted {
                    None
                } else {
                    Some(f.candies[f.cursor].duplicate())
                }
            },
            Translation::Union(u) => {
                if u.exhausted {
                    None
                } else {
                    proof {
                        lemma_seq_wf_active(u.translations@);
                        lemma_seq_trans_height(u.translations@);
                    }
                    u.translations[0].peek()
                }
            },
            Translation::Merged(m) => {
                if m.exhausted {
                    None
                } else {
                    proof {
                        lemma_seq_wf_active(m.translations@);
                        lemma_seq_trans_height(m.translations@);
                    }
                    m.translations[m.elected].peek()
                }
            },
            Translation::Cache(c) => {
                if c.exhausted {
                    None
                } else {
                    match &c.cache {
                        Some(cand) => Some(cand.duplicate()),
                        None => None,
                    }
                }
            },
            Translation::Distinct(d) => {
                if d.exhausted {
                    None
                } else {
                    d.translation.peek()
                }
            },
            Translation::Prefetch(p) => {
                if p.exhausted {
                    None
                } else if p.cache.len() > 0 {
                    Some(p.cache[0].duplicate())
                } else {
                    p.translation.peek()
                }
            },
        }
    }

    /// Advance by exactly one candidate. On an already-exhausted translation
    /// this is a safe no-op returning `false`, never an error.
    #[verifier::loop_isolation(false)]
    #[verifier::rlimit(100)]
    #[verifier::spinoff_prover]
    pub fn next(&mut self) -> (advanced: bool)
        requires
            old(self).wf(),
        ensures
            final(self).wf(),
            next_shape(*old(self), *final(self), advanced),
            !old(self).spec_exhausted() ==> final(self).rem() < old(self).rem(),
            trans_height(*final(self)) <= trans_height(*old(self)),
        decreases trans_height(*old(self)),
    {
        match self {
            Translation::Unique(u) => {
                if u.exhausted {
                    return false;
                }
                u.exhausted = true;
                true
            },
            Translation::Fifo(f) => {
                if f.exhausted {
                    return false;
                }
                let n = f.candies.len();
                proof {
                    assert(f.cursor < n);
                }
                f.cursor = f.cursor + 1;
                if f.cursor >= n {
                    f.exhausted = true;
                }
                true
            },
            Translation::Union(u) => {
                if u.exhausted {
                    return false;
                }
                proof {
                    lemma_seq_wf_active(u.translations@);
                    lemma_seq_trans_height(u.translations@);
                    lemma_seq_rem_remove(u.translations@, 0);
                }
                proof {
                    lemma_seq_height_remove(u.translations@, 0);
                }
                let ghost u_pre_seq = u.translations@;
                let mut front = u.translations.remove(0);
                let ghost front_pre = front;
                let front_advanced = front.next();
                let ghost front_post = front;
                if front.is_exhausted() {
                    if u.translations.len() == 0 {
                        u.exhausted = true;
                    }
                } else {
                    proof {
                        lemma_seq_rem_insert(u.translations@, 0, front);
                        lemma_seq_height_insert(u.translations@, 0, front);
                    }
                    u.translations.insert(0, front);
                }
                proof {
                    lemma_seq_wf_active(u.translations@);
                    let u0 = old(self)->Union_0;
                    assert(u0.translations@ == u_pre_seq);
                    assert(u_pre_seq.remove(0) =~= u_pre_seq.drop_first());
                    assert(next_shape(u0.translations@[0], front_post, front_advanced));
                    if !front_post.spec_exhausted() {
                        assert(u.translations@.drop_first() =~= u0.translations@.drop_first());
                        assert(u.translations@[0] == front_post);
                    } else {
                        assert(u.translations@ == u0.translations@.drop_first());
                    }
                    assert(u.exhausted == (u.translations@.len() == 0));
                    assert(next_shape(*old(self), Translation::Union(*u), true));
                }
                true
            },
            Translation::Merged(m) => {
                proof {
                    lemma_seq_wf_active(m.translations@);
                }
                if m.exhausted {
                    return false;
                }
                proof {
                    lemma_seq_trans_height(m.translations@);
                    lemma_seq_rem_remove(m.translations@, m.elected as int);
                }
                proof {
                    lemma_seq_height_remove(m.translations@, m.elected as int);
                }
                let ghost m_pre_seq = m.translations@;
                let ghost m_elected = m.elected as int;
                let mut t = m.translations.remove(m.elected);
                let ghost t_pre = t;
                let t_advanced = t.next();
                let ghost t_post = t;
                if !t.is_exhausted() {
                    proof {
                        lemma_seq_rem_insert(m.translations@, m.elected as int, t);
                        lemma_seq_height_insert(m.translations@, m.elected as int, t);
                    }
                    m.translations.insert(m.elected, t);
                }
                proof {
                    lemma_seq_wf_active(m.translations@);
                    assert(t_pre == m_pre_seq[m_elected]);
                    assert(next_shape(t_pre, t_post, t_advanced));
                    if t_post.spec_exhausted() {
                        assert(m.translations@ == m_pre_seq.remove(m_elected));
                    } else {
                        assert(m.translations@ =~= m_pre_seq.update(m_elected, t_post));
                    }
                }
                m.elect();
                proof {
                    let m0 = old(self)->Merged_0;
                    assert(next_shape(m0.translations@[m_elected], t_post, t_advanced));
                    if !t_post.spec_exhausted() {
                        assert(m.translations@[m_elected] == t_post);
                        assert(m.translations@ =~= m0.translations@.update(
                            m_elected,
                            m.translations@[m_elected],
                        ));
                    } else {
                        assert(m.translations@ == m0.translations@.remove(m_elected));
                    }
                    assert(next_shape(*old(self), Translation::Merged(*m), !m.exhausted));
                }
                !m.exhausted
            },
            Translation::Cache(c) => {
                if c.exhausted {
                    return false;
                }
                let ghost inner_pre = *c.translation;
                let inner_advanced = c.translation.next();
                proof {
                    assert(next_shape(inner_pre, *c.translation, inner_advanced));
                }
                c.cache = c.translation.peek();
                c.exhausted = c.translation.is_exhausted();
                proof {
                    assert(next_shape(*old(self), Translation::Cache(*c), true));
                }
                true
            },
            Translation::Distinct(d) => {
                if d.exhausted {
                    return false;
                }
                proof {
                    lemma_wf_peek(*d.translation);
                }
                let head = d.translation.peek().unwrap();
                let txt = head.text();
                let ghost txt_view = txt@;
                let ghost pre_set = d.candidate_set@;
                let ghost pre_yielded = d.yielded@;
                let ghost pre_inner = *d.translation;
                let push_needed = !contains_text(&d.candidate_set, &txt);
                if push_needed {
                    d.candidate_set.push(txt);
                }
                d.yielded = Ghost(d.yielded@.push(txt_view));
                let ghost set_now = d.candidate_set@;
                let ghost yielded_now = pre_yielded.push(txt_view);
                proof {
                    lemma_distinct_absorb(pre_set, set_now, pre_yielded, txt_view, push_needed);
                    assert(trans_height(pre_inner) < trans_height(*old(self)));
                }
                let mut skipping = true;
                while skipping
                    invariant
                        d.translation.wf(),
                        d.yielded@ == yielded_now,
                        d.candidate_set@ == set_now,
                        seen_matches_on(set_now, yielded_now),
                        distinct_texts(yielded_now),
                        !d.exhausted,
                        skipping ==> !d.translation.spec_exhausted(),
                        skipping ==> d.translation.rem() <= pre_inner.rem(),
                        !skipping ==> d.translation.rem() < pre_inner.rem(),
                        !skipping ==> d.translation.spec_exhausted() || !seen_text(
                            *d,
                            d.translation.spec_peek().unwrap().resolved_text(),
                        ),
                        trans_height(*d.translation) <= trans_height(pre_inner),
                    decreases d.translation.rem(),
                {
                    d.translation.next();
                    if d.translation.is_exhausted() {
                        skipping = false;
                    } else {
                        proof {
                            lemma_wf_peek(*d.translation);
                        }
                        let h = d.translation.peek().unwrap();
                        let t2 = h.text();
                        if !contains_text(&d.candidate_set, &t2) {
                            skipping = false;
                        }
                    }
                }
                d.exhausted = d.translation.is_exhausted();
                proof {
                    if !d.exhausted {
                        lemma_distinct_head_fresh(
                            set_now,
                            yielded_now,
                            d.translation.spec_peek().unwrap().resolved_text(),
                        );
                    }
                    let d0 = old(self)->Distinct_0;
                    assert(*d0.translation == pre_inner);
                    assert(d0.yielded@ == pre_yielded);
                    assert(txt_view == pre_inner.spec_peek().unwrap().resolved_text());
                    assert(d.yielded@ == d0.yielded@.push(
                        d0.translation.spec_peek().unwrap().resolved_text(),
                    ));
                    assert(next_shape(*old(self), Translation::Distinct(*d), true));
                }
                true
            },
            Translation::Prefetch(p) => {
                if p.exhausted {
                    return false;
                }
                if p.cache.len() > 0 {
                    let ghost buf_pre = p.cache@;
                    let _served = p.cache.remove(0);
                    proof {
                        assert(p.cache@ =~= buf_pre.drop_first());
                    }
                    if p.cache.len() == 0 && p.translation.is_exhausted() {
                        p.exhausted = true;
                    }
                    proof {
                        assert(next_shape(*old(self), Translation::Prefetch(*p), true));
                    }
                    true
                } else {
                    let ghost inner_pre = *p.translation;
                    let inner_advanced = p.translation.next();
                    proof {
                        assert(next_shape(inner_pre, *p.translation, inner_advanced));
                    }
                    if p.translation.is_exhausted() {
                        p.exhausted = true;
                    }
                    proof {
                        assert(next_shape(*old(self), Translation::Prefetch(*p), true));
                    }
                    true
                }
            },
        }
    }
}

/// Surfacing a fresh text keeps the surfaced set and the yielded history in
/// step and duplicate-free.
#[verifier::spinoff_prover]
proof fn lemma_distinct_absorb(
    pre_set: Seq<String>,
    set_now: Seq<String>,
    pre_yielded: Seq<Seq<char>>,
    txt_view: Seq<char>,
    push_needed: bool,
)
    requires
        seen_matches_on(pre_set, pre_yielded),
        distinct_texts(pre_yielded),
        !pre_yielded.contains(txt_view),
        push_needed == !(exists|j: int| 0 <= j < pre_set.len() && pre_set[j]@ == txt_view),
        push_needed ==> set_now.len() == pre_set.len() + 1 && (forall|j: int|
            0 <= j < pre_set.len() ==> set_now[j] == pre_set[j]) && set_now.last()@ == txt_view,
        !push_needed ==> set_now == pre_set,
    ensures
        seen_matches_on(set_now, pre_yielded.push(txt_view)),
        distinct_texts(pre_yielded.push(txt_view)),
{
    broadcast use vstd::seq_lib::lemma_seq_contains_after_push;

    let yielded_now = pre_yielded.push(txt_view);
    assert forall|i: int, j: int|
        0 <= i < j < yielded_now.len() implies yielded_now[i] != yielded_now[j] by {
        if j == pre_yielded.len() && yielded_now[i] == txt_view {
            assert(pre_yielded.contains(txt_view));
        }
    }
    assert forall|i: int| 0 <= i < set_now.len() implies yielded_now.contains(
        #[trigger] set_now[i]@,
    ) by {
        if i < pre_set.len() {
            assert(pre_yielded.contains(pre_set[i]@));
        } else {
            assert(set_now[i]@ == txt_view);
        }
    }
    assert forall|i: int| 0 <= i < yielded_now.len() implies exists|j: int|
        0 <= j < set_now.len() && set_now[j]@ == #[trigger] yielded_now[i] by {
        if i < pre_yielded.len() {
            let j0 = choose|j: int| 0 <= j < pre_set.len() && pre_set[j]@ == pre_yielded[i];
            assert(set_now[j0]@ == yielded_now[i]);
        } else if push_needed {
            assert(set_now[set_now.len() - 1]@ == txt_view);
        } else {
            let j0 = choose|j: int| 0 <= j < pre_set.len() && pre_set[j]@ == txt_view;
            assert(set_now[j0]@ == txt_view);
        }
    }
}

/// A text missing from the surfaced set was never yielded.
#[verifier::spinoff_prover]
proof fn lemma_distinct_head_fresh(set_now: Seq<String>, yielded_now: Seq<Seq<char>>, ht: Seq<char>)
    requires
        seen_matches_on(set_now, yielded_now),
        !(exists|j: int| 0 <= j < set_now.len() && set_now[j]@ == ht),
    ensures
        !yielded_now.contains(ht),
{
    if yielded_now.contains(ht) {
        let i0 = choose|i: int| 0 <= i < yielded_now.len() && yielded_now[i] == ht;
        let j0 = choose|j: int| 0 <= j < set_now.len() && set_now[j]@ == yielded_now[i0];
        assert(set_now[j0]@ == ht);
    }
}

/// Whether this text was already recorded as surfaced.
pub open spec fn seen_text(d: DistinctTranslation, t: Seq<char>) -> bool {
    exists|j: int| 0 <= j < d.candidate_set@.len() && d.candidate_set@[j]@ == t
}

/// The head of the `j`-th member of a container.
pub open spec fn head_at(s: Seq<Translation>, j: int) -> CandidateView {
    s[j].spec_peek().unwrap()
}

impl Translation {
    /// Precedence between two translations, used by container combinators:
    /// negative or zero means this translation should provide the next
    /// candidate, positive that it should yield to `other`. An exhausted
    /// translation always loses; nothing at all loses against anything.
    pub open spec fn compare_trans_spec(self, other: Option<Translation>) -> int {
        if other is None || other.unwrap().spec_exhausted() {
            -1
        } else if self.spec_exhausted() {
            1
        } else if self.spec_peek() is None || other.unwrap().spec_peek() is None {
            1
        } else {
            compare_spec(self.spec_peek().unwrap(), other.unwrap().spec_peek().unwrap())
        }
    }

    /// Executable form of [`Translation::compare_trans_spec`], comparing the
    /// two current heads by candidate order.
    pub fn compare(&self, other: Option<&Translation>) -> (r: i32)
        requires
            self.wf(),
            (match other {
                Some(t) => t.wf(),
                None => true,
            }),
        ensures
            r as int == self.compare_trans_spec(
                match other {
                    Some(t) => Some(*t),
                    None => None,
                },
            ),
    {
        match other {
            None => -1,
            Some(t) => {
                if t.is_exhausted() {
                    -1
                } else if self.is_exhausted() {
                    1
                } else {
                    let ours = self.peek();
                    let theirs = t.peek();
                    match (ours, theirs) {
                        (Some(a), Some(b)) => compare(&a, &b),
                        _ => 1,
                    }
                }
            },
        }
    }
}

impl MergedTranslation {
    /// Re-elect the sub-translation whose head wins the candidate order,
    /// breaking ties in favour of the earliest-added member; with no members
    /// left the merge is exhausted.
    fn elect(&mut self)
        requires
            seq_wf_active(old(self).translations@),
        ensures
            final(self).translations == old(self).translations,
            final(self).previous_candidates == old(self).previous_candidates,
            final(self).exhausted == (old(self).translations@.len() == 0),
            !final(self).exhausted ==> final(self).elected < final(self).translations@.len()
                && merged_elected_ok(*final(self)),
    {
        let n = self.translations.len();
        if n == 0 {
            self.exhausted = true;
            self.elected = 0;
            return;
        }
        proof {
            lemma_seq_wf_active(self.translations@);
        }
        let mut best: usize = 0;
        let mut k: usize = 1;
        while k < n
            invariant
                self.translations == old(self).translations,
                self.previous_candidates == old(self).previous_candidates,
                n == self.translations@.len(),
                seq_wf_active(self.translations@),
                best < k <= n,
                forall|j: int|
                    0 <= j < k ==> compare_spec(
                        head_at(self.translations@, best as int),
                        head_at(self.translations@, j),
                    ) <= 0,
                forall|j: int|
                    0 <= j < best ==> compare_spec(
                        head_at(self.translations@, best as int),
                        head_at(self.translations@, j),
                    ) < 0,
            decreases n - k,
        {
            proof {
                lemma_seq_wf_active(self.translations@);
            }
            let a = self.translations[k].peek().unwrap();
            let b = self.translations[best].peek().unwrap();
            if compare(&a, &b) < 0 {
                proof {
                    let s = self.translations@;
                    assert forall|j: int| 0 <= j < k implies compare_spec(
                        head_at(s, k as int),
                        head_at(s, j),
                    ) < 0 by {
                        crate::candidate::lemma_compare_transitive(
                            head_at(s, k as int),
                            head_at(s, best as int),
                            head_at(s, j),
                        );
                    }
                }
                best = k;
            } else {
                proof {
                    crate::candidate::lemma_compare_antisymmetric(
                        head_at(self.translations@, k as int),
                        head_at(self.translations@, best as int),
                    );
                }
            }
            k += 1;
        }
        self.elected = best;
        self.exhausted = false;
        proof {
            let s = self.translations@;
            assert forall|k: int| 0 <= k < s.len() implies compare_spec(
                s[self.elected as int].spec_peek().unwrap(),
                (#[trigger] s[k]).spec_peek().unwrap(),
            ) <= 0 by {
                assert(compare_spec(head_at(s, self.elected as int), head_at(s, k)) <= 0);
            }
            assert forall|k: int| 0 <= k < self.elected implies compare_spec(
                s[self.elected as int].spec_peek().unwrap(),
                (#[trigger] s[k]).spec_peek().unwrap(),
            ) < 0 by {
                assert(compare_spec(head_at(s, self.elected as int), head_at(s, k)) < 0);
            }
        }
    }
}

// ---------------------------------------------------------------------------
// Constructors and container operations
// ---------------------------------------------------------------------------

impl UniqueTranslation {
    /// A translation over the given candidate, if any; with none it starts
    /// exhausted.
    pub fn new(candidate: Option<Candidate>) -> (t: Self)
        ensures
            Translation::Unique(t).wf(),
            t.candidate == candidate,
            t.exhausted == (candidate is None),
    {
        let exhausted = candidate.is_none();
        UniqueTranslation { exhausted, candidate }
    }
}

impl FifoTranslation {
    /// An empty list; it reopens as soon as a candidate is appended.
    pub fn new() -> (t: Self)
        ensures
            Translation::Fifo(t).wf(),
            t.candies@.len() == 0,
            t.cursor == 0,
            t.exhausted,
    {
        FifoTranslation { exhausted: true, candies: Vec::new(), cursor: 0 }
    }

    /// Append a candidate past the end; an exhausted list becomes active
    /// again.
    pub fn append(&mut self, candy: Candidate)
        requires
            Translation::Fifo(*old(self)).wf(),
        ensures
            Translation::Fifo(*final(self)).wf(),
            final(self).candies@ == old(self).candies@.push(candy),
            final(self).cursor == old(self).cursor,
            !final(self).exhausted,
    {
        self.candies.push(candy);
        self.exhausted = false;
    }

    /// How many candidates are still to be served.
    pub fn len(&self) -> (r: usize)
        requires
            Translation::Fifo(*self).wf(),
        ensures
            r == self.candies@.len() - self.cursor,
    {
        self.candies.len() - self.cursor
    }
}

impl UnionTranslation {
    /// An empty concatenation: exhausted until a source is added.
    pub fn new() -> (t: Self)
        ensures
            Translation::Union(t).wf(),
            t.translations@.len() == 0,
            t.exhausted,
    {
        let translations: Vec<Translation> = Vec::new();
        proof {
            assert(seq_wf_active(translations@));
        }
        UnionTranslation { exhausted: true, translations }
    }

    /// Add a source at the back; an exhausted or missing source is ignored.
    pub fn add(&mut self, t: Option<Translation>)
        requires
            Translation::Union(*old(self)).wf(),
            (match t {
                Some(tr) => tr.wf(),
                None => true,
            }),
        ensures
            Translation::Union(*final(self)).wf(),
            (match t {
                Some(tr) => if !tr.spec_exhausted() {
                    final(self).translations@ == old(self).translations@.push(tr)
                        && !final(self).exhausted
                } else {
                    *final(self) == *old(self)
                },
                None => *final(self) == *old(self),
            }),
    {
        match t {
            Some(tr) => {
                if !tr.is_exhausted() {
                    proof {
                        lemma_seq_wf_active(self.translations@);
                        lemma_seq_wf_active(self.translations@.push(tr));
                    }
                    self.translations.push(tr);
                    self.exhausted = false;
                }
            },
            None => (),
        }
    }
}

/// The concatenation of two translations, or nothing if both are exhausted.
pub fn translation_union(x: Translation, y: Translation) -> (r: Option<UnionTranslation>)
    requires
        x.wf(),
        y.wf(),
    ensures
        (match r {
            Some(u) => Translation::Union(u).wf() && !u.exhausted,
            None => x.spec_exhausted() && y.spec_exhausted(),
        }),
{
    let mut z = UnionTranslation::new();
    z.add(Some(x));
    z.add(Some(y));
    if z.exhausted {
        None
    } else {
        Some(z)
    }
}

impl MergedTranslation {
    /// An empty merge over a record of previously served candidates:
    /// exhausted until a source is added.
    pub fn new(candidates: CandidateList) -> (t: Self)
        ensures
            Translation::Merged(t).wf(),
            t.translations@.len() == 0,
            t.previous_candidates == candidates,
            t.exhausted,
    {
        let translations: Vec<Translation> = Vec::new();
        proof {
            assert(seq_wf_active(translations@));
        }
        MergedTranslation {
            exhausted: true,
            previous_candidates: candidates,
            translations,
            elected: 0,
        }
    }

    /// Add a source and re-elect; an exhausted or missing source is ignored.
    pub fn add(&mut self, t: Option<Translation>)
        requires
            Translation::Merged(*old(self)).wf(),
            (match t {
                Some(tr) => tr.wf(),
                None => true,
            }),
        ensures
            Translation::Merged(*final(self)).wf(),
            (match t {
                Some(tr) => if !tr.spec_exhausted() {
                    final(self).translations@ == old(self).translations@.push(tr)
                        && !final(self).exhausted
                } else {
                    *final(self) == *old(self)
                },
                None => *final(self) == *old(self),
            }),
    {
        match t {
            Some(tr) => {
                if !tr.is_exhausted() {
                    proof {
                        lemma_seq_wf_active(self.translations@);
                        lemma_seq_wf_active(self.translations@.push(tr));
                    }
                    self.translations.push(tr);
                    self.elect();
                }
            },
            None => (),
        }
    }

    /// How many sources are still merged.
    pub fn len(&self) -> (r: usize)
        ensures
            r == self.translations@.len(),
    {
        self.translations.len()
    }
}

impl CacheTranslation {
    /// Wrap a translation and memoize its current head.
    pub fn new(translation: Translation) -> (t: Self)
        requires
            translation.wf(),
        ensures
            Translation::Cache(t).wf(),
            *t.translation == translation,
            Translation::Cache(t).spec_peek() == translation.spec_peek(),
            t.exhausted == translation.spec_exhausted(),
    {
        let cache = translation.peek();
        let exhausted = translation.is_exhausted();
        CacheTranslation { exhausted, translation: Box::new(translation), cache }
    }
}

impl DistinctTranslation {
    /// Wrap a translation; nothing has been surfaced yet.
    pub fn new(translation: Translation) -> (t: Self)
        requires
            translation.wf(),
        ensures
            Translation::Distinct(t).wf(),
            *t.translation == translation,
            t.yielded@ == Seq::<Seq<char>>::empty(),
            t.candidate_set@.len() == 0,
            t.exhausted == translation.spec_exhausted(),
    {
        let exhausted = translation.is_exhausted();
        DistinctTranslation {
            exhausted,
            translation: Box::new(translation),
            candidate_set: Vec::new(),
            yielded: Ghost(Seq::empty()),
        }
    }
}

/// How many candidates the lookahead buffer holds at most after a replenish.
pub const PREFETCH_CAPACITY: usize = 8;

impl PrefetchTranslation {
    /// Wrap a translation with an empty lookahead buffer.
    pub fn new(translation: Translation) -> (t: Self)
        requires
            translation.wf(),
        ensures
            Translation::Prefetch(t).wf(),
            *t.translation == translation,
            t.cache@.len() == 0,
            t.exhausted == translation.spec_exhausted(),
    {
        let exhausted = translation.is_exhausted();
        PrefetchTranslation { exhausted, translation: Box::new(translation), cache: Vec::new() }
    }

    /// Pull candidates from the source into the lookahead buffer, up to its
    /// capacity. The order of candidates, the current head and the combined
    /// backlog are unchanged: only the timing of retrieval moves.
    pub fn replenish(&mut self) -> (r: bool)
        requires
            Translation::Prefetch(*old(self)).wf(),
        ensures
            Translation::Prefetch(*final(self)).wf(),
            Translation::Prefetch(*final(self)).spec_peek() == Translation::Prefetch(
                *old(self),
            ).spec_peek(),
            Translation::Prefetch(*final(self)).rem() <= Translation::Prefetch(*old(self)).rem(),
            final(self).exhausted == old(self).exhausted,
            old(self).cache@.is_prefix_of(final(self).cache@),
            final(self).cache@.len() >= PREFETCH_CAPACITY
                || final(self).translation.spec_exhausted(),
            r == (final(self).cache@.len() > 0),
            r == !Translation::Prefetch(*final(self)).spec_exhausted(),
    {
        proof {
            assert(self.cache@.is_prefix_of(self.cache@)) by {
                assert(self.cache@ =~= self.cache@.subrange(0, self.cache@.len() as int));
            }
        }
        while self.cache.len() < PREFETCH_CAPACITY && !self.translation.is_exhausted()
            invariant
                self.translation.wf(),
                self.exhausted == old(self).exhausted,
                old(self).cache@.is_prefix_of(self.cache@),
                prefetch_peek(self.cache@, *self.translation) == prefetch_peek(
                    old(self).cache@,
                    *old(self).translation,
                ),
                self.cache@.len() + self.translation.rem() <= old(self).cache@.len() + old(
                    self,
                ).translation.rem(),
                (self.cache@.len() == 0 && self.translation.spec_exhausted()) == (old(
                    self,
                ).cache@.len() == 0 && old(self).translation.spec_exhausted()),
            decreases self.translation.rem(),
        {
            proof {
                lemma_wf_peek(*self.translation);
            }
            let ghost buf_pre = self.cache@;
            let c = self.translation.peek().unwrap();
            self.cache.push(c);
            self.translation.next();
            proof {
                assert(buf_pre =~= self.cache@.subrange(0, buf_pre.len() as int));
                assert(old(self).cache@ =~= self.cache@.subrange(
                    0,
                    old(self).cache@.len() as int,
                ));
            }
        }
        self.cache.len() > 0
    }
}

/// The head that a buffer plus a source present together.
pub open spec fn prefetch_peek(cache: Seq<Candidate>, inner: Translation) -> Option<CandidateView> {
    if cache.len() > 0 {
        Some(cache[0]@)
    } else {
        inner.spec_peek()
    }
}

// ---------------------------------------------------------------------------
// Laws
// ---------------------------------------------------------------------------

/// At every step of a merge, the candidate `peek` returns wins the candidate
/// order against the current head of every active sub-translation.
pub proof fn lemma_merged_peek_minimal(m: MergedTranslation)
    requires
        Translation::Merged(m).wf(),
        !m.exhausted,
    ensures
        Translation::Merged(m).spec_peek() is Some,
        forall|k: int|
            0 <= k < m.translations@.len() ==> compare_spec(
                Translation::Merged(m).spec_peek().unwrap(),
                (#[trigger] m.translations@[k]).spec_peek().unwrap(),
            ) <= 0,
{
    lemma_wf_peek(Translation::Merged(m));
}

/// No two candidates surfaced by a deduplicating translation share a
/// committed text.
pub proof fn lemma_distinct_no_duplicates(d: DistinctTranslation)
    requires
        Translation::Distinct(d).wf(),
    ensures
        distinct_texts(d.yielded@),
        forall|i: int, j: int|
            0 <= i < j < d.yielded@.len() ==> d.yielded@[i] != d.yielded@[j],
{
}

/// Membership in the surfaced-text set.
fn contains_text(v: &Vec<String>, s: &String) -> (r: bool)
    ensures
        r == (exists|j: int| 0 <= j < v@.len() && v@[j]@ == s@),
{
    let n = v.len();
    let mut i: usize = 0;
    while i < n
        invariant
            n == v@.len(),
            i <= n,
            forall|j: int| 0 <= j < i ==> v@[j]@ != s@,
        decreases n - i,
    {
        if v[i] == *s {
            return true;
        }
        i += 1;
    }
    false
}

} // verus!
