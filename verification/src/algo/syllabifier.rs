//! The spelling-lattice builder: a directed acyclic graph over input
//! character positions, built by a frontier-driven traversal under a
//! min-priority queue, followed by an ambiguity-detection pass and a
//! transposition pass that derives a per-syllable index.

use vstd::prelude::*;

use crate::algo::calculus::{ABBREVIATION_PENALTY, FUZZY_SPELLING_PENALTY};
use crate::algo::spelling::{SpellingProperties, SpellingType};
use crate::dict::prism::{is_completion_at, is_prefix_at, Corrector, Prism, PrismEntry, MIN_DICTIONARY_CREDIBILITY};

verus! {

/// Identity of a syllable in the dictionary.
pub type SyllableId = i32;

/// Penalty for a spelling that completes trailing partial input:
/// `ln(0.5)` in millionths.
pub const COMPLETION_PENALTY: i64 = -693147;

/// Credibility penalty carried by a corrector-suggested spelling:
/// `ln(0.01)` in millionths.
pub const CORRECTION_CREDIBILITY: i64 = -4_605_170;

/// Penalty applied once to every edge forming the second hop of an ambiguous
/// decomposition: `ln(1e-10)` in millionths.
pub const PENALTY_FOR_AMBIGUOUS_SYLLABLE: i64 = -23_025_851;

/// Spelling properties of one lattice edge, plus whether the edge came from
/// the spelling corrector rather than a literal dictionary match.
#[derive(Debug)]
pub struct EdgeProperties {
    pub spelling_properties: SpellingProperties,
    pub is_correction: bool,
}

impl Default for EdgeProperties {
    /// A literal, neutral edge.
    fn default() -> (e: Self)
        ensures
            e.spelling_properties.spelling_type == SpellingType::NormalSpelling,
            e.spelling_properties.credibility == 0,
            !e.is_correction,
    {
        EdgeProperties { spelling_properties: SpellingProperties::default(), is_correction: false }
    }
}

impl Clone for EdgeProperties {
    fn clone(&self) -> (r: Self)
        ensures
            r == *self,
    {
        EdgeProperties {
            spelling_properties: SpellingProperties {
                spelling_type: self.spelling_properties.spelling_type,
                end_pos: self.spelling_properties.end_pos,
                credibility: self.spelling_properties.credibility,
                tips: self.spelling_properties.tips.clone(),
            },
            is_correction: self.is_correction,
        }
    }
}

impl EdgeProperties {
    /// An edge with the given spelling properties, not corrector-derived.
    pub fn new(spelling_properties: SpellingProperties) -> (e: Self)
        ensures
            e.spelling_properties == spelling_properties,
            !e.is_correction,
    {
        EdgeProperties { spelling_properties, is_correction: false }
    }
}

/// One lattice edge, keyed by start position, end position and syllable.
/// `ambiguity_penalized` records that the ambiguity penalty was applied, so
/// that repeated detection passes never apply it twice.
#[derive(Debug)]
pub struct Edge {
    pub start: usize,
    pub end: usize,
    pub syllable: SyllableId,
    pub properties: EdgeProperties,
    pub ambiguity_penalized: bool,
}

/// The classification an edge carries.
pub open spec fn edge_type(e: Edge) -> SpellingType {
    e.properties.spelling_properties.spelling_type
}

/// The credibility an edge carries.
pub open spec fn edge_cred(e: Edge) -> int {
    e.properties.spelling_properties.credibility as int
}

/// Credibility stays within the range the construction can produce: at worst
/// the dictionary floor plus the correction penalty, and once more the
/// ambiguity penalty after the edge was flagged.
pub open spec fn edge_cred_ok(e: Edge) -> bool {
    if e.ambiguity_penalized {
        MIN_DICTIONARY_CREDIBILITY + CORRECTION_CREDIBILITY + PENALTY_FOR_AMBIGUOUS_SYLLABLE
            <= edge_cred(e) <= 0
    } else {
        MIN_DICTIONARY_CREDIBILITY + CORRECTION_CREDIBILITY <= edge_cred(e) <= 0
    }
}

/// An edge spans forward within the input and keeps its redundant
/// `end_pos` in step with its key.
pub open spec fn edge_wf(e: Edge, n: int) -> bool {
    &&& 0 <= e.start < e.end <= n
    &&& e.properties.spelling_properties.end_pos == e.end
    &&& edge_cred_ok(e)
}

/// Some edge spans `s .. t`.
pub open spec fn has_edge_spec(edges: Seq<Edge>, s: int, t: int) -> bool {
    exists|i: int| 0 <= i < edges.len() && (#[trigger] edges[i]).start == s && edges[i].end == t
}

/// Some edge carries exactly this key.
pub open spec fn has_triple(edges: Seq<Edge>, s: int, t: int, y: SyllableId) -> bool {
    exists|i: int|
        0 <= i < edges.len() && (#[trigger] edges[i]).start == s && edges[i].end == t
            && edges[i].syllable == y
}

/// No two edges carry the same key.
pub open spec fn edges_unique(edges: Seq<Edge>) -> bool {
    forall|i: int, j: int|
        0 <= i < j < edges.len() ==> !((#[trigger] edges[i]).start == (#[trigger] edges[j]).start
            && edges[i].end == edges[j].end && edges[i].syllable == edges[j].syllable)
}

/// The recorded classification at `p` is the best among all edges ending at
/// `p`: it is carried by one of them and ranks no worse than any of them.
/// This is what the priority-queue traversal guarantees for every vertex it
/// records, since the first queue entry popped for a position carries its
/// lowest classification.
#[verifier::opaque]
pub open spec fn min_incoming_at(edges: Seq<Edge>, p: int, t: SpellingType) -> bool {
    &&& exists|i: int|
        0 <= i < edges.len() && (#[trigger] edges[i]).end == p && edge_type(edges[i]) == t
    &&& forall|i: int|
        0 <= i < edges.len() && (#[trigger] edges[i]).end == p ==> t.spec_rank() <= edge_type(
            edges[i],
        ).spec_rank()
}

/// An index entry: all edges from one start position carrying one syllable,
/// ordered by end position descending (the longest span first).
#[derive(Debug)]
pub struct SpellingIndexEntry {
    pub start: usize,
    pub syllable: SyllableId,
    pub list: Vec<EdgeProperties>,
}

/// The properties of the unique edge with this key, if present.
pub open spec fn find_edge(edges: Seq<Edge>, s: int, t: int, y: SyllableId) -> Option<
    EdgeProperties,
>
    decreases edges,
{
    if edges.len() == 0 {
        None
    } else if edges[0].start == s && edges[0].end == t && edges[0].syllable == y {
        Some(edges[0].properties)
    } else {
        find_edge(edges.drop_first(), s, t, y)
    }
}

/// The list an index entry for `(start, syll)` must hold: the properties of
/// every edge from `start` carrying `syll`, by end position descending from
/// `from`.
pub open spec fn index_list(edges: Seq<Edge>, start: int, syll: SyllableId, from: int) -> Seq<
    EdgeProperties,
>
    decreases from - start,
{
    if from <= start {
        Seq::<EdgeProperties>::empty()
    } else {
        (match find_edge(edges, start, from, syll) {
            Some(props) => seq![props],
            None => Seq::<EdgeProperties>::empty(),
        }) + index_list(edges, start, syll, from - 1)
    }
}

/// The syllable lattice: vertices record the best classification reached at
/// each position, edges the recognized spans, and `indices` the per-start,
/// per-syllable view derived by the transposition pass.
#[derive(Debug)]
pub struct SyllableGraph {
    pub input_length: usize,
    pub interpreted_length: usize,
    pub vertices: Vec<Option<SpellingType>>,
    pub edges: Vec<Edge>,
    pub indices: Vec<SpellingIndexEntry>,
}

impl Default for SyllableGraph {
    /// The empty, zero-length graph.
    fn default() -> (g: Self)
        ensures
            g.input_length == 0,
            g.interpreted_length == 0,
            g.vertices@.len() == 0,
            g.edges@.len() == 0,
            g.indices@.len() == 0,
    {
        SyllableGraph {
            input_length: 0,
            interpreted_length: 0,
            vertices: Vec::new(),
            edges: Vec::new(),
            indices: Vec::new(),
        }
    }
}

/// Structural soundness of a lattice: one vertex slot per input position,
/// well-formed and unique edges whose endpoints are recorded, and an
/// interpreted length within the input. The empty graph (no vertex slots at
/// all) is the degenerate result of empty input.
pub open spec fn graph_wf(g: SyllableGraph) -> bool {
    &&& (g.vertices@.len() == g.input_length + 1 || (g.vertices@.len() == 0 && g.input_length == 0
        && g.edges@.len() == 0 && g.indices@.len() == 0))
    &&& g.interpreted_length <= g.input_length
    &&& edges_unique(g.edges@)
    &&& forall|i: int|
        0 <= i < g.edges@.len() ==> edge_wf(#[trigger] g.edges@[i], g.input_length as int)
    &&& forall|i: int|
        0 <= i < g.edges@.len() ==> (#[trigger] g.vertices@[g.edges@[i].start as int]) is Some
            && g.vertices@[g.edges@[i].end as int] is Some
}

/// How many vertex slots are still unvisited.
pub open spec fn count_none(s: Seq<Option<SpellingType>>) -> nat
    decreases s,
{
    if s.len() == 0 {
        0
    } else {
        (if s[0] is None {
            1nat
        } else {
            0nat
        }) + count_none(s.drop_first())
    }
}

/// Recording a vertex decreases the number of unvisited slots by one.
proof fn lemma_count_none_update(s: Seq<Option<SpellingType>>, i: int, t: SpellingType)
    requires
        0 <= i < s.len(),
        s[i] is None,
    ensures
        count_none(s.update(i, Some(t))) + 1 == count_none(s),
    decreases s,
{
    if i == 0 {
        assert(s.update(0, Some(t)).drop_first() =~= s.drop_first());
    } else {
        lemma_count_none_update(s.drop_first(), i - 1, t);
        assert(s.update(i, Some(t)).drop_first() =~= s.drop_first().update(i - 1, Some(t)));
        assert(s.update(i, Some(t))[0] == s[0]);
    }
}

/// Queue order: positions ascending, and the better (smaller-ranked)
/// classification first among equal positions.
pub open spec fn vx_le(a: (usize, SpellingType), b: (usize, SpellingType)) -> bool {
    a.0 < b.0 || (a.0 == b.0 && a.1.spec_rank() <= b.1.spec_rank())
}

/// Remove and return the smallest entry in queue order.
fn pop_min(queue: &mut Vec<(usize, SpellingType)>) -> (r: (usize, SpellingType))
    requires
        old(queue)@.len() > 0,
    ensures
        exists|i: int|
            0 <= i < old(queue)@.len() && old(queue)@[i] == r && final(queue)@ == old(
                queue,
            )@.remove(i),
        forall|k: int| 0 <= k < old(queue)@.len() ==> vx_le(r, #[trigger] old(queue)@[k]),
        final(queue)@.len() == old(queue)@.len() - 1,
{
    let n = queue.len();
    let mut best: usize = 0;
    let mut k: usize = 1;
    while k < n
        invariant
            n == queue@.len(),
            queue == old(queue),
            best < k <= n,
            forall|j: int| 0 <= j < k ==> vx_le(queue@[best as int], #[trigger] queue@[j]),
        decreases n - k,
    {
        let (kp, kt) = (queue[k].0, queue[k].1);
        let (bp, bt) = (queue[best].0, queue[best].1);
        if kp < bp || (kp == bp && kt.rank() < bt.rank()) {
            best = k;
        }
        k += 1;
    }
    let r = queue.remove(best);
    proof {
        assert(old(queue)@[best as int] == r);
    }
    r
}

/// Whether an edge with this key is present, decided by scanning.
fn contains_triple(edges: &Vec<Edge>, s: usize, t: usize, y: SyllableId) -> (r: bool)
    ensures
        r == has_triple(edges@, s as int, t as int, y),
{
    let n = edges.len();
    let mut i: usize = 0;
    while i < n
        invariant
            i <= n,
            n == edges@.len(),
            forall|j: int|
                0 <= j < i ==> !((#[trigger] edges@[j]).start == s as int && edges@[j].end
                    == t as int && edges@[j].syllable == y),
        decreases n - i,
    {
        let e = &edges[i];
        if e.start == s && e.end == t && e.syllable == y {
            return true;
        }
        i += 1;
    }
    false
}

/// Whether some edge spans `s .. t`, decided by scanning.
fn contains_edge(edges: &Vec<Edge>, s: usize, t: usize) -> (r: bool)
    ensures
        r == has_edge_spec(edges@, s as int, t as int),
{
    let n = edges.len();
    let mut i: usize = 0;
    while i < n
        invariant
            i <= n,
            n == edges@.len(),
            forall|j: int|
                0 <= j < i ==> !((#[trigger] edges@[j]).start == s as int && edges@[j].end
                    == t as int),
        decreases n - i,
    {
        let e = &edges[i];
        if e.start == s && e.end == t {
            return true;
        }
        i += 1;
    }
    false
}

/// The syllabifier: builds a [`SyllableGraph`] from raw input and a
/// dictionary lookup collaborator.
#[derive(Debug)]
pub struct Syllabifier {
    pub delimiters: String,
    pub enable_completion: bool,
    pub strict_spelling: bool,
    pub corrector: Option<Box<Corrector>>,
}

impl Syllabifier {
    /// A syllabifier with no delimiters, no completion, no strict spelling
    /// and no corrector.
    pub fn new() -> (s: Self)
        ensures
            s.delimiters@ == Seq::<char>::empty(),
            !s.enable_completion,
            !s.strict_spelling,
            s.corrector is None,
            s.wf(),
    {
        Syllabifier {
            delimiters: String::new(),
            enable_completion: false,
            strict_spelling: false,
            corrector: None,
        }
    }

    /// A syllabifier configured with delimiters, completion and strictness.
    pub fn from_parts(delimiters: String, enable_completion: bool, strict_spelling: bool) -> (s:
        Self)
        ensures
            s.delimiters@ == delimiters@,
            s.enable_completion == enable_completion,
            s.strict_spelling == strict_spelling,
            s.corrector is None,
            s.wf(),
    {
        Syllabifier { delimiters, enable_completion, strict_spelling, corrector: None }
    }

    /// Install or remove the spelling corrector.
    pub fn enable_correction(&mut self, corrector: Option<Box<Corrector>>)
        ensures
            final(self).corrector == corrector,
            final(self).delimiters == old(self).delimiters,
            final(self).enable_completion == old(self).enable_completion,
            final(self).strict_spelling == old(self).strict_spelling,
    {
        self.corrector = corrector;
    }

    /// Any installed corrector is well formed.
    pub open spec fn wf(self) -> bool {
        match self.corrector {
            Some(c) => c.wf(),
            None => true,
        }
    }
}

impl Default for Syllabifier {
    fn default() -> (s: Self)
        ensures
            s.corrector is None,
            s.wf(),
    {
        Syllabifier::new()
    }
}

/// `j` is an ambiguous joint of the span `start .. end`: the span can also be
/// read as two hops `start .. j` and `j .. end`.
pub open spec fn joint_detected(edges: Seq<Edge>, start: int, end: int, j: int) -> bool {
    start < j < end && has_edge_spec(edges, start, j) && has_edge_spec(edges, j, end)
}

/// Two edge sequences with the same spans recognize the same spans.
proof fn lemma_has_edge_transfer(a: Seq<Edge>, b: Seq<Edge>, s: int, t: int)
    requires
        a.len() == b.len(),
        forall|i: int|
            0 <= i < a.len() ==> (#[trigger] a[i]).start == b[i].start && a[i].end == b[i].end,
    ensures
        has_edge_spec(a, s, t) == has_edge_spec(b, s, t),
{
    if has_edge_spec(a, s, t) {
        let i = choose|i: int| 0 <= i < a.len() && (#[trigger] a[i]).start == s && a[i].end == t;
        assert(b[i].start == s && b[i].end == t);
    }
    if has_edge_spec(b, s, t) {
        let i = choose|i: int| 0 <= i < b.len() && (#[trigger] b[i]).start == s && b[i].end == t;
        assert(a[i].start == s && a[i].end == t);
    }
}

/// Everything about an edge except its credibility and its penalty flag.
pub open spec fn edge_frame_eq(e: Edge, e2: Edge) -> bool {
    &&& e2.start == e.start
    &&& e2.end == e.end
    &&& e2.syllable == e.syllable
    &&& edge_type(e2) == edge_type(e)
    &&& e2.properties.spelling_properties.end_pos == e.properties.spelling_properties.end_pos
    &&& e2.properties.spelling_properties.tips == e.properties.spelling_properties.tips
    &&& e2.properties.is_correction == e.properties.is_correction
}

impl Syllabifier {
    /// Ambiguity detection for the span `start .. end`: wherever the same
    /// span decomposes into two hops `start .. j .. end` already present in
    /// the graph, the joint `j` is marked ambiguous and every edge of the
    /// second hop `j .. end` receives the fixed ambiguity penalty — exactly
    /// once, never cumulatively: an edge already flagged as penalized is left
    /// untouched by this and by every later pass.
    #[verifier::loop_isolation(false)]
    #[verifier::spinoff_prover]
    #[verifier::rlimit(80)]
    pub fn check_overlapped_spellings(&self, graph: &mut SyllableGraph, start: usize, end: usize)
        requires
            graph_wf(*old(graph)),
            start < end <= old(graph).input_length,
        ensures
            graph_wf(*final(graph)),
            final(graph).input_length == old(graph).input_length,
            final(graph).interpreted_length == old(graph).interpreted_length,
            final(graph).indices == old(graph).indices,
            final(graph).edges@.len() == old(graph).edges@.len(),
            forall|i: int|
                0 <= i < old(graph).edges@.len() ==> edge_frame_eq(
                    #[trigger] old(graph).edges@[i],
                    final(graph).edges@[i],
                ),
            forall|i: int|
                0 <= i < old(graph).edges@.len() ==> (if joint_detected(
                    old(graph).edges@,
                    start as int,
                    end as int,
                    (#[trigger] old(graph).edges@[i]).start as int,
                ) && old(graph).edges@[i].end == end && !old(graph).edges@[i].ambiguity_penalized {
                    edge_cred(final(graph).edges@[i]) == edge_cred(old(graph).edges@[i])
                        + PENALTY_FOR_AMBIGUOUS_SYLLABLE && final(graph).edges@[i].ambiguity_penalized
                } else {
                    final(graph).edges@[i] == old(graph).edges@[i]
                }),
            final(graph).vertices@.len() == old(graph).vertices@.len(),
            forall|p: int|
                0 <= p < old(graph).vertices@.len() ==> final(graph).vertices@[p] == (
                if joint_detected(old(graph).edges@, start as int, end as int, p) && exists|i: int|
                    0 <= i < old(graph).edges@.len() && (#[trigger] old(graph).edges@[i]).start == p
                        && old(graph).edges@[i].end == end {
                    Some(SpellingType::AmbiguousSpelling)
                } else {
                    old(graph).vertices@[p]
                }),
    {
        let m = graph.edges.len();
        let mut i: usize = 0;
        while i < m
            invariant
                m == graph.edges@.len(),
                i <= m,
                graph.input_length == old(graph).input_length,
                graph.interpreted_length == old(graph).interpreted_length,
                graph.indices == old(graph).indices,
                graph.edges@.len() == old(graph).edges@.len(),
                graph.vertices@.len() == old(graph).vertices@.len(),
                forall|j: int|
                    0 <= j < m ==> edge_frame_eq(
                        #[trigger] old(graph).edges@[j],
                        graph.edges@[j],
                    ),
                forall|j: int| i <= j < m ==> graph.edges@[j] == old(graph).edges@[j],
                forall|j: int|
                    0 <= j < i ==> (if joint_detected(
                        old(graph).edges@,
                        start as int,
                        end as int,
                        (#[trigger] old(graph).edges@[j]).start as int,
                    ) && old(graph).edges@[j].end == end && !old(
                        graph,
                    ).edges@[j].ambiguity_penalized {
                        edge_cred(graph.edges@[j]) == edge_cred(old(graph).edges@[j])
                            + PENALTY_FOR_AMBIGUOUS_SYLLABLE && graph.edges@[j].ambiguity_penalized
                    } else {
                        graph.edges@[j] == old(graph).edges@[j]
                    }),
                forall|p: int|
                    0 <= p < graph.vertices@.len() ==> graph.vertices@[p] == (if joint_detected(
                        old(graph).edges@,
                        start as int,
                        end as int,
                        p,
                    ) && exists|j: int|
                        0 <= j < i && (#[trigger] old(graph).edges@[j]).start == p && old(
                            graph,
                        ).edges@[j].end == end {
                        Some(SpellingType::AmbiguousSpelling)
                    } else {
                        old(graph).vertices@[p]
                    }),
                forall|j: int|
                    0 <= j < m ==> edge_wf(#[trigger] graph.edges@[j], graph.input_length as int),
            decreases m - i,
        {
            let e_start = graph.edges[i].start;
            let e_end = graph.edges[i].end;
            let flagged = graph.edges[i].ambiguity_penalized;
            if e_end == end && e_start > start && contains_edge(&graph.edges, start, e_start) {
                proof {
                    lemma_has_edge_transfer(
                        graph.edges@,
                        old(graph).edges@,
                        start as int,
                        e_start as int,
                    );
                    lemma_has_edge_transfer(
                        graph.edges@,
                        old(graph).edges@,
                        e_start as int,
                        end as int,
                    );
                    assert(graph.edges@[i as int].start == e_start && graph.edges@[i as int].end
                        == end);
                    assert(has_edge_spec(graph.edges@, e_start as int, end as int));
                    assert(joint_detected(
                        old(graph).edges@,
                        start as int,
                        end as int,
                        e_start as int,
                    ));
                }
                graph.vertices[e_start] = Some(SpellingType::AmbiguousSpelling);
                if !flagged {
                    let cred = graph.edges[i].properties.spelling_properties.credibility;
                    let e_mut = vstd::std_specs::vec::vec_index_mut(&mut graph.edges, i);
                    e_mut.properties.spelling_properties.credibility = cred
                        + PENALTY_FOR_AMBIGUOUS_SYLLABLE;
                    e_mut.ambiguity_penalized = true;
                }
            }
            i += 1;
        }
        proof {
            lemma_has_edge_transfer_all(graph.edges@, old(graph).edges@);
            assert forall|a: int, b: int| 0 <= a < b < graph.edges@.len() implies !((
            #[trigger] graph.edges@[a]).start == (#[trigger] graph.edges@[b]).start
                && graph.edges@[a].end == graph.edges@[b].end && graph.edges@[a].syllable
                == graph.edges@[b].syllable) by {
                assert(edge_frame_eq(old(graph).edges@[a], graph.edges@[a]));
                assert(edge_frame_eq(old(graph).edges@[b], graph.edges@[b]));
            }
            assert forall|a: int|
                0 <= a < graph.edges@.len() implies ((#[trigger] graph.vertices@[graph.edges@[a].start as int]) is Some
                && graph.vertices@[graph.edges@[a].end as int] is Some) by {
                assert(edge_frame_eq(old(graph).edges@[a], graph.edges@[a]));
                assert(old(graph).vertices@[old(graph).edges@[a].start as int] is Some);
                assert(old(graph).vertices@[old(graph).edges@[a].end as int] is Some);
            }
        }
    }
}

/// If no edge among the first `i` matches the key, the search continues in
/// the rest.
proof fn lemma_find_edge_skip(edges: Seq<Edge>, s: int, t: int, y: SyllableId, i: int)
    requires
        0 <= i <= edges.len(),
        forall|j: int|
            0 <= j < i ==> !((#[trigger] edges[j]).start == s && edges[j].end == t
                && edges[j].syllable == y),
    ensures
        find_edge(edges, s, t, y) == find_edge(edges.skip(i), s, t, y),
    decreases i,
{
    if i > 0 {
        assert(edges.skip(1) =~= edges.drop_first());
        assert(forall|j: int|
            0 <= j < i - 1 ==> edges.drop_first()[j] == edges[j + 1] && !((#[trigger] edges
                .drop_first()[j]).start == s && edges.drop_first()[j].end == t
                && edges.drop_first()[j].syllable == y));
        lemma_find_edge_skip(edges.drop_first(), s, t, y, i - 1);
        assert(edges.drop_first().skip(i - 1) =~= edges.skip(i));
    } else {
        assert(edges.skip(0) =~= edges);
    }
}

/// The index of the first edge carrying this key, if any.
fn find_edge_index(edges: &Vec<Edge>, s: usize, t: usize, y: SyllableId) -> (r: Option<usize>)
    ensures
        (match r {
            Some(idx) => idx < edges@.len() && edges@[idx as int].start == s as int
                && edges@[idx as int].end == t as int && edges@[idx as int].syllable == y
                && find_edge(edges@, s as int, t as int, y) == Some(
                edges@[idx as int].properties,
            ),
            None => find_edge(edges@, s as int, t as int, y) is None,
        }),
{
    let n = edges.len();
    let mut i: usize = 0;
    while i < n
        invariant
            i <= n,
            n == edges@.len(),
            forall|j: int|
                0 <= j < i ==> !((#[trigger] edges@[j]).start == s as int && edges@[j].end
                    == t as int && edges@[j].syllable == y),
        decreases n - i,
    {
        let e = &edges[i];
        if e.start == s && e.end == t && e.syllable == y {
            proof {
                lemma_find_edge_skip(edges@, s as int, t as int, y, i as int);
                assert(edges@.skip(i as int)[0] == edges@[i as int]);
            }
            return Some(i);
        }
        i += 1;
    }
    proof {
        lemma_find_edge_skip(edges@, s as int, t as int, y, n as int);
        assert(edges@.skip(n as int) =~= Seq::<Edge>::empty());
    }
    None
}

/// Whether the derived index already holds an entry for this start and
/// syllable.
pub open spec fn has_index_entry(indices: Seq<SpellingIndexEntry>, s: int, y: SyllableId) -> bool {
    exists|k: int|
        0 <= k < indices.len() && (#[trigger] indices[k]).start == s && indices[k].syllable == y
}

fn index_entry_exists(indices: &Vec<SpellingIndexEntry>, s: usize, y: SyllableId) -> (r: bool)
    ensures
        r == has_index_entry(indices@, s as int, y),
{
    let n = indices.len();
    let mut i: usize = 0;
    while i < n
        invariant
            i <= n,
            n == indices@.len(),
            forall|j: int|
                0 <= j < i ==> !((#[trigger] indices@[j]).start == s as int && indices@[j].syllable
                    == y),
        decreases n - i,
    {
        let en = &indices[i];
        if en.start == s && en.syllable == y {
            return true;
        }
        i += 1;
    }
    false
}

impl Syllabifier {
    /// The transposition pass: derive, for every start position and syllable
    /// present in the lattice, the ordered list of matching edges — the end
    /// positions descending, so the longest span comes first. The lattice
    /// itself is left untouched.
    #[verifier::loop_isolation(false)]
    #[verifier::spinoff_prover]
    #[verifier::rlimit(80)]
    pub fn transpose(&self, graph: &mut SyllableGraph)
        requires
            graph_wf(*old(graph)),
            old(graph).indices@.len() == 0,
        ensures
            graph_wf(*final(graph)),
            final(graph).input_length == old(graph).input_length,
            final(graph).interpreted_length == old(graph).interpreted_length,
            final(graph).vertices == old(graph).vertices,
            final(graph).edges == old(graph).edges,
            forall|k: int|
                0 <= k < final(graph).indices@.len() ==> (#[trigger] final(graph).indices@[k]).list@ == index_list(
                    old(graph).edges@,
                    final(graph).indices@[k].start as int,
                    final(graph).indices@[k].syllable,
                    old(graph).input_length as int,
                ),
            forall|i: int|
                0 <= i < old(graph).edges@.len() ==> has_index_entry(
                    final(graph).indices@,
                    (#[trigger] old(graph).edges@[i]).start as int,
                    old(graph).edges@[i].syllable,
                ),
            forall|k1: int, k2: int|
                0 <= k1 < k2 < final(graph).indices@.len() ==> !((#[trigger] final(graph).indices@[k1]).start
                    == (#[trigger] final(graph).indices@[k2]).start
                    && final(graph).indices@[k1].syllable == final(graph).indices@[k2].syllable),
    {
        let n = graph.input_length;
        let m = graph.edges.len();
        let mut i: usize = 0;
        while i < m
            invariant
                m == graph.edges@.len(),
                i <= m,
                graph.input_length == old(graph).input_length,
                graph.interpreted_length == old(graph).interpreted_length,
                graph.vertices == old(graph).vertices,
                graph.edges == old(graph).edges,
                n == graph.input_length,
                m == 0 ==> graph.indices@.len() == 0,
                forall|k: int|
                    0 <= k < graph.indices@.len() ==> (#[trigger] graph.indices@[k]).list@
                        == index_list(
                        graph.edges@,
                        graph.indices@[k].start as int,
                        graph.indices@[k].syllable,
                        n as int,
                    ),
                forall|j: int|
                    0 <= j < i ==> has_index_entry(
                        graph.indices@,
                        (#[trigger] graph.edges@[j]).start as int,
                        graph.edges@[j].syllable,
                    ),
                forall|k1: int, k2: int|
                    0 <= k1 < k2 < graph.indices@.len() ==> !((#[trigger] graph.indices@[k1]).start
                        == (#[trigger] graph.indices@[k2]).start && graph.indices@[k1].syllable
                        == graph.indices@[k2].syllable),
            decreases m - i,
        {
            let s = graph.edges[i].start;
            let y = graph.edges[i].syllable;
            let ghost indices_pre = graph.indices@;
            if !index_entry_exists(&graph.indices, s, y) {
                let mut list: Vec<EdgeProperties> = Vec::new();
                let mut e2 = n;
                while e2 > s
                    invariant
                        e2 <= n,
                        s < n || e2 == s || e2 == n,
                        list@ + index_list(graph.edges@, s as int, y, e2 as int) == index_list(
                            graph.edges@,
                            s as int,
                            y,
                            n as int,
                        ),
                    decreases e2,
                {
                    match find_edge_index(&graph.edges, s, e2, y) {
                        Some(idx) => {
                            let props = graph.edges[idx].properties.clone();
                            list.push(props);
                            proof {
                                assert(list@ + index_list(graph.edges@, s as int, y, e2 - 1)
                                    =~= index_list(graph.edges@, s as int, y, n as int));
                            }
                        },
                        None => {
                            proof {
                                assert(list@ + index_list(graph.edges@, s as int, y, e2 - 1)
                                    =~= index_list(graph.edges@, s as int, y, n as int));
                            }
                        },
                    }
                    e2 = e2 - 1;
                }
                graph.indices.push(SpellingIndexEntry { start: s, syllable: y, list });
            }
            proof {
                assert forall|j: int| 0 <= j < i + 1 implies has_index_entry(
                    graph.indices@,
                    (#[trigger] graph.edges@[j]).start as int,
                    graph.edges@[j].syllable,
                ) by {
                    if j < i {
                        let k0 = choose|k: int|
                            0 <= k < indices_pre.len() && (#[trigger] indices_pre[k]).start
                                == graph.edges@[j].start as int && indices_pre[k].syllable
                                == graph.edges@[j].syllable;
                        assert((graph.indices@[k0]).start == graph.edges@[j].start as int
                            && graph.indices@[k0].syllable == graph.edges@[j].syllable);
                    } else {
                        assert((graph.indices@[graph.indices@.len() - 1]).start == s as int
                            || has_index_entry(indices_pre, s as int, y));
                        if has_index_entry(indices_pre, s as int, y) {
                            let k0 = choose|k: int|
                                0 <= k < indices_pre.len() && (#[trigger] indices_pre[k]).start
                                    == s as int && indices_pre[k].syllable == y;
                            assert((graph.indices@[k0]).start == s as int
                                && graph.indices@[k0].syllable == y);
                        }
                    }
                }
            }
            i += 1;
        }
    }
}

/// Two edge sequences with the same ends and classifications leave every
/// minimality claim unchanged.
proof fn lemma_min_incoming_transfer(a: Seq<Edge>, b: Seq<Edge>)
    requires
        a.len() == b.len(),
        forall|i: int|
            0 <= i < a.len() ==> (#[trigger] a[i]).end == b[i].end && edge_type(a[i]) == edge_type(
                b[i],
            ),
    ensures
        forall|p: int, t: SpellingType| min_incoming_at(a, p, t) == #[trigger] min_incoming_at(
            b,
            p,
            t,
        ),
{
    assert forall|p: int, t: SpellingType| min_incoming_at(a, p, t) == #[trigger] min_incoming_at(
        b,
        p,
        t,
    ) by {
        reveal(min_incoming_at);
        if min_incoming_at(a, p, t) {
            let i = choose|i: int|
                0 <= i < a.len() && (#[trigger] a[i]).end == p && edge_type(a[i]) == t;
            assert(b[i].end == p && edge_type(b[i]) == t);
            assert forall|j: int| 0 <= j < b.len() && (#[trigger] b[j]).end == p implies t.spec_rank()
                <= edge_type(b[j]).spec_rank() by {
                assert(a[j].end == p);
            }
        }
        if min_incoming_at(b, p, t) {
            let i = choose|i: int|
                0 <= i < b.len() && (#[trigger] b[i]).end == p && edge_type(b[i]) == t;
            assert(a[i].end == p && edge_type(a[i]) == t);
            assert forall|j: int| 0 <= j < a.len() && (#[trigger] a[j]).end == p implies t.spec_rank()
                <= edge_type(a[j]).spec_rank() by {
                assert(b[j].end == p);
            }
        }
    }
}

/// The entry is the traversal seed or is borne by an edge: some edge ends at
/// its position carrying its classification.
#[verifier::opaque]
pub open spec fn entry_borne(edges: Seq<Edge>, entry: (usize, SpellingType)) -> bool {
    (entry.0 == 0 && entry.1 == SpellingType::NormalSpelling) || exists|i: int|
        0 <= i < edges.len() && (#[trigger] edges[i]).end == entry.0 && edge_type(edges[i])
            == entry.1
}

/// The queue holds an entry for this position and classification.
#[verifier::opaque]
pub open spec fn queue_has(q: Seq<(usize, SpellingType)>, end: int, t: SpellingType) -> bool {
    exists|k: int| 0 <= k < q.len() && (#[trigger] q[k]).0 == end && q[k].1 == t
}

/// The working state of the frontier traversal: `farthest` bounds every
/// recorded position, queue entries lie between the frontier and the input
/// end and are each borne by an edge (or are the seed), every edge whose end
/// is still unrecorded has its entry waiting in the queue, and every
/// recorded classification is already minimal among its incoming edges.
#[verifier::opaque]
pub open spec fn traverse_inv(
    g: SyllableGraph,
    queue: Seq<(usize, SpellingType)>,
    farthest: int,
    n: int,
) -> bool {
    &&& n > 0
    &&& g.input_length == n
    &&& g.vertices@.len() == n + 1
    &&& g.indices@.len() == 0
    &&& 0 <= farthest <= n
    &&& (g.vertices@[farthest] is Some || farthest == 0)
    &&& forall|p: int| 0 <= p <= n && (#[trigger] g.vertices@[p]) is Some ==> p <= farthest
    &&& forall|k: int| 0 <= k < queue.len() ==> farthest <= (#[trigger] queue[k]).0 <= n
    &&& forall|k: int| 0 <= k < queue.len() ==> entry_borne(g.edges@, #[trigger] queue[k])
    &&& forall|i: int|
        0 <= i < g.edges@.len() && g.vertices@[(#[trigger] g.edges@[i]).end as int] is None
            ==> queue_has(queue, g.edges@[i].end as int, edge_type(g.edges@[i]))
    &&& forall|p: int, t: SpellingType|
        1 <= p <= n && g.vertices@[p] == Some(t) ==> #[trigger] min_incoming_at(g.edges@, p, t)
    &&& forall|p: int|
        1 <= p <= n && (#[trigger] g.vertices@[p]) is Some ==> exists|i: int|
            0 <= i < g.edges@.len() && (#[trigger] g.edges@[i]).end == p
    &&& (g.vertices@[0] is Some ==> g.vertices@[0] == Some(SpellingType::NormalSpelling))
    &&& (g.vertices@[0] is None ==> queue_has(queue, 0, SpellingType::NormalSpelling))
    &&& edges_unique(g.edges@)
    &&& forall|i: int| 0 <= i < g.edges@.len() ==> edge_wf(#[trigger] g.edges@[i], n)
    &&& forall|i: int|
        0 <= i < g.edges@.len() ==> (#[trigger] g.vertices@[g.edges@[i].start as int]) is Some
    &&& forall|i: int| 0 <= i < g.edges@.len() ==> !(#[trigger] g.edges@[i]).ambiguity_penalized
}

/// After a push, every queue entry is still borne by an edge (or is the
/// seed).
#[verifier::spinoff_prover]
#[verifier::rlimit(80)]
proof fn lemma_push_queue_borne(
    edges_pre: Seq<Edge>,
    edges_post: Seq<Edge>,
    q_pre: Seq<(usize, SpellingType)>,
    q_post: Seq<(usize, SpellingType)>,
    e: Edge,
)
    requires
        forall|k: int| 0 <= k < q_pre.len() ==> entry_borne(edges_pre, #[trigger] q_pre[k]),
        edges_post == edges_pre.push(e),
        q_post == q_pre.push((e.end, edge_type(e))),
    ensures
        forall|k: int| 0 <= k < q_post.len() ==> entry_borne(edges_post, #[trigger] q_post[k]),
{
    let last_e = edges_post.len() - 1;
    let last_k = q_post.len() - 1;
    assert forall|k: int| 0 <= k < q_post.len() implies entry_borne(
        edges_post,
        #[trigger] q_post[k],
    ) by {
        reveal(entry_borne);
        if k < last_k {
            assert(entry_borne(edges_pre, q_pre[k]));
            if !(q_pre[k].0 == 0 && q_pre[k].1 == SpellingType::NormalSpelling) {
                let i0 = choose|i: int|
                    0 <= i < edges_pre.len() && (#[trigger] edges_pre[i]).end == q_pre[k].0
                        && edge_type(edges_pre[i]) == q_pre[k].1;
                assert(edges_post[i0].end == q_post[k].0 && edge_type(edges_post[i0])
                    == q_post[k].1);
            }
        } else {
            assert(edges_post[last_e].end == q_post[k].0 && edge_type(edges_post[last_e])
                == q_post[k].1);
        }
    }
}

/// After a push, every edge whose end is unrecorded still has its queue
/// entry.
#[verifier::spinoff_prover]
#[verifier::rlimit(80)]
proof fn lemma_push_ends_covered(
    vertices: Seq<Option<SpellingType>>,
    edges_pre: Seq<Edge>,
    edges_post: Seq<Edge>,
    q_pre: Seq<(usize, SpellingType)>,
    q_post: Seq<(usize, SpellingType)>,
    e: Edge,
)
    requires
        forall|i: int|
            0 <= i < edges_pre.len() && vertices[(#[trigger] edges_pre[i]).end as int] is None
                ==> queue_has(q_pre, edges_pre[i].end as int, edge_type(edges_pre[i])),
        edges_post == edges_pre.push(e),
        q_post == q_pre.push((e.end, edge_type(e))),
        0 <= e.end < vertices.len(),
    ensures
        forall|i: int|
            0 <= i < edges_post.len() && vertices[(#[trigger] edges_post[i]).end as int] is None
                ==> queue_has(q_post, edges_post[i].end as int, edge_type(edges_post[i])),
{
    let last_e = edges_post.len() - 1;
    let last_k = q_post.len() - 1;
    assert forall|i: int|
        0 <= i < edges_post.len() && vertices[(#[trigger] edges_post[i]).end as int]
            is None implies queue_has(
        q_post,
        edges_post[i].end as int,
        edge_type(edges_post[i]),
    ) by {
        reveal(queue_has);
        if i < last_e {
            assert(queue_has(q_pre, edges_pre[i].end as int, edge_type(edges_pre[i])));
            let k0 = choose|k: int|
                0 <= k < q_pre.len() && (#[trigger] q_pre[k]).0 == edges_pre[i].end as int
                    && q_pre[k].1 == edge_type(edges_pre[i]);
            assert(q_post[k0].0 == edges_post[i].end && q_post[k0].1 == edge_type(edges_post[i]));
        } else {
            assert(q_post[last_k].0 == edges_post[i].end && q_post[last_k].1 == edge_type(
                edges_post[i],
            ));
        }
    }
}

/// Pushing an edge that ends beyond the frontier leaves every recorded
/// classification minimal.
#[verifier::spinoff_prover]
#[verifier::rlimit(80)]
proof fn lemma_push_min_incoming(
    vertices: Seq<Option<SpellingType>>,
    edges_pre: Seq<Edge>,
    edges_post: Seq<Edge>,
    farthest: int,
    n: int,
    e: Edge,
)
    requires
        forall|p: int, t: SpellingType|
            1 <= p <= n && vertices[p] == Some(t) ==> #[trigger] min_incoming_at(edges_pre, p, t),
        forall|p: int| 0 <= p <= n && (#[trigger] vertices[p]) is Some ==> p <= farthest,
        vertices.len() == n + 1,
        edges_post == edges_pre.push(e),
        e.end > farthest,
    ensures
        forall|p: int, t: SpellingType|
            1 <= p <= n && vertices[p] == Some(t) ==> #[trigger] min_incoming_at(edges_post, p, t),
{
    let last_e = edges_post.len() - 1;
    assert forall|p: int, t: SpellingType|
        1 <= p <= n && vertices[p] == Some(t) implies #[trigger] min_incoming_at(
        edges_post,
        p,
        t,
    ) by {
        reveal(min_incoming_at);
        assert(p <= farthest);
        assert(min_incoming_at(edges_pre, p, t));
        let i0 = choose|i: int|
            0 <= i < edges_pre.len() && (#[trigger] edges_pre[i]).end == p && edge_type(
                edges_pre[i],
            ) == t;
        assert(edges_post[i0].end == p && edge_type(edges_post[i0]) == t);
        assert forall|j: int|
            0 <= j < edges_post.len() && (#[trigger] edges_post[j]).end == p implies t.spec_rank()
            <= edge_type(edges_post[j]).spec_rank() by {
            assert(j < last_e || edges_post[j].end == e.end);
        }
    }
}

/// Appending one fresh edge beyond the frontier, together with its queue
/// entry, preserves the traversal state.
#[verifier::spinoff_prover]
#[verifier::rlimit(80)]
proof fn lemma_add_edge_preserves(
    pre: SyllableGraph,
    post: SyllableGraph,
    q_pre: Seq<(usize, SpellingType)>,
    q_post: Seq<(usize, SpellingType)>,
    farthest: int,
    n: int,
    e: Edge,
)
    requires
        traverse_inv(pre, q_pre, farthest, n),
        e.start == farthest,
        e.start < e.end <= n,
        pre.vertices@[e.start as int] is Some,
        edge_cred_ok(e),
        !e.ambiguity_penalized,
        e.properties.spelling_properties.end_pos == e.end,
        !has_triple(pre.edges@, e.start as int, e.end as int, e.syllable),
        post.edges@ == pre.edges@.push(e),
        post.vertices == pre.vertices,
        post.input_length == pre.input_length,
        post.indices == pre.indices,
        q_post == q_pre.push((e.end, edge_type(e))),
    ensures
        traverse_inv(post, q_post, farthest, n),
{
    reveal(traverse_inv);
    let last_e = post.edges@.len() - 1;
    let last_k = q_post.len() - 1;
    assert(post.edges@[last_e] == e);
    // the fresh key keeps the edge set duplicate-free
    assert forall|a: int, b: int| 0 <= a < b < post.edges@.len() implies !((
    #[trigger] post.edges@[a]).start == (#[trigger] post.edges@[b]).start && post.edges@[a].end
        == post.edges@[b].end && post.edges@[a].syllable == post.edges@[b].syllable) by {
        if b == last_e && post.edges@[a].start == e.start && post.edges@[a].end == e.end
            && post.edges@[a].syllable == e.syllable {
            assert(has_triple(pre.edges@, e.start as int, e.end as int, e.syllable));
        }
    }
    lemma_push_queue_borne(pre.edges@, post.edges@, q_pre, q_post, e);
    lemma_push_ends_covered(pre.vertices@, pre.edges@, post.edges@, q_pre, q_post, e);
    lemma_push_min_incoming(pre.vertices@, pre.edges@, post.edges@, farthest, n, e);
    // recorded positions still have an incoming edge
    assert forall|p: int|
        1 <= p <= n && (#[trigger] post.vertices@[p]) is Some implies exists|i: int|
        0 <= i < post.edges@.len() && (#[trigger] post.edges@[i]).end == p by {
        let i0 = choose|i: int| 0 <= i < pre.edges@.len() && (#[trigger] pre.edges@[i]).end == p;
        assert(post.edges@[i0].end == p);
    }
    // the seed entry, if still needed, is still present
    if post.vertices@[0] is None {
        reveal(queue_has);
        assert(queue_has(q_pre, 0, SpellingType::NormalSpelling));
        let k0 = choose|k: int|
            0 <= k < q_pre.len() && (#[trigger] q_pre[k]).0 == 0 && q_pre[k].1
                == SpellingType::NormalSpelling;
        assert(q_post[k0].0 == 0 && q_post[k0].1 == SpellingType::NormalSpelling);
    }
}

/// Insert one recognized span while the frontier sits at `pos`: an edge
/// `pos .. end` carrying the given syllable and classification, and a queue
/// entry for its end — unless the same key is already present, in which case
/// the first discovery stands.
#[verifier::loop_isolation(false)]
#[verifier::spinoff_prover]
fn add_lattice_edge(
    graph: &mut SyllableGraph,
    queue: &mut Vec<(usize, SpellingType)>,
    pos: usize,
    end: usize,
    syllable: SyllableId,
    stype: SpellingType,
    cred: i64,
    tips: String,
    is_correction: bool,
    Ghost(farthest): Ghost<int>,
    Ghost(n): Ghost<int>,
)
    requires
        traverse_inv(*old(graph), old(queue)@, farthest, n),
        pos == farthest,
        pos < end <= n,
        old(graph).vertices@[pos as int] is Some,
        MIN_DICTIONARY_CREDIBILITY + CORRECTION_CREDIBILITY <= cred <= 0,
    ensures
        traverse_inv(*final(graph), final(queue)@, farthest, n),
        final(graph).vertices == old(graph).vertices,
        final(graph).input_length == old(graph).input_length,
        final(graph).interpreted_length == old(graph).interpreted_length,
        final(graph).indices == old(graph).indices,
        old(graph).edges@.is_prefix_of(final(graph).edges@),
        has_triple(final(graph).edges@, pos as int, end as int, syllable),
        forall|i: int|
            old(graph).edges@.len() <= i < final(graph).edges@.len() ==> {
                let e = #[trigger] final(graph).edges@[i];
                &&& e.start == pos
                &&& e.end == end
                &&& e.syllable == syllable
                &&& edge_type(e) == stype
                &&& edge_cred(e) == cred
                &&& e.properties.is_correction == is_correction
                &&& !e.ambiguity_penalized
            },
{
    proof {
        assert(graph.edges@.is_prefix_of(graph.edges@)) by {
            assert(graph.edges@ =~= graph.edges@.subrange(0, graph.edges@.len() as int));
        }
    }
    if !contains_triple(&graph.edges, pos, end, syllable) {
        let ghost g_pre = *graph;
        let ghost q_pre = queue@;
        let e = Edge {
            start: pos,
            end,
            syllable,
            properties: EdgeProperties {
                spelling_properties: SpellingProperties {
                    spelling_type: stype,
                    end_pos: end,
                    credibility: cred,
                    tips,
                },
                is_correction,
            },
            ambiguity_penalized: false,
        };
        let ghost eg = e;
        graph.edges.push(e);
        queue.push((end, stype));
        proof {
            lemma_add_edge_preserves(g_pre, *graph, q_pre, queue@, farthest, n, eg);
            assert(graph.edges@[graph.edges@.len() - 1] == eg);
            assert(g_pre.edges@.is_prefix_of(graph.edges@)) by {
                assert(g_pre.edges@ =~= graph.edges@.subrange(0, g_pre.edges@.len() as int));
            }
        }
    }
}

/// The classification-dependent penalty a dictionary match carries.
pub open spec fn type_penalty(t: SpellingType) -> int {
    match t {
        SpellingType::FuzzySpelling => FUZZY_SPELLING_PENALTY as int,
        SpellingType::Abbreviation => ABBREVIATION_PENALTY as int,
        _ => 0,
    }
}

/// The ambiguity pass's one-time contribution to an edge's credibility.
pub open spec fn ambiguity_adjustment(e: Edge) -> int {
    if e.ambiguity_penalized {
        PENALTY_FOR_AMBIGUOUS_SYLLABLE as int
    } else {
        0
    }
}

/// The suggestion entries of the installed corrector.
pub open spec fn corrector_entries(syl: Syllabifier) -> Seq<PrismEntry> {
    (*syl.corrector.unwrap()).entries@
}

/// The edge arises from a dictionary match, a completion or a corrector
/// suggestion at its start position, carrying that source's classification
/// and exactly the composed credibility: the source's base credibility plus
/// the applicable penalty, plus the one-time ambiguity adjustment; and
/// `is_correction` is set exactly on corrector-derived edges.
#[verifier::opaque]
pub open spec fn edge_sound(e: Edge, input: Seq<char>, prism: Prism, syl: Syllabifier) -> bool {
    ||| (!e.properties.is_correction && exists|i: int|
        0 <= i < prism.entries@.len() && {
            let en = #[trigger] prism.entries@[i];
            &&& is_prefix_at(en.text@, input, e.start as int)
            &&& e.end == e.start + en.text@.len()
            &&& e.syllable == en.descriptor.syllable_id
            &&& edge_type(e) == en.descriptor.spelling_type
            &&& edge_cred(e) == en.descriptor.credibility + type_penalty(
                en.descriptor.spelling_type,
            ) + ambiguity_adjustment(e)
        })
    ||| (!e.properties.is_correction && syl.enable_completion && exists|i: int|
        0 <= i < prism.entries@.len() && {
            let en = #[trigger] prism.entries@[i];
            &&& is_completion_at(en.text@, input, e.start as int)
            &&& e.end == input.len()
            &&& e.syllable == en.descriptor.syllable_id
            &&& edge_type(e) == SpellingType::Completion
            &&& edge_cred(e) == en.descriptor.credibility + COMPLETION_PENALTY
                + ambiguity_adjustment(e)
        })
    ||| (e.properties.is_correction && !syl.strict_spelling && syl.corrector is Some && exists|
        i: int,
    |
        0 <= i < corrector_entries(syl).len() && {
            let en = #[trigger] corrector_entries(syl)[i];
            &&& is_prefix_at(en.text@, input, e.start as int)
            &&& e.end == e.start + en.text@.len()
            &&& e.syllable == en.descriptor.syllable_id
            &&& edge_type(e) == SpellingType::FuzzySpelling
            &&& edge_cred(e) == en.descriptor.credibility + CORRECTION_CREDIBILITY
                + ambiguity_adjustment(e)
        })
}

/// Every edge of the sequence is sound for this input and configuration.
pub open spec fn edges_sound(
    edges: Seq<Edge>,
    input: Seq<char>,
    prism: Prism,
    syl: Syllabifier,
) -> bool {
    forall|i: int| 0 <= i < edges.len() ==> edge_sound(#[trigger] edges[i], input, prism, syl)
}

/// Every dictionary entry matching at `p` has its edge in the lattice.
#[verifier::opaque]
pub open spec fn covers_dict(edges: Seq<Edge>, input: Seq<char>, prism: Prism, p: int) -> bool {
    forall|i: int|
        0 <= i < prism.entries@.len() && is_prefix_at(
            (#[trigger] prism.entries@[i]).text@,
            input,
            p,
        ) ==> has_triple(
            edges,
            p,
            p + prism.entries@[i].text@.len(),
            prism.entries@[i].descriptor.syllable_id,
        )
}

/// Every completion match at `p` has its edge to the input end.
#[verifier::opaque]
pub open spec fn covers_completion(
    edges: Seq<Edge>,
    input: Seq<char>,
    prism: Prism,
    p: int,
) -> bool {
    forall|i: int|
        0 <= i < prism.entries@.len() && is_completion_at(
            (#[trigger] prism.entries@[i]).text@,
            input,
            p,
        ) ==> has_triple(edges, p, input.len() as int, prism.entries@[i].descriptor.syllable_id)
}

/// Every corrector suggestion matching at `p` has its edge.
#[verifier::opaque]
pub open spec fn covers_corrections(
    edges: Seq<Edge>,
    input: Seq<char>,
    corr: Corrector,
    p: int,
) -> bool {
    forall|i: int|
        0 <= i < corr.entries@.len() && is_prefix_at(
            (#[trigger] corr.entries@[i]).text@,
            input,
            p,
        ) ==> has_triple(
            edges,
            p,
            p + corr.entries@[i].text@.len(),
            corr.entries@[i].descriptor.syllable_id,
        )
}

/// Every source of spellings the configuration admits is fully represented
/// at position `p`.
pub open spec fn position_covered(
    edges: Seq<Edge>,
    input: Seq<char>,
    prism: Prism,
    syl: Syllabifier,
    p: int,
) -> bool {
    &&& covers_dict(edges, input, prism, p)
    &&& (syl.enable_completion ==> covers_completion(edges, input, prism, p))
    &&& (!syl.strict_spelling && syl.corrector is Some ==> covers_corrections(
        edges,
        input,
        *syl.corrector.unwrap(),
        p,
    ))
}

/// Every recorded position carries an edge for every match the dictionary,
/// the completion rule and the corrector admit there: the builder consults
/// its collaborators at every position it visits.
pub open spec fn expansion_covered(
    g: SyllableGraph,
    input: Seq<char>,
    prism: Prism,
    syl: Syllabifier,
) -> bool {
    forall|p: int|
        0 <= p < g.input_length && (#[trigger] g.vertices@[p]) is Some ==> position_covered(
            g.edges@,
            input,
            prism,
            syl,
            p,
        )
}

/// The position can be reached from the start of the input over the edges.
pub open spec fn pos_reachable(edges: Seq<Edge>, p: int) -> bool
    decreases p,
{
    p == 0 || (p > 0 && exists|i: int|
        0 <= i < edges.len() && (#[trigger] edges[i]).end == p && edges[i].start < p
            && pos_reachable(edges, edges[i].start as int))
}

/// A key present in a sequence is present in any extension of it.
proof fn lemma_has_triple_extends(a: Seq<Edge>, b: Seq<Edge>, s: int, t: int, y: SyllableId)
    requires
        a.is_prefix_of(b),
        has_triple(a, s, t, y),
    ensures
        has_triple(b, s, t, y),
{
    let i = choose|i: int|
        0 <= i < a.len() && (#[trigger] a[i]).start == s && a[i].end == t && a[i].syllable == y;
    assert(b.subrange(0, a.len() as int)[i] == b[i]);
    assert(b[i].start == s && b[i].end == t && b[i].syllable == y);
}

/// Position coverage survives appending further edges.
proof fn lemma_position_covered_extends(
    a: Seq<Edge>,
    b: Seq<Edge>,
    input: Seq<char>,
    prism: Prism,
    syl: Syllabifier,
    p: int,
)
    requires
        a.is_prefix_of(b),
        position_covered(a, input, prism, syl, p),
    ensures
        position_covered(b, input, prism, syl, p),
{
    reveal(covers_dict);
    reveal(covers_completion);
    reveal(covers_corrections);
    assert forall|i: int|
        0 <= i < prism.entries@.len() && is_prefix_at(
            (#[trigger] prism.entries@[i]).text@,
            input,
            p,
        ) implies has_triple(
        b,
        p,
        p + prism.entries@[i].text@.len(),
        prism.entries@[i].descriptor.syllable_id,
    ) by {
        lemma_has_triple_extends(
            a,
            b,
            p,
            p + prism.entries@[i].text@.len(),
            prism.entries@[i].descriptor.syllable_id,
        );
    }
    if syl.enable_completion {
        assert forall|i: int|
            0 <= i < prism.entries@.len() && is_completion_at(
                (#[trigger] prism.entries@[i]).text@,
                input,
                p,
            ) implies has_triple(
            b,
            p,
            input.len() as int,
            prism.entries@[i].descriptor.syllable_id,
        ) by {
            lemma_has_triple_extends(
                a,
                b,
                p,
                input.len() as int,
                prism.entries@[i].descriptor.syllable_id,
            );
        }
    }
    if !syl.strict_spelling && syl.corrector is Some {
        let corr = *syl.corrector.unwrap();
        assert forall|i: int|
            0 <= i < corr.entries@.len() && is_prefix_at(
                (#[trigger] corr.entries@[i]).text@,
                input,
                p,
            ) implies has_triple(
            b,
            p,
            p + corr.entries@[i].text@.len(),
            corr.entries@[i].descriptor.syllable_id,
        ) by {
            lemma_has_triple_extends(
                a,
                b,
                p,
                p + corr.entries@[i].text@.len(),
                corr.entries@[i].descriptor.syllable_id,
            );
        }
    }
}

/// Dictionary coverage survives appending further edges.
proof fn lemma_covers_dict_extends(a: Seq<Edge>, b: Seq<Edge>, input: Seq<char>, prism: Prism, p: int)
    requires
        a.is_prefix_of(b),
        covers_dict(a, input, prism, p),
    ensures
        covers_dict(b, input, prism, p),
{
    reveal(covers_dict);
    assert forall|i: int|
        0 <= i < prism.entries@.len() && is_prefix_at(
            (#[trigger] prism.entries@[i]).text@,
            input,
            p,
        ) implies has_triple(
        b,
        p,
        p + prism.entries@[i].text@.len(),
        prism.entries@[i].descriptor.syllable_id,
    ) by {
        lemma_has_triple_extends(
            a,
            b,
            p,
            p + prism.entries@[i].text@.len(),
            prism.entries@[i].descriptor.syllable_id,
        );
    }
}

/// Completion coverage survives appending further edges.
proof fn lemma_covers_completion_extends(
    a: Seq<Edge>,
    b: Seq<Edge>,
    input: Seq<char>,
    prism: Prism,
    p: int,
)
    requires
        a.is_prefix_of(b),
        covers_completion(a, input, prism, p),
    ensures
        covers_completion(b, input, prism, p),
{
    reveal(covers_completion);
    assert forall|i: int|
        0 <= i < prism.entries@.len() && is_completion_at(
            (#[trigger] prism.entries@[i]).text@,
            input,
            p,
        ) implies has_triple(b, p, input.len() as int, prism.entries@[i].descriptor.syllable_id) by {
        lemma_has_triple_extends(
            a,
            b,
            p,
            input.len() as int,
            prism.entries@[i].descriptor.syllable_id,
        );
    }
}

/// Correction coverage survives appending further edges.
proof fn lemma_covers_corrections_extends(
    a: Seq<Edge>,
    b: Seq<Edge>,
    input: Seq<char>,
    corr: Corrector,
    p: int,
)
    requires
        a.is_prefix_of(b),
        covers_corrections(a, input, corr, p),
    ensures
        covers_corrections(b, input, corr, p),
{
    reveal(covers_corrections);
    assert forall|i: int|
        0 <= i < corr.entries@.len() && is_prefix_at(
            (#[trigger] corr.entries@[i]).text@,
            input,
            p,
        ) implies has_triple(
        b,
        p,
        p + corr.entries@[i].text@.len(),
        corr.entries@[i].descriptor.syllable_id,
    ) by {
        lemma_has_triple_extends(
            a,
            b,
            p,
            p + corr.entries@[i].text@.len(),
            corr.entries@[i].descriptor.syllable_id,
        );
    }
}

/// A key present in a sequence is present in one with the same keys.
proof fn lemma_has_triple_frame(a: Seq<Edge>, b: Seq<Edge>, s: int, t: int, y: SyllableId)
    requires
        a.len() == b.len(),
        forall|i: int| 0 <= i < a.len() ==> edge_frame_eq(#[trigger] a[i], b[i]),
        has_triple(a, s, t, y),
    ensures
        has_triple(b, s, t, y),
{
    let i = choose|i: int|
        0 <= i < a.len() && (#[trigger] a[i]).start == s && a[i].end == t && a[i].syllable == y;
    assert(edge_frame_eq(a[i], b[i]));
    assert(b[i].start == s && b[i].end == t && b[i].syllable == y);
}

/// Position coverage survives the ambiguity pass, which never changes keys.
proof fn lemma_position_covered_frame(
    a: Seq<Edge>,
    b: Seq<Edge>,
    input: Seq<char>,
    prism: Prism,
    syl: Syllabifier,
    p: int,
)
    requires
        a.len() == b.len(),
        forall|i: int| 0 <= i < a.len() ==> edge_frame_eq(#[trigger] a[i], b[i]),
        position_covered(a, input, prism, syl, p),
    ensures
        position_covered(b, input, prism, syl, p),
{
    reveal(covers_dict);
    reveal(covers_completion);
    reveal(covers_corrections);
    assert forall|i: int|
        0 <= i < prism.entries@.len() && is_prefix_at(
            (#[trigger] prism.entries@[i]).text@,
            input,
            p,
        ) implies has_triple(
        b,
        p,
        p + prism.entries@[i].text@.len(),
        prism.entries@[i].descriptor.syllable_id,
    ) by {
        lemma_has_triple_frame(
            a,
            b,
            p,
            p + prism.entries@[i].text@.len(),
            prism.entries@[i].descriptor.syllable_id,
        );
    }
    if syl.enable_completion {
        assert forall|i: int|
            0 <= i < prism.entries@.len() && is_completion_at(
                (#[trigger] prism.entries@[i]).text@,
                input,
                p,
            ) implies has_triple(
            b,
            p,
            input.len() as int,
            prism.entries@[i].descriptor.syllable_id,
        ) by {
            lemma_has_triple_frame(
                a,
                b,
                p,
                input.len() as int,
                prism.entries@[i].descriptor.syllable_id,
            );
        }
    }
    if !syl.strict_spelling && syl.corrector is Some {
        let corr = *syl.corrector.unwrap();
        assert forall|i: int|
            0 <= i < corr.entries@.len() && is_prefix_at(
                (#[trigger] corr.entries@[i]).text@,
                input,
                p,
            ) implies has_triple(
            b,
            p,
            p + corr.entries@[i].text@.len(),
            corr.entries@[i].descriptor.syllable_id,
        ) by {
            lemma_has_triple_frame(
                a,
                b,
                p,
                p + corr.entries@[i].text@.len(),
                corr.entries@[i].descriptor.syllable_id,
            );
        }
    }
}

/// Edge soundness survives the ambiguity pass: a penalized edge keeps its
/// source, and the adjustment accounts for the one added penalty.
#[verifier::spinoff_prover]
proof fn lemma_sound_after_mark(
    pre: Seq<Edge>,
    post: Seq<Edge>,
    input: Seq<char>,
    prism: Prism,
    syl: Syllabifier,
)
    requires
        pre.len() == post.len(),
        forall|i: int| 0 <= i < pre.len() ==> edge_frame_eq(#[trigger] pre[i], post[i]),
        forall|i: int|
            0 <= i < pre.len() ==> (#[trigger] post[i] == pre[i] || (!pre[i].ambiguity_penalized
                && post[i].ambiguity_penalized && edge_cred(post[i]) == edge_cred(pre[i])
                + PENALTY_FOR_AMBIGUOUS_SYLLABLE)),
        edges_sound(pre, input, prism, syl),
    ensures
        edges_sound(post, input, prism, syl),
{
    assert forall|i: int| 0 <= i < post.len() implies edge_sound(
        #[trigger] post[i],
        input,
        prism,
        syl,
    ) by {
        assert(edge_sound(pre[i], input, prism, syl));
        if post[i] != pre[i] {
            reveal(edge_sound);
            assert(edge_frame_eq(pre[i], post[i]));
            assert(ambiguity_adjustment(pre[i]) == 0);
            assert(ambiguity_adjustment(post[i]) == PENALTY_FOR_AMBIGUOUS_SYLLABLE as int);
        }
    }
}

/// Recorded positions are exactly those reachable from the start: an
/// incoming edge leads back, position by position, to the seed.
proof fn lemma_recorded_iff_reachable_at(g: SyllableGraph, p: int)
    requires
        lattice_ok(g),
        0 <= p <= g.input_length,
    ensures
        g.vertices@[p] is Some <==> pos_reachable(g.edges@, p),
    decreases p,
{
    if g.vertices@[p] is Some {
        if p >= 1 {
            let i = choose|i: int| 0 <= i < g.edges@.len() && (#[trigger] g.edges@[i]).end == p;
            assert(edge_wf(g.edges@[i], g.input_length as int));
            assert(g.vertices@[g.edges@[i].start as int] is Some);
            lemma_recorded_iff_reachable_at(g, g.edges@[i].start as int);
            assert(pos_reachable(g.edges@, g.edges@[i].start as int));
        }
    }
    if pos_reachable(g.edges@, p) && p >= 1 {
        let i = choose|i: int|
            0 <= i < g.edges@.len() && (#[trigger] g.edges@[i]).end == p && g.edges@[i].start < p
                && pos_reachable(g.edges@, g.edges@[i].start as int);
        assert(g.vertices@[p] is Some);
    }
}

/// A fully built lattice before or after its ambiguity pass: the seed vertex/// A fully built lattice before or after its ambiguity pass: the seed vertex
/// is normal, every recorded classification not overwritten by an ambiguity
/// mark is minimal among its incoming edges, a position is recorded exactly
/// when an edge reaches it, and the interpreted length is the farthest
/// recorded position.
pub open spec fn lattice_ok(g: SyllableGraph) -> bool {
    &&& graph_wf(g)
    &&& g.input_length > 0
    &&& g.vertices@.len() == g.input_length + 1
    &&& g.vertices@[0] == Some(SpellingType::NormalSpelling)
    &&& forall|p: int, t: SpellingType|
        1 <= p <= g.input_length && g.vertices@[p] == Some(t) && t
            != SpellingType::AmbiguousSpelling ==> #[trigger] min_incoming_at(g.edges@, p, t)
    &&& forall|p: int|
        1 <= p <= g.input_length ==> ((#[trigger] g.vertices@[p]) is Some <==> exists|i: int|
            0 <= i < g.edges@.len() && (#[trigger] g.edges@[i]).end == p)
    &&& g.vertices@[g.interpreted_length as int] is Some
    &&& forall|p: int|
        g.interpreted_length < p <= g.input_length ==> (#[trigger] g.vertices@[p]) is None
}

/// The popped minimum entry's classification is minimal among the edges
/// reaching its position: every such edge has an entry waiting in the queue,
/// and the popped entry is the queue's minimum.
#[verifier::rlimit(100)]
#[verifier::spinoff_prover]
proof fn lemma_record_min(
    pre: SyllableGraph,
    q_pre: Seq<(usize, SpellingType)>,
    farthest: int,
    n: int,
    entry: (usize, SpellingType),
    idx: int,
)
    requires
        traverse_inv(pre, q_pre, farthest, n),
        0 <= idx < q_pre.len(),
        q_pre[idx] == entry,
        forall|k: int| 0 <= k < q_pre.len() ==> vx_le(entry, #[trigger] q_pre[k]),
        pre.vertices@[entry.0 as int] is None,
        entry.0 >= 1,
        entry.0 <= n,
    ensures
        min_incoming_at(pre.edges@, entry.0 as int, entry.1),
{
    reveal(traverse_inv);
    let p0 = entry.0 as int;
    assert(min_incoming_at(pre.edges@, p0, entry.1)) by {
        reveal(min_incoming_at);
        reveal(entry_borne);
        assert(entry_borne(pre.edges@, q_pre[idx]));
        let i0 = choose|i: int|
            0 <= i < pre.edges@.len() && (#[trigger] pre.edges@[i]).end == entry.0 && edge_type(
                pre.edges@[i],
            ) == entry.1;
        assert(pre.edges@[i0].end == p0 && edge_type(pre.edges@[i0]) == entry.1);
        assert forall|i: int|
            0 <= i < pre.edges@.len() && (#[trigger] pre.edges@[i]).end
                == p0 implies entry.1.spec_rank() <= edge_type(pre.edges@[i]).spec_rank() by {
            assert(pre.vertices@[pre.edges@[i].end as int] is None);
            assert(queue_has(q_pre, p0, edge_type(pre.edges@[i])));
            reveal(queue_has);
            let k0 = choose|k: int|
                0 <= k < q_pre.len() && (#[trigger] q_pre[k]).0 == p0 && q_pre[k].1 == edge_type(
                    pre.edges@[i],
                );
            assert(vx_le(entry, q_pre[k0]));
        }
    }
}

/// Recording the popped minimum entry moves the frontier to its position and
/// keeps the traversal state; the recorded classification is minimal among
/// the edges reaching the position.
#[verifier::rlimit(100)]
#[verifier::spinoff_prover]
proof fn lemma_record_vertex(
    pre: SyllableGraph,
    post: SyllableGraph,
    q_pre: Seq<(usize, SpellingType)>,
    q_post: Seq<(usize, SpellingType)>,
    farthest: int,
    n: int,
    entry: (usize, SpellingType),
    idx: int,
)
    requires
        traverse_inv(pre, q_pre, farthest, n),
        0 <= idx < q_pre.len(),
        q_pre[idx] == entry,
        q_post == q_pre.remove(idx),
        forall|k: int| 0 <= k < q_pre.len() ==> vx_le(entry, #[trigger] q_pre[k]),
        pre.vertices@[entry.0 as int] is None,
        post.vertices@ == pre.vertices@.update(entry.0 as int, Some(entry.1)),
        post.edges == pre.edges,
        post.input_length == pre.input_length,
        post.indices == pre.indices,
    ensures
        traverse_inv(post, q_post, entry.0 as int, n),
        entry.0 == 0 ==> entry.1 == SpellingType::NormalSpelling,
{
    reveal(traverse_inv);
    let p0 = entry.0 as int;
    assert(farthest <= p0 <= n);
    assert(post.edges@ == pre.edges@);
    // an entry at position zero can only be the seed, because every edge ends
    // past its start
    if entry.0 == 0 {
        reveal(entry_borne);
        assert(entry_borne(pre.edges@, q_pre[idx]));
        if !(entry.0 == 0 && entry.1 == SpellingType::NormalSpelling) {
            let i0 = choose|i: int|
                0 <= i < pre.edges@.len() && (#[trigger] pre.edges@[i]).end == entry.0
                    && edge_type(pre.edges@[i]) == entry.1;
            assert(edge_wf(pre.edges@[i0], n));
        }
    }
    // the newly recorded classification is minimal among its incoming edges
    if p0 >= 1 {
        lemma_record_min(pre, q_pre, farthest, n, entry, idx);
    }
    lemma_record_queue(pre, post, q_pre, q_post, farthest, n, entry, idx);
    assert forall|p: int, t: SpellingType|
        1 <= p <= n && post.vertices@[p] == Some(t) implies #[trigger] min_incoming_at(
        post.edges@,
        p,
        t,
    ) by {
        if p == p0 {
            assert(t == entry.1);
            assert(min_incoming_at(pre.edges@, p0, entry.1));
        } else {
            assert(post.vertices@[p] == pre.vertices@[p]);
            assert(min_incoming_at(pre.edges@, p, t));
        }
    }
    assert forall|p: int|
        1 <= p <= n && (#[trigger] post.vertices@[p]) is Some implies exists|i: int|
        0 <= i < post.edges@.len() && (#[trigger] post.edges@[i]).end == p by {
        if p == p0 {
            reveal(min_incoming_at);
            assert(min_incoming_at(post.edges@, p0, entry.1));
            let i0 = choose|i: int|
                0 <= i < post.edges@.len() && (#[trigger] post.edges@[i]).end == p0 && edge_type(
                    post.edges@[i],
                ) == entry.1;
            assert(post.edges@[i0].end == p);
        } else {
            assert(pre.vertices@[p] is Some);
            let i0 = choose|i: int|
                0 <= i < pre.edges@.len() && (#[trigger] pre.edges@[i]).end == p;
            assert(post.edges@[i0].end == p);
        }
    }
    assert forall|p: int| 0 <= p <= n && (#[trigger] post.vertices@[p]) is Some implies p
        <= p0 by {
        if p != p0 {
            assert(pre.vertices@[p] is Some);
        }
    }
    assert forall|i: int|
        0 <= i < post.edges@.len() implies (#[trigger] post.vertices@[post.edges@[
    i].start as int]) is Some by {
        assert(pre.vertices@[pre.edges@[i].start as int] is Some);
    }
    assert(post.vertices@[p0] is Some);
}

/// The queue facts of the traversal state survive recording: entries stay
/// edge-borne and bounded, unrecorded ends stay covered, and the seed entry
/// survives while the seed is unrecorded.
#[verifier::rlimit(100)]
#[verifier::spinoff_prover]
proof fn lemma_record_queue(
    pre: SyllableGraph,
    post: SyllableGraph,
    q_pre: Seq<(usize, SpellingType)>,
    q_post: Seq<(usize, SpellingType)>,
    farthest: int,
    n: int,
    entry: (usize, SpellingType),
    idx: int,
)
    requires
        traverse_inv(pre, q_pre, farthest, n),
        0 <= idx < q_pre.len(),
        q_pre[idx] == entry,
        q_post == q_pre.remove(idx),
        forall|k: int| 0 <= k < q_pre.len() ==> vx_le(entry, #[trigger] q_pre[k]),
        pre.vertices@[entry.0 as int] is None,
        post.vertices@ == pre.vertices@.update(entry.0 as int, Some(entry.1)),
        post.edges == pre.edges,
    ensures
        forall|k: int|
            0 <= k < q_post.len() ==> entry_borne(post.edges@, #[trigger] q_post[k]) && entry.0
                <= q_post[k].0 <= n,
        forall|i: int|
            0 <= i < post.edges@.len() && post.vertices@[(#[trigger] post.edges@[i]).end as int]
                is None ==> queue_has(q_post, post.edges@[i].end as int, edge_type(
                post.edges@[i],
            )),
        post.vertices@[0] is None ==> queue_has(q_post, 0, SpellingType::NormalSpelling),
{
    reveal(traverse_inv);
    assert forall|k: int| 0 <= k < q_post.len() implies entry_borne(
        post.edges@,
        #[trigger] q_post[k],
    ) && entry.0 <= q_post[k].0 <= n by {
        if k < idx {
            assert(q_post[k] == q_pre[k]);
            assert(vx_le(entry, q_pre[k]));
        } else {
            assert(q_post[k] == q_pre[k + 1]);
            assert(vx_le(entry, q_pre[k + 1]));
        }
    }
    assert forall|i: int|
        0 <= i < post.edges@.len() && post.vertices@[(#[trigger] post.edges@[i]).end as int]
            is None implies queue_has(q_post, post.edges@[i].end as int, edge_type(
        post.edges@[i],
    )) by {
        assert(pre.edges@[i].end != entry.0);
        assert(pre.vertices@[pre.edges@[i].end as int] is None);
        assert(queue_has(q_pre, pre.edges@[i].end as int, edge_type(pre.edges@[i])));
        reveal(queue_has);
        let k0 = choose|k: int|
            0 <= k < q_pre.len() && (#[trigger] q_pre[k]).0 == pre.edges@[i].end as int && q_pre[
                k].1 == edge_type(pre.edges@[i]);
        assert(k0 != idx);
        if k0 < idx {
            assert(q_post[k0] == q_pre[k0]);
        } else {
            assert(q_post[k0 - 1] == q_pre[k0]);
        }
    }
    if post.vertices@[0] is None {
        assert(queue_has(q_pre, 0, SpellingType::NormalSpelling));
        reveal(queue_has);
        let k0 = choose|k: int|
            0 <= k < q_pre.len() && (#[trigger] q_pre[k]).0 == 0 && q_pre[k].1
                == SpellingType::NormalSpelling;
        assert(k0 != idx);
        if k0 < idx {
            assert(q_post[k0] == q_pre[k0]);
        } else {
            assert(q_post[k0 - 1] == q_pre[k0]);
        }
    }
}

/// Discarding a popped entry whose position is already recorded keeps the
/// traversal state.
#[verifier::rlimit(100)]
#[verifier::spinoff_prover]
proof fn lemma_discard_entry(
    g: SyllableGraph,
    q_pre: Seq<(usize, SpellingType)>,
    q_post: Seq<(usize, SpellingType)>,
    farthest: int,
    n: int,
    entry: (usize, SpellingType),
    idx: int,
)
    requires
        traverse_inv(g, q_pre, farthest, n),
        0 <= idx < q_pre.len(),
        q_pre[idx] == entry,
        q_post == q_pre.remove(idx),
        g.vertices@[entry.0 as int] is Some,
    ensures
        traverse_inv(g, q_post, farthest, n),
{
    reveal(traverse_inv);
    assert forall|k: int| 0 <= k < q_post.len() implies entry_borne(
        g.edges@,
        #[trigger] q_post[k],
    ) && farthest <= q_post[k].0 <= n by {
        if k < idx {
            assert(q_post[k] == q_pre[k]);
        } else {
            assert(q_post[k] == q_pre[k + 1]);
        }
    }
    assert forall|i: int|
        0 <= i < g.edges@.len() && g.vertices@[(#[trigger] g.edges@[i]).end as int]
            is None implies queue_has(q_post, g.edges@[i].end as int, edge_type(g.edges@[i])) by {
        assert(queue_has(q_pre, g.edges@[i].end as int, edge_type(g.edges@[i])));
        reveal(queue_has);
        let k0 = choose|k: int|
            0 <= k < q_pre.len() && (#[trigger] q_pre[k]).0 == g.edges@[i].end as int && q_pre[
                k].1 == edge_type(g.edges@[i]);
        assert(g.edges@[i].end != entry.0);
        assert(k0 != idx);
        if k0 < idx {
            assert(q_post[k0] == q_pre[k0]);
        } else {
            assert(q_post[k0 - 1] == q_pre[k0]);
        }
    }
    if g.vertices@[0] is None {
        assert(queue_has(q_pre, 0, SpellingType::NormalSpelling));
        reveal(queue_has);
        let k0 = choose|k: int|
            0 <= k < q_pre.len() && (#[trigger] q_pre[k]).0 == 0 && q_pre[k].1
                == SpellingType::NormalSpelling;
        assert(k0 != idx);
        if k0 < idx {
            assert(q_post[k0] == q_pre[k0]);
        } else {
            assert(q_post[k0 - 1] == q_pre[k0]);
        }
    }
}

/// Once the queue is drained, the traversal state gives the lattice its
/// final shape.
#[verifier::rlimit(100)]
#[verifier::spinoff_prover]
proof fn lemma_traverse_done(g: SyllableGraph, farthest: int, n: int)
    requires
        traverse_inv(g, Seq::<(usize, SpellingType)>::empty(), farthest, n),
        g.interpreted_length == farthest,
    ensures
        lattice_ok(g),
{
    reveal(traverse_inv);
    // no entry is waiting, so every edge's end is recorded
    assert forall|i: int| 0 <= i < g.edges@.len() implies (#[trigger] g.vertices@[g.edges@[
    i].end as int]) is Some by {
        if g.vertices@[g.edges@[i].end as int] is None {
            assert(queue_has(
                Seq::<(usize, SpellingType)>::empty(),
                g.edges@[i].end as int,
                edge_type(g.edges@[i]),
            ));
            reveal(queue_has);
        }
    }
    // the seed is recorded and normal
    if g.vertices@[0] is None {
        assert(queue_has(Seq::<(usize, SpellingType)>::empty(), 0, SpellingType::NormalSpelling));
        reveal(queue_has);
    }
    // minimality carries over to the qualified claim
    assert forall|p: int, t: SpellingType|
        1 <= p <= g.input_length && g.vertices@[p] == Some(t) && t
            != SpellingType::AmbiguousSpelling implies #[trigger] min_incoming_at(
        g.edges@,
        p,
        t,
    ) by {
        assert(min_incoming_at(g.edges@, p, t));
    }
}

/// Marking ambiguous joints and penalizing second hops keeps the lattice
/// sound: spans and classifications are untouched, and vertices change only
/// from a recorded state to the ambiguous one.
#[verifier::rlimit(100)]
#[verifier::spinoff_prover]
proof fn lemma_mark_preserves(pre: SyllableGraph, post: SyllableGraph)
    requires
        lattice_ok(pre),
        graph_wf(post),
        post.input_length == pre.input_length,
        post.interpreted_length == pre.interpreted_length,
        post.edges@.len() == pre.edges@.len(),
        forall|i: int|
            0 <= i < pre.edges@.len() ==> edge_frame_eq(#[trigger] pre.edges@[i], post.edges@[i]),
        post.vertices@.len() == pre.vertices@.len(),
        forall|p: int|
            0 <= p < pre.vertices@.len() ==> #[trigger] post.vertices@[p] == pre.vertices@[p] || (
            post.vertices@[p] == Some(SpellingType::AmbiguousSpelling) && exists|i: int|
                0 <= i < pre.edges@.len() && (#[trigger] pre.edges@[i]).end == p),
    ensures
        lattice_ok(post),
{
    lemma_min_incoming_transfer(pre.edges@, post.edges@);
    assert(post.vertices@[0] == pre.vertices@[0]) by {
        if post.vertices@[0] != pre.vertices@[0] {
            let i0 = choose|i: int|
                0 <= i < pre.edges@.len() && (#[trigger] pre.edges@[i]).end == 0;
            assert(edge_wf(pre.edges@[i0], pre.input_length as int));
        }
    }
    assert forall|p: int| 1 <= p <= post.input_length implies ((#[trigger] post.vertices@[p])
        is Some <==> exists|i: int|
        0 <= i < post.edges@.len() && (#[trigger] post.edges@[i]).end == p) by {
        if post.vertices@[p] is Some {
            if pre.vertices@[p] is Some {
                let i0 = choose|i: int|
                    0 <= i < pre.edges@.len() && (#[trigger] pre.edges@[i]).end == p;
                assert(edge_frame_eq(pre.edges@[i0], post.edges@[i0]));
                assert(post.edges@[i0].end == p);
            } else {
                let i0 = choose|i: int|
                    0 <= i < pre.edges@.len() && (#[trigger] pre.edges@[i]).end == p;
                assert(edge_frame_eq(pre.edges@[i0], post.edges@[i0]));
                assert(post.edges@[i0].end == p);
            }
        }
        if exists|i: int| 0 <= i < post.edges@.len() && (#[trigger] post.edges@[i]).end == p {
            let i0 = choose|i: int|
                0 <= i < post.edges@.len() && (#[trigger] post.edges@[i]).end == p;
            assert(edge_frame_eq(pre.edges@[i0], post.edges@[i0]));
            assert(pre.edges@[i0].end == p);
            assert(pre.vertices@[p] is Some);
        }
    }
    assert forall|p: int|
        post.interpreted_length < p <= post.input_length implies (#[trigger] post.vertices@[p])
        is None by {
        assert(pre.vertices@[p] is None);
        if post.vertices@[p] != pre.vertices@[p] {
            let i0 = choose|i: int|
                0 <= i < pre.edges@.len() && (#[trigger] pre.edges@[i]).end == p;
            assert(pre.vertices@[p] is Some);
        }
    }
    assert(post.vertices@[post.interpreted_length as int] is Some) by {
        assert(pre.vertices@[pre.interpreted_length as int] is Some);
    }
}

/// Expand the frontier position: query the dictionary for matches, for
/// completions when enabled, and the corrector for suggestions when allowed,
/// inserting an edge and a queue entry for each. Afterwards every admitted
/// match at this position has its edge, every position covered before stays
/// covered, and every edge still traces back to one of the three sources.
#[verifier::loop_isolation(false)]
#[verifier::rlimit(100)]
#[verifier::spinoff_prover]
fn expand_position(
    syl: &Syllabifier,
    graph: &mut SyllableGraph,
    queue: &mut Vec<(usize, SpellingType)>,
    input: &Vec<char>,
    prism: &Prism,
    pos: usize,
    Ghost(n): Ghost<int>,
)
    requires
        syl.wf(),
        prism.wf(),
        n == input@.len(),
        traverse_inv(*old(graph), old(queue)@, pos as int, n),
        old(graph).vertices@[pos as int] is Some,
        pos < n,
        old(graph).interpreted_length == 0,
        edges_sound(old(graph).edges@, input@, *prism, *syl),
        forall|p: int|
            0 <= p < old(graph).input_length && (#[trigger] old(graph).vertices@[p]) is Some && p
                != pos as int ==> position_covered(old(graph).edges@, input@, *prism, *syl, p),
    ensures
        traverse_inv(*final(graph), final(queue)@, pos as int, n),
        final(graph).vertices == old(graph).vertices,
        final(graph).indices == old(graph).indices,
        final(graph).input_length == old(graph).input_length,
        final(graph).interpreted_length == 0,
        edges_sound(final(graph).edges@, input@, *prism, *syl),
        expansion_covered(*final(graph), input@, *prism, *syl),
{
    let in_len = input.len();
    let matches = prism.common_prefix_search(input, pos);
    let mn = matches.len();
    let mut k: usize = 0;
    while k < mn
        invariant
            mn == matches@.len(),
            k <= mn,
            traverse_inv(*graph, queue@, pos as int, n),
            graph.vertices == old(graph).vertices,
            graph.indices == old(graph).indices,
            graph.vertices@[pos as int] is Some,
            in_len == input@.len(),
            graph.input_length == old(graph).input_length,
            graph.interpreted_length == 0,
            edges_sound(graph.edges@, input@, *prism, *syl),
            forall|p: int|
                0 <= p < graph.input_length && (#[trigger] graph.vertices@[p]) is Some && p
                    != pos as int ==> position_covered(graph.edges@, input@, *prism, *syl, p),
            forall|j: int|
                0 <= j < k ==> has_triple(
                    graph.edges@,
                    pos as int,
                    pos + (#[trigger] matches@[j]).length,
                    prism.entries@[matches@[j].value as int].descriptor.syllable_id,
                ),
        decreases mn - k,
    {
        let m_value = matches[k].value;
        let m_length = matches[k].length;
        proof {
            assert(matches@[k as int].value < prism.entries@.len());
            assert(prism.entries@[m_value as int].wf());
            assert(is_prefix_at(
                prism.entries@[matches@[k as int].value as int].text@,
                input@,
                pos as int,
            ));
        }
        let entry_ref = &prism.entries[m_value];
        let stype = entry_ref.descriptor.spelling_type;
        let penalty: i64 = match stype {
            SpellingType::FuzzySpelling => FUZZY_SPELLING_PENALTY,
            SpellingType::Abbreviation => ABBREVIATION_PENALTY,
            _ => 0,
        };
        let cred = entry_ref.descriptor.credibility + penalty;
        let end = pos + m_length;
        let ghost e_pre = graph.edges@;
        add_lattice_edge(
            graph,
            queue,
            pos,
            end,
            entry_ref.descriptor.syllable_id,
            stype,
            cred,
            entry_ref.descriptor.tips.clone(),
            false,
            Ghost(pos as int),
            Ghost(n),
        );
        proof {
            assert forall|i2: int| 0 <= i2 < graph.edges@.len() implies edge_sound(
                #[trigger] graph.edges@[i2],
                input@,
                *prism,
                *syl,
            ) by {
                if i2 < e_pre.len() {
                    assert(e_pre.subrange(0, e_pre.len() as int)[i2] == e_pre[i2]);
                    assert(graph.edges@[i2] == e_pre[i2]);
                    assert(edge_sound(e_pre[i2], input@, *prism, *syl));
                } else {
                    reveal(edge_sound);
                    assert(penalty as int == type_penalty(stype));
                    assert(ambiguity_adjustment(graph.edges@[i2]) == 0);
                    assert({
                        let en = prism.entries@[m_value as int];
                        is_prefix_at(en.text@, input@, graph.edges@[i2].start as int)
                            && graph.edges@[i2].end == graph.edges@[i2].start + en.text@.len()
                            && graph.edges@[i2].syllable == en.descriptor.syllable_id && edge_type(
                            graph.edges@[i2],
                        ) == en.descriptor.spelling_type && edge_cred(graph.edges@[i2])
                            == en.descriptor.credibility + type_penalty(
                            en.descriptor.spelling_type,
                        ) + ambiguity_adjustment(graph.edges@[i2])
                    });
                }
            }
            assert forall|p: int|
                0 <= p < graph.input_length && (#[trigger] graph.vertices@[p]) is Some && p
                    != pos as int implies position_covered(
                graph.edges@,
                input@,
                *prism,
                *syl,
                p,
            ) by {
                lemma_position_covered_extends(e_pre, graph.edges@, input@, *prism, *syl, p);
            }
            assert forall|j: int| 0 <= j < k + 1 implies has_triple(
                graph.edges@,
                pos as int,
                pos + (#[trigger] matches@[j]).length,
                prism.entries@[matches@[j].value as int].descriptor.syllable_id,
            ) by {
                if j < k {
                    lemma_has_triple_extends(
                        e_pre,
                        graph.edges@,
                        pos as int,
                        pos + matches@[j].length,
                        prism.entries@[matches@[j].value as int].descriptor.syllable_id,
                    );
                }
            }
        }
        k += 1;
    }
    proof {
        reveal(covers_dict);
        assert forall|i2: int|
            0 <= i2 < prism.entries@.len() && is_prefix_at(
                (#[trigger] prism.entries@[i2]).text@,
                input@,
                pos as int,
            ) implies has_triple(
            graph.edges@,
            pos as int,
            pos as int + prism.entries@[i2].text@.len(),
            prism.entries@[i2].descriptor.syllable_id,
        ) by {
            let k0 = choose|k0: int| 0 <= k0 < matches@.len() && (#[trigger] matches@[k0].value)
                == i2;
            assert(matches@[k0].length == prism.entries@[i2].text@.len());
            assert(has_triple(
                graph.edges@,
                pos as int,
                pos + matches@[k0].length,
                prism.entries@[matches@[k0].value as int].descriptor.syllable_id,
            ));
        }
        assert(covers_dict(graph.edges@, input@, *prism, pos as int));
    }
    if syl.enable_completion {
        let completions = prism.completion_search(input, pos);
        let cn = completions.len();
        let mut k2: usize = 0;
        while k2 < cn
            invariant
                cn == completions@.len(),
                k2 <= cn,
                traverse_inv(*graph, queue@, pos as int, n),
                graph.vertices == old(graph).vertices,
                graph.indices == old(graph).indices,
                graph.vertices@[pos as int] is Some,
                in_len == input@.len(),
                graph.input_length == old(graph).input_length,
                graph.interpreted_length == 0,
                edges_sound(graph.edges@, input@, *prism, *syl),
                covers_dict(graph.edges@, input@, *prism, pos as int),
                forall|p: int|
                    0 <= p < graph.input_length && (#[trigger] graph.vertices@[p]) is Some && p
                        != pos as int ==> position_covered(graph.edges@, input@, *prism, *syl, p),
                forall|j: int|
                    0 <= j < k2 ==> has_triple(
                        graph.edges@,
                        pos as int,
                        in_len as int,
                        prism.entries@[(#[trigger] completions@[j]).value as int].descriptor.syllable_id,
                    ),
            decreases cn - k2,
        {
            let m_value = completions[k2].value;
            proof {
                assert(completions@[k2 as int].value < prism.entries@.len());
                assert(prism.entries@[m_value as int].wf());
                assert(is_completion_at(
                    prism.entries@[completions@[k2 as int].value as int].text@,
                    input@,
                    pos as int,
                ));
            }
            let entry_ref = &prism.entries[m_value];
            let cred = entry_ref.descriptor.credibility + COMPLETION_PENALTY;
            let end = input.len();
            let ghost e_pre = graph.edges@;
            add_lattice_edge(
                graph,
                queue,
                pos,
                end,
                entry_ref.descriptor.syllable_id,
                SpellingType::Completion,
                cred,
                entry_ref.descriptor.tips.clone(),
                false,
                Ghost(pos as int),
                Ghost(n),
            );
            proof {
                assert forall|i2: int| 0 <= i2 < graph.edges@.len() implies edge_sound(
                    #[trigger] graph.edges@[i2],
                    input@,
                    *prism,
                    *syl,
                ) by {
                    if i2 < e_pre.len() {
                        assert(e_pre.subrange(0, e_pre.len() as int)[i2] == e_pre[i2]);
                        assert(graph.edges@[i2] == e_pre[i2]);
                        assert(edge_sound(e_pre[i2], input@, *prism, *syl));
                    } else {
                        reveal(edge_sound);
                        assert(ambiguity_adjustment(graph.edges@[i2]) == 0);
                        assert({
                            let en = prism.entries@[m_value as int];
                            is_completion_at(en.text@, input@, graph.edges@[i2].start as int)
                                && graph.edges@[i2].end == input@.len() && graph.edges@[i2].syllable
                                == en.descriptor.syllable_id && edge_type(graph.edges@[i2])
                                == SpellingType::Completion && edge_cred(graph.edges@[i2])
                                == en.descriptor.credibility + COMPLETION_PENALTY
                                + ambiguity_adjustment(graph.edges@[i2])
                        });
                    }
                }
                lemma_covers_dict_extends(e_pre, graph.edges@, input@, *prism, pos as int);
                assert forall|p: int|
                    0 <= p < graph.input_length && (#[trigger] graph.vertices@[p]) is Some && p
                        != pos as int implies position_covered(
                    graph.edges@,
                    input@,
                    *prism,
                    *syl,
                    p,
                ) by {
                    lemma_position_covered_extends(e_pre, graph.edges@, input@, *prism, *syl, p);
                }
                assert forall|j: int| 0 <= j < k2 + 1 implies has_triple(
                    graph.edges@,
                    pos as int,
                    in_len as int,
                    prism.entries@[(#[trigger] completions@[j]).value as int].descriptor.syllable_id,
                ) by {
                    if j < k2 {
                        lemma_has_triple_extends(
                            e_pre,
                            graph.edges@,
                            pos as int,
                            in_len as int,
                            prism.entries@[completions@[j].value as int].descriptor.syllable_id,
                        );
                    }
                }
            }
            k2 += 1;
        }
        proof {
            reveal(covers_completion);
            assert forall|i2: int|
                0 <= i2 < prism.entries@.len() && is_completion_at(
                    (#[trigger] prism.entries@[i2]).text@,
                    input@,
                    pos as int,
                ) implies has_triple(
                graph.edges@,
                pos as int,
                input@.len() as int,
                prism.entries@[i2].descriptor.syllable_id,
            ) by {
                let k0 = choose|k0: int|
                    0 <= k0 < completions@.len() && (#[trigger] completions@[k0].value) == i2;
                assert(has_triple(
                    graph.edges@,
                    pos as int,
                    in_len as int,
                    prism.entries@[completions@[k0].value as int].descriptor.syllable_id,
                ));
            }
            assert(covers_completion(graph.edges@, input@, *prism, pos as int));
        }
    }
    if !syl.strict_spelling {
        match &syl.corrector {
            Some(corrector) => {
                let suggestions = corrector.suggestions_at(input, pos);
                let sn = suggestions.len();
                let mut k3: usize = 0;
                while k3 < sn
                    invariant
                        sn == suggestions@.len(),
                        k3 <= sn,
                        traverse_inv(*graph, queue@, pos as int, n),
                        graph.vertices == old(graph).vertices,
                        graph.indices == old(graph).indices,
                        graph.vertices@[pos as int] is Some,
                        in_len == input@.len(),
                        graph.input_length == old(graph).input_length,
                        graph.interpreted_length == 0,
                        edges_sound(graph.edges@, input@, *prism, *syl),
                        covers_dict(graph.edges@, input@, *prism, pos as int),
                        syl.enable_completion ==> covers_completion(
                            graph.edges@,
                            input@,
                            *prism,
                            pos as int,
                        ),
                        forall|p: int|
                            0 <= p < graph.input_length && (#[trigger] graph.vertices@[p]) is Some
                                && p != pos as int ==> position_covered(
                                graph.edges@,
                                input@,
                                *prism,
                                *syl,
                                p,
                            ),
                        forall|j: int|
                            0 <= j < k3 ==> has_triple(
                                graph.edges@,
                                pos as int,
                                pos + (#[trigger] suggestions@[j]).length,
                                corrector.entries@[suggestions@[j].value as int].descriptor.syllable_id,
                            ),
                    decreases sn - k3,
                {
                    let m_value = suggestions[k3].value;
                    let m_length = suggestions[k3].length;
                    proof {
                        assert(suggestions@[k3 as int].value < corrector.entries@.len());
                        assert(corrector.entries@[m_value as int].wf());
                        assert(is_prefix_at(
                            corrector.entries@[suggestions@[k3 as int].value as int].text@,
                            input@,
                            pos as int,
                        ));
                    }
                    let entry_ref = &corrector.entries[m_value];
                    let cred = entry_ref.descriptor.credibility + CORRECTION_CREDIBILITY;
                    let end = pos + m_length;
                    let ghost e_pre = graph.edges@;
                    add_lattice_edge(
                        graph,
                        queue,
                        pos,
                        end,
                        entry_ref.descriptor.syllable_id,
                        SpellingType::FuzzySpelling,
                        cred,
                        entry_ref.descriptor.tips.clone(),
                        true,
                        Ghost(pos as int),
                        Ghost(n),
                    );
                    proof {
                        assert(corrector_entries(*syl) == corrector.entries@);
                        assert forall|i2: int| 0 <= i2 < graph.edges@.len() implies edge_sound(
                            #[trigger] graph.edges@[i2],
                            input@,
                            *prism,
                            *syl,
                        ) by {
                            if i2 < e_pre.len() {
                                assert(e_pre.subrange(0, e_pre.len() as int)[i2] == e_pre[i2]);
                                assert(graph.edges@[i2] == e_pre[i2]);
                                assert(edge_sound(e_pre[i2], input@, *prism, *syl));
                            } else {
                                reveal(edge_sound);
                                assert(ambiguity_adjustment(graph.edges@[i2]) == 0);
                                assert({
                                    let en = corrector_entries(*syl)[m_value as int];
                                    is_prefix_at(en.text@, input@, graph.edges@[i2].start as int)
                                        && graph.edges@[i2].end == graph.edges@[i2].start
                                        + en.text@.len() && graph.edges@[i2].syllable
                                        == en.descriptor.syllable_id && edge_type(graph.edges@[i2])
                                        == SpellingType::FuzzySpelling && edge_cred(
                                        graph.edges@[i2],
                                    ) == en.descriptor.credibility + CORRECTION_CREDIBILITY
                                        + ambiguity_adjustment(graph.edges@[i2])
                                });
                            }
                        }
                        lemma_covers_dict_extends(e_pre, graph.edges@, input@, *prism, pos as int);
                        if syl.enable_completion {
                            lemma_covers_completion_extends(
                                e_pre,
                                graph.edges@,
                                input@,
                                *prism,
                                pos as int,
                            );
                        }
                        assert forall|p: int|
                            0 <= p < graph.input_length && (#[trigger] graph.vertices@[p]) is Some
                                && p != pos as int implies position_covered(
                            graph.edges@,
                            input@,
                            *prism,
                            *syl,
                            p,
                        ) by {
                            lemma_position_covered_extends(
                                e_pre,
                                graph.edges@,
                                input@,
                                *prism,
                                *syl,
                                p,
                            );
                        }
                        assert forall|j: int| 0 <= j < k3 + 1 implies has_triple(
                            graph.edges@,
                            pos as int,
                            pos + (#[trigger] suggestions@[j]).length,
                            corrector.entries@[suggestions@[j].value as int].descriptor.syllable_id,
                        ) by {
                            if j < k3 {
                                lemma_has_triple_extends(
                                    e_pre,
                                    graph.edges@,
                                    pos as int,
                                    pos + suggestions@[j].length,
                                    corrector.entries@[suggestions@[j].value as int].descriptor.syllable_id,
                                );
                            }
                        }
                    }
                    k3 += 1;
                }
                proof {
                    reveal(covers_corrections);
                    assert forall|i2: int|
                        0 <= i2 < corrector.entries@.len() && is_prefix_at(
                            (#[trigger] corrector.entries@[i2]).text@,
                            input@,
                            pos as int,
                        ) implies has_triple(
                        graph.edges@,
                        pos as int,
                        pos as int + corrector.entries@[i2].text@.len(),
                        corrector.entries@[i2].descriptor.syllable_id,
                    ) by {
                        let k0 = choose|k0: int|
                            0 <= k0 < suggestions@.len() && (#[trigger] suggestions@[k0].value)
                                == i2;
                        assert(suggestions@[k0].length == corrector.entries@[i2].text@.len());
                        assert(has_triple(
                            graph.edges@,
                            pos as int,
                            pos + suggestions@[k0].length,
                            corrector.entries@[suggestions@[k0].value as int].descriptor.syllable_id,
                        ));
                    }
                    assert(covers_corrections(
                        graph.edges@,
                        input@,
                        *(syl.corrector.unwrap()),
                        pos as int,
                    ));
                }
            },
            None => (),
        }
    }
    proof {
        assert forall|p: int|
            0 <= p < graph.input_length && (#[trigger] graph.vertices@[p]) is Some implies position_covered(
            graph.edges@,
            input@,
            *prism,
            *syl,
            p,
        ) by {
            if p == pos as int {
                assert(covers_dict(graph.edges@, input@, *prism, p));
            }
        }
    }
}

/// The ambiguity pass over the whole lattice: test every span present in
/// the graph for a two-hop decomposition.
#[verifier::loop_isolation(false)]
#[verifier::rlimit(100)]
#[verifier::spinoff_prover]
fn mark_ambiguities(
    syl: &Syllabifier,
    graph: &mut SyllableGraph,
    Ghost(inp): Ghost<Seq<char>>,
    Ghost(pr): Ghost<Prism>,
)
    requires
        lattice_ok(*old(graph)),
        old(graph).indices@.len() == 0,
        old(graph).input_length < 0x8000_0000,
        edges_sound(old(graph).edges@, inp, pr, *syl),
        expansion_covered(*old(graph), inp, pr, *syl),
    ensures
        lattice_ok(*final(graph)),
        final(graph).indices@.len() == 0,
        final(graph).input_length == old(graph).input_length,
        final(graph).interpreted_length == old(graph).interpreted_length,
        edges_sound(final(graph).edges@, inp, pr, *syl),
        expansion_covered(*final(graph), inp, pr, *syl),
{
    let n = graph.input_length;
    let mut s: usize = 0;
    while s < n
        invariant
            n == graph.input_length,
            s <= n,
            lattice_ok(*graph),
            graph.indices@.len() == 0,
            graph.interpreted_length == old(graph).interpreted_length,
            edges_sound(graph.edges@, inp, pr, *syl),
            expansion_covered(*graph, inp, pr, *syl),
        decreases n - s,
    {
        let mut t: usize = s + 2;
        while t <= n
            invariant
                n == graph.input_length,
                t >= s + 2,
                lattice_ok(*graph),
                graph.indices@.len() == 0,
                graph.interpreted_length == old(graph).interpreted_length,
                edges_sound(graph.edges@, inp, pr, *syl),
                expansion_covered(*graph, inp, pr, *syl),
            decreases n + 1 - t,
        {
            if contains_edge(&graph.edges, s, t) {
                let ghost pass_pre = *graph;
                syl.check_overlapped_spellings(graph, s, t);
                proof {
                    assert forall|p: int|
                        0 <= p < pass_pre.vertices@.len() implies #[trigger] graph.vertices@[p]
                        == pass_pre.vertices@[p] || (graph.vertices@[p] == Some(
                        SpellingType::AmbiguousSpelling,
                    ) && exists|i: int|
                        0 <= i < pass_pre.edges@.len() && (#[trigger] pass_pre.edges@[i]).end
                            == p) by {
                        if graph.vertices@[p] != pass_pre.vertices@[p] {
                            assert(joint_detected(pass_pre.edges@, s as int, t as int, p));
                            assert(has_edge_spec(pass_pre.edges@, s as int, p));
                            let i0 = choose|i: int|
                                0 <= i < pass_pre.edges@.len() && (
                                #[trigger] pass_pre.edges@[i]).start == s as int
                                    && pass_pre.edges@[i].end == p;
                            assert(pass_pre.edges@[i0].end == p);
                        }
                    }
                    lemma_mark_preserves(pass_pre, *graph);
                    assert forall|i: int|
                        0 <= i < pass_pre.edges@.len() implies (#[trigger] graph.edges@[i]
                        == pass_pre.edges@[i] || (!pass_pre.edges@[i].ambiguity_penalized
                        && graph.edges@[i].ambiguity_penalized && edge_cred(graph.edges@[i])
                        == edge_cred(pass_pre.edges@[i]) + PENALTY_FOR_AMBIGUOUS_SYLLABLE)) by {}
                    lemma_sound_after_mark(pass_pre.edges@, graph.edges@, inp, pr, *syl);
                    assert forall|p: int|
                        0 <= p < graph.input_length && (#[trigger] graph.vertices@[p])
                            is Some implies position_covered(graph.edges@, inp, pr, *syl, p) by {
                        assert(pass_pre.vertices@[p] is Some);
                        assert(position_covered(pass_pre.edges@, inp, pr, *syl, p));
                        lemma_position_covered_frame(
                            pass_pre.edges@,
                            graph.edges@,
                            inp,
                            pr,
                            *syl,
                            p,
                        );
                    }
                }
            }
            t += 1;
        }
        s += 1;
    }
}

/// The frontier traversal: drain the min-priority queue seeded with the
/// start position, recording each position's first-popped classification and
/// expanding the frontier, until no position is reachable any more. Returns
/// the farthest position recorded, which becomes the interpreted length.
/// The traversal state at the very start: one vertex slot per position, all
/// unvisited, no edges, and the seed entry alone in the queue.
#[verifier::spinoff_prover]
proof fn lemma_traverse_start(g: SyllableGraph, q: Seq<(usize, SpellingType)>, n: int)
    requires
        n > 0,
        g.input_length == n,
        g.vertices@.len() == n + 1,
        forall|p: int| 0 <= p < g.vertices@.len() ==> (#[trigger] g.vertices@[p]) is None,
        g.edges@.len() == 0,
        g.indices@.len() == 0,
        q.len() == 1,
        q[0] == (0usize, SpellingType::NormalSpelling),
    ensures
        traverse_inv(g, q, 0, n),
{
    reveal(traverse_inv);
    reveal(entry_borne);
    reveal(queue_has);
    assert(entry_borne(g.edges@, q[0]));
    assert(queue_has(q, 0, SpellingType::NormalSpelling));
}

/// Queue entries stay between the frontier and the input end, and the
/// vertex array has one slot per position.
#[verifier::spinoff_prover]
proof fn lemma_entry_bound(
    g: SyllableGraph,
    q: Seq<(usize, SpellingType)>,
    farthest: int,
    n: int,
    k: int,
)
    requires
        traverse_inv(g, q, farthest, n),
        0 <= k < q.len(),
    ensures
        farthest <= q[k].0 <= n,
        g.vertices@.len() == n + 1,
    decreases 0int,
{
    reveal(traverse_inv);
}

/// The traversal state ignores the interpreted length: recording it changes
/// nothing.
#[verifier::spinoff_prover]
proof fn lemma_inv_interp(
    g1: SyllableGraph,
    g2: SyllableGraph,
    q: Seq<(usize, SpellingType)>,
    farthest: int,
    n: int,
)
    requires
        traverse_inv(g1, q, farthest, n),
        g2.vertices == g1.vertices,
        g2.edges == g1.edges,
        g2.indices == g1.indices,
        g2.input_length == g1.input_length,
    ensures
        traverse_inv(g2, q, farthest, n),
{
    reveal(traverse_inv);
}

#[verifier::loop_isolation(false)]
#[verifier::rlimit(100)]
#[verifier::spinoff_prover]
fn run_traversal(
    syl: &Syllabifier,
    graph: &mut SyllableGraph,
    input: &Vec<char>,
    prism: &Prism,
) -> (farthest: usize)
    requires
        syl.wf(),
        prism.wf(),
        input@.len() > 0,
        input@.len() < 0x8000_0000,
        old(graph).input_length == input@.len(),
        old(graph).interpreted_length == 0,
        old(graph).vertices@.len() == input@.len() + 1,
        forall|p: int|
            0 <= p < old(graph).vertices@.len() ==> (#[trigger] old(graph).vertices@[p]) is None,
        old(graph).edges@.len() == 0,
        old(graph).indices@.len() == 0,
    ensures
        lattice_ok(*final(graph)),
        final(graph).indices@.len() == 0,
        final(graph).input_length == old(graph).input_length,
        final(graph).interpreted_length == farthest,
        edges_sound(final(graph).edges@, input@, *prism, *syl),
        expansion_covered(*final(graph), input@, *prism, *syl),
{
    let n = input.len();
    let mut queue: Vec<(usize, SpellingType)> = Vec::new();
    let seed: (usize, SpellingType) = (0, SpellingType::NormalSpelling);
    queue.push(seed);
    let mut farthest: usize = 0;
    proof {
        assert(queue@[0] == seed);
        lemma_traverse_start(*graph, queue@, n as int);
    }
    while queue.len() > 0
        invariant
            n == input@.len(),
            n == graph.input_length,
            graph.interpreted_length == 0,
            graph.indices@.len() == 0,
            farthest <= n,
            traverse_inv(*graph, queue@, farthest as int, n as int),
            edges_sound(graph.edges@, input@, *prism, *syl),
            expansion_covered(*graph, input@, *prism, *syl),
        decreases count_none(graph.vertices@), queue@.len(),
    {
        let ghost q_before = queue@;
        let ghost g_before = *graph;
        let entry = pop_min(&mut queue);
        let (pos, vtype) = (entry.0, entry.1);
        let ghost pop_idx = choose|i: int|
            0 <= i < q_before.len() && q_before[i] == entry && queue@ == q_before.remove(i);
        proof {
            lemma_entry_bound(g_before, q_before, farthest as int, n as int, pop_idx);
        }
        let recorded = graph.vertices[pos].is_some();
        if !recorded {
            graph.vertices[pos] = Some(vtype);
            proof {
                lemma_count_none_update(g_before.vertices@, pos as int, vtype);
                lemma_record_vertex(
                    g_before,
                    *graph,
                    q_before,
                    queue@,
                    farthest as int,
                    n as int,
                    entry,
                    pop_idx,
                );
                assert forall|p: int|
                    0 <= p < graph.input_length && (#[trigger] graph.vertices@[p]) is Some && p
                        != pos as int implies position_covered(
                    graph.edges@,
                    input@,
                    *prism,
                    *syl,
                    p,
                ) by {
                    assert(g_before.vertices@[p] is Some);
                    assert(position_covered(g_before.edges@, input@, *prism, *syl, p));
                }
            }
            farthest = pos;
            if pos < n {
                expand_position(syl, graph, &mut queue, input, prism, pos, Ghost(n as int));
            } else {
                proof {
                    assert forall|p: int|
                        0 <= p < graph.input_length && (#[trigger] graph.vertices@[p])
                            is Some implies position_covered(
                        graph.edges@,
                        input@,
                        *prism,
                        *syl,
                        p,
                    ) by {
                        assert(p != pos as int);
                        assert(g_before.vertices@[p] is Some);
                        assert(position_covered(g_before.edges@, input@, *prism, *syl, p));
                    }
                }
            }
        } else {
            proof {
                lemma_discard_entry(
                    g_before,
                    q_before,
                    queue@,
                    farthest as int,
                    n as int,
                    entry,
                    pop_idx,
                );
            }
        }
    }
    let ghost g_drained = *graph;
    graph.interpreted_length = farthest;
    proof {
        assert(queue@ =~= Seq::<(usize, SpellingType)>::empty());
        lemma_inv_interp(
            g_drained,
            *graph,
            Seq::<(usize, SpellingType)>::empty(),
            farthest as int,
            n as int,
        );
        lemma_traverse_done(*graph, farthest as int, n as int);
    }
    farthest
}

impl Syllabifier {
    /// Build the syllable lattice for `input` over the dictionary `prism`.
    ///
    /// The frontier traversal pops `(position, classification)` entries from
    /// a min-priority queue seeded with the start position; the first entry
    /// popped for a position records its classification — necessarily the
    /// best among all entries ever queued for it, which the contract states
    /// over the final graph: every recorded classification not overwritten
    /// by an ambiguity mark is minimal among the edges reaching its
    /// position. Expansion queries the dictionary for exact, fuzzy and
    /// abbreviated matches, for completions of trailing partial input when
    /// enabled, and for corrector suggestions when a corrector is installed
    /// and strict spelling does not forbid them. The ambiguity pass and the
    /// transposition pass then run over the finished lattice. Returns the
    /// interpreted length: the farthest position reached, which may fall
    /// short of the input when no edge covers the remainder; empty input
    /// yields the empty graph and zero.
    #[verifier::loop_isolation(false)]
    #[verifier::rlimit(100)]
    #[verifier::spinoff_prover]
    pub fn build_syllable_graph(
        &self,
        input: &Vec<char>,
        prism: &Prism,
        graph: &mut SyllableGraph,
    ) -> (r: i32)
        requires
            self.wf(),
            prism.wf(),
            input@.len() < 0x8000_0000,
        ensures
            graph_wf(*final(graph)),
            final(graph).input_length == input@.len(),
            r == final(graph).interpreted_length as int,
            input@.len() == 0 ==> final(graph).edges@.len() == 0 && r == 0
                && final(graph).vertices@.len() == 0 && final(graph).indices@.len() == 0,
            input@.len() > 0 ==> lattice_ok(*final(graph)),
            input@.len() > 0 ==> edges_sound(final(graph).edges@, input@, *prism, *self),
            input@.len() > 0 ==> expansion_covered(*final(graph), input@, *prism, *self),
            input@.len() > 0 ==> (forall|p: int|
                0 <= p <= input@.len() ==> ((#[trigger] final(graph).vertices@[p]) is Some
                    <==> pos_reachable(final(graph).edges@, p))),
            forall|k: int|
                0 <= k < final(graph).indices@.len() ==> (#[trigger] final(graph).indices@[k]).list@
                    == index_list(
                    final(graph).edges@,
                    final(graph).indices@[k].start as int,
                    final(graph).indices@[k].syllable,
                    final(graph).input_length as int,
                ),
            forall|i: int|
                0 <= i < final(graph).edges@.len() ==> has_index_entry(
                    final(graph).indices@,
                    (#[trigger] final(graph).edges@[i]).start as int,
                    final(graph).edges@[i].syllable,
                ),
    {
        let n = input.len();
        graph.input_length = 0;
        graph.interpreted_length = 0;
        graph.vertices = Vec::new();
        graph.edges = Vec::new();
        graph.indices = Vec::new();
        if n == 0 {
            return 0;
        }
        graph.input_length = n;
        let mut slot: usize = 0;
        while slot <= n
            invariant
                slot <= n + 1,
                graph.vertices@.len() == slot,
                forall|p: int| 0 <= p < slot ==> (#[trigger] graph.vertices@[p]) is None,
                graph.input_length == n,
                graph.interpreted_length == 0,
                graph.edges@.len() == 0,
                graph.indices@.len() == 0,
            decreases n + 1 - slot,
        {
            graph.vertices.push(None);
            slot += 1;
        }
        let farthest = run_traversal(self, graph, input, prism);
        mark_ambiguities(self, graph, Ghost(input@), Ghost(*prism));
        let ghost marked = *graph;
        self.transpose(graph);
        proof {
            assert(graph.edges == marked.edges);
            assert(graph.vertices == marked.vertices);
            assert(edges_sound(graph.edges@, input@, *prism, *self));
            assert forall|p: int|
                0 <= p < graph.input_length && (#[trigger] graph.vertices@[p])
                    is Some implies position_covered(graph.edges@, input@, *prism, *self, p) by {
                assert(marked.vertices@[p] is Some);
                assert(position_covered(marked.edges@, input@, *prism, *self, p));
            }
            assert forall|p: int| 0 <= p <= input@.len() implies ((#[trigger] graph.vertices@[p])
                is Some <==> pos_reachable(graph.edges@, p)) by {
                lemma_recorded_iff_reachable_at(*graph, p);
            }
        }
        farthest as i32
    }
}

/// Helper to close the final vertex claim: the per-index witnesses found
/// during the pass are exactly the edges witnessing `has_edge_spec`.
proof fn lemma_has_edge_transfer_all(a: Seq<Edge>, b: Seq<Edge>)
    requires
        a.len() == b.len(),
        forall|i: int|
            0 <= i < a.len() ==> (#[trigger] a[i]).start == b[i].start && a[i].end == b[i].end,
    ensures
        forall|s: int, t: int| has_edge_spec(a, s, t) == #[trigger] has_edge_spec(b, s, t),
{
    assert forall|s: int, t: int| has_edge_spec(a, s, t) == #[trigger] has_edge_spec(b, s, t) by {
        lemma_has_edge_transfer(a, b, s, t);
    }
}

} // verus!
