use ime_core::algo::spelling::SpellingType;
use ime_core::algo::syllabifier::{SyllableGraph, Syllabifier, PENALTY_FOR_AMBIGUOUS_SYLLABLE};
use ime_core::dict::prism::{Prism, PrismEntry, SpellingDescriptor};

fn entry(text: &str, syllable_id: i32) -> PrismEntry {
    PrismEntry {
        text: text.chars().collect(),
        descriptor: SpellingDescriptor {
            syllable_id,
            spelling_type: SpellingType::NormalSpelling,
            credibility: 0,
            tips: String::new(),
        },
    }
}

fn has_edge(graph: &SyllableGraph, start: usize, end: usize) -> bool {
    graph.edges.iter().any(|e| e.start == start && e.end == end)
}

/// Building on "ni" with a dictionary recognizing "ni" exactly and "n", "i"
/// as single letters must produce the edge for the whole word and the
/// two-hop path, and the joint between the hops must end marked ambiguous,
/// with the second hop carrying the fixed ambiguity penalty exactly once.
#[test]
fn round_trip_two_letter_word() {
    let prism = Prism::new(vec![entry("ni", 1), entry("n", 2), entry("i", 3)]);
    let syl = Syllabifier::new();
    let input: Vec<char> = "ni".chars().collect();
    let mut graph = SyllableGraph::default();
    let interpreted = syl.build_syllable_graph(&input, &prism, &mut graph);

    assert_eq!(interpreted, 2);
    assert_eq!(graph.interpreted_length, 2);
    assert!(has_edge(&graph, 0, 2));
    assert!(has_edge(&graph, 0, 1));
    assert!(has_edge(&graph, 1, 2));
    assert_eq!(graph.vertices[1], Some(SpellingType::AmbiguousSpelling));
    assert_eq!(graph.vertices[0], Some(SpellingType::NormalSpelling));
    assert_eq!(graph.vertices[2], Some(SpellingType::NormalSpelling));

    // every edge of the second hop carries the ambiguity penalty once
    for e in graph.edges.iter().filter(|e| e.start == 1 && e.end == 2) {
        assert!(e.ambiguity_penalized);
        assert_eq!(
            e.properties.spelling_properties.credibility,
            PENALTY_FOR_AMBIGUOUS_SYLLABLE
        );
    }
    // the unambiguous edges carry their dictionary credibility untouched
    for e in graph.edges.iter().filter(|e| e.start == 0) {
        assert!(!e.ambiguity_penalized);
        assert_eq!(e.properties.spelling_properties.credibility, 0);
    }

    // a repeated detection pass applies no second penalty
    syl.check_overlapped_spellings(&mut graph, 0, 2);
    for e in graph.edges.iter().filter(|e| e.start == 1 && e.end == 2) {
        assert_eq!(
            e.properties.spelling_properties.credibility,
            PENALTY_FOR_AMBIGUOUS_SYLLABLE
        );
    }
}

/// Empty input yields the empty, zero-length graph and result zero.
#[test]
fn empty_input_empty_graph() {
    let prism = Prism::new(vec![entry("ni", 1)]);
    let syl = Syllabifier::new();
    let input: Vec<char> = Vec::new();
    let mut graph = SyllableGraph::default();
    let interpreted = syl.build_syllable_graph(&input, &prism, &mut graph);
    assert_eq!(interpreted, 0);
    assert_eq!(graph.input_length, 0);
    assert_eq!(graph.interpreted_length, 0);
    assert!(graph.vertices.is_empty());
    assert!(graph.edges.is_empty());
    assert!(graph.indices.is_empty());
}

/// A dictionary that recognizes nothing at the seed yields a graph with only
/// the start vertex and no edges: a valid degenerate case, not an error.
#[test]
fn unrecognized_input_keeps_start_vertex() {
    let prism = Prism::new(vec![entry("xy", 1)]);
    let syl = Syllabifier::new();
    let input: Vec<char> = "ni".chars().collect();
    let mut graph = SyllableGraph::default();
    let interpreted = syl.build_syllable_graph(&input, &prism, &mut graph);
    assert_eq!(interpreted, 0);
    assert_eq!(graph.vertices[0], Some(SpellingType::NormalSpelling));
    assert!(graph.edges.is_empty());
}

/// The transposition pass groups edges by start and syllable, the longest
/// span first.
#[test]
fn transpose_lists_longest_span_first() {
    let prism = Prism::new(vec![entry("n", 7), entry("ni", 7), entry("i", 3)]);
    let syl = Syllabifier::new();
    let input: Vec<char> = "ni".chars().collect();
    let mut graph = SyllableGraph::default();
    syl.build_syllable_graph(&input, &prism, &mut graph);
    let index = graph
        .indices
        .iter()
        .find(|en| en.start == 0 && en.syllable == 7)
        .expect("index entry for syllable at start");
    assert_eq!(index.list.len(), 2);
    assert_eq!(index.list[0].spelling_properties.end_pos, 2);
    assert_eq!(index.list[1].spelling_properties.end_pos, 1);
}
