use ime_core::candidate::{Candidate, SimpleCandidate};
use ime_core::translation::{
    DistinctTranslation, FifoTranslation, MergedTranslation, Translation, UnionTranslation,
};

fn cand(text: &str, start: usize, end: usize, quality: i64) -> Candidate {
    let mut c = Candidate::Simple(SimpleCandidate::from_parts("t", start, end, text, None, None));
    c.set_quality(quality);
    c
}

fn fifo(cands: Vec<Candidate>) -> Translation {
    let mut f = FifoTranslation::new();
    for c in cands {
        f.append(c);
    }
    Translation::Fifo(f)
}

fn drain(mut t: Translation) -> Vec<String> {
    let mut out = Vec::new();
    while let Some(c) = t.peek() {
        out.push(c.text());
        t.next();
    }
    out
}

/// A merge of a source holding "ni" (quality 0.9) and "nihao" (quality
/// 0.95) with a source holding "ni" (quality 0.3) yields "nihao" first:
/// among candidates starting together, the longer match wins over either
/// quality. The merge expects each source pre-sorted by candidate order, so
/// the first source serves its longer match ahead of its shorter one.
#[test]
fn merged_yields_longest_match_first() {
    let a = fifo(vec![cand("nihao", 0, 5, 950000), cand("ni", 0, 2, 900000)]);
    let b = fifo(vec![cand("ni", 0, 2, 300000)]);
    let mut m = MergedTranslation::new(Vec::new());
    m.add(Some(a));
    m.add(Some(b));
    let mut t = Translation::Merged(m);
    let head = t.peek().expect("merge with active sources has a head");
    assert_eq!(head.text(), "nihao");
    let served = drain(t);
    assert_eq!(served[0], "nihao");
    assert_eq!(served.len(), 3);
}

/// A union serves its front source to exhaustion before the next, with no
/// cross-comparison.
#[test]
fn union_concatenates_sources_in_order() {
    let a = fifo(vec![cand("one", 0, 1, 0), cand("two", 0, 1, 0)]);
    let b = fifo(vec![cand("three", 0, 1, 0)]);
    let mut u = UnionTranslation::new();
    u.add(Some(a));
    u.add(Some(b));
    let served = drain(Translation::Union(u));
    assert_eq!(served, vec!["one", "two", "three"]);
}

/// A deduplicating translation never surfaces the same committed text twice.
#[test]
fn distinct_suppresses_duplicate_texts() {
    let inner = fifo(vec![
        cand("ni", 0, 2, 0),
        cand("ni", 0, 2, 0),
        cand("hao", 2, 5, 0),
        cand("ni", 0, 2, 0),
        cand("hao", 2, 5, 0),
    ]);
    let d = DistinctTranslation::new(inner);
    let served = drain(Translation::Distinct(d));
    assert_eq!(served, vec!["ni", "hao"]);
}

/// Calling next on an exhausted translation is a safe no-op returning false.
#[test]
fn next_on_exhausted_is_noop() {
    let mut t = fifo(vec![cand("ni", 0, 2, 0)]);
    assert!(t.next());
    assert!(!t.next());
    assert!(!t.next());
    assert!(t.peek().is_none());
}
