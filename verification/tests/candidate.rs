use ime_core::candidate::{compare, Candidate, SimpleCandidate};

#[test]
fn is_common_candidate_work_correctly() {
    let mut c1 = SimpleCandidate::new();
    let c2 = SimpleCandidate::from_parts("t", 1, 3, "", Some("fku"), Some("2244"));
    let mut c1w = Candidate::Simple(c1);
    c1w.set_kind("r#type");
    c1 = match c1w {
        Candidate::Simple(c) => c,
        _ => unreachable!(),
    };
    println!("\n{:?}\n{:?}", c1, c2);
    let c1p = Candidate::Simple(c1);
    let c2p = Candidate::Simple(c2);
    println!("\n{:?}", compare(&c1p, &c2p));
}
