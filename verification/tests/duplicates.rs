use al_core::queries::duplicates::{bigram_overlap, bigrams, comparable_pairs, BlockLocation};

fn toks(list: &[&str]) -> Vec<String> {
    list.iter().map(|s| s.to_string()).collect()
}

#[test]
fn bigram_counts() {
    let b = bigrams(&toks(&["if", "$ID", "then", "if", "$ID"]));
    assert_eq!(
        b,
        vec![
            ("if|$ID".to_string(), 2),
            ("$ID|then".to_string(), 1),
            ("then|if".to_string(), 1),
        ]
    );
}

#[test]
fn bigrams_of_short_sequences_are_empty() {
    assert!(bigrams(&toks(&[])).is_empty());
    assert!(bigrams(&toks(&["x"])).is_empty());
}

fn similarity(a: &[&str], b: &[&str]) -> f32 {
    let (shared, total) = bigram_overlap(&toks(a), &toks(b));
    2.0 * shared as f32 / total as f32
}

#[test]
fn similarity_of_identical_tokens() {
    assert_eq!(bigram_overlap(&toks(&["if", "$ID", "then"]), &toks(&["if", "$ID", "then"])), (2, 4));
    assert_eq!(similarity(&["if", "$ID", "then"], &["if", "$ID", "then"]), 1.0);
}

#[test]
fn similarity_of_disjoint_tokens() {
    assert_eq!(bigram_overlap(&toks(&["if", "$ID"]), &toks(&["while", "$NUM"])), (0, 2));
    assert_eq!(similarity(&["if", "$ID"], &["while", "$NUM"]), 0.0);
}

#[test]
fn shared_bigrams_count_the_smaller_multiplicity() {
    // a: if|$ID twice, $ID|then once; b: if|$ID once, $ID|then once, then|if once.
    let a = toks(&["if", "$ID", "then", "x", "if", "$ID"]);
    let b = toks(&["if", "$ID", "then", "if"]);
    assert_eq!(bigram_overlap(&a, &b), (2, 8));
    assert_eq!(bigram_overlap(&toks(&["x"]), &Vec::new()), (0, 0));
}

fn loc(object: &str, procedure: &str) -> BlockLocation {
    BlockLocation { file: format!("/src/{object}.al"), object: object.to_string(), procedure: procedure.to_string(), line: 3 }
}

#[test]
fn comparable_pairs_skip_short_and_same_procedures() {
    let procs = vec![
        (loc("A", "ProcessRecord"), 20),
        (loc("B", "ProcessRecord"), 20),
        (loc("A", "ProcessRecord"), 30),
        (loc("C", "Tiny"), 3),
    ];
    assert_eq!(comparable_pairs(&procs, 5), vec![(0, 1), (1, 2)]);
    assert!(comparable_pairs(&Vec::new(), 5).is_empty());
}
