use tfidf::corpus::TfidfCalculator;
use tfidf::ranking::top_k;

/// The key a non-negative score ranks under: for IEEE doubles at or
/// above zero, the bit pattern orders exactly as the value does.
fn score_key(score: f64) -> u64 {
    score.to_bits()
}

#[test]
fn top_k_sorts_descending_and_truncates() {
    let scores = vec![
        ("low".to_string(), score_key(0.5)),
        ("high".to_string(), score_key(9.25)),
        ("zero".to_string(), score_key(0.0)),
        ("mid".to_string(), score_key(3.75)),
    ];
    let top = top_k(&scores, 3);
    assert_eq!(top.len(), 3);
    assert_eq!(top[0].0, "high");
    assert_eq!(top[1].0, "mid");
    assert_eq!(top[2].0, "low");
    for w in top.windows(2) {
        assert!(w[0].1 >= w[1].1);
    }
}

#[test]
fn top_k_length_is_min_of_k_and_size() {
    let scores = vec![
        ("a".to_string(), score_key(1.0)),
        ("b".to_string(), score_key(2.0)),
    ];
    assert_eq!(top_k(&scores, 10).len(), 2);
    assert_eq!(top_k(&scores, 2).len(), 2);
    assert_eq!(top_k(&scores, 1).len(), 1);
    assert_eq!(top_k(&scores, 0).len(), 0);
    let empty: Vec<(String, u64)> = Vec::new();
    assert_eq!(top_k(&empty, 10).len(), 0);
}

#[test]
fn top_k_keeps_input_order_on_ties() {
    let scores = vec![
        ("first".to_string(), score_key(1.5)),
        ("peak".to_string(), score_key(2.0)),
        ("second".to_string(), score_key(1.5)),
        ("third".to_string(), score_key(1.5)),
    ];
    let top = top_k(&scores, 4);
    assert_eq!(top[0].0, "peak");
    assert_eq!(top[1].0, "first");
    assert_eq!(top[2].0, "second");
    assert_eq!(top[3].0, "third");
}

#[test]
fn top_k_does_not_mutate_its_input() {
    let scores = vec![
        ("a".to_string(), score_key(1.0)),
        ("b".to_string(), score_key(2.0)),
    ];
    let before = scores.clone();
    let _ = top_k(&scores, 1);
    assert_eq!(scores, before);
}

#[test]
fn end_to_end_ranking_prefers_distinctive_terms() {
    let mut calc = TfidfCalculator::new();
    calc.process_document("shared shared unique1");
    calc.process_document("shared unique2 unique2 unique2");
    let tables = calc.calculate_tfidf();
    let n = calc.document_count() as f64;
    let mut report: Vec<Vec<(String, f64)>> = Vec::new();
    for table in &tables {
        let keyed: Vec<(String, u64)> = table
            .iter()
            .map(|(term, tf, df)| {
                let score = *tf as f64 * (n / *df as f64).ln();
                (term.clone(), score_key(score))
            })
            .collect();
        let top = top_k(&keyed, 10);
        report.push(
            top.into_iter()
                .map(|(term, bits)| (term, f64::from_bits(bits)))
                .collect(),
        );
    }
    // In each document the distinctive term outranks the ubiquitous
    // one, which scores exactly zero.
    assert_eq!(report[0][0].0, "unique1");
    assert_eq!(report[0][0].1, 1.0 * (2.0f64).ln());
    assert_eq!(report[0][1].0, "shared");
    assert_eq!(report[0][1].1, 0.0);
    assert_eq!(report[1][0].0, "unique2");
    assert_eq!(report[1][0].1, 3.0 * (2.0f64).ln());
}
