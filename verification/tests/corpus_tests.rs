use tfidf::corpus::TfidfCalculator;
use tfidf::corpus::document_line_range;
use tfidf::LINES_PER_DOCUMENT;

#[test]
fn new_corpus_is_empty() {
    let calc = TfidfCalculator::new();
    assert_eq!(calc.document_count(), 0);
    assert_eq!(calc.distinct_term_count(), 0);
}

#[test]
fn process_document_counts_term_frequencies() {
    let mut calc = TfidfCalculator::new();
    calc.process_document("a b a B? c a");
    assert_eq!(calc.document_count(), 1);
    assert_eq!(calc.distinct_term_count(), 3);
    assert_eq!(calc.term_count_in_document(0, &"a".to_string()), Some(3));
    assert_eq!(calc.term_count_in_document(0, &"b".to_string()), Some(2));
    assert_eq!(calc.term_count_in_document(0, &"c".to_string()), Some(1));
    assert_eq!(calc.term_count_in_document(0, &"d".to_string()), None);
}

#[test]
fn document_frequency_counts_documents_not_occurrences() {
    let mut calc = TfidfCalculator::new();
    calc.process_document("apple apple apple apple");
    calc.process_document("apple banana");
    calc.process_document("banana cherry");
    // 4 + 1 occurrences of "apple", but only 2 documents contain it.
    assert_eq!(calc.document_frequency_of(&"apple".to_string()), Some(2));
    assert_eq!(calc.document_frequency_of(&"banana".to_string()), Some(2));
    assert_eq!(calc.document_frequency_of(&"cherry".to_string()), Some(1));
    assert_eq!(calc.document_frequency_of(&"durian".to_string()), None);
    // Document frequency equals the hand-counted sum over documents of
    // "contains the term".
    for term in ["apple", "banana", "cherry"] {
        let term = term.to_string();
        let mut by_hand = 0;
        for d in 0..calc.document_count() {
            if calc.term_count_in_document(d, &term).is_some() {
                by_hand += 1;
            }
        }
        assert_eq!(calc.document_frequency_of(&term), Some(by_hand));
    }
}

#[test]
fn scores_follow_the_tfidf_formula() {
    let mut calc = TfidfCalculator::new();
    calc.process_document("rare common");
    calc.process_document("common common other");
    calc.process_document("common third");
    let tables = calc.calculate_tfidf();
    assert_eq!(tables.len(), 3);
    let n = calc.document_count() as f64;
    for (d, table) in tables.iter().enumerate() {
        for (term, tf, df) in table {
            assert!(*df >= 1);
            assert!(*df <= calc.document_count());
            assert_eq!(calc.term_count_in_document(d, term), Some(*tf));
            assert_eq!(calc.document_frequency_of(term), Some(*df));
            let score = *tf as f64 * (n / *df as f64).ln();
            if *df == calc.document_count() {
                // A term occurring in every document scores exactly zero.
                assert_eq!(score, 0.0);
            } else {
                assert!(score > 0.0);
            }
            if term == "rare" {
                assert_eq!(score, 1.0 * (3.0f64 / 1.0).ln());
            }
        }
    }
}

#[test]
fn score_strictly_increases_with_count_at_fixed_df() {
    // Two documents, so a term present in one of them has idf ln(2) > 0.
    let n = 2.0f64;
    let df = 1.0f64;
    let low = 2.0 * (n / df).ln();
    let high = 3.0 * (n / df).ln();
    assert!(high > low);
}

#[test]
fn term_in_every_document_scores_zero() {
    let mut calc = TfidfCalculator::new();
    calc.process_document("shared alpha");
    calc.process_document("shared beta");
    calc.process_document("shared gamma");
    let tables = calc.calculate_tfidf();
    assert_eq!(tables.len(), 3);
    for table in &tables {
        let entry = table.iter().find(|(t, _, _)| t == "shared").unwrap();
        let (_, tf, df) = entry;
        assert_eq!(*tf, 1);
        assert_eq!(*df, 3);
        let score = *tf as f64 * (3.0f64 / *df as f64).ln();
        assert_eq!(score, 0.0);
    }
}

#[test]
fn empty_input_yields_no_documents_and_no_scores() {
    let mut calc = TfidfCalculator::new();
    let lines: Vec<String> = Vec::new();
    calc.process_lines(&lines, LINES_PER_DOCUMENT);
    assert_eq!(calc.document_count(), 0);
    assert_eq!(calc.distinct_term_count(), 0);
    let tables = calc.calculate_tfidf();
    assert!(tables.is_empty());
}

#[test]
fn chunking_splits_2500_lines_into_3_documents() {
    let mut lines: Vec<String> = Vec::new();
    for i in 1..=2500u32 {
        lines.push(format!("line{} filler", i));
    }
    let mut calc = TfidfCalculator::new();
    calc.process_lines(&lines, LINES_PER_DOCUMENT);
    assert_eq!(calc.document_count(), 3);
    // The third document covers lines 2001..=2500.
    assert_eq!(calc.term_count_in_document(2, &"line2001".to_string()), Some(1));
    assert_eq!(calc.term_count_in_document(2, &"line2500".to_string()), Some(1));
    assert_eq!(calc.term_count_in_document(2, &"line2000".to_string()), None);
    assert_eq!(calc.term_count_in_document(1, &"line2000".to_string()), Some(1));
    assert_eq!(calc.term_count_in_document(0, &"line1".to_string()), Some(1));
    // "filler" appears once per line, in every document.
    assert_eq!(calc.term_count_in_document(2, &"filler".to_string()), Some(500));
    assert_eq!(calc.document_frequency_of(&"filler".to_string()), Some(3));
}

#[test]
fn partial_final_chunk_forms_one_document() {
    let lines: Vec<String> = vec!["alpha beta".to_string(); 5];
    let mut calc = TfidfCalculator::new();
    calc.process_lines(&lines, 2);
    assert_eq!(calc.document_count(), 3);
    assert_eq!(calc.term_count_in_document(0, &"alpha".to_string()), Some(2));
    assert_eq!(calc.term_count_in_document(2, &"alpha".to_string()), Some(1));
}

#[test]
fn line_ranges_use_the_configured_window() {
    assert_eq!(document_line_range(0, LINES_PER_DOCUMENT), (1, 1000));
    assert_eq!(document_line_range(1, LINES_PER_DOCUMENT), (1001, 2000));
    // The header of a shorter final document still states a full window.
    assert_eq!(document_line_range(2, LINES_PER_DOCUMENT), (2001, 3000));
}
