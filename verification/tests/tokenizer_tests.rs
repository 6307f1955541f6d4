use tfidf::corpus::TfidfCalculator;

#[test]
fn tokenize_hello_world() {
    let tokens = TfidfCalculator::tokenize("Hello, World! 123");
    assert_eq!(tokens, vec!["hello".to_string(), "world".to_string(), "123".to_string()]);
}

#[test]
fn tokenize_empty_input() {
    let tokens = TfidfCalculator::tokenize("");
    assert!(tokens.is_empty());
}

#[test]
fn tokenize_whitespace_only() {
    let tokens = TfidfCalculator::tokenize(" \t\n  \r\n ");
    assert!(tokens.is_empty());
}

#[test]
fn tokenize_punctuation_only_words_vanish() {
    let tokens = TfidfCalculator::tokenize("!!! ... --- ?!");
    assert!(tokens.is_empty());
}

#[test]
fn tokenize_strips_inner_punctuation() {
    let tokens = TfidfCalculator::tokenize("don't re-enter a.b.c");
    assert_eq!(tokens, vec!["dont".to_string(), "reenter".to_string(), "abc".to_string()]);
}

#[test]
fn tokenize_keeps_duplicates_in_order() {
    let tokens = TfidfCalculator::tokenize("b a b B");
    assert_eq!(
        tokens,
        vec!["b".to_string(), "a".to_string(), "b".to_string(), "b".to_string()]
    );
}

#[test]
fn tokenize_unicode_words() {
    let tokens = TfidfCalculator::tokenize("Grüße, Ærø! №42");
    assert_eq!(tokens, vec!["grüße".to_string(), "ærø".to_string(), "42".to_string()]);
}

#[test]
fn tokens_are_normalized() {
    let tokens = TfidfCalculator::tokenize("  The;; QUICK's 99x ** brown_FOX \t jumps!!\n");
    assert!(!tokens.is_empty());
    for t in &tokens {
        assert!(!t.is_empty());
        assert!(t.chars().all(|c| c.is_alphanumeric()));
        assert_eq!(t.to_lowercase(), *t);
    }
}

#[test]
fn retokenizing_tokens_is_identity() {
    let tokens = TfidfCalculator::tokenize("One, TWO three? Four 5five SIX-7 ... eight");
    let joined = tokens.join(" ");
    let again = TfidfCalculator::tokenize(&joined);
    assert_eq!(again, tokens);
    let joined_newlines = tokens.join("\n");
    let again_newlines = TfidfCalculator::tokenize(&joined_newlines);
    assert_eq!(again_newlines, tokens);
}
