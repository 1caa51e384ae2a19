use markov_text::tokenizer::{join_tokens, tokenize};

#[test]
fn tokenize_simple_line() {
    let toks = tokenize("a b c");
    assert_eq!(toks, vec!["a".to_string(), "b".to_string(), "c".to_string()]);
}

#[test]
fn tokenize_empty_line() {
    let toks = tokenize("");
    assert!(toks.is_empty());
}

#[test]
fn tokenize_whitespace_only_line() {
    let toks = tokenize("   \t  ");
    assert!(toks.is_empty());
}

#[test]
fn tokenize_collapses_runs_of_whitespace() {
    let toks = tokenize("  hello \t world  ");
    assert_eq!(toks, vec!["hello".to_string(), "world".to_string()]);
}

#[test]
fn tokenize_preserves_spelling() {
    let toks = tokenize("Don't stop, me Now!");
    assert_eq!(
        toks,
        vec![
            "Don't".to_string(),
            "stop,".to_string(),
            "me".to_string(),
            "Now!".to_string()
        ]
    );
}

#[test]
fn tokenize_splits_on_unicode_whitespace() {
    let toks = tokenize("left\u{a0}right\u{3000}end");
    assert_eq!(
        toks,
        vec!["left".to_string(), "right".to_string(), "end".to_string()]
    );
}

#[test]
fn join_empty() {
    let words: Vec<String> = Vec::new();
    assert_eq!(join_tokens(&words), "");
}

#[test]
fn join_single_word() {
    let words = vec!["solo".to_string()];
    assert_eq!(join_tokens(&words), "solo");
}

#[test]
fn join_multiple_words() {
    let words = vec!["a".to_string(), "b".to_string(), "c".to_string()];
    assert_eq!(join_tokens(&words), "a b c");
}

#[test]
fn join_inverts_tokenize_on_single_spaced_text() {
    let line = "the quick brown fox";
    assert_eq!(join_tokens(&tokenize(line)), line);
}
