use markov_text::model::{GenerateError, Model};
use markov_text::tokenizer::tokenize;

fn word(s: &str) -> Option<String> {
    Some(s.to_string())
}

fn count(m: &Model, ctx: Option<String>, next: Option<String>) -> u64 {
    m.transition_count(&ctx, &next)
}

#[test]
fn fresh_model_is_empty() {
    let m = Model::new();
    assert!(m.is_empty());
    assert_eq!(m.total_count(), 0);
}

#[test]
fn generate_on_empty_model_signals_empty_model() {
    let m = Model::new();
    assert_eq!(m.generate(), Err(GenerateError::EmptyModel));
    assert_eq!(m.generate_text(), Err(GenerateError::EmptyModel));
}

#[test]
fn feed_records_boundary_and_pair_counts() {
    let mut m = Model::new();
    m.feed(&tokenize("a b c"));
    assert_eq!(count(&m, None, word("a")), 1);
    assert_eq!(count(&m, word("a"), word("b")), 1);
    assert_eq!(count(&m, word("b"), word("c")), 1);
    assert_eq!(count(&m, word("c"), None), 1);
    assert_eq!(count(&m, None, word("b")), 0);
    assert_eq!(count(&m, word("a"), word("c")), 0);
    assert_eq!(m.total_count(), 4);
}

#[test]
fn feed_counts_every_occurrence_of_a_pair() {
    let mut m = Model::new();
    m.feed(&tokenize("x y x y x"));
    assert_eq!(count(&m, None, word("x")), 1);
    assert_eq!(count(&m, word("x"), word("y")), 2);
    assert_eq!(count(&m, word("y"), word("x")), 2);
    assert_eq!(count(&m, word("x"), None), 1);
    assert_eq!(m.total_count(), 6);
}

#[test]
fn feeds_accumulate_into_one_table() {
    let mut m = Model::new();
    m.feed(&tokenize("a b"));
    m.feed(&tokenize("a b"));
    m.feed(&tokenize("b a"));
    assert_eq!(count(&m, None, word("a")), 2);
    assert_eq!(count(&m, None, word("b")), 1);
    assert_eq!(count(&m, word("a"), word("b")), 2);
    assert_eq!(count(&m, word("b"), word("a")), 1);
    assert_eq!(count(&m, word("b"), None), 2);
    assert_eq!(count(&m, word("a"), None), 1);
}

#[test]
fn feed_order_does_not_change_counts() {
    let mut first = Model::new();
    first.feed(&tokenize("a b"));
    first.feed(&tokenize("b c a"));
    let mut second = Model::new();
    second.feed(&tokenize("b c a"));
    second.feed(&tokenize("a b"));
    let contexts = [None, word("a"), word("b"), word("c")];
    let nexts = [None, word("a"), word("b"), word("c")];
    for ctx in contexts.iter() {
        for next in nexts.iter() {
            assert_eq!(
                count(&first, ctx.clone(), next.clone()),
                count(&second, ctx.clone(), next.clone())
            );
        }
    }
    assert_eq!(first.total_count(), second.total_count());
}

#[test]
fn empty_feed_records_only_start_to_end() {
    let mut m = Model::new();
    m.feed_line("");
    assert!(!m.is_empty());
    assert_eq!(count(&m, None, None), 1);
    assert_eq!(m.total_count(), 1);
}

#[test]
fn empty_feed_leaves_other_counts_alone() {
    let mut m = Model::new();
    m.feed_line("a b");
    let before_ab = count(&m, word("a"), word("b"));
    let before_start_a = count(&m, None, word("a"));
    let before_b_end = count(&m, word("b"), None);
    m.feed_line("");
    assert_eq!(count(&m, word("a"), word("b")), before_ab);
    assert_eq!(count(&m, None, word("a")), before_start_a);
    assert_eq!(count(&m, word("b"), None), before_b_end);
    assert_eq!(count(&m, None, None), 1);
}

#[test]
fn feed_line_tokenizes_on_whitespace() {
    let mut m = Model::new();
    m.feed_line("  a   b ");
    assert_eq!(count(&m, None, word("a")), 1);
    assert_eq!(count(&m, word("a"), word("b")), 1);
    assert_eq!(count(&m, word("b"), None), 1);
    assert_eq!(m.total_count(), 3);
}

#[test]
fn single_line_model_generates_deterministically() {
    let mut m = Model::new();
    m.feed_line("a b c");
    for _ in 0..25 {
        let ws = m.generate().unwrap();
        assert_eq!(ws, vec!["a".to_string(), "b".to_string(), "c".to_string()]);
        assert_eq!(m.generate_text().unwrap(), "a b c");
    }
}

#[test]
fn unique_successors_generate_deterministically() {
    let mut m = Model::new();
    m.feed_line("one two three four five");
    for _ in 0..10 {
        assert_eq!(m.generate_text().unwrap(), "one two three four five");
    }
}

#[test]
fn generated_words_come_from_the_corpus() {
    let mut m = Model::new();
    m.feed_line("red green");
    m.feed_line("green blue");
    m.feed_line("blue red");
    for _ in 0..100 {
        let ws = m.generate().unwrap();
        for w in ws.iter() {
            assert!(!w.is_empty());
            let w = w.as_str();
            assert!(w == "red" || w == "green" || w == "blue");
        }
    }
}

#[test]
fn generated_sequences_follow_recorded_transitions() {
    let mut m = Model::new();
    m.feed_line("a b a");
    m.feed_line("b a b");
    m.feed_line("a a");
    for _ in 0..200 {
        let ws = m.generate().unwrap();
        let mut ctx: Option<String> = None;
        for w in ws.iter() {
            assert!(count(&m, ctx.clone(), word(w)) > 0);
            ctx = Some(w.clone());
        }
        assert!(count(&m, ctx, None) > 0);
    }
}

#[test]
fn generation_terminates_on_cyclic_tables() {
    let mut m = Model::new();
    m.feed_line("x x x");
    m.feed_line("x y x");
    for _ in 0..2000 {
        let ws = m.generate().unwrap();
        assert!(ws.len() < 1_000_000);
    }
}

#[test]
fn empty_line_model_generates_empty_text() {
    let mut m = Model::new();
    m.feed_line("");
    let ws = m.generate().unwrap();
    assert!(ws.is_empty());
    assert_eq!(m.generate_text().unwrap(), "");
}
