use inverted_index::fuzzy::{fuzzy_find, FuzzyConfig};
use inverted_index::index::{Location, ReverseIndex};
use inverted_index::lexer::Lexer;

fn new_index(input: &str) -> ReverseIndex {
    let mut index = ReverseIndex::default();
    let lexer = Lexer::new();
    let items: Vec<(String, Location)> = lexer
        .lex(input)
        .into_iter()
        .map(|(text, pos)| (text, Location::new("test", pos)))
        .collect();
    index.add_items(&items);
    index
}

fn find_with(config: &FuzzyConfig, input: &str, query: &str) -> Vec<String> {
    let lexer = Lexer::new();
    let index = new_index(input);
    let query: Vec<String> = lexer.lex(query).into_iter().map(|(s, _)| s).collect();
    fuzzy_find(config, &index, &query)
        .iter()
        .map(|loc| loc.to_string())
        .collect()
}

fn assert_fuzzy_find(input: &str, query: &str, should_be: &[&str]) {
    let results = find_with(&FuzzyConfig::default(), input, query);
    assert_eq!(results, should_be)
}

#[test]
fn test_basic() {
    assert_fuzzy_find("a b c", "b", &["test:1:3"]);
    assert_fuzzy_find("a b c", "a b", &["test:1:1"]);
}

#[test]
fn test_double_same_token() {
    assert_fuzzy_find("a a", "a", &["test:1:1", "test:1:3"]);
    assert_fuzzy_find("a a", "a a", &["test:1:1"]);
}

#[test]
fn empty_query_finds_nothing() {
    assert_fuzzy_find("a b c", "", &[]);
}

#[test]
fn unknown_token_finds_nothing() {
    assert_fuzzy_find("a b c", "d", &[]);
    assert_fuzzy_find("a b c", "a d", &[]);
}

#[test]
fn later_token_never_matches_before_earlier() {
    assert_fuzzy_find("b a", "a b", &[]);
    assert_fuzzy_find("b a b", "a b", &["test:1:3"]);
}

#[test]
fn tighter_match_ranks_first() {
    // "x ... y" spans 8 bytes, "x y" spans 2.
    assert_fuzzy_find("x q q q y\nx y", "x y", &["test:2:1", "test:1:1"]);
}

#[test]
fn zero_line_span_rejects_line_breaks() {
    let mut config = FuzzyConfig::default();
    config.line_span = Some(0);
    assert_eq!(find_with(&config, "a\nb", "a b"), Vec::<String>::new());
    assert_eq!(find_with(&config, "a b\na", "a b"), vec!["test:1:1".to_string()]);
    let mut wide = FuzzyConfig::default();
    wide.line_span = Some(1);
    assert_eq!(find_with(&wide, "a\nb", "a b"), vec!["test:1:1".to_string()]);
    assert_eq!(find_with(&wide, "a\n\nb", "a b"), Vec::<String>::new());
}

#[test]
fn no_span_allows_any_line_gap() {
    assert_fuzzy_find("a\n\n\nb", "a b", &["test:1:1"]);
}

#[test]
fn greedy_alignment_keeps_first_continuation() {
    // Each "a" pairs with the first "b" after it.
    assert_fuzzy_find("a a b", "a b", &["test:1:3", "test:1:1"]);
}

#[test]
fn matches_stay_within_one_file() {
    let mut index = ReverseIndex::default();
    let lexer = Lexer::new();
    for (name, text) in [("one", "a"), ("two", "b")] {
        let items: Vec<(String, Location)> = lexer
            .lex(text)
            .into_iter()
            .map(|(t, pos)| (t, Location::new(name, pos)))
            .collect();
        index.add_items(&items);
    }
    let query = vec!["a".to_string(), "b".to_string()];
    assert!(fuzzy_find(&FuzzyConfig::default(), &index, &query).is_empty());
    let single = vec!["b".to_string()];
    let found: Vec<String> = fuzzy_find(&FuzzyConfig::default(), &index, &single)
        .iter()
        .map(|l| l.to_string())
        .collect();
    assert_eq!(found, vec!["two:1:1".to_string()]);
}

#[test]
fn wide_gaps_reach_the_reject_score() {
    let near = format!("a{}b", " ".repeat(998));
    assert_fuzzy_find(&near, "a b", &["test:1:1"]);
    let far = format!("a{}b", " ".repeat(999));
    assert_fuzzy_find(&far, "a b", &[]);
    let farther = format!("a{}b", " ".repeat(1499));
    assert_fuzzy_find(&farther, "a b", &[]);
}

#[test]
fn lexer_reports_the_word_pattern_tokens_only() {
    let lexer = Lexer::new();
    let query: Vec<String> = lexer.lex("x\ny").into_iter().map(|(t, _)| t).collect();
    assert_eq!(query, vec!["x".to_string(), "y".to_string()]);
}
