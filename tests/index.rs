use inverted_index::index::{Location, ReverseIndex};
use inverted_index::lexer::{tokens_from_matches, Lexer};
use inverted_index::position::Pos;

fn pos(offset: usize, line: usize, column: usize) -> Pos {
    Pos { offset, line, column }
}

#[test]
fn query_returns_locations_in_insertion_order() {
    let mut index = ReverseIndex::new();
    index.add_item("t", Location::new("f", pos(5, 1, 6)));
    index.add_item("u", Location::new("g", pos(0, 1, 1)));
    index.add_item("t", Location::new("g", pos(1, 1, 2)));
    let got: Vec<String> = index.query("t").iter().map(|l| l.to_string()).collect();
    assert_eq!(got, vec!["f:1:6".to_string(), "g:1:2".to_string()]);
    assert_eq!(index.query("u").len(), 1);
    assert!(index.query("v").is_empty());
}

#[test]
fn duplicates_are_kept() {
    let mut index = ReverseIndex::default();
    let items = vec![
        ("t".to_string(), Location::new("f", pos(0, 1, 1))),
        ("t".to_string(), Location::new("f", pos(0, 1, 1))),
    ];
    index.add_items(&items);
    let got = index.query("t");
    assert_eq!(got.len(), 2);
    assert_eq!(got[0].pos, pos(0, 1, 1));
    assert_eq!(got[1].file, "f");
}

#[test]
fn location_text_has_line_and_column() {
    let loc = Location::new("src/a.rs", pos(1234, 12, 305));
    assert_eq!(loc.to_string(), "src/a.rs:12:305");
}

#[test]
fn lexer_tracks_lines_and_columns() {
    let lexer = Lexer::new();
    let tokens = lexer.lex("foo bar\n  baz_1\n\nq");
    let expected = vec![
        ("foo".to_string(), pos(0, 1, 1)),
        ("bar".to_string(), pos(4, 1, 5)),
        ("baz_1".to_string(), pos(10, 2, 3)),
        ("q".to_string(), pos(17, 4, 1)),
    ];
    assert_eq!(tokens, expected);
}

#[test]
fn lexer_skips_punctuation() {
    let lexer = Lexer::new();
    let tokens: Vec<String> = lexer.lex("a.b, (c)").into_iter().map(|(t, _)| t).collect();
    assert_eq!(tokens, vec!["a", "b", "c"]);
    assert!(lexer.lex("").is_empty());
}

#[test]
fn lexing_twice_gives_same_tokens() {
    let lexer = Lexer::new();
    let text = "one two\nthree";
    assert_eq!(lexer.lex(text), lexer.lex(text));
}

#[test]
fn tokens_from_matches_drops_newlines() {
    let ms = vec![
        (0, 2, "ab".to_string()),
        (2, 3, "\n".to_string()),
        (5, 6, "c".to_string()),
    ];
    let tokens = tokens_from_matches(&ms);
    assert_eq!(tokens, vec![("ab".to_string(), pos(0, 1, 1)), ("c".to_string(), pos(5, 2, 3))]);
}
