use lexion::tokenizer::location::{FileLocation, SourceLocation, SourceRange};
use lexion::tokenizer::span::SpanBuilder;
use lexion::tokenizer::token::{TokenInstance, TokenType};
use lexion::tokenizer::tokenizer::{pick_best, Tokenizer};
use lexion::tokenizer::tokens::{
    BOOLEAN, FLOAT, DOUBLE_QUOTED_STRING, INTEGER, MULTI_LINE_COMMENT, SINGLE_LINE_COMMENT,
    SINGLE_QUOTED_STRING, WHITESPACE,
};

fn numbers() -> Vec<TokenType> {
    vec![
        TokenType::new("", WHITESPACE),
        TokenType::new("int", INTEGER),
        TokenType::new("dec", FLOAT),
    ]
}

fn at(line: usize, col: usize) -> FileLocation {
    FileLocation { line, col }
}

fn place(line: usize, col: usize) -> SourceLocation {
    SourceLocation { file: "inline", loc: at(line, col) }
}

#[test]
fn merged_spans_reach_from_the_earlier_start_to_the_later_end() {
    assert_eq!(SpanBuilder::merge((1, 2), (5, 3)), (1, 7));
    assert_eq!(SpanBuilder::merge((5, 3), (1, 2)), (1, 7));
    assert_eq!(SpanBuilder::merge((0, 10), (2, 3)), (0, 5));
    assert_eq!(SpanBuilder::merge((4, 1), (4, 6)), (4, 6));
    assert_eq!(SpanBuilder::merge((4, 6), (4, 1)), (4, 1));
    assert_eq!(SpanBuilder::merge((0, 0), (usize::MAX, 0)), (0, usize::MAX));
}

#[test]
fn start_and_end_of_a_span_are_empty_spans() {
    assert_eq!(SpanBuilder::start((4, 6)), (4, 0));
    assert_eq!(SpanBuilder::end((4, 6)), (10, 0));
    assert_eq!(SpanBuilder::end((7, 0)), (7, 0));
}

fn hit(start: usize, text: &str) -> Option<(usize, String)> {
    Some((start, text.to_string()))
}

#[test]
fn the_longest_match_is_picked() {
    let found = vec![hit(0, "ab"), hit(0, "abcd"), hit(0, "abc")];
    assert_eq!(pick_best(&found), Some(("abcd".to_string(), 1)));
}

#[test]
fn of_equally_long_matches_the_first_is_picked() {
    let found = vec![None, hit(0, "if"), hit(0, "ab"), hit(0, "a")];
    assert_eq!(pick_best(&found), Some(("if".to_string(), 1)));
}

#[test]
fn matches_behind_the_start_and_empty_matches_are_passed_over() {
    let found = vec![hit(2, "abcdef"), hit(0, ""), hit(0, "x"), None];
    assert_eq!(pick_best(&found), Some(("x".to_string(), 2)));
    assert_eq!(pick_best(&vec![hit(1, "abc"), hit(0, ""), None]), None);
    assert_eq!(pick_best(&Vec::new()), None);
}

#[test]
fn the_length_of_a_match_counts_characters() {
    let found = vec![hit(0, "éé"), hit(0, "abc")];
    assert_eq!(pick_best(&found), Some(("abc".to_string(), 1)));
}

#[test]
fn longest_match_wins() {
    let mut t = Tokenizer::from_string("12.5", numbers());
    let token = t.next().unwrap();
    assert_eq!(token.token, "dec");
    assert_eq!(token.value, "12.5");
    assert_eq!(token.loc.loc, at(1, 1));
    let end = t.next().unwrap();
    assert_eq!(end.token, "$");
    assert_eq!(end.value, "$");
    assert!(!t.has_next());
}

#[test]
fn integer_alone_is_an_integer() {
    let mut t = Tokenizer::from_string("125", numbers());
    let token = t.next().unwrap();
    assert_eq!(token.token, "int");
    assert_eq!(token.value, "125");
}

#[test]
fn earliest_pattern_wins_a_tie() {
    let types = vec![TokenType::new("first", "^ab"), TokenType::new("second", "^a.")];
    let mut t = Tokenizer::from_string("ab", types);
    assert_eq!(t.next().unwrap().token, "first");
    let types = vec![TokenType::new("second", "^a."), TokenType::new("first", "^ab")];
    let mut t = Tokenizer::from_string("ab", types);
    assert_eq!(t.next().unwrap().token, "second");
}

#[test]
fn unrecognized_character_is_a_lexical_error() {
    let mut t = Tokenizer::from_string("#", numbers());
    let e = t.next().unwrap_err();
    assert_eq!(e.message, "unexpected token '#'");
    assert_eq!(e.location.loc, at(1, 1));
    assert_eq!(e.location.file, "inline");
}

#[test]
fn lexical_error_shows_the_stretch_up_to_white_space() {
    let mut t = Tokenizer::from_string("12 #foo bar", numbers());
    assert_eq!(t.next().unwrap().value, "12");
    let e = t.next().unwrap_err();
    assert_eq!(e.message, "unexpected token '#foo'");
    assert_eq!(e.location.loc, at(1, 4));
}

#[test]
fn skipped_text_moves_the_location() {
    let mut t = Tokenizer::from_string("1\n  22\n\n333", numbers());
    let a = t.next().unwrap();
    assert_eq!((a.value.as_str(), a.loc.loc), ("1", at(1, 1)));
    let b = t.next().unwrap();
    assert_eq!((b.value.as_str(), b.loc.loc), ("22", at(2, 3)));
    let c = t.next().unwrap();
    assert_eq!((c.value.as_str(), c.loc.loc), ("333", at(4, 1)));
    let end = t.next().unwrap();
    assert_eq!((end.token.as_str(), end.loc.loc), ("$", at(4, 4)));
}

#[test]
fn columns_count_characters() {
    let types = vec![TokenType::new("", WHITESPACE), TokenType::new("word", r"^\p{L}+")];
    let mut t = Tokenizer::from_string("añb çd\né", types);
    let a = t.next().unwrap();
    assert_eq!((a.value.as_str(), a.loc.loc), ("añb", at(1, 1)));
    let b = t.next().unwrap();
    assert_eq!((b.value.as_str(), b.loc.loc), ("çd", at(1, 5)));
    let c = t.next().unwrap();
    assert_eq!((c.value.as_str(), c.loc.loc), ("é", at(2, 1)));
    assert_eq!(t.next().unwrap().loc.loc, at(2, 2));
    assert_eq!(t.cursor_offset(), 8);
}

#[test]
fn end_of_input_does_not_consume() {
    let mut t = Tokenizer::from_string("", numbers());
    assert!(!t.has_next());
    assert_eq!(t.next().unwrap().token, "$");
    assert_eq!(t.next().unwrap().token, "$");
    assert_eq!(t.cursor_offset(), 0);
}

#[test]
fn trailing_white_space_is_skipped_before_the_end() {
    let mut t = Tokenizer::from_string("7  ", numbers());
    assert_eq!(t.next().unwrap().value, "7");
    assert!(t.has_next());
    assert_eq!(t.next().unwrap().token, "$");
    assert_eq!(t.cursor_offset(), 3);
}

#[test]
fn comments_are_skipped() {
    let types = vec![
        TokenType::new("", WHITESPACE),
        TokenType::new("", SINGLE_LINE_COMMENT),
        TokenType::new("", MULTI_LINE_COMMENT),
        TokenType::new("int", INTEGER),
    ];
    let mut t = Tokenizer::from_string("1 // one\n/* two\n lines */ 2", types);
    assert_eq!(t.next().unwrap().value, "1");
    let two = t.next().unwrap();
    assert_eq!(two.value, "2");
    assert_eq!(two.loc.loc, at(3, 11));
}

#[test]
fn match_next_gives_text_and_type() {
    let t = Tokenizer::from_string("42x", numbers());
    assert_eq!(t.match_next().unwrap(), ("42".to_string(), 1));
    let t = Tokenizer::from_string("x", numbers());
    assert_eq!(t.match_next().unwrap_err().message, "unexpected token 'x'");
}

#[test]
fn a_pattern_that_matches_later_in_the_text_does_not_count() {
    let types = vec![TokenType::new("b", "b")];
    let mut t = Tokenizer::from_string("ab", types);
    assert_eq!(t.next().unwrap_err().message, "unexpected token 'ab'");
}

#[test]
fn an_invalid_pattern_matches_nothing() {
    let types = vec![TokenType::new("bad", "^("), TokenType::new("a", "^a")];
    let mut t = Tokenizer::from_string("a", types);
    assert_eq!(t.next().unwrap().token, "a");
}

#[test]
fn empty_matches_do_not_count() {
    let types = vec![TokenType::new("stars", "^x*"), TokenType::new("a", "^a")];
    let mut t = Tokenizer::from_string("a", types);
    assert_eq!(t.next().unwrap().token, "a");
}

#[test]
fn stock_patterns() {
    let types = vec![
        TokenType::new("", WHITESPACE),
        TokenType::new("bool", BOOLEAN),
        TokenType::new("single", SINGLE_QUOTED_STRING),
        TokenType::new("double", DOUBLE_QUOTED_STRING),
    ];
    let mut t = Tokenizer::from_string("true 'a b' \"c\" false", types);
    let kinds: Vec<String> = (0..4).map(|_| t.next().unwrap().token).collect();
    assert_eq!(kinds, vec!["bool", "single", "double", "bool"]);
}

#[test]
fn source_and_file_are_kept() {
    let t = Tokenizer::from_source("main.lx", "abc", numbers());
    assert_eq!(t.source(), "abc");
    assert_eq!(t.get_cursor_loc().file, "main.lx");
    assert_eq!(t.get_cursor_loc().loc, at(1, 1));
}

#[test]
fn token_constructors() {
    let blank = TokenInstance::new();
    assert_eq!((blank.token.as_str(), blank.value.as_str()), ("", ""));
    assert_eq!(blank.loc.file, "inline");
    assert_eq!(blank.loc.loc, at(1, 1));
    let t = TokenInstance::from("'a'", "a", &place(2, 5));
    assert_eq!((t.token.as_str(), t.value.as_str(), t.loc.loc), ("'a'", "a", at(2, 5)));
    let c = t.copy();
    assert_eq!((c.token, c.value, c.loc.loc), (t.token, t.value, t.loc.loc));
}

#[test]
fn locations_are_ordered_by_line_then_column() {
    assert!(at(1, 9).is_before(&at(2, 1)));
    assert!(at(2, 1).is_before(&at(2, 2)));
    assert!(!at(2, 2).is_before(&at(2, 2)));
    assert!(!at(3, 1).is_before(&at(2, 9)));
    assert_eq!(at(1, 9).min_of(at(2, 1)), at(1, 9));
    assert_eq!(at(1, 9).max_of(at(2, 1)), at(2, 1));
    assert_eq!(FileLocation::default(), at(1, 1));
    assert_eq!(SourceLocation::default().file, "inline");
    assert_eq!(SourceLocation::default().loc, at(1, 1));
}

#[test]
fn places_in_text() {
    assert_eq!(at(3, 14).to_string(), "3:14");
    assert_eq!(place(3, 14).to_string(), "(file:///inline:3:14)");
    let r = SourceRange { file: "a.lx", start: at(1, 2), end: at(10, 1) };
    assert_eq!(r.to_string(), "(file:///a.lx:[1:2-10:1])");
    assert_eq!(TokenType::new("'id'", "^[a-z]+").to_string(), "['id'] -> /^[a-z]+/");
}

#[test]
fn the_range_of_a_token() {
    let t = TokenInstance::from("'id'", "abc", &place(2, 5));
    let r = t.range();
    assert_eq!((r.file, r.start, r.end), ("inline", at(2, 5), at(2, 8)));
    let blank = TokenInstance::default();
    assert_eq!((blank.token.as_str(), blank.value.as_str(), blank.loc.loc), ("", "", at(1, 1)));
}

#[test]
fn range_from_location_and_length() {
    let r = SourceRange::from_loc_len(place(3, 4), 5);
    assert_eq!((r.file, r.start, r.end), ("inline", at(3, 4), at(3, 9)));
    assert_eq!(r.start().loc, at(3, 4));
    assert_eq!(r.end().loc, at(3, 9));
    assert_eq!(r.end().file, "inline");
}

#[test]
fn range_from_two_places_in_either_order() {
    let a = SourceLocation { file: "a", loc: at(1, 5) };
    let b = SourceLocation { file: "b", loc: at(2, 1) };
    let r = SourceRange::from_start_end(a, b);
    assert_eq!((r.file, r.start, r.end), ("a", at(1, 5), at(2, 1)));
    let r = SourceRange::from_start_end(b, a);
    assert_eq!((r.file, r.start, r.end), ("a", at(1, 5), at(2, 1)));
    let r = SourceRange::from_start_end(a, a);
    assert_eq!((r.start, r.end), (at(1, 5), at(1, 5)));
}

#[test]
fn range_extend_and_merge() {
    let r = SourceRange::from_loc_len(place(3, 4), 5);
    let wider = r.extend(place(2, 7));
    assert_eq!((wider.start, wider.end), (at(2, 7), at(3, 9)));
    let longer = r.extend(place(4, 1));
    assert_eq!((longer.start, longer.end), (at(3, 4), at(4, 1)));
    let same = r.extend(place(3, 6));
    assert_eq!((same.start, same.end), (at(3, 4), at(3, 9)));
    let other = SourceRange { file: "other", start: at(1, 1), end: at(3, 5) };
    let merged = r.merge(other);
    assert_eq!((merged.file, merged.start, merged.end), ("inline", at(1, 1), at(3, 9)));
    let point = SourceRange::from_location(place(7, 7));
    assert_eq!((point.start, point.end), (at(7, 7), at(7, 7)));
}
