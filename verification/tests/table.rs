use bfront::decimal::{i32_to_string, u64_to_string};
use bfront::errors::ErrorList;
use bfront::position::{Pos, Position};
use bfront::source::Source;
use bfront::token::Token;

#[test]
fn decimal_rendering() {
    assert_eq!(u64_to_string(0), "0");
    assert_eq!(u64_to_string(7), "7");
    assert_eq!(u64_to_string(42), "42");
    assert_eq!(u64_to_string(1000000), "1000000");
    assert_eq!(i32_to_string(-5), "-5");
    assert_eq!(i32_to_string(i32::MIN), "-2147483648");
}

#[test]
fn token_display_text() {
    assert_eq!(Token::IncPtr.text(), ">");
    assert_eq!(Token::DecPtr.text(), "<");
    assert_eq!(Token::IncByte.text(), "+");
    assert_eq!(Token::DecByte.text(), "-");
    assert_eq!(Token::OutputByte.text(), ".");
    assert_eq!(Token::InputByte.text(), ",");
    assert_eq!(Token::LoopOpen.text(), "[");
    assert_eq!(Token::LoopClose.text(), "]");
    assert_eq!(Token::EOF.text(), "EOF");
    assert_eq!(Token::ILLEGAL.text(), "ILLEGAL");
    assert_eq!(Token::Unknown(-3).text(), "token(-3)");
}

#[test]
fn position_validity_and_text() {
    let p = Position { offset: 9, line: 3, column: 7 };
    assert!(p.is_valid());
    assert_eq!(p.text(), "3:7");
    let bare = Position { offset: 9, line: 3, column: 0 };
    assert_eq!(bare.text(), "3");
    let invalid = Position::default();
    assert!(!invalid.is_valid());
    assert_eq!(invalid.text(), "-");
    assert!(Pos(1).is_valid());
    assert!(!Pos(0).is_valid());
}

#[test]
fn line_starts_resolve_offsets() {
    let mut s = Source::new(10);
    s.add_line(3);
    s.add_line(7);
    assert_eq!(s.size(), 10);
    assert_eq!(s.line_count(), 3);
    assert_eq!(s.line_start(2).0, 3);
    let p = s.position(Pos(3));
    assert_eq!((p.line, p.column), (2, 0));
    let q = s.position(Pos(4));
    assert_eq!((q.line, q.column), (2, 1));
    assert_eq!(s.line(Pos(8)), 3);
    assert_eq!(s.unpack(5), (2, 2));
}

#[test]
fn add_line_ignores_out_of_order_and_out_of_range() {
    let mut s = Source::new(5);
    s.add_line(3);
    s.add_line(2);
    s.add_line(3);
    s.add_line(9);
    assert_eq!(s.line_count(), 2);
}

#[test]
fn set_lines_validates() {
    let mut s = Source::new(10);
    assert!(!s.set_lines(vec![0, 5, 5]));
    assert!(!s.set_lines(vec![0, 5, 12]));
    assert_eq!(s.line_count(), 1);
    assert!(s.set_lines(vec![0, 4, 8]));
    assert_eq!(s.line_count(), 3);
    assert_eq!(s.line_start(3).0, 8);
}

#[test]
fn set_lines_for_content_scans_newlines() {
    let mut s = Source::new(6);
    s.set_lines_for_content(b"ab\ncd\n");
    assert_eq!(s.line_count(), 2);
    assert_eq!(s.line_start(1).0, 0);
    assert_eq!(s.line_start(2).0, 3);
    let p = s.position(Pos(4));
    assert_eq!((p.line, p.column), (2, 1));
}

#[test]
fn merge_lines_removes_one_start() {
    let mut s = Source::new(10);
    s.add_line(3);
    s.add_line(7);
    s.merge_lines(1);
    assert_eq!(s.line_count(), 2);
    assert_eq!(s.line_start(2).0, 7);
}

fn at(line: usize, column: usize) -> Position {
    Position { offset: 0, line, column }
}

#[test]
fn sort_orders_by_line_column_message() {
    let mut el = ErrorList::new();
    el.add(at(2, 1), String::from("b"));
    el.add(at(1, 9), String::from("z"));
    el.add(at(2, 1), String::from("a"));
    el.add(at(0, 0), String::from("lex"));
    el.sort();
    assert_eq!(el.get(0).msg, "lex");
    assert_eq!(el.get(1).msg, "z");
    assert_eq!(el.get(2).msg, "a");
    assert_eq!(el.get(3).msg, "b");
}

#[test]
fn sort_is_idempotent() {
    let mut el = ErrorList::new();
    el.add(at(3, 4), String::from("m"));
    el.add(at(1, 2), String::from("n"));
    el.add(at(3, 4), String::from("m"));
    el.sort();
    let once: Vec<(usize, usize, String)> =
        (0..el.len()).map(|i| (el.get(i).pos.line, el.get(i).pos.column, el.get(i).msg.clone())).collect();
    el.sort();
    let twice: Vec<(usize, usize, String)> =
        (0..el.len()).map(|i| (el.get(i).pos.line, el.get(i).pos.column, el.get(i).msg.clone())).collect();
    assert_eq!(once, twice);
}

#[test]
fn remove_multiples_keeps_one_error_per_line() {
    let mut el = ErrorList::new();
    el.add(at(2, 5), String::from("later"));
    el.add(at(2, 1), String::from("first"));
    el.add(at(1, 1), String::from("one"));
    el.add(at(2, 1), String::from("dup"));
    let before = el.len();
    el.remove_multiples();
    assert!(el.len() <= before);
    assert_eq!(el.len(), 2);
    assert_eq!(el.get(0).msg, "one");
    assert_eq!(el.get(1).msg, "dup");
}

#[test]
fn error_list_rendering() {
    let mut el = ErrorList::new();
    assert_eq!(el.text(), "no errors");
    el.add(at(3, 7), String::from("expected node, found ']'"));
    assert_eq!(el.text(), "3:7: expected node, found ']'");
    el.add(at(4, 1), String::from("boom"));
    el.add(at(5, 2), String::from("bang"));
    assert_eq!(el.text(), "3:7: expected node, found ']' (and 2 more errors)");
    assert!(el.err().is_some());
    el.reset();
    assert!(el.err().is_none());
    assert!(el.is_empty());
}

#[test]
fn invalid_position_renders_bare_message() {
    let mut el = ErrorList::new();
    el.add(Position::default(), String::from("just text"));
    assert_eq!(el.get(0).text(), "just text");
}
