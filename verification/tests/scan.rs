use bfront::ast::Node;
use bfront::eface::parse_bytes;
use bfront::scanner::Scanner;
use bfront::source::Source;
use bfront::token::Token;
use bfront::walk::{walk, Visitor};

fn scan_all(src: &[u8]) -> (Vec<(usize, Token, String)>, usize) {
    let mut s = Scanner::new(Source::new(src.len()), src);
    let mut out = Vec::new();
    loop {
        let (pos, tok, lit) = s.scan();
        let done = tok == Token::EOF;
        out.push((pos.0, tok, lit));
        if done {
            break;
        }
    }
    let n = s.error_count;
    (out, n)
}

#[test]
fn scanner_skips_whitespace_and_classifies() {
    let (toks, errs) = scan_all(b" +\t-\n>[ ].,<");
    let kinds: Vec<(usize, Token)> = toks.iter().map(|t| (t.0, t.1)).collect();
    assert_eq!(
        kinds,
        vec![
            (1, Token::IncByte),
            (3, Token::DecByte),
            (5, Token::IncPtr),
            (6, Token::LoopOpen),
            (8, Token::LoopClose),
            (9, Token::OutputByte),
            (10, Token::InputByte),
            (11, Token::DecPtr),
            (12, Token::EOF),
        ]
    );
    assert_eq!(errs, 0);
}

#[test]
fn scanner_reports_illegal_character_with_literal() {
    let (toks, errs) = scan_all(b"+x");
    assert_eq!(toks[1].1, Token::ILLEGAL);
    assert_eq!(toks[1].0, 1);
    assert_eq!(toks[1].2, "x");
    assert_eq!(errs, 1);
}

#[test]
fn scanner_reports_nul_byte() {
    let (toks, errs) = scan_all(b"\x00");
    assert_eq!(toks[0].1, Token::ILLEGAL);
    assert_eq!(errs, 2);
}

#[test]
fn scanner_reports_invalid_utf8_per_byte() {
    let (_, errs) = scan_all(b"\xff+");
    assert_eq!(errs, 2);
}

#[test]
fn scanner_accepts_truncated_tail_as_illegal() {
    let (toks, _) = scan_all(b"+\xe2\x82");
    assert_eq!(toks[0].1, Token::IncByte);
    assert_eq!(toks[1].1, Token::ILLEGAL);
}

#[test]
fn lexical_error_positions_resolve_lines() {
    let r = parse_bytes(b"+\n+@");
    match r {
        Err(el) => {
            let mut seen = false;
            for i in 0..el.len() {
                let e = el.get(i);
                if e.msg.starts_with("illegal character") {
                    assert_eq!(e.pos.line, 2);
                    assert_eq!(e.pos.column, 1);
                    seen = true;
                }
            }
            assert!(seen);
        }
        Ok(_) => panic!("must fail"),
    }
}

struct Counter {
    seen: std::cell::Cell<usize>,
}

impl Visitor for Counter {
    fn visit(&self, _node: &Node) -> Option<&Self> {
        self.seen.set(self.seen.get() + 1);
        Some(self)
    }
}

struct Shallow;

impl Visitor for Shallow {
    fn visit(&self, node: &Node) -> Option<&Self> {
        match node {
            Node::Loop(_) => None,
            _ => Some(self),
        }
    }
}

#[test]
fn walk_visits_every_node() {
    let tree = parse_bytes(b"+[-]").expect("valid");
    let v = Counter { seen: std::cell::Cell::new(0) };
    walk(&v, &tree);
    // Program, its Body, `+`, the Loop, its Body, `-`.
    assert_eq!(v.seen.get(), 6);
}

#[test]
fn walk_can_skip_subtrees() {
    let tree = parse_bytes(b"+[-]").expect("valid");
    let v = Shallow;
    walk(&v, &tree);
}
