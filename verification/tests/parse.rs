use bfront::ast::Node;
use bfront::eface::{parse_bytes, parse_program_from, ParseFailure};
use bfront::parser::Parser;

/// Collects the operator characters a tree's leaves spell, brackets
/// included, in source order.
fn flatten(n: &Node, out: &mut String) {
    match n {
        Node::Program(p) => flatten(&p.body, out),
        Node::IncPtr(_) => out.push('>'),
        Node::DecPtr(_) => out.push('<'),
        Node::IncByte(_) => out.push('+'),
        Node::DecByte(_) => out.push('-'),
        Node::OutputByte(_) => out.push('.'),
        Node::InputByte(_) => out.push(','),
        Node::Loop(l) => {
            out.push('[');
            flatten(&l.body, out);
            out.push(']');
        }
        Node::Body(b) => {
            for c in &b.list {
                flatten(c, out);
            }
        }
        Node::BadNode(_) => {}
    }
}

#[test]
fn empty_input_parses_to_empty_body() {
    let r = parse_bytes(b"");
    match r {
        Ok(Node::Program(p)) => match *p.body {
            Node::Body(ref b) => assert_eq!(b.list.len(), 0),
            _ => panic!("program body is not a Body"),
        },
        _ => panic!("empty input did not parse"),
    }
}

#[test]
fn valid_program_round_trips_operators() {
    let src = ">+[<->]  ,.\n+[+[-]]";
    let r = parse_bytes(src.as_bytes()).expect("valid program must parse");
    let mut out = String::new();
    flatten(&r, &mut out);
    let want: String = src.chars().filter(|c| !c.is_whitespace()).collect();
    assert_eq!(out, want);
}

#[test]
fn valid_program_has_no_errors_through_facade() {
    assert!(parse_program_from("+[-]").is_ok());
    assert!(parse_program_from(String::from("><+-.,")).is_ok());
    assert!(parse_program_from(&b"[[][]]"[..]).is_ok());
}

#[test]
fn unmatched_open_reports_expected_close_and_keeps_loop() {
    let mut p = Parser::new(b"+[+");
    let r = p.parse_program().expect("no bailout");
    let prog = r.expect("tree still produced");
    match *prog.body {
        Node::Body(ref b) => {
            assert_eq!(b.list.len(), 2);
            match &b.list[1] {
                Node::Loop(l) => match &*l.body {
                    Node::Body(inner) => {
                        assert_eq!(inner.list.len(), 1);
                        assert!(matches!(inner.list[0], Node::IncByte(_)));
                    }
                    _ => panic!("loop body is not a Body"),
                },
                other => panic!("second node is not a Loop: {:?}", other),
            }
        }
        _ => panic!("program body is not a Body"),
    }
    let errs = p.errors();
    assert_eq!(errs.len(), 1);
    assert!(errs.get(0).msg.contains("expected ']'"));
}

#[test]
fn unmatched_open_fails_through_facade() {
    let r = parse_bytes(b"+[+");
    match r {
        Err(el) => {
            assert_eq!(el.len(), 1);
            assert!(el.get(0).msg.contains("expected ']'"));
        }
        Ok(_) => panic!("unmatched open must fail"),
    }
}

#[test]
fn illegal_character_yields_one_lexical_error_and_bad_node() {
    let mut p = Parser::new(b"+@+");
    let r = p.parse_program().expect("no bailout");
    let prog = r.expect("tree still produced");
    match *prog.body {
        Node::Body(ref b) => {
            assert_eq!(b.list.len(), 2);
            assert!(matches!(b.list[0], Node::IncByte(_)));
            match &b.list[1] {
                Node::BadNode(bad) => {
                    assert_eq!(bad.from.0, 1);
                    assert_eq!(bad.to.0, 3);
                }
                other => panic!("second node is not a BadNode: {:?}", other),
            }
        }
        _ => panic!("program body is not a Body"),
    }
    let errs = p.errors();
    let lexical: Vec<usize> = (0..errs.len())
        .filter(|&i| errs.get(i).msg.starts_with("illegal character"))
        .collect();
    assert_eq!(lexical.len(), 1);
    assert_eq!(errs.get(lexical[0]).pos.offset, 1);
    assert_eq!(errs.get(lexical[0]).msg, "illegal character '@'");
}

#[test]
fn deep_nesting_triggers_the_fault_as_a_diagnostic() {
    let src: String = std::iter::repeat('[').take(200_000).collect();
    match parse_program_from(src) {
        Err(ParseFailure::Errors(el)) => {
            let mut found = false;
            for i in 0..el.len() {
                if el.get(i).msg == "exceeded max nesting depth" {
                    found = true;
                }
            }
            assert!(found, "nesting diagnostic missing");
        }
        Err(ParseFailure::Source(m)) => panic!("wrong failure category: {}", m),
        Ok(_) => panic!("deep nesting must fail"),
    }
}

#[test]
fn spans_are_ordered_in_source() {
    let r = parse_bytes(b"+[->]<").expect("valid");
    match r {
        Node::Program(ref p) => match &*p.body {
            Node::Body(b) => {
                assert_eq!(b.list.len(), 3);
                let mut prev_end = 0usize;
                for n in &b.list {
                    assert!(n.pos().0 >= prev_end);
                    assert!(n.end().0 >= n.pos().0);
                    prev_end = n.end().0;
                }
                match &b.list[1] {
                    Node::Loop(l) => {
                        assert_eq!(l.pos().0, 1);
                        assert_eq!(l.end().0, 4);
                    }
                    _ => panic!("expected a Loop"),
                }
            }
            _ => panic!("program body is not a Body"),
        },
        _ => panic!("not a program"),
    }
}

#[test]
fn leading_byte_order_mark_is_skipped() {
    let src = "\u{FEFF}+-";
    let r = parse_bytes(src.as_bytes()).expect("leading BOM is allowed");
    let mut out = String::new();
    flatten(&r, &mut out);
    assert_eq!(out, "+-");
}

#[test]
fn interior_byte_order_mark_is_an_error() {
    let src = "+\u{FEFF}+";
    let r = parse_bytes(src.as_bytes());
    match r {
        Err(el) => {
            let mut found = false;
            for i in 0..el.len() {
                if el.get(i).msg == "illegal byte order mark" {
                    found = true;
                }
            }
            assert!(found);
        }
        Ok(_) => panic!("interior BOM must fail"),
    }
}

#[test]
fn close_without_open_reports_expected_node() {
    let r = parse_bytes(b"]]");
    match r {
        Err(el) => {
            assert_eq!(el.len(), 1);
            assert_eq!(el.get(0).msg, "expected node, found ']'");
        }
        Ok(_) => panic!("stray close must fail"),
    }
}
