//! The entry facade: normalizes an input source to bytes, runs the
//! parser under the nesting-fault boundary, and returns either the
//! completed tree or the full sorted diagnostic list.

use vstd::prelude::*;
use vstd::string::*;
use vstd::slice::slice_to_vec;
use crate::ast;
use crate::ast::{node_views, wf_node, Node};
use crate::errors::{sorted, spec_sort, ErrS, ErrorList};
use crate::parser::{flat, msg_nest, no_bad, ops, p_init, run_of, valid_program, Parser};
use crate::position::Pos;
use crate::source::resolve;

verus! {

/// Why a parse call failed: the input source could not be read, or the
/// text held diagnostics.
#[derive(Debug)]
pub enum ParseFailure {
    Source(String),
    Errors(ErrorList),
}

/// Anything that can hand over an owned byte buffer to parse.
pub trait IntoSource {
    /// The byte buffer this source denotes.
    spec fn src_bytes(&self) -> Seq<u8>;

    fn into_bytes(self) -> (r: Result<Vec<u8>, String>)
        ensures
            r matches Ok(v) ==> v@ == self.src_bytes(),
    ;
}

impl IntoSource for &str {
    open spec fn src_bytes(&self) -> Seq<u8> {
        self.spec_bytes()
    }

    fn into_bytes(self) -> (r: Result<Vec<u8>, String>) {
        Ok(slice_to_vec(self.as_bytes()))
    }
}

impl IntoSource for String {
    open spec fn src_bytes(&self) -> Seq<u8> {
        vstd::utf8::encode_utf8(self@)
    }

    fn into_bytes(self) -> (r: Result<Vec<u8>, String>) {
        Ok(slice_to_vec(self.as_str().as_bytes()))
    }
}

impl IntoSource for &[u8] {
    open spec fn src_bytes(&self) -> Seq<u8> {
        self@
    }

    fn into_bytes(self) -> (r: Result<Vec<u8>, String>) {
        Ok(slice_to_vec(self))
    }
}

impl IntoSource for Vec<u8> {
    open spec fn src_bytes(&self) -> Seq<u8> {
        self@
    }

    fn into_bytes(self) -> (r: Result<Vec<u8>, String>) {
        Ok(self)
    }
}

/// Every diagnostic one parse of `bytes` reports, in reporting order:
/// what reaching the first token raised when that already failed, and
/// otherwise the whole run's diagnostics, with a caught nesting fault
/// recorded once more at the facade boundary.
pub open spec fn facade_diags(bytes: Seq<u8>) -> Seq<ErrS> {
    if p_init(bytes).lex.errs.len() > 0 {
        spec_sort(p_init(bytes).lex.errs)
    } else {
        let ru = run_of(bytes);
        if ru.bailed {
            spec_sort(
                ru.p.lex.errs.push(
                    ErrS { pos: resolve(ru.p.lex.lines, ru.p.pos), msg: msg_nest() },
                ),
            )
        } else {
            spec_sort(ru.p.lex.errs)
        }
    }
}

/// Parses a byte buffer: builds the parser, runs it, converts a nesting
/// fault into an ordinary diagnostic with an empty fallback tree, sorts
/// the collector, and succeeds exactly when it is empty.
pub fn parse_bytes(src: &[u8]) -> (r: Result<Node, ErrorList>)
    requires
        src@.len() < usize::MAX,
    ensures
        (r matches Ok(n) ==> n is Program && wf_node(n)),
        (r matches Err(el) ==> el@.len() > 0 && sorted(el@)),
        valid_program(src@) ==> (r matches Ok(n) && flat(n) == ops(src@) && no_bad(n)),
        r is Ok <==> facade_diags(src@).len() == 0,
        (r matches Err(el) ==> el@ == facade_diags(src@)),
        (r matches Ok(n) ==> (n matches Node::Program(p) && (*p.body) matches Node::Body(b)
            && b.pos.0 == 0 && node_views(b.list@) == run_of(src@).cur)),
        (p_init(src@).lex.errs.len() == 0 && run_of(src@).bailed) ==> (r matches Err(el)
            && exists|k: int| 0 <= k < el@.len() && el@[k].msg == msg_nest()),
{
    let ghost vld = valid_program(src@);
    let ghost init_errs = p_init(src@).lex.errs;
    let ghost refused = init_errs.len() > 0;
    let mut parser = Parser::new(src);
    proof {
        assert(parser.st() == p_init(src@));
    }
    let result = parser.parse_program();
    let ghost took_ok: bool;
    let prog = match result {
        Ok(Some(p)) => {
            proof {
                took_ok = true;
            }
            p
        },
        Ok(None) => {
            proof {
                if vld {
                    assert(false);
                }
                took_ok = false;
            }
            ast::Program { body: Box::new(Node::Body(ast::Body { pos: Pos(0), list: Vec::new() })) }
        },
        Err(bail) => {
            proof {
                if vld {
                    assert(false);
                }
                took_ok = false;
                assert(!refused);
                assert(run_of(src@).bailed);
                assert(parser.st() == run_of(src@).p);
                assert(bail.pos.0 as int == run_of(src@).p.pos);
            }
            parser.error(bail.pos, bail.msg);
            proof {
                let nerr = ErrS {
                    pos: resolve(run_of(src@).p.lex.lines, run_of(src@).p.pos),
                    msg: msg_nest(),
                };
                assert(parser.st().lex.errs =~= run_of(src@).p.lex.errs.push(nerr));
                assert(parser.st().lex.errs.last() == nerr);
                assert(parser.st().lex.errs.contains(nerr));
                crate::errors::lemma_sort_contains(parser.st().lex.errs, nerr);
            }
            ast::Program {
                body: Box::new(Node::Body(ast::Body { pos: Pos(0), list: Vec::new() })),
            }
        },
    };
    let ghost epre = parser.st().lex.errs;
    proof {
        assert(spec_sort(epre) == facade_diags(src@));
    }
    parser.sort_errors();
    proof {
        crate::errors::lemma_sort_sorted(epre);
        if vld {
            assert(epre =~= Seq::<ErrS>::empty());
            assert(spec_sort(epre) =~= Seq::<ErrS>::empty());
        }
    }
    if parser.errors().is_empty() {
        proof {
            reveal_with_fuel(crate::ast::wf_node, 3);
            assert(took_ok);
        }
        Ok(Node::Program(prog))
    } else {
        Err(parser.errors().duplicate())
    }
}

/// Parses any input source: reads it fully, then parses the bytes.
pub fn parse_program_from<T: IntoSource>(src: T) -> (r: Result<Node, ParseFailure>)
    ensures
        (r matches Ok(n) ==> n is Program && wf_node(n)),
        (r matches Err(ParseFailure::Errors(el)) ==> el@.len() > 0 && sorted(el@)),
        valid_program(src.src_bytes()) ==> ((r matches Ok(n) && flat(n) == ops(src.src_bytes())
            && no_bad(n)) || (r matches Err(f) && f is Source)),
        src.src_bytes().len() >= usize::MAX ==> (r matches Err(f) && f is Source),
        (r matches Err(ParseFailure::Errors(el)) ==> el@ == facade_diags(src.src_bytes())
            && facade_diags(src.src_bytes()).len() > 0),
        (r matches Ok(n) ==> (n matches Node::Program(p) && (*p.body) matches Node::Body(b)
            && b.pos.0 == 0 && node_views(b.list@) == run_of(src.src_bytes()).cur && facade_diags(
            src.src_bytes(),
        ).len() == 0)),
{
    let ghost sb = src.src_bytes();
    let text = match src.into_bytes() {
        Ok(t) => t,
        Err(m) => {
            return Err(ParseFailure::Source(m));
        },
    };
    proof {
        assert(text@ == sb);
    }
    if text.len() == usize::MAX {
        return Err(ParseFailure::Source(String::from_str("source too large")));
    }
    match parse_bytes(text.as_slice()) {
        Ok(n) => Ok(n),
        Err(el) => Err(ParseFailure::Errors(el)),
    }
}

} // verus!
