//! The parser: drives the scanner one token at a time, builds the tree,
//! enforces the nesting-depth ceiling, and records syntax errors.
//!
//! The loop structure of the language is consumed with an explicit frame
//! stack rather than host-stack recursion, so the nesting ceiling is the
//! only bound on depth; each frame holds one open `[` and the siblings
//! parsed so far.

use vstd::prelude::*;
use vstd::string::*;
use crate::ast;
use crate::ast::{node_view, node_views, spec_end, spec_pos, wf_node, Node, NodeV};
use crate::errors::{ErrorList, ErrS};
use crate::position::{Pos, Position};
use crate::scanner::{
    classify, decode_rune, is_ws, lex_init, lex_next, lex_wf, skip_ws, spec_scan, Lex, Scanner,
    EOF_CH,
};
use crate::source::{resolve, Source};
use crate::token::{tok_text, Token};

verus! {

/// The nesting-depth ceiling: one more open `[` than this aborts the
/// parse with a nesting fault.
pub const MAX_NEST_LEV: usize = 100000;

/// The fault that aborts a parse whose nesting exceeds the ceiling.
#[derive(Debug)]
pub struct Bailout {
    pub pos: Pos,
    pub msg: String,
}

/// Ghost state of the parser: the scanner's state plus the one-token
/// lookahead.
pub struct Pst {
    pub lex: Lex,
    pub pos: int,
    pub tok: Token,
}

/// The eight operator tokens.
pub open spec fn is_op_tok(t: Token) -> bool {
    ||| t is IncPtr
    ||| t is DecPtr
    ||| t is IncByte
    ||| t is DecByte
    ||| t is OutputByte
    ||| t is InputByte
    ||| t is LoopOpen
    ||| t is LoopClose
}

/// The source byte of an operator token.
pub open spec fn op_u8(t: Token) -> u8 {
    match t {
        Token::IncPtr => 62,
        Token::DecPtr => 60,
        Token::IncByte => 43,
        Token::DecByte => 45,
        Token::OutputByte => 46,
        Token::InputByte => 44,
        Token::LoopOpen => 91,
        Token::LoopClose => 93,
        _ => 0,
    }
}

/// A byte that scans to an operator token.
pub open spec fn is_op_byte(b: u8) -> bool {
    b == 43 || b == 45 || b == 62 || b == 60 || b == 91 || b == 93 || b == 46 || b == 44
}

/// A byte the scanner skips as whitespace.
pub open spec fn is_ws_byte(b: u8) -> bool {
    b == 32 || b == 9 || b == 10 || b == 13
}

/// Well-formedness of a parser state: the scanner is mid-token, and the
/// lookahead token describes the source faithfully.
pub open spec fn p_wf(bytes: Seq<u8>, p: Pst) -> bool {
    &&& lex_wf(bytes, p.lex)
    &&& (p.tok is EOF ==> p.pos == bytes.len() && p.lex.off == bytes.len())
    &&& (!(p.tok is EOF) ==> 0 <= p.pos && p.pos < p.lex.off)
    &&& (is_op_tok(p.tok) ==> p.pos < bytes.len() && bytes[p.pos] == op_u8(p.tok) && p.lex.off
        == p.pos + 1)
    &&& !(p.tok is Unknown)
}

/// The termination measure: unread input, plus one while a real token is
/// still in hand.
pub open spec fn p_m(bytes: Seq<u8>, p: Pst) -> int {
    bytes.len() - p.lex.off + if p.tok is EOF {
        0int
    } else {
        1int
    }
}

/// The state after pulling one more token.
pub open spec fn p_next(bytes: Seq<u8>, p: Pst) -> Pst {
    let sr = spec_scan(bytes, p.lex);
    Pst { lex: sr.l, pos: sr.pos, tok: sr.tok }
}

/// The state after recording one diagnostic at `pos`.
pub open spec fn p_err(p: Pst, pos: int, m: Seq<char>) -> Pst {
    Pst {
        lex: Lex {
            errs: p.lex.errs.push(ErrS { pos: resolve(p.lex.lines, pos), msg: m }),
            ..p.lex
        },
        ..p
    }
}

/// The text of an "expected ..." diagnostic; when the offending position
/// is the current token's, the token found is named too.
pub open spec fn msg_expected(m: Seq<char>, same: bool, t: Token) -> Seq<char> {
    "expected "@ + m + if same {
        ", found '"@ + tok_text(t) + "'"@
    } else {
        Seq::<char>::empty()
    }
}

/// The nesting-fault message.
pub open spec fn msg_nest() -> Seq<char> {
    "exceeded max nesting depth"@
}

/// What `expect` does: record a mismatch at the current token, then
/// advance unconditionally.
pub open spec fn spec_expect(bytes: Seq<u8>, p: Pst, t: Token) -> Pst {
    if p.tok == t {
        p_next(bytes, p)
    } else {
        p_next(bytes, p_err(p, p.pos, msg_expected(tok_text(t), true, p.tok)))
    }
}

/// What `expect2` does: like `expect`, but the expectation is quoted in
/// the message.
pub open spec fn spec_expect2(bytes: Seq<u8>, p: Pst, t: Token) -> Pst {
    if p.tok == t {
        p_next(bytes, p)
    } else {
        p_next(
            bytes,
            p_err(p, p.pos, msg_expected("'"@ + tok_text(t) + "'"@, true, p.tok)),
        )
    }
}


/// The region `[lo, hi)` holds only operator and whitespace bytes.
pub open spec fn clean_region(bytes: Seq<u8>, lo: int, hi: int) -> bool {
    forall|j: int| lo <= j < hi ==> is_op_byte(#[trigger] bytes[j]) || is_ws_byte(bytes[j])
}

/// The operator characters in `[lo, hi)`, in order, whitespace dropped.
pub open spec fn ops_in(bytes: Seq<u8>, lo: int, hi: int) -> Seq<char>
    decreases hi - lo,
{
    if lo < 0 || lo >= hi || hi > bytes.len() {
        Seq::empty()
    } else if is_op_byte(bytes[lo]) {
        seq![bytes[lo] as char] + ops_in(bytes, lo + 1, hi)
    } else {
        ops_in(bytes, lo + 1, hi)
    }
}

/// How one operator character changes the bracket depth.
pub open spec fn depth_delta(c: char) -> int {
    if c == '[' {
        1
    } else if c == ']' {
        -1
    } else {
        0
    }
}

/// The bracket depth after a run of operator characters.
pub open spec fn run_depth(s: Seq<char>) -> int
    decreases s.len(),
{
    if s.len() == 0 {
        0
    } else {
        run_depth(s.drop_last()) + depth_delta(s.last())
    }
}

/// Where the program text begins: past a leading byte-order mark.
pub open spec fn body_start(bytes: Seq<u8>) -> int {
    if bytes.len() >= 3 && bytes[0] == 0xEFu8 && bytes[1] == 0xBBu8 && bytes[2] == 0xBFu8 {
        3
    } else {
        0
    }
}

/// The whole input's operator characters.
pub open spec fn ops(bytes: Seq<u8>) -> Seq<char> {
    ops_in(bytes, body_start(bytes), bytes.len() as int)
}

/// A valid program: only operator and whitespace bytes (after an
/// optional byte-order mark), brackets balanced and never negative, and
/// nesting within the ceiling.
pub open spec fn valid_program(bytes: Seq<u8>) -> bool {
    &&& bytes.len() < usize::MAX
    &&& clean_region(bytes, body_start(bytes), bytes.len() as int)
    &&& run_depth(ops(bytes)) == 0
    &&& forall|k: int| 0 <= k <= ops(bytes).len() ==> run_depth(#[trigger] ops(bytes).take(k)) >= 0
    &&& forall|k: int|
        0 <= k < ops(bytes).len() ==> (ops(bytes)[k] == ']' || run_depth(
            #[trigger] ops(bytes).take(k),
        ) < MAX_NEST_LEV)
}

/// Splitting a region splits its operator characters.
pub proof fn lemma_ops_split(bytes: Seq<u8>, lo: int, mid: int, hi: int)
    requires
        0 <= lo <= mid <= hi <= bytes.len(),
    ensures
        ops_in(bytes, lo, hi) == ops_in(bytes, lo, mid) + ops_in(bytes, mid, hi),
    decreases mid - lo,
{
    if lo == mid {
        assert(ops_in(bytes, lo, mid) =~= Seq::<char>::empty());
        assert(ops_in(bytes, lo, mid) + ops_in(bytes, mid, hi) =~= ops_in(bytes, mid, hi));
    } else {
        lemma_ops_split(bytes, lo + 1, mid, hi);
        if is_op_byte(bytes[lo]) {
            assert(seq![bytes[lo] as char] + (ops_in(bytes, lo + 1, mid) + ops_in(bytes, mid, hi))
                =~= (seq![bytes[lo] as char] + ops_in(bytes, lo + 1, mid)) + ops_in(bytes, mid, hi));
        }
    }
}

/// A whitespace region holds no operator characters.
pub proof fn lemma_ops_ws(bytes: Seq<u8>, lo: int, hi: int)
    requires
        forall|j: int| lo <= j < hi ==> is_ws_byte(#[trigger] bytes[j]),
    ensures
        ops_in(bytes, lo, hi) == Seq::<char>::empty(),
    decreases hi - lo,
{
    if 0 <= lo < hi <= bytes.len() {
        lemma_ops_ws(bytes, lo + 1, hi);
        assert(ops_in(bytes, lo, hi) =~= Seq::<char>::empty());
    } else {
        assert(ops_in(bytes, lo, hi) =~= Seq::<char>::empty());
    }
}

/// Depth is additive over concatenation.
pub proof fn lemma_depth_concat(a: Seq<char>, b: Seq<char>)
    ensures
        run_depth(a + b) == run_depth(a) + run_depth(b),
    decreases b.len(),
{
    if b.len() == 0 {
        assert(a + b =~= a);
    } else {
        lemma_depth_concat(a, b.drop_last());
        assert((a + b).drop_last() =~= a + b.drop_last());
        assert((a + b).last() == b.last());
    }
}


/// The operator character a leaf stands for; loops render as their
/// bracket pair around their body.
pub open spec fn flat(n: Node) -> Seq<char>
    decreases n, 0int,
{
    match n {
        Node::Program(p) => flat(*p.body),
        Node::IncPtr(_) => seq!['>'],
        Node::DecPtr(_) => seq!['<'],
        Node::IncByte(_) => seq!['+'],
        Node::DecByte(_) => seq!['-'],
        Node::OutputByte(_) => seq!['.'],
        Node::InputByte(_) => seq![','],
        Node::Loop(l) => seq!['['] + flat(*l.body) + seq![']'],
        Node::Body(b) => flat_list(b.list@),
        Node::BadNode(_) => Seq::empty(),
    }
}

/// The flattened operator characters of a run of siblings, in order.
pub open spec fn flat_list(l: Seq<Node>) -> Seq<char>
    decreases l, 1int,
{
    if l.len() == 0 {
        Seq::empty()
    } else {
        flat(l[0]) + flat_list(l.drop_first())
    }
}

/// Flattening distributes over appending one sibling.
pub proof fn lemma_flat_push(l: Seq<Node>, n: Node)
    ensures
        flat_list(l.push(n)) == flat_list(l) + flat(n),
    decreases l.len(),
{
    if l.len() == 0 {
        assert(l.push(n)[0] == n);
        assert(l.push(n).drop_first() =~= Seq::<Node>::empty());
        assert(l.push(n).len() == 1);
        assert(flat_list(l.push(n)) == flat(n) + flat_list(Seq::<Node>::empty()));
        assert(flat_list(Seq::<Node>::empty()) == Seq::<char>::empty());
        assert(flat_list(l) == Seq::<char>::empty());
        assert(flat(n) + Seq::<char>::empty() =~= flat(n));
        assert(Seq::<char>::empty() + flat(n) =~= flat(n));
    } else {
        assert(l.push(n).drop_first() =~= l.drop_first().push(n));
        assert(l.push(n)[0] == l[0]);
        lemma_flat_push(l.drop_first(), n);
        assert(flat(l[0]) + (flat_list(l.drop_first()) + flat(n)) =~= (flat(l[0]) + flat_list(
            l.drop_first(),
        )) + flat(n));
    }
}


/// No recovery placeholder anywhere in a node.
pub open spec fn no_bad(n: Node) -> bool
    decreases n, 0int,
{
    match n {
        Node::Program(p) => no_bad(*p.body),
        Node::Loop(l) => no_bad(*l.body),
        Node::Body(b) => no_bad_list(b.list@),
        Node::BadNode(_) => false,
        _ => true,
    }
}

/// No recovery placeholder anywhere in a run of siblings.
pub open spec fn no_bad_list(l: Seq<Node>) -> bool
    decreases l, 1int,
{
    if l.len() == 0 {
        true
    } else {
        no_bad(l[0]) && no_bad_list(l.drop_first())
    }
}

/// Placeholder-freedom distributes over appending one sibling.
pub proof fn lemma_no_bad_push(l: Seq<Node>, n: Node)
    ensures
        no_bad_list(l.push(n)) == (no_bad_list(l) && no_bad(n)),
    decreases l.len(),
{
    if l.len() == 0 {
        assert(l.push(n)[0] == n);
        assert(l.push(n).drop_first() =~= Seq::<Node>::empty());
        assert(no_bad_list(Seq::<Node>::empty()));
        assert(no_bad_list(l));
    } else {
        assert(l.push(n).drop_first() =~= l.drop_first().push(n));
        assert(l.push(n)[0] == l[0]);
        lemma_no_bad_push(l.drop_first(), n);
    }
}

/// First part of the central scan lemma: a decoded value below 0x80 is
/// exactly one ASCII byte, and conversely.
pub proof fn lemma_ascii_rune(bytes: Seq<u8>, i: int)
    requires
        0 <= i < bytes.len(),
    ensures
        bytes[i] < 0x80 ==> decode_rune(bytes, i) == (bytes[i] as u32, 1int),
        decode_rune(bytes, i).0 < 0x80 ==> decode_rune(bytes, i) == (bytes[i] as u32, 1int)
            && bytes[i] < 0x80,
{
    let tail = bytes.skip(i);
    assert(tail[0] == bytes[i]);
    let b0 = tail[0];
    if b0 < 0x80 {
        assert(b0 & 0x7f == b0) by (bit_vector)
            requires
                b0 < 0x80,
        ;
        assert(valid_first_scalar_local(tail));
    } else {
        if vstd::utf8::valid_first_scalar(tail) {
            assert(decode_rune(bytes, i).0 == vstd::utf8::decode_first_codepoint(tail));
            if vstd::utf8::is_leading_byte_width_1(b0) {
            } else {
                assert(vstd::utf8::not_overlong_encoding(
                    vstd::utf8::decode_first_codepoint(tail),
                    vstd::utf8::length_of_first_codepoint(tail),
                ));
                assert(decode_rune(bytes, i).0 >= 0x80);
            }
        } else {
            assert(decode_rune(bytes, i).0 == 0xFFFD);
        }
    }
}

/// Spelled-out validity of a one-byte encoding, so the lemma above can
/// name it.
pub open spec fn valid_first_scalar_local(tail: Seq<u8>) -> bool {
    vstd::utf8::valid_first_scalar(tail)
}

/// The central scan lemma: what one `scan` step yields, stated over the
/// source bytes. The skipped region is whitespace; an operator token
/// sits on its own byte; nothing scans to `Unknown`.
pub proof fn lemma_scan_props(bytes: Seq<u8>, l: Lex)
    requires
        lex_wf(bytes, l),
    ensures
        ({
            let sr = spec_scan(bytes, l);
            &&& lex_wf(bytes, sr.l)
            &&& l.off <= sr.pos
            &&& sr.l.errs.len() >= l.errs.len()
            &&& (forall|k: int| 0 <= k < l.errs.len() ==> sr.l.errs[k] == l.errs[k])
            &&& (sr.tok is EOF ==> sr.pos == bytes.len() && sr.l.off == bytes.len() && sr.l.errs
                == l.errs)
            &&& (!(sr.tok is EOF) ==> sr.pos < bytes.len() && sr.pos < sr.l.off)
            &&& !(sr.tok is Unknown)
            &&& (is_op_tok(sr.tok) ==> bytes[sr.pos] == op_u8(sr.tok) && sr.l.off == sr.pos + 1)
            &&& (forall|j: int| l.off <= j < sr.pos ==> is_ws_byte(#[trigger] bytes[j]))
        }),
    decreases bytes.len() - l.off,
{
    let sr = spec_scan(bytes, l);
    if is_ws(l.ch) {
        lemma_ascii_rune(bytes, l.off);
        assert(bytes[l.off] == l.ch as u8);
        assert(is_ws_byte(bytes[l.off]));
        assert(l.rd == l.off + 1);
        crate::scanner::lemma_lex_next_wf(bytes, l);
        let l2 = lex_next(bytes, l);
        assert(l2.off == l.off + 1);
        lemma_scan_props(bytes, l2);
        assert(spec_scan(bytes, l) == spec_scan(bytes, l2));
        assert(forall|k: int| 0 <= k < l.errs.len() ==> l2.errs[k] == l.errs[k]);
    } else {
        assert(skip_ws(bytes, l) == l);
        let c = l.ch;
        crate::scanner::lemma_lex_next_wf(bytes, l);
        let l2 = lex_next(bytes, l);
        let tok = classify(c);
        if c == EOF_CH {
            assert(l.off == bytes.len());
            assert(l2 == l);
        } else {
            if is_op_tok(tok) {
                assert(c < 0x80);
                lemma_ascii_rune(bytes, l.off);
                assert(bytes[l.off] == c as u8);
                assert(l.rd == l.off + 1);
                assert(l2.off == l.off + 1);
            }
        }
    }
}

/// The state after one whole token pull is well formed, later in the
/// input, and keeps every diagnostic already recorded.
pub proof fn lemma_p_next_props(bytes: Seq<u8>, p: Pst)
    requires
        p_wf(bytes, p),
    ensures
        p_wf(bytes, p_next(bytes, p)),
        p.tok is EOF ==> p_next(bytes, p) == p,
        !(p.tok is EOF) ==> p_m(bytes, p_next(bytes, p)) < p_m(bytes, p),
        p_next(bytes, p).pos >= p.lex.off,
        p_next(bytes, p).lex.errs.len() >= p.lex.errs.len(),
        forall|k: int|
            0 <= k < p.lex.errs.len() ==> p_next(bytes, p).lex.errs[k] == p.lex.errs[k],
        forall|j: int| p.lex.off <= j < p_next(bytes, p).pos ==> is_ws_byte(#[trigger] bytes[j]),
        p_next(bytes, p).tok is EOF ==> p_next(bytes, p).pos == bytes.len(),
    decreases 0int,
{
    lemma_scan_props(bytes, p.lex);
    if p.tok is EOF {
        let sr = spec_scan(bytes, p.lex);
        assert(!is_ws(p.lex.ch));
        assert(skip_ws(bytes, p.lex) == p.lex);
        assert(sr.l == p.lex);
        assert(p_next(bytes, p) == p);
    }
}

/// Discarding to the end of input, one token at a time.
pub open spec fn spec_advance(bytes: Seq<u8>, p: Pst) -> Pst
    decreases p_m(bytes, p),
        when p_wf(bytes, p)
    via spec_advance_dec
{
    if p.tok is EOF {
        p
    } else {
        spec_advance(bytes, p_next(bytes, p))
    }
}

#[via_fn]
proof fn spec_advance_dec(bytes: Seq<u8>, p: Pst) {
    if !(p.tok is EOF) {
        lemma_p_next_props(bytes, p);
    }
}

/// What `advance` reaches: the end of input, with no shrinking of the
/// diagnostic list.
pub proof fn lemma_advance_props(bytes: Seq<u8>, p: Pst)
    requires
        p_wf(bytes, p),
    ensures
        ({
            let a = spec_advance(bytes, p);
            &&& p_wf(bytes, a)
            &&& a.tok is EOF
            &&& a.pos == bytes.len()
            &&& a.lex.errs.len() >= p.lex.errs.len()
        }),
    decreases p_m(bytes, p),
{
    if !(p.tok is EOF) {
        lemma_p_next_props(bytes, p);
        lemma_advance_props(bytes, p_next(bytes, p));
    }
}


/// One decoding step over a clean byte raises no diagnostic.
proof fn lemma_clean_step(bytes: Seq<u8>, l: Lex)
    requires
        l.rd < bytes.len() ==> is_op_byte(bytes[l.rd]) || is_ws_byte(bytes[l.rd]),
        0 <= l.rd,
    ensures
        lex_next(bytes, l).errs == l.errs,
{
    if l.rd < bytes.len() {
        lemma_ascii_rune(bytes, l.rd);
        let b = bytes[l.rd];
        assert(decode_rune(bytes, l.rd) == (b as u32, 1int));
        assert(b as u32 != 0);
        assert(b as u32 != crate::scanner::BAD_CH);
        assert(b as u32 != crate::scanner::BOM_CH);
        assert(crate::scanner::next_errs(bytes, l) =~= Seq::<ErrS>::empty());
        assert(l.errs + crate::scanner::next_errs(bytes, l) =~= l.errs);
    }
}

/// Scanning over clean input raises nothing and yields the next
/// operator token, or the end of input.
proof fn lemma_scan_clean(bytes: Seq<u8>, l: Lex)
    requires
        lex_wf(bytes, l),
        clean_region(bytes, l.off, bytes.len() as int),
    ensures
        ({
            let sr = spec_scan(bytes, l);
            &&& sr.l.errs == l.errs
            &&& (sr.tok is EOF || is_op_tok(sr.tok))
            &&& clean_region(bytes, sr.l.off, bytes.len() as int)
        }),
    decreases bytes.len() - l.off,
{
    let sr = spec_scan(bytes, l);
    if is_ws(l.ch) {
        lemma_ascii_rune(bytes, l.off);
        crate::scanner::lemma_lex_next_wf(bytes, l);
        lemma_clean_step(bytes, l);
        let l2 = lex_next(bytes, l);
        lemma_scan_clean(bytes, l2);
        assert(spec_scan(bytes, l) == spec_scan(bytes, l2));
    } else {
        assert(skip_ws(bytes, l) == l);
        let c = l.ch;
        crate::scanner::lemma_lex_next_wf(bytes, l);
        lemma_clean_step(bytes, l);
        if c == EOF_CH {
            assert(lex_next(bytes, l) == l);
        } else {
            let b = bytes[l.off];
            assert(is_op_byte(b) || is_ws_byte(b));
            if b < 0x80 {
                lemma_ascii_rune(bytes, l.off);
                assert(decode_rune(bytes, l.off) == (b as u32, 1int));
                assert(c == b as u32);
                assert(!is_ws_byte(b));
                assert(is_op_byte(b));
                assert(is_op_tok(classify(c)));
            } else {
                assert(false);
            }
        }
    }
}

/// On a clean buffer, the freshly initialized scanner sits at the start
/// of the program text with nothing raised.
proof fn lemma_init_clean(bytes: Seq<u8>)
    requires
        clean_region(bytes, body_start(bytes), bytes.len() as int),
    ensures
        ({
            let li = lex_init(bytes, seq![0usize]);
            &&& lex_wf(bytes, li)
            &&& li.off == body_start(bytes)
            &&& li.errs == Seq::<ErrS>::empty()
        }),
{
    crate::scanner::lemma_lex_init_wf(bytes, seq![0usize]);
    let l0 = Lex { ch: 32, off: 0, rd: 0, lines: seq![0usize], errs: Seq::empty() };
    let l1 = lex_next(bytes, l0);
    if bytes.len() == 0 {
        assert(body_start(bytes) == 0);
    } else if body_start(bytes) == 3 {
        let tail = bytes.skip(0);
        assert(tail =~= bytes);
        let b0 = bytes[0];
        let b1 = bytes[1];
        let b2 = bytes[2];
        assert(b0 == 0xEFu8 && b1 == 0xBBu8 && b2 == 0xBFu8);
        assert((((0xEFu8 & 0x0F) as u32) << 12u32) | (((0xBBu8 & 0x3F) as u32) << 6u32) | ((
        0xBFu8 & 0x3F) as u32) == 0xFEFFu32) by (bit_vector);
        assert(vstd::utf8::valid_first_scalar(tail));
        assert(decode_rune(bytes, 0) == (0xFEFFu32, 3int));
        assert(l1.ch == crate::scanner::BOM_CH);
        assert(l1.errs =~= Seq::<ErrS>::empty());
        let l2 = lex_next(bytes, l1);
        assert(lex_init(bytes, seq![0usize]) == l2);
        if l1.rd < bytes.len() {
            assert(is_op_byte(bytes[3]) || is_ws_byte(bytes[3]));
            lemma_clean_step(bytes, l1);
            assert(l2.off == 3);
        } else {
            assert(l2.off == bytes.len());
            assert(bytes.len() == 3);
        }
    } else {
        assert(body_start(bytes) == 0);
        let b = bytes[0];
        assert(is_op_byte(b) || is_ws_byte(b));
        lemma_ascii_rune(bytes, 0);
        assert(decode_rune(bytes, 0) == (b as u32, 1int));
        assert(l1.ch == b as u32);
        assert(l1.ch != crate::scanner::BOM_CH);
        lemma_clean_step(bytes, l0);
        assert(l1.off == 0);
        assert(l1.errs =~= Seq::<ErrS>::empty());
        assert(lex_init(bytes, seq![0usize]) == l1);
    }
}

/// The bracket depth of a single character run.
proof fn lemma_depth_one(c: char)
    ensures
        run_depth(seq![c]) == depth_delta(c),
{
    assert(seq![c].drop_last() =~= Seq::<char>::empty());
    assert(run_depth(Seq::<char>::empty()) == 0);
    assert(seq![c].last() == c);
}

/// Consuming the operator token in hand extends the consumed operator
/// run by exactly its character.
proof fn lemma_consume_op(bytes: Seq<u8>, p: Pst)
    requires
        p_wf(bytes, p),
        is_op_tok(p.tok),
        0 <= body_start(bytes) <= p.pos,
    ensures
        ops_in(bytes, body_start(bytes), p_next(bytes, p).pos) == ops_in(
            bytes,
            body_start(bytes),
            p.pos,
        ) + seq![op_u8(p.tok) as char],
        p_next(bytes, p).pos > p.pos,
{
    let s0 = body_start(bytes);
    lemma_p_next_props(bytes, p);
    let p2 = p_next(bytes, p);
    assert(p2.pos >= p.lex.off);
    assert(p.lex.off == p.pos + 1);
    assert(p2.pos <= bytes.len());
    lemma_ops_split(bytes, s0, p.pos, p2.pos);
    lemma_ops_split(bytes, p.pos, p.pos + 1, p2.pos);
    assert(forall|j: int| p.lex.off <= j < p2.pos ==> is_ws_byte(#[trigger] bytes[j]));
    lemma_ops_ws(bytes, p.pos + 1, p2.pos);
    assert(bytes[p.pos] == op_u8(p.tok));
    assert(is_op_byte(bytes[p.pos]));
    assert(ops_in(bytes, p.pos + 1, p.pos + 1) =~= Seq::<char>::empty());
    assert(ops_in(bytes, p.pos, p.pos + 1) =~= seq![op_u8(p.tok) as char]);
    assert(ops_in(bytes, p.pos, p2.pos) =~= seq![op_u8(p.tok) as char]);
    assert(ops_in(bytes, s0, p2.pos) =~= ops_in(bytes, s0, p.pos) + seq![op_u8(p.tok) as char]);
}

/// The state a freshly built parser holds: the scanner initialized over
/// the bytes and one token pulled.
pub open spec fn p_init(bytes: Seq<u8>) -> Pst {
    let l = lex_init(bytes, seq![0usize]);
    let sr = spec_scan(bytes, l);
    Pst { lex: sr.l, pos: sr.pos, tok: sr.tok }
}


/// Ghost form of one open frame: the `[`'s offset, the body's start
/// offset, and the siblings parsed before the loop.
pub struct GFrame {
    pub lp: int,
    pub bp: int,
    pub list: Seq<NodeV>,
}

/// A mid-parse snapshot: the parser state, the ghost forms of the open
/// frames and of the innermost sibling run, and whether the nesting
/// fault has fired.
pub struct Run {
    pub p: Pst,
    pub stk: Seq<GFrame>,
    pub cur: Seq<NodeV>,
    pub bailed: bool,
}

/// The whole remaining parse, one node or one frame per step: closes
/// open frames at `]` or (with a diagnostic) at the end of input,
/// stops with the fault when one more node would pass the ceiling,
/// appends leaves, opens frames at `[`, and recovers from anything
/// unrecognized by discarding to the end of input behind a placeholder.
pub open spec fn prun(bytes: Seq<u8>, s: Run) -> Run
    decreases p_m(bytes, s.p), s.stk.len(),
        when p_wf(bytes, s.p)
    via prun_dec
{
    if s.bailed {
        s
    } else if s.p.tok is EOF && s.stk.len() == 0 {
        s
    } else if (s.p.tok is EOF || s.p.tok is LoopClose) && s.stk.len() > 0 {
        let f = s.stk.last();
        prun(
            bytes,
            Run {
                p: spec_expect2(bytes, s.p, Token::LoopClose),
                stk: s.stk.drop_last(),
                cur: f.list.push(NodeV::Loop(f.lp, f.bp, s.cur)),
                bailed: false,
            },
        )
    } else if s.stk.len() >= MAX_NEST_LEV as int {
        Run { p: p_err(s.p, s.p.pos, msg_nest()), bailed: true, ..s }
    } else if is_op_tok(s.p.tok) && !(s.p.tok is LoopOpen) && !(s.p.tok is LoopClose) {
        prun(
            bytes,
            Run { p: p_next(bytes, s.p), cur: s.cur.push(NodeV::Leaf(s.p.tok, s.p.pos)), ..s },
        )
    } else if s.p.tok is LoopOpen {
        let p2 = p_next(bytes, s.p);
        prun(
            bytes,
            Run {
                p: p2,
                stk: s.stk.push(GFrame { lp: s.p.pos, bp: p2.pos, list: s.cur }),
                cur: Seq::empty(),
                bailed: false,
            },
        )
    } else {
        let pe = p_err(s.p, s.p.pos, msg_expected("node"@, true, s.p.tok));
        let pa = spec_advance(bytes, pe);
        prun(bytes, Run { p: pa, cur: s.cur.push(NodeV::Bad(s.p.pos, pa.pos)), ..s })
    }
}

#[via_fn]
proof fn prun_dec(bytes: Seq<u8>, s: Run) {
    if s.bailed {
    } else if s.p.tok is EOF && s.stk.len() == 0 {
    } else if (s.p.tok is EOF || s.p.tok is LoopClose) && s.stk.len() > 0 {
        if s.p.tok is EOF {
            let pe = p_err(
                s.p,
                s.p.pos,
                msg_expected("'"@ + tok_text(Token::LoopClose) + "'"@, true, s.p.tok),
            );
            assert(p_wf(bytes, pe));
            lemma_p_next_props(bytes, pe);
            assert(spec_expect2(bytes, s.p, Token::LoopClose) == pe);
        } else {
            lemma_p_next_props(bytes, s.p);
        }
    } else if s.stk.len() >= MAX_NEST_LEV as int {
    } else if is_op_tok(s.p.tok) && !(s.p.tok is LoopOpen) && !(s.p.tok is LoopClose) {
        lemma_p_next_props(bytes, s.p);
    } else if s.p.tok is LoopOpen {
        lemma_p_next_props(bytes, s.p);
    } else {
        let pe = p_err(s.p, s.p.pos, msg_expected("node"@, true, s.p.tok));
        assert(p_wf(bytes, pe));
        lemma_advance_props(bytes, pe);
        let pa = spec_advance(bytes, pe);
        assert(pa.lex.off == bytes.len());
        assert(p_m(bytes, pa) == 0);
        assert(p_m(bytes, s.p) >= 1);
    }
}

/// The whole parse of a buffer, from the freshly built parser.
pub open spec fn run_of(bytes: Seq<u8>) -> Run {
    prun(
        bytes,
        Run { p: p_init(bytes), stk: Seq::empty(), cur: Seq::empty(), bailed: false },
    )
}

/// Well-formedness plus ordering of a run of sibling nodes.
pub open spec fn list_wf(l: Seq<Node>) -> bool {
    &&& forall|i: int| 0 <= i < l.len() ==> wf_node(#[trigger] l[i])
    &&& forall|i: int| 0 <= i < l.len() - 1 ==> spec_end(#[trigger] l[i]) <= spec_pos(l[i + 1])
}

/// Appending a node that is well formed, anchored, and placed after the
/// run's last span keeps the run well formed.
proof fn lemma_list_push(l: Seq<Node>, n: Node)
    requires
        list_wf(l),
        wf_node(n),
        l.len() > 0 ==> spec_end(l.last()) <= spec_pos(n),
    ensures
        list_wf(l.push(n)),
{
    let r = l.push(n);
    assert forall|i: int| 0 <= i < r.len() implies wf_node(#[trigger] r[i]) by {
        if i < l.len() {
            assert(r[i] == l[i]);
        }
    }
    assert forall|i: int| 0 <= i < r.len() - 1 implies spec_end(#[trigger] r[i]) <= spec_pos(
        r[i + 1],
    ) by {
        assert(r[i] == l[i]);
        if i < l.len() - 1 {
            assert(r[i + 1] == l[i + 1]);
        } else {
            assert(l.last() == l[i]);
            assert(r[i + 1] == n);
        }
    }
}

/// A closed loop built from a frame and its parsed body is well formed,
/// and its span ends no later than one past the body's reach.
proof fn lemma_close_frame(l: ast::Loop, b: ast::Body, bound: int)
    requires
        *l.body == Node::Body(b),
        list_wf(b.list@),
        l.pos.0 < b.pos.0,
        b.pos.0 < usize::MAX,
        b.pos.0 <= bound,
        b.list@.len() > 0 ==> b.pos.0 <= spec_pos(b.list@[0]),
        b.list@.len() > 0 ==> spec_end(b.list@.last()) <= bound,
    ensures
        wf_node(Node::Loop(l)),
        spec_pos(Node::Loop(l)) == l.pos.0,
        b.list@.len() > 0 ==> spec_end(Node::Loop(l)) <= bound,
        b.list@.len() == 0 ==> spec_end(Node::Loop(l)) == b.pos.0 + 1,
{
    reveal_with_fuel(crate::ast::spec_end, 3);
    reveal_with_fuel(crate::ast::wf_node, 3);
    assert(wf_node(Node::Body(b)));
    if b.list@.len() > 0 {
        assert(spec_end(Node::Loop(l)) == spec_end(b.list@.last()));
    } else {
        assert(spec_end(Node::Loop(l)) == b.pos.0 + 1);
    }
}

/// One open `[` awaiting its `]`: the loop's own position, its body's
/// start, and the siblings of the loop parsed before it.
struct Frame {
    lp: Pos,
    bp: Pos,
    list: Vec<Node>,
}

/// Ghost form of one exec frame.
spec fn fview(f: Frame) -> GFrame {
    GFrame { lp: f.lp.0 as int, bp: f.bp.0 as int, list: node_views(f.list@) }
}

/// Ghost forms of the whole frame stack.
spec fn fviews(s: Seq<Frame>) -> Seq<GFrame> {
    s.map_values(|f: Frame| fview(f))
}

/// The parse engine's standing invariant, over the open-frame stack, the
/// innermost sibling run, and the parser state.
spec fn engine_inv(bytes: Seq<u8>, stackv: Seq<Frame>, curv: Seq<Node>, p: Pst) -> bool {
    let len = bytes.len() as int;
    &&& forall|i: int| 0 <= i < stackv.len() ==> list_wf(#[trigger] stackv[i].list@)
    &&& list_wf(curv)
    &&& forall|i: int| 0 <= i < stackv.len() ==> (#[trigger] stackv[i].lp.0) < stackv[i].bp.0
    &&& forall|i: int| 0 <= i < stackv.len() ==> (#[trigger] stackv[i].bp.0) <= p.pos
    &&& forall|i: int| 0 <= i < stackv.len() ==> (#[trigger] stackv[i].lp.0) < len
    &&& forall|i: int| 1 <= i < stackv.len() ==> stackv[i - 1].bp.0 <= (#[trigger] stackv[i].lp.0)
    &&& forall|i: int|
        1 <= i < stackv.len() ==> (stackv[i].list@.len() > 0 ==> stackv[i - 1].bp.0 <= spec_pos(
            #[trigger] stackv[i].list@[0],
        ))
    &&& forall|i: int|
        0 <= i < stackv.len() ==> ((#[trigger] stackv[i].list@).len() > 0 ==> spec_end(
            stackv[i].list@.last(),
        ) <= stackv[i].lp.0)
    &&& (curv.len() > 0 && stackv.len() > 0) ==> stackv.last().bp.0 <= spec_pos(curv[0])
    &&& curv.len() > 0 ==> spec_end(curv.last()) <= (if p.tok is EOF {
        len + 1
    } else {
        p.pos
    })
    &&& stackv.len() <= MAX_NEST_LEV
}

/// The operator characters already folded into the open frames: each
/// frame contributes its parsed siblings and its still-open `[`.
spec fn stack_flat(stackv: Seq<Frame>) -> Seq<char>
    decreases stackv.len(),
{
    if stackv.len() == 0 {
        Seq::empty()
    } else {
        stack_flat(stackv.drop_last()) + flat_list(stackv.last().list@) + seq!['[']
    }
}

/// What parsing a valid program maintains: nothing raised, no illegal
/// token in hand, and the finished plus open structure spells exactly
/// the operators consumed so far, whose bracket depth is the number of
/// open frames.
spec fn valid_inv(bytes: Seq<u8>, stackv: Seq<Frame>, curv: Seq<Node>, p: Pst) -> bool {
    &&& p.lex.errs.len() == 0
    &&& !(p.tok is ILLEGAL)
    &&& body_start(bytes) <= p.pos
    &&& stack_flat(stackv) + flat_list(curv) == ops_in(bytes, body_start(bytes), p.pos)
    &&& run_depth(ops_in(bytes, body_start(bytes), p.pos)) == stackv.len()
    &&& no_bad_list(curv)
    &&& forall|i: int| 0 <= i < stackv.len() ==> no_bad_list(#[trigger] stackv[i].list@)
}

/// Consuming one leaf operator preserves the validity invariant.
proof fn lemma_step_leaf(bytes: Seq<u8>, stackv: Seq<Frame>, curv: Seq<Node>, p: Pst, n: Node)
    requires
        valid_program(bytes),
        valid_inv(bytes, stackv, curv, p),
        p_wf(bytes, p),
        is_op_tok(p.tok),
        !(p.tok is LoopOpen),
        !(p.tok is LoopClose),
        flat(n) == seq![op_u8(p.tok) as char],
        no_bad(n),
    ensures
        valid_inv(bytes, stackv, curv.push(n), p_next(bytes, p)),
{
    lemma_no_bad_push(curv, n);
    let s0 = body_start(bytes);
    let c = op_u8(p.tok) as char;
    let p2 = p_next(bytes, p);
    lemma_p_next_props(bytes, p);
    lemma_consume_op(bytes, p);
    assert(clean_region(bytes, p.lex.off, bytes.len() as int));
    lemma_scan_clean(bytes, p.lex);
    assert(p2.lex.errs == p.lex.errs);
    lemma_flat_push(curv, n);
    assert((stack_flat(stackv) + (flat_list(curv) + flat(n))) =~= ((stack_flat(stackv)
        + flat_list(curv)) + flat(n)));
    lemma_depth_concat(ops_in(bytes, s0, p.pos), seq![c]);
    lemma_depth_one(c);
    assert(depth_delta(c) == 0);
}

/// Opening a loop preserves the validity invariant, with one more frame.
proof fn lemma_step_open(bytes: Seq<u8>, stackv: Seq<Frame>, curv: Seq<Node>, p: Pst, fr: Frame)
    requires
        valid_program(bytes),
        valid_inv(bytes, stackv, curv, p),
        p_wf(bytes, p),
        p.tok is LoopOpen,
        fr.list@ == curv,
    ensures
        valid_inv(bytes, stackv.push(fr), Seq::<Node>::empty(), p_next(bytes, p)),
{
    let s0 = body_start(bytes);
    let p2 = p_next(bytes, p);
    lemma_p_next_props(bytes, p);
    lemma_consume_op(bytes, p);
    assert(clean_region(bytes, p.lex.off, bytes.len() as int));
    lemma_scan_clean(bytes, p.lex);
    let s2 = stackv.push(fr);
    assert(s2.drop_last() =~= stackv);
    assert(s2.last() == fr);
    assert(no_bad_list(Seq::<Node>::empty()));
    assert(forall|i: int| 0 <= i < s2.len() - 1 ==> s2[i] == stackv[i]);
    assert(stack_flat(s2) == stack_flat(stackv) + flat_list(curv) + seq!['[']);
    assert(flat_list(Seq::<Node>::empty()) == Seq::<char>::empty());
    assert(stack_flat(s2) + Seq::<char>::empty() =~= stack_flat(s2));
    assert((stack_flat(stackv) + flat_list(curv)) + seq!['['] =~= stack_flat(stackv) + flat_list(
        curv,
    ) + seq!['[']);
    lemma_depth_concat(ops_in(bytes, s0, p.pos), seq!['[']);
    lemma_depth_one('[');
}

/// Closing the innermost loop preserves the validity invariant, with
/// one frame fewer.
proof fn lemma_step_close(bytes: Seq<u8>, stackv: Seq<Frame>, curv: Seq<Node>, p: Pst, l: ast::Loop)
    requires
        valid_program(bytes),
        valid_inv(bytes, stackv, curv, p),
        p_wf(bytes, p),
        p.tok is LoopClose,
        stackv.len() > 0,
        flat(Node::Loop(l)) == seq!['['] + flat_list(curv) + seq![']'],
        (*l.body) matches Node::Body(bb) && bb.list@ == curv,
    ensures
        valid_inv(
            bytes,
            stackv.drop_last(),
            stackv.last().list@.push(Node::Loop(l)),
            p_next(bytes, p),
        ),
{
    let s0 = body_start(bytes);
    let p2 = p_next(bytes, p);
    lemma_p_next_props(bytes, p);
    lemma_consume_op(bytes, p);
    assert(clean_region(bytes, p.lex.off, bytes.len() as int));
    lemma_scan_clean(bytes, p.lex);
    let parent = stackv.last().list@;
    lemma_flat_push(parent, Node::Loop(l));
    assert(no_bad(*l.body) == no_bad_list(curv));
    assert(no_bad(Node::Loop(l)));
    lemma_no_bad_push(parent, Node::Loop(l));
    assert(forall|i: int|
        0 <= i < stackv.drop_last().len() ==> stackv.drop_last()[i] == stackv[i]);
    let sfp = stack_flat(stackv.drop_last());
    assert(stack_flat(stackv) == sfp + flat_list(parent) + seq!['[']);
    let consumed = ops_in(bytes, s0, p.pos);
    assert(stack_flat(stackv) + flat_list(curv) == consumed);
    assert(sfp + flat_list(parent.push(Node::Loop(l))) =~= consumed + seq![']']);
    lemma_depth_concat(consumed, seq![']']);
    lemma_depth_one(']');
}

/// On a valid program the next operator run is a strict extension of
/// the consumed one; spelled out for prefix reasoning.
proof fn lemma_ops_frame(bytes: Seq<u8>, p: Pst) -> (k: int)
    requires
        p_wf(bytes, p),
        is_op_tok(p.tok),
        0 <= body_start(bytes) <= p.pos,
    ensures
        k == ops_in(bytes, body_start(bytes), p.pos).len(),
        0 <= k < ops(bytes).len(),
        ops(bytes).take(k) == ops_in(bytes, body_start(bytes), p.pos),
        ops(bytes)[k] == op_u8(p.tok) as char,
        ops(bytes).take(k + 1) == ops_in(bytes, body_start(bytes), p.pos) + seq![op_u8(
            p.tok,
        ) as char],
{
    let s0 = body_start(bytes);
    let consumed = ops_in(bytes, s0, p.pos);
    let kk = consumed.len() as int;
    lemma_ops_split(bytes, s0, p.pos, bytes.len() as int);
    assert(is_op_byte(bytes[p.pos]));
    assert(ops_in(bytes, p.pos, bytes.len() as int) == seq![bytes[p.pos] as char] + ops_in(
        bytes,
        p.pos + 1,
        bytes.len() as int,
    ));
    let rest = ops_in(bytes, p.pos + 1, bytes.len() as int);
    assert(ops(bytes) =~= consumed + seq![op_u8(p.tok) as char] + rest);
    assert(ops(bytes).take(kk) =~= consumed);
    assert(ops(bytes).take(kk + 1) =~= consumed + seq![op_u8(p.tok) as char]);
    assert(ops(bytes)[kk] == op_u8(p.tok) as char);
    kk
}

/// What the token in hand can be, mid-parse of a valid program: the
/// end of input only with every loop closed, a `]` only with one open,
/// and any other token only below the nesting ceiling.
proof fn lemma_valid_token(bytes: Seq<u8>, stackv: Seq<Frame>, curv: Seq<Node>, p: Pst)
    requires
        valid_program(bytes),
        valid_inv(bytes, stackv, curv, p),
        p_wf(bytes, p),
    ensures
        p.tok is EOF ==> stackv.len() == 0,
        p.tok is LoopClose ==> stackv.len() > 0,
        (!(p.tok is LoopClose) && !(p.tok is EOF)) ==> stackv.len() < MAX_NEST_LEV,
{
    if p.tok is EOF {
        if stackv.len() > 0 {
            assert(p.pos == bytes.len());
            assert(ops(bytes) == ops_in(bytes, body_start(bytes), bytes.len() as int));
            assert(run_depth(ops(bytes)) == stackv.len());
            assert(false);
        }
    } else if p.tok is LoopClose {
        if stackv.len() == 0 {
            let k = lemma_ops_frame(bytes, p);
            lemma_depth_concat(ops_in(bytes, body_start(bytes), p.pos), seq![']']);
            lemma_depth_one(']');
            assert(run_depth(ops(bytes).take(k + 1)) == -1);
            assert(false);
        }
    } else {
        assert(!(p.tok is ILLEGAL));
        assert(is_op_tok(p.tok));
        if stackv.len() >= MAX_NEST_LEV {
            let k = lemma_ops_frame(bytes, p);
            assert(ops(bytes)[k] != ']');
            assert(run_depth(ops(bytes).take(k)) >= MAX_NEST_LEV);
            assert(false);
        }
    }
}

/// The parser.
pub struct Parser<'a> {
    scanner: Scanner<'a>,
    pos: Pos,
    tok: Token,
    lit: String,
}

impl<'a> Parser<'a> {
    /// The bytes being parsed.
    pub closed spec fn bytes(&self) -> Seq<u8> {
        self.scanner.bytes()
    }

    /// The parser's ghost state.
    pub closed spec fn st(&self) -> Pst {
        Pst { lex: self.scanner.lex(), pos: self.pos.0 as int, tok: self.tok }
    }

    /// The scanner's own well-formedness.
    pub closed spec fn scanner_wf(&self) -> bool {
        self.scanner.wf()
    }

    /// Full well-formedness.
    pub open spec fn wf(&self) -> bool {
        &&& self.scanner_wf()
        &&& p_wf(self.bytes(), self.st())
    }

    /// Builds a parser over `src` and pulls the first token; any lexical
    /// error in reaching it is already recorded.
    pub fn new(src: &'a [u8]) -> (r: Parser<'a>)
        ensures
            r.wf(),
            r.bytes() == src@,
            r.st() == p_init(src@),
    {
        let source = Source::new(src.len());
        let scanner = Scanner::new(source, src);
        proof {
            crate::scanner::lemma_lex_init_wf(src@, seq![0usize]);
        }
        let mut p = Parser { scanner, pos: Pos(0), tok: Token::ILLEGAL, lit: String::new() };
        proof {
            lemma_scan_props(src@, p.scanner.lex());
        }
        let (pos, tok, lit) = p.scanner.scan();
        p.pos = pos;
        p.tok = tok;
        p.lit = lit;
        proof {
            lemma_scan_props(src@, lex_init(src@, seq![0usize]));
        }
        p
    }

    /// Pulls the next token.
    fn next(&mut self)
        requires
            old(self).scanner_wf(),
        ensures
            final(self).scanner_wf(),
            final(self).bytes() == old(self).bytes(),
            final(self).st() == p_next(old(self).bytes(), old(self).st()),
    {
        let (pos, tok, lit) = self.scanner.scan();
        self.pos = pos;
        self.tok = tok;
        self.lit = lit;
    }

    /// Records one diagnostic, resolving the offset as it is recorded.
    pub(crate) fn error(&mut self, pos: Pos, msg: String)
        requires
            old(self).scanner_wf(),
        ensures
            final(self).scanner_wf(),
            final(self).bytes() == old(self).bytes(),
            final(self).st() == p_err(old(self).st(), pos.0 as int, msg@),
    {
        self.scanner.report(pos, msg);
    }

    /// Records an "expected ..." diagnostic, naming the token found when
    /// the position is the current one.
    fn error_expected(&mut self, pos: Pos, msg: &str)
        requires
            old(self).scanner_wf(),
        ensures
            final(self).scanner_wf(),
            final(self).bytes() == old(self).bytes(),
            final(self).st() == p_err(
                old(self).st(),
                pos.0 as int,
                msg_expected(msg@, pos.0 as int == old(self).st().pos, old(self).st().tok),
            ),
    {
        let mut m = String::from_str("expected ");
        m.append(msg);
        if pos == self.pos {
            m.append(", found '");
            m.append(self.tok.text().as_str());
            m.append("'");
            proof {
                assert(m@ =~= msg_expected(msg@, true, self.tok));
            }
        } else {
            proof {
                assert(m@ =~= msg_expected(msg@, false, self.tok));
            }
        }
        self.error(pos, m);
    }

    /// Consumes the current token, recording a mismatch when it is not
    /// the expected one; always advances, to guarantee progress.
    fn expect(&mut self, tok: Token) -> (r: Pos)
        requires
            old(self).scanner_wf(),
        ensures
            final(self).scanner_wf(),
            final(self).bytes() == old(self).bytes(),
            final(self).st() == spec_expect(old(self).bytes(), old(self).st(), tok),
            r.0 as int == old(self).st().pos,
    {
        let pos = self.pos;
        if self.tok != tok {
            let t = tok.text();
            self.error_expected(pos, t.as_str());
        }
        self.next();
        pos
    }

    /// Like `expect`, but quotes the expectation, and reports no position
    /// for a missing token.
    fn expect2(&mut self, tok: Token) -> (r: Pos)
        requires
            old(self).scanner_wf(),
        ensures
            final(self).scanner_wf(),
            final(self).bytes() == old(self).bytes(),
            final(self).st() == spec_expect2(old(self).bytes(), old(self).st(), tok),
            old(self).st().tok == tok ==> r.0 as int == old(self).st().pos,
            old(self).st().tok != tok ==> r.0 == 0,
    {
        let pos: Pos;
        if self.tok == tok {
            pos = self.pos;
        } else {
            let t = tok.text();
            let mut q = String::from_str("'");
            q.append(t.as_str());
            q.append("'");
            proof {
                assert(q@ =~= "'"@ + tok_text(tok) + "'"@);
            }
            let here = self.pos;
            self.error_expected(here, q.as_str());
            pos = Pos(0);
        }
        self.next();
        pos
    }

    /// Discards everything up to the end of input.
    fn advance(&mut self)
        requires
            old(self).wf(),
        ensures
            final(self).wf(),
            final(self).bytes() == old(self).bytes(),
            final(self).st() == spec_advance(old(self).bytes(), old(self).st()),
    {
        while !matches!(self.tok, Token::EOF)
            invariant
                self.wf(),
                self.bytes() == old(self).bytes(),
                spec_advance(self.bytes(), self.st()) == spec_advance(
                    old(self).bytes(),
                    old(self).st(),
                ),
            decreases p_m(self.bytes(), self.st()),
        {
            proof {
                lemma_p_next_props(self.bytes(), self.st());
            }
            self.next();
        }
    }

    /// One `>` node.
    fn parse_inc_ptr(&mut self) -> (r: ast::IncPtr)
        requires
            old(self).wf(),
            old(self).st().tok is IncPtr,
        ensures
            final(self).wf(),
            final(self).bytes() == old(self).bytes(),
            final(self).st() == p_next(old(self).bytes(), old(self).st()),
            r.pos.0 as int == old(self).st().pos,
    {
        proof {
            lemma_p_next_props(self.bytes(), self.st());
        }
        ast::IncPtr { pos: self.expect(Token::IncPtr) }
    }

    /// One `<` node.
    fn parse_dec_ptr(&mut self) -> (r: ast::DecPtr)
        requires
            old(self).wf(),
            old(self).st().tok is DecPtr,
        ensures
            final(self).wf(),
            final(self).bytes() == old(self).bytes(),
            final(self).st() == p_next(old(self).bytes(), old(self).st()),
            r.pos.0 as int == old(self).st().pos,
    {
        proof {
            lemma_p_next_props(self.bytes(), self.st());
        }
        ast::DecPtr { pos: self.expect(Token::DecPtr) }
    }

    /// One `+` node.
    fn parse_inc_byte(&mut self) -> (r: ast::IncByte)
        requires
            old(self).wf(),
            old(self).st().tok is IncByte,
        ensures
            final(self).wf(),
            final(self).bytes() == old(self).bytes(),
            final(self).st() == p_next(old(self).bytes(), old(self).st()),
            r.pos.0 as int == old(self).st().pos,
    {
        proof {
            lemma_p_next_props(self.bytes(), self.st());
        }
        ast::IncByte { pos: self.expect(Token::IncByte) }
    }

    /// One `-` node.
    fn parse_dec_byte(&mut self) -> (r: ast::DecByte)
        requires
            old(self).wf(),
            old(self).st().tok is DecByte,
        ensures
            final(self).wf(),
            final(self).bytes() == old(self).bytes(),
            final(self).st() == p_next(old(self).bytes(), old(self).st()),
            r.pos.0 as int == old(self).st().pos,
    {
        proof {
            lemma_p_next_props(self.bytes(), self.st());
        }
        ast::DecByte { pos: self.expect(Token::DecByte) }
    }

    /// One `.` node.
    fn parse_output_byte(&mut self) -> (r: ast::OutputByte)
        requires
            old(self).wf(),
            old(self).st().tok is OutputByte,
        ensures
            final(self).wf(),
            final(self).bytes() == old(self).bytes(),
            final(self).st() == p_next(old(self).bytes(), old(self).st()),
            r.pos.0 as int == old(self).st().pos,
    {
        proof {
            lemma_p_next_props(self.bytes(), self.st());
        }
        ast::OutputByte { pos: self.expect(Token::OutputByte) }
    }

    /// One `,` node.
    fn parse_input_byte(&mut self) -> (r: ast::InputByte)
        requires
            old(self).wf(),
            old(self).st().tok is InputByte,
        ensures
            final(self).wf(),
            final(self).bytes() == old(self).bytes(),
            final(self).st() == p_next(old(self).bytes(), old(self).st()),
            r.pos.0 as int == old(self).st().pos,
    {
        proof {
            lemma_p_next_props(self.bytes(), self.st());
        }
        ast::InputByte { pos: self.expect(Token::InputByte) }
    }

    /// Sorts the collected diagnostics into their reporting order.
    pub(crate) fn sort_errors(&mut self)
        requires
            old(self).scanner_wf(),
        ensures
            final(self).scanner_wf(),
            final(self).bytes() == old(self).bytes(),
            final(self).st() == (Pst {
                lex: Lex { errs: crate::errors::spec_sort(old(self).st().lex.errs), ..old(self).st().lex },
                ..old(self).st()
            }),
    {
        self.scanner.sort_errors();
    }

    /// The collected diagnostics.
    pub fn errors(&self) -> (r: &ErrorList)
        ensures
            r@ == self.st().lex.errs,
    {
        self.scanner.errors()
    }

    /// Parses the whole token stream into a `Program`, or refuses when a
    /// lexical error was already queued, or aborts with a `Bailout` when
    /// nesting exceeds the ceiling (after recording it as a diagnostic).
    /// Closes the innermost open `[`: consumes the `]` (recording the
    /// mismatch when the current token is not one), wraps the innermost
    /// run as the loop's body, and hands back the parent run with the
    /// finished loop appended.
    #[verifier::rlimit(100)]
    fn close_top(&mut self, stack: &mut Vec<Frame>, cur: Vec<Node>) -> (r: Vec<Node>)
        requires
            old(self).wf(),
            old(self).bytes().len() < usize::MAX,
            engine_inv(old(self).bytes(), old(stack)@, cur@, old(self).st()),
            old(stack)@.len() > 0,
            old(self).st().tok is EOF || old(self).st().tok is LoopClose,
        ensures
            final(self).wf(),
            final(self).bytes() == old(self).bytes(),
            final(stack)@ == old(stack)@.drop_last(),
            engine_inv(final(self).bytes(), final(stack)@, r@, final(self).st()),
            p_m(final(self).bytes(), final(self).st()) <= p_m(old(self).bytes(), old(self).st()),
            final(self).st().lex.errs.len() >= old(self).st().lex.errs.len(),
            old(self).st().tok is EOF ==> final(self).st().lex.errs.len() > 0,
            (valid_program(old(self).bytes()) && valid_inv(
                old(self).bytes(),
                old(stack)@,
                cur@,
                old(self).st(),
            )) ==> valid_inv(final(self).bytes(), final(stack)@, r@, final(self).st()),
            final(self).st() == spec_expect2(old(self).bytes(), old(self).st(), Token::LoopClose),
            prun(
                old(self).bytes(),
                Run {
                    p: old(self).st(),
                    stk: fviews(old(stack)@),
                    cur: node_views(cur@),
                    bailed: false,
                },
            ) == prun(
                old(self).bytes(),
                Run {
                    p: final(self).st(),
                    stk: fviews(final(stack)@),
                    cur: node_views(r@),
                    bailed: false,
                },
            ),
    {
        let ghost bytes = self.bytes();
        let ghost len = bytes.len() as int;
        let ghost p0 = self.st();
        let ghost stack0 = stack@;
        let ghost cin = cur@;
        let ghost k = stack0.len() - 1;
        proof {
            lemma_p_next_props(bytes, p0);
            if p0.tok is EOF {
                let pe = p_err(
                    p0,
                    p0.pos,
                    msg_expected("'"@ + tok_text(Token::LoopClose) + "'"@, true, p0.tok),
                );
                assert(p_wf(bytes, pe));
                lemma_p_next_props(bytes, pe);
                assert(p_next(bytes, pe) == pe);
            }
        }
        let ghost close_pos = self.st().pos;
        self.expect2(Token::LoopClose);
        proof {
            if p0.tok is EOF {
                assert(self.st().pos == p0.pos);
                assert(self.st().tok is EOF);
                assert(self.st().lex.errs.len() == p0.lex.errs.len() + 1);
            } else {
                assert(self.st() == p_next(bytes, p0));
                assert(self.st().pos >= p0.lex.off);
                assert(p0.lex.off == close_pos + 1);
            }
        }
        let f = match stack.pop() {
            Some(f) => f,
            None => {
                proof {
                    assert(false);
                }
                return cur
            },
        };
        proof {
            assert(f == stack0[k]);
            assert(stack@ =~= stack0.drop_last());
            assert(f.lp.0 < f.bp.0);
            assert(f.bp.0 <= p0.pos);
            assert(p0.pos <= len);
        }
        let body = ast::Body { pos: f.bp, list: cur };
        let ghost bodyg = body;
        let lnode = ast::Loop { pos: f.lp, body: Box::new(Node::Body(body)) };
        let mut out = f.list;
        let ghost lng = lnode;
        proof {
            assert(*lnode.body == Node::Body(bodyg));
            assert(out@ == stack0[k].list@);
            if p0.tok is EOF {
                lemma_close_frame(lng, bodyg, len + 1);
            } else {
                lemma_close_frame(lng, bodyg, close_pos);
                assert(spec_end(Node::Loop(lng)) <= self.st().pos);
            }
            if out@.len() > 0 {
                assert(spec_end(out@.last()) <= stack0[k].lp.0);
            }
            lemma_list_push(out@, Node::Loop(lng));
        }
        out.push(Node::Loop(lnode));
        proof {
            assert(out@ =~= stack0[k].list@.push(Node::Loop(lng)));
            assert(spec_pos(Node::Loop(lng)) == stack0[k].lp.0);
            if stack@.len() > 0 {
                assert(stack@.last() == stack0[k - 1]);
                if out@.len() > 1 {
                    assert(out@[0] == stack0[k].list@[0]);
                    assert(stack0[k - 1].bp.0 <= spec_pos(out@[0]));
                } else {
                    assert(out@[0] == Node::Loop(lng));
                    assert(stack0[k - 1].bp.0 <= stack0[k].lp.0);
                }
            }
        }
        proof {
            if valid_program(bytes) && valid_inv(bytes, stack0, bodyg.list@, p0) {
                lemma_valid_token(bytes, stack0, bodyg.list@, p0);
                assert(p0.tok is LoopClose);
                assert(flat(Node::Loop(lng)) == seq!['['] + flat(*lng.body) + seq![']']);
                assert(flat(*lng.body) == flat_list(bodyg.list@));
                lemma_step_close(bytes, stack0, bodyg.list@, p0, lng);
                assert(out@ =~= stack0.last().list@.push(Node::Loop(lng)));
                assert(self.st() == p_next(bytes, p0));
            }
            let s_old = Run { p: p0, stk: fviews(stack0), cur: node_views(cin), bailed: false };
            assert(fviews(stack0).len() == stack0.len());
            let fg = fviews(stack0).last();
            assert(fg == fview(stack0[k]));
            assert(node_view(Node::Loop(lng)) == NodeV::Loop(
                lng.pos.0 as int,
                bodyg.pos.0 as int,
                node_views(bodyg.list@),
            ));
            crate::ast::lemma_views_push(stack0[k].list@, Node::Loop(lng));
            assert(node_views(out@) == node_views(stack0[k].list@).push(node_view(Node::Loop(lng))));
            assert(fg.list.push(NodeV::Loop(fg.lp, fg.bp, node_views(cin))) =~= node_views(out@));
            assert(fviews(stack0).drop_last() =~= fviews(stack0.drop_last()));
            assert(fviews(stack@) =~= fviews(stack0.drop_last()));
            let s_rec = Run {
                p: spec_expect2(bytes, p0, Token::LoopClose),
                stk: fviews(stack0).drop_last(),
                cur: fg.list.push(NodeV::Loop(fg.lp, fg.bp, s_old.cur)),
                bailed: false,
            };
            assert(prun(bytes, s_old) == prun(bytes, s_rec));
            assert(s_rec.p == self.st());
            assert(s_rec.stk =~= fviews(stack@));
            assert(s_rec.cur =~= node_views(out@));
            assert(s_rec == Run {
                p: self.st(),
                stk: fviews(stack@),
                cur: node_views(out@),
                bailed: false,
            });
        }
        out
    }

    /// Parses one node at the current token: a leaf operator, the start
    /// of a loop (pushing a frame), or error recovery that discards to
    /// the end of input behind a placeholder node; aborts with the
    /// nesting fault when one more node would pass the ceiling.
    #[verifier::rlimit(100)]
    fn step_node(&mut self, stack: &mut Vec<Frame>, cur: Vec<Node>) -> (r: Result<
        Vec<Node>,
        Bailout,
    >)
        requires
            old(self).wf(),
            old(self).bytes().len() < usize::MAX,
            engine_inv(old(self).bytes(), old(stack)@, cur@, old(self).st()),
            !(old(self).st().tok is EOF),
            old(self).st().tok is LoopClose ==> old(stack)@.len() == 0,
        ensures
            final(self).wf(),
            final(self).bytes() == old(self).bytes(),
            final(self).st().lex.errs.len() >= old(self).st().lex.errs.len(),
            (r matches Ok(out) ==> engine_inv(
                final(self).bytes(),
                final(stack)@,
                out@,
                final(self).st(),
            ) && p_m(final(self).bytes(), final(self).st()) < p_m(
                old(self).bytes(),
                old(self).st(),
            )),
            (r is Err ==> final(self).st().lex.errs.len() > old(self).st().lex.errs.len()),
            (r matches Err(b) ==> b.msg@ == msg_nest()),
            (valid_program(old(self).bytes()) && valid_inv(
                old(self).bytes(),
                old(stack)@,
                cur@,
                old(self).st(),
            )) ==> (r matches Ok(out) && valid_inv(
                final(self).bytes(),
                final(stack)@,
                out@,
                final(self).st(),
            )),
            (r matches Ok(out) ==> prun(
                old(self).bytes(),
                Run {
                    p: old(self).st(),
                    stk: fviews(old(stack)@),
                    cur: node_views(cur@),
                    bailed: false,
                },
            ) == prun(
                old(self).bytes(),
                Run {
                    p: final(self).st(),
                    stk: fviews(final(stack)@),
                    cur: node_views(out@),
                    bailed: false,
                },
            )),
            (r is Err ==> prun(
                old(self).bytes(),
                Run {
                    p: old(self).st(),
                    stk: fviews(old(stack)@),
                    cur: node_views(cur@),
                    bailed: false,
                },
            ) == (Run {
                p: final(self).st(),
                stk: fviews(old(stack)@),
                cur: node_views(cur@),
                bailed: true,
            })),
            (r matches Err(b) ==> b.pos.0 as int == old(self).st().pos),
            (r is Err ==> final(self).st().pos == old(self).st().pos),
    {
        let ghost bytes = self.bytes();
        let ghost len = bytes.len() as int;
        let ghost pb = self.st();
        let ghost stack0 = stack@;
        let ghost cur0 = cur@;
        let ghost vld = valid_program(bytes) && valid_inv(bytes, stack0, cur0, pb);
        proof {
            lemma_p_next_props(bytes, pb);
            if vld {
                lemma_valid_token(bytes, stack0, cur0, pb);
            }
        }
        let ghost s_old = Run { p: pb, stk: fviews(stack0), cur: node_views(cur0), bailed: false };
        proof {
            assert(fviews(stack0).len() == stack0.len());
        }
        if stack.len() >= MAX_NEST_LEV {
            let pos = self.pos;
            self.error(pos, String::from_str("exceeded max nesting depth"));
            proof {
                assert(!(pb.tok is LoopClose && stack0.len() > 0));
                assert(prun(bytes, s_old) == (Run {
                    p: p_err(pb, pb.pos, msg_nest()),
                    stk: s_old.stk,
                    cur: s_old.cur,
                    bailed: true,
                }));
                assert(self.st() == p_err(pb, pb.pos, msg_nest()));
            }
            return Err(Bailout { pos, msg: String::from_str("exceeded max nesting depth") });
        }
        let mut cur = cur;
        match self.tok {
            Token::IncPtr => {
                let n = self.parse_inc_ptr();
                proof {
                    lemma_list_push(cur@, Node::IncPtr(n));
                    if vld {
                        assert(flat(Node::IncPtr(n)) =~= seq![op_u8(Token::IncPtr) as char]);
                        lemma_step_leaf(bytes, stack0, cur0, pb, Node::IncPtr(n));
                    }
                    crate::ast::lemma_views_push(cur0, Node::IncPtr(n));
                    assert(node_view(Node::IncPtr(n)) == NodeV::Leaf(Token::IncPtr, pb.pos));
                }
                cur.push(Node::IncPtr(n));
                proof {
                    let s_rec = Run {
                        p: p_next(bytes, pb),
                        cur: s_old.cur.push(NodeV::Leaf(pb.tok, pb.pos)),
                        ..s_old
                    };
                    assert(prun(bytes, s_old) == prun(bytes, s_rec));
                    assert(s_rec.cur =~= node_views(cur@));
                    assert(s_rec == (Run {
                        p: self.st(),
                        stk: fviews(stack@),
                        cur: node_views(cur@),
                        bailed: false,
                    }));
                }
            },
            Token::DecPtr => {
                let n = self.parse_dec_ptr();
                proof {
                    lemma_list_push(cur@, Node::DecPtr(n));
                    if vld {
                        assert(flat(Node::DecPtr(n)) =~= seq![op_u8(Token::DecPtr) as char]);
                        lemma_step_leaf(bytes, stack0, cur0, pb, Node::DecPtr(n));
                    }
                    crate::ast::lemma_views_push(cur0, Node::DecPtr(n));
                    assert(node_view(Node::DecPtr(n)) == NodeV::Leaf(Token::DecPtr, pb.pos));
                }
                cur.push(Node::DecPtr(n));
                proof {
                    let s_rec = Run {
                        p: p_next(bytes, pb),
                        cur: s_old.cur.push(NodeV::Leaf(pb.tok, pb.pos)),
                        ..s_old
                    };
                    assert(prun(bytes, s_old) == prun(bytes, s_rec));
                    assert(s_rec.cur =~= node_views(cur@));
                    assert(s_rec == (Run {
                        p: self.st(),
                        stk: fviews(stack@),
                        cur: node_views(cur@),
                        bailed: false,
                    }));
                }
            },
            Token::IncByte => {
                let n = self.parse_inc_byte();
                proof {
                    lemma_list_push(cur@, Node::IncByte(n));
                    if vld {
                        assert(flat(Node::IncByte(n)) =~= seq![op_u8(Token::IncByte) as char]);
                        lemma_step_leaf(bytes, stack0, cur0, pb, Node::IncByte(n));
                    }
                    crate::ast::lemma_views_push(cur0, Node::IncByte(n));
                    assert(node_view(Node::IncByte(n)) == NodeV::Leaf(Token::IncByte, pb.pos));
                }
                cur.push(Node::IncByte(n));
                proof {
                    let s_rec = Run {
                        p: p_next(bytes, pb),
                        cur: s_old.cur.push(NodeV::Leaf(pb.tok, pb.pos)),
                        ..s_old
                    };
                    assert(prun(bytes, s_old) == prun(bytes, s_rec));
                    assert(s_rec.cur =~= node_views(cur@));
                    assert(s_rec == (Run {
                        p: self.st(),
                        stk: fviews(stack@),
                        cur: node_views(cur@),
                        bailed: false,
                    }));
                }
            },
            Token::DecByte => {
                let n = self.parse_dec_byte();
                proof {
                    lemma_list_push(cur@, Node::DecByte(n));
                    if vld {
                        assert(flat(Node::DecByte(n)) =~= seq![op_u8(Token::DecByte) as char]);
                        lemma_step_leaf(bytes, stack0, cur0, pb, Node::DecByte(n));
                    }
                    crate::ast::lemma_views_push(cur0, Node::DecByte(n));
                    assert(node_view(Node::DecByte(n)) == NodeV::Leaf(Token::DecByte, pb.pos));
                }
                cur.push(Node::DecByte(n));
                proof {
                    let s_rec = Run {
                        p: p_next(bytes, pb),
                        cur: s_old.cur.push(NodeV::Leaf(pb.tok, pb.pos)),
                        ..s_old
                    };
                    assert(prun(bytes, s_old) == prun(bytes, s_rec));
                    assert(s_rec.cur =~= node_views(cur@));
                    assert(s_rec == (Run {
                        p: self.st(),
                        stk: fviews(stack@),
                        cur: node_views(cur@),
                        bailed: false,
                    }));
                }
            },
            Token::OutputByte => {
                let n = self.parse_output_byte();
                proof {
                    lemma_list_push(cur@, Node::OutputByte(n));
                    if vld {
                        assert(flat(Node::OutputByte(n)) =~= seq![op_u8(Token::OutputByte) as char]);
                        lemma_step_leaf(bytes, stack0, cur0, pb, Node::OutputByte(n));
                    }
                    crate::ast::lemma_views_push(cur0, Node::OutputByte(n));
                    assert(node_view(Node::OutputByte(n)) == NodeV::Leaf(Token::OutputByte, pb.pos));
                }
                cur.push(Node::OutputByte(n));
                proof {
                    let s_rec = Run {
                        p: p_next(bytes, pb),
                        cur: s_old.cur.push(NodeV::Leaf(pb.tok, pb.pos)),
                        ..s_old
                    };
                    assert(prun(bytes, s_old) == prun(bytes, s_rec));
                    assert(s_rec.cur =~= node_views(cur@));
                    assert(s_rec == (Run {
                        p: self.st(),
                        stk: fviews(stack@),
                        cur: node_views(cur@),
                        bailed: false,
                    }));
                }
            },
            Token::InputByte => {
                let n = self.parse_input_byte();
                proof {
                    lemma_list_push(cur@, Node::InputByte(n));
                    if vld {
                        assert(flat(Node::InputByte(n)) =~= seq![op_u8(Token::InputByte) as char]);
                        lemma_step_leaf(bytes, stack0, cur0, pb, Node::InputByte(n));
                    }
                    crate::ast::lemma_views_push(cur0, Node::InputByte(n));
                    assert(node_view(Node::InputByte(n)) == NodeV::Leaf(Token::InputByte, pb.pos));
                }
                cur.push(Node::InputByte(n));
                proof {
                    let s_rec = Run {
                        p: p_next(bytes, pb),
                        cur: s_old.cur.push(NodeV::Leaf(pb.tok, pb.pos)),
                        ..s_old
                    };
                    assert(prun(bytes, s_old) == prun(bytes, s_rec));
                    assert(s_rec.cur =~= node_views(cur@));
                    assert(s_rec == (Run {
                        p: self.st(),
                        stk: fviews(stack@),
                        cur: node_views(cur@),
                        bailed: false,
                    }));
                }
            },
            Token::LoopOpen => {
                let lp = self.expect(Token::LoopOpen);
                let bp = self.pos;
                let parent = cur;
                let ghost frg = Frame { lp, bp, list: parent };
                cur = Vec::new();
                stack.push(Frame { lp, bp, list: parent });
                proof {
                    assert(stack@ =~= stack0.push(frg));
                    if vld {
                        lemma_step_open(bytes, stack0, cur0, pb, frg);
                        assert(cur@ =~= Seq::<Node>::empty());
                    }
                    let p2 = p_next(bytes, pb);
                    let s_rec = Run {
                        p: p2,
                        stk: s_old.stk.push(GFrame { lp: pb.pos, bp: p2.pos, list: s_old.cur }),
                        cur: Seq::empty(),
                        bailed: false,
                    };
                    assert(prun(bytes, s_old) == prun(bytes, s_rec));
                    assert(lp.0 as int == pb.pos);
                    assert(bp.0 as int == p2.pos);
                    assert(fview(frg) == GFrame { lp: pb.pos, bp: p2.pos, list: s_old.cur });
                    assert(fviews(stack@) =~= fviews(stack0).push(fview(frg)));
                    assert(node_views(cur@) =~= Seq::<NodeV>::empty());
                    assert(s_rec == (Run {
                        p: self.st(),
                        stk: fviews(stack@),
                        cur: node_views(cur@),
                        bailed: false,
                    }));
                }
            },
            _ => {
                proof {
                    if vld {
                        assert(false);
                    }
                }
                let pos = self.pos;
                self.error_expected(pos, "node");
                proof {
                    lemma_advance_props(bytes, self.st());
                }
                self.advance();
                let bad = ast::BadNode { from: pos, to: self.pos };
                proof {
                    lemma_list_push(cur@, Node::BadNode(bad));
                    crate::ast::lemma_views_push(cur0, Node::BadNode(bad));
                }
                cur.push(Node::BadNode(bad));
                proof {
                    assert(!(is_op_tok(pb.tok) && !(pb.tok is LoopOpen) && !(pb.tok is LoopClose)));
                    assert(!(pb.tok is LoopOpen));
                    assert(!(pb.tok is LoopClose && stack0.len() > 0));
                    let pe = p_err(pb, pb.pos, msg_expected("node"@, true, pb.tok));
                    let pa = spec_advance(bytes, pe);
                    let s_rec = Run { p: pa, cur: s_old.cur.push(NodeV::Bad(pb.pos, pa.pos)), ..s_old };
                    assert(prun(bytes, s_old) == prun(bytes, s_rec));
                    assert(self.st() == pa);
                    assert(node_view(Node::BadNode(bad)) == NodeV::Bad(pb.pos, pa.pos));
                    assert(s_rec.cur =~= node_views(cur@));
                    assert(s_rec == (Run {
                        p: self.st(),
                        stk: fviews(stack@),
                        cur: node_views(cur@),
                        bailed: false,
                    }));
                }
            },
        }
        Ok(cur)
    }

    #[verifier::rlimit(100)]
    /// Parses the whole token stream into a `Program`, or refuses when a
    /// lexical error was already queued, or aborts with a `Bailout` when
    /// nesting exceeds the ceiling (after recording it as a diagnostic).
    pub fn parse_program(&mut self) -> (r: Result<Option<ast::Program>, Bailout>)
        requires
            old(self).wf(),
            old(self).bytes().len() < usize::MAX,
        ensures
            final(self).wf(),
            final(self).bytes() == old(self).bytes(),
            final(self).st().lex.errs.len() >= old(self).st().lex.errs.len(),
            old(self).st().lex.errs.len() > 0 ==> (r matches Ok(o) && o is None
                && final(self).st() == old(self).st()),
            (r matches Ok(Some(prog)) ==> wf_node(
                Node::Program(ast::Program { body: prog.body }),
            )),
            r is Err ==> final(self).st().lex.errs.len() > 0,
            (r matches Err(b) ==> b.msg@ == msg_nest()),
            (r matches Ok(o) && o is None) ==> old(self).st().lex.errs.len() > 0,
            (valid_program(old(self).bytes()) && old(self).st() == p_init(old(self).bytes()))
                ==> (r matches Ok(Some(prog)) && flat(
                Node::Program(ast::Program { body: prog.body }),
            ) == ops(old(self).bytes()) && no_bad(Node::Program(ast::Program { body: prog.body }))
                && final(self).st().lex.errs.len() == 0),
            (old(self).st() == p_init(old(self).bytes()) && old(self).st().lex.errs.len() == 0)
                ==> ({
                let ru = run_of(old(self).bytes());
                &&& final(self).st() == ru.p
                &&& (ru.bailed <==> r is Err)
                &&& (!ru.bailed ==> (r matches Ok(Some(prog)) && (*prog.body) matches Node::Body(b)
                    && b.pos.0 == 0 && node_views(b.list@) == ru.cur))
                &&& (r matches Err(bb) ==> bb.pos.0 as int == ru.p.pos)
            }),
    {
        let ghost vld = valid_program(self.bytes()) && self.st() == p_init(self.bytes());
        let ghost track = self.st() == p_init(self.bytes()) && self.st().lex.errs.len() == 0;
        proof {
            if vld {
                lemma_init_clean(self.bytes());
                let li = lex_init(self.bytes(), seq![0usize]);
                lemma_scan_clean(self.bytes(), li);
                lemma_scan_props(self.bytes(), li);
                let s0 = body_start(self.bytes());
                assert(forall|j: int|
                    li.off <= j < self.st().pos ==> is_ws_byte(#[trigger] self.bytes()[j]));
                lemma_ops_ws(self.bytes(), s0, self.st().pos);
                assert(self.st().lex.errs.len() == 0);
            }
        }
        if !self.errors().is_empty() {
            proof {
                if vld {
                    assert(false);
                }
            }
            return Ok(None);
        }
        let ghost bytes = self.bytes();
        let ghost len = self.bytes().len() as int;
        let mut stack: Vec<Frame> = Vec::new();
        let mut cur: Vec<Node> = Vec::new();
        proof {
            if vld {
                assert(stack_flat(stack@) == Seq::<char>::empty());
                assert(flat_list(cur@) == Seq::<char>::empty());
                assert(stack_flat(stack@) + flat_list(cur@) =~= ops_in(
                    bytes,
                    body_start(bytes),
                    self.st().pos,
                ));
                assert(run_depth(Seq::<char>::empty()) == 0);
                assert(valid_inv(bytes, stack@, cur@, self.st()));
            }
            if track {
                assert(fviews(stack@) =~= Seq::<GFrame>::empty());
                assert(node_views(cur@) =~= Seq::<NodeV>::empty());
                assert(Run { p: self.st(), stk: fviews(stack@), cur: node_views(cur@), bailed: false }
                    == (Run {
                    p: p_init(bytes),
                    stk: Seq::<GFrame>::empty(),
                    cur: Seq::<NodeV>::empty(),
                    bailed: false,
                }));
            }
        }
        loop
            invariant
                self.wf(),
                self.bytes() == bytes,
                bytes == old(self).bytes(),
                len == bytes.len(),
                len < usize::MAX,
                engine_inv(bytes, stack@, cur@, self.st()),
                old(self).st().lex.errs.len() == 0,
                self.st().lex.errs.len() >= old(self).st().lex.errs.len(),
                vld == (valid_program(bytes) && old(self).st() == p_init(bytes)),
                vld ==> valid_inv(bytes, stack@, cur@, self.st()),
                track == (old(self).st() == p_init(bytes) && old(self).st().lex.errs.len() == 0),
                track ==> prun(
                    bytes,
                    Run { p: self.st(), stk: fviews(stack@), cur: node_views(cur@), bailed: false },
                ) == run_of(bytes),
            ensures
                self.wf(),
                self.bytes() == old(self).bytes(),
                self.st().tok is EOF,
                self.st().pos == bytes.len(),
                stack@.len() == 0,
                list_wf(cur@),
                self.st().lex.errs.len() >= old(self).st().lex.errs.len(),
                vld ==> (flat_list(cur@) == ops(bytes) && no_bad_list(cur@)
                    && self.st().lex.errs.len() == 0),
                track ==> (run_of(bytes) == (Run {
                    p: self.st(),
                    stk: Seq::<GFrame>::empty(),
                    cur: node_views(cur@),
                    bailed: false,
                })),
            decreases p_m(self.bytes(), self.st()), stack@.len(),
        {
            if matches!(self.tok, Token::EOF) {
                if stack.len() == 0 {
                    proof {
                        if vld {
                            assert(self.st().pos == len);
                            assert(stack_flat(stack@) == Seq::<char>::empty());
                            assert(Seq::<char>::empty() + flat_list(cur@) =~= flat_list(cur@));
                            assert(flat_list(cur@) == ops(bytes));
                        }
                        if track {
                            let s_now = Run {
                                p: self.st(),
                                stk: fviews(stack@),
                                cur: node_views(cur@),
                                bailed: false,
                            };
                            assert(fviews(stack@).len() == 0);
                            assert(prun(bytes, s_now) == s_now);
                            assert(s_now.stk =~= Seq::<GFrame>::empty());
                        }
                    }
                    break;
                }
                cur = self.close_top(&mut stack, cur);
            } else if matches!(self.tok, Token::LoopClose) && stack.len() > 0 {
                cur = self.close_top(&mut stack, cur);
            } else {
                let ghost s_pre = Run {
                    p: self.st(),
                    stk: fviews(stack@),
                    cur: node_views(cur@),
                    bailed: false,
                };
                match self.step_node(&mut stack, cur) {
                    Ok(out) => {
                        cur = out;
                    },
                    Err(b) => {
                        proof {
                            if track {
                                assert(run_of(bytes) == prun(bytes, s_pre));
                                assert(run_of(bytes).bailed);
                                assert(run_of(bytes).p == self.st());
                                assert(b.pos.0 as int == run_of(bytes).p.pos);
                            }
                        }
                        return Err(b);
                    },
                }
            }
        }
        proof {
            assert(self.st().tok is EOF);
            assert(self.st().pos == len);
        }
        let body = ast::Body { pos: Pos(0), list: cur };
        let ghost bodyg = body;
        let result = ast::Program { body: Box::new(Node::Body(body)) };
        proof {
            assert(bodyg.pos.0 < usize::MAX);
            assert(list_wf(bodyg.list@));
            assert(wf_node(Node::Body(bodyg)));
            assert(*result.body == Node::Body(bodyg));
            if vld {
                assert(flat(Node::Program(result)) == flat(Node::Body(bodyg)));
                assert(flat(Node::Body(bodyg)) == flat_list(bodyg.list@));
                assert(no_bad(Node::Body(bodyg)) == no_bad_list(bodyg.list@));
                assert(no_bad(Node::Program(result)));
            }
            if track {
                assert(!run_of(bytes).bailed);
                assert(run_of(bytes).p == self.st());
                assert((*result.body) matches Node::Body(b) && b.pos.0 == 0 && node_views(b.list@)
                    == run_of(bytes).cur);
            }
        }
        Ok(Some(result))
    }
}

} // verus!
