//! The character-level scanner: decodes one UTF-8 scalar at a time,
//! registers line starts, raises lexical errors, and classifies
//! characters into tokens on demand.

use vstd::prelude::*;
use vstd::string::*;
use vstd::utf8::{
    decode_first_scalar, is_scalar, length_of_first_scalar, valid_first_scalar,
};
use crate::errors::{ErrorList, ErrS};
use crate::position::{Pos, Position};
use crate::source::{resolve, wf_lines, Source, SourceV};
use crate::token::Token;

verus! {

/// Sentinel for "past the end of input"; above every Unicode scalar, so
/// no decoded character can collide with it.
pub const EOF_CH: u32 = 0x110000;

/// The byte-order mark.
pub const BOM_CH: u32 = 0xFEFF;

/// The replacement scalar that stands for an invalid encoding.
pub const BAD_CH: u32 = 0xFFFD;

/// Ghost state of the scanner: current character, its offset, the next
/// read offset, the line-start table, and every diagnostic raised so far.
pub struct Lex {
    pub ch: u32,
    pub off: int,
    pub rd: int,
    pub lines: Seq<usize>,
    pub errs: Seq<ErrS>,
}

/// One decoding step at byte offset `i`: the first well-formed scalar
/// there with its width, or the replacement scalar consuming one byte.
pub open spec fn decode_rune(bytes: Seq<u8>, i: int) -> (u32, int) {
    let tail = bytes.skip(i);
    if valid_first_scalar(tail) {
        (decode_first_scalar(tail), length_of_first_scalar(tail))
    } else {
        (BAD_CH, 1)
    }
}

/// The guarded line-start append the scanner performs.
pub open spec fn add_line_sp(lines: Seq<usize>, size: int, offset: int) -> Seq<usize> {
    if (lines.len() == 0 || lines.last() < offset) && offset < size {
        lines.push(offset as usize)
    } else {
        lines
    }
}

/// Message for a NUL byte.
pub open spec fn msg_nul() -> Seq<char> {
    "illegal character NUL"@
}

/// Message for an invalid UTF-8 encoding.
pub open spec fn msg_utf8() -> Seq<char> {
    "illegal UTF-8 encoding"@
}

/// Message for a byte-order mark past the start of input.
pub open spec fn msg_bom() -> Seq<char> {
    "illegal byte order mark"@
}

/// Message for a character that no token accepts.
pub open spec fn msg_illegal_char(c: u32) -> Seq<char> {
    "illegal character '"@ + seq![c as char] + "'"@
}

/// The diagnostics one decoding step raises, resolved against the table
/// as it stands after the step's own line registration.
pub open spec fn next_errs(bytes: Seq<u8>, l: Lex) -> Seq<ErrS> {
    let (r, w) = decode_rune(bytes, l.rd);
    let lines2 = if l.ch == 10 {
        add_line_sp(l.lines, bytes.len() as int, l.rd)
    } else {
        l.lines
    };
    if r == 0 {
        seq![ErrS { pos: resolve(lines2, l.rd), msg: msg_nul() }]
    } else if r == BAD_CH && w == 1 {
        seq![ErrS { pos: resolve(lines2, l.rd), msg: msg_utf8() }]
    } else if r == BOM_CH && l.rd > 0 {
        seq![ErrS { pos: resolve(lines2, l.rd), msg: msg_bom() }]
    } else {
        seq![]
    }
}

/// One whole scanner step: advance to the next scalar, or to the end
/// sentinel when the input is exhausted.
pub open spec fn lex_next(bytes: Seq<u8>, l: Lex) -> Lex {
    if l.rd < bytes.len() {
        let (r, w) = decode_rune(bytes, l.rd);
        let lines2 = if l.ch == 10 {
            add_line_sp(l.lines, bytes.len() as int, l.rd)
        } else {
            l.lines
        };
        Lex { ch: r, off: l.rd, rd: l.rd + w, lines: lines2, errs: l.errs + next_errs(bytes, l) }
    } else {
        Lex { ch: EOF_CH, off: bytes.len() as int, rd: l.rd, lines: l.lines, errs: l.errs }
    }
}

/// Well-formedness of a scanner state that has taken at least one step.
pub open spec fn lex_wf(bytes: Seq<u8>, l: Lex) -> bool {
    &&& 0 <= l.off <= l.rd <= bytes.len()
    &&& (l.ch == EOF_CH <==> l.off == bytes.len())
    &&& (l.ch == EOF_CH ==> l.rd == bytes.len())
    &&& (l.ch != EOF_CH ==> l.off < l.rd && is_scalar(l.ch) && decode_rune(bytes, l.off) == (
        l.ch,
        l.rd - l.off,
    ))
}

/// True of the whitespace characters the scanner skips.
pub open spec fn is_ws(c: u32) -> bool {
    c == 32 || c == 9 || c == 10 || c == 13
}

/// What one well-formed decoding yields: a scalar, whose width fits in
/// the remaining input.
pub proof fn lemma_decode_props(tail: Seq<u8>)
    requires
        valid_first_scalar(tail),
        tail.len() > 0,
    ensures
        is_scalar(decode_first_scalar(tail)),
        1 <= length_of_first_scalar(tail) <= tail.len(),
{
    let b0 = tail[0];
    if vstd::utf8::is_leading_byte_width_1(b0) {
        assert(((b0 & 0x7F) as u32) <= 0x7f) by (bit_vector);
    } else if vstd::utf8::is_leading_byte_width_2(b0) {
        let b1 = tail[1];
        assert(((((b0 & 0x1F) as u32) << 6u32) | ((b1 & 0x3F) as u32)) <= 0x7ff) by (bit_vector);
    } else if vstd::utf8::is_leading_byte_width_3(b0) {
        let b1 = tail[1];
        let b2 = tail[2];
        assert(((((b0 & 0x0F) as u32) << 12u32) | (((b1 & 0x3F) as u32) << 6u32) | ((b2
            & 0x3F) as u32)) <= 0xffff) by (bit_vector);
    }
}

/// A decoding step preserves well-formedness, and moves forward whenever
/// the current character is real.
pub proof fn lemma_lex_next_wf(bytes: Seq<u8>, l: Lex)
    requires
        lex_wf(bytes, l),
    ensures
        lex_wf(bytes, lex_next(bytes, l)),
        l.ch != EOF_CH ==> lex_next(bytes, l).off > l.off,
        lex_next(bytes, l).off >= l.off,
        lex_next(bytes, l).errs.len() >= l.errs.len(),
{
    if l.rd < bytes.len() {
        let tail = bytes.skip(l.rd);
        if valid_first_scalar(tail) {
            lemma_decode_props(tail);
        }
    }
}

/// Skipping whitespace: steps until the current character is not one of
/// space, tab, carriage return, newline.
pub open spec fn skip_ws(bytes: Seq<u8>, l: Lex) -> Lex
    decreases bytes.len() - l.off,
        when lex_wf(bytes, l)
    via skip_ws_dec
{
    if is_ws(l.ch) {
        skip_ws(bytes, lex_next(bytes, l))
    } else {
        l
    }
}

#[via_fn]
proof fn skip_ws_dec(bytes: Seq<u8>, l: Lex) {
    if is_ws(l.ch) {
        lemma_lex_next_wf(bytes, l);
    }
}

/// Classification of one character: the end sentinel, an operator, or an
/// illegal character.
pub open spec fn classify(c: u32) -> Token {
    if c == EOF_CH {
        Token::EOF
    } else if c == '+' as u32 {
        Token::IncByte
    } else if c == '-' as u32 {
        Token::DecByte
    } else if c == '>' as u32 {
        Token::IncPtr
    } else if c == '<' as u32 {
        Token::DecPtr
    } else if c == '[' as u32 {
        Token::LoopOpen
    } else if c == ']' as u32 {
        Token::LoopClose
    } else if c == '.' as u32 {
        Token::OutputByte
    } else if c == ',' as u32 {
        Token::InputByte
    } else {
        Token::ILLEGAL
    }
}

/// What one `scan` call yields: the state after it, the token's
/// position, the token, and its literal text.
pub struct ScanR {
    pub l: Lex,
    pub pos: int,
    pub tok: Token,
    pub lit: Seq<char>,
}

/// One whole `scan` step: skip whitespace, classify the character at the
/// resulting offset, consume it, and raise an "illegal character" error
/// for anything unrecognized other than a byte-order mark.
pub open spec fn spec_scan(bytes: Seq<u8>, l: Lex) -> ScanR {
    let l1 = skip_ws(bytes, l);
    let pos = l1.off;
    let c = l1.ch;
    let l2 = lex_next(bytes, l1);
    let tok = classify(c);
    if tok is ILLEGAL {
        if c != BOM_CH {
            let e = ErrS { pos: resolve(l2.lines, pos), msg: msg_illegal_char(c) };
            ScanR {
                l: Lex { errs: l2.errs.push(e), ..l2 },
                pos,
                tok,
                lit: seq![c as char],
            }
        } else {
            ScanR { l: l2, pos, tok, lit: seq![c as char] }
        }
    } else {
        ScanR { l: l2, pos, tok, lit: Seq::empty() }
    }
}

/// The scanner's state right after construction: one step taken, and a
/// leading byte-order mark skipped silently.
pub open spec fn lex_init(bytes: Seq<u8>, lines0: Seq<usize>) -> Lex {
    let l0 = Lex { ch: 32, off: 0, rd: 0, lines: lines0, errs: Seq::empty() };
    let l1 = lex_next(bytes, l0);
    if l1.ch == BOM_CH {
        lex_next(bytes, l1)
    } else {
        l1
    }
}

/// The freshly constructed scanner state is well formed.
pub proof fn lemma_lex_init_wf(bytes: Seq<u8>, lines0: Seq<usize>)
    ensures
        lex_wf(bytes, lex_init(bytes, lines0)),
{
    let l0 = Lex { ch: 32, off: 0, rd: 0, lines: lines0, errs: Seq::empty() };
    let l1 = lex_next(bytes, l0);
    if l0.rd < bytes.len() {
        let tail = bytes.skip(0);
        if valid_first_scalar(tail) {
            lemma_decode_props(tail);
        }
    }
    assert(lex_wf(bytes, l1));
    if l1.ch == BOM_CH {
        lemma_lex_next_wf(bytes, l1);
    }
}

/// Relies on `char::from_u32` and the `ToString` impl for `char`: a
/// Unicode scalar value renders as the one-character string holding it.
#[verifier::external_body]
fn scalar_string(v: u32) -> (r: String)
    requires
        is_scalar(v),
    ensures
        r@ == seq![v as char],
{
    match char::from_u32(v) {
        Some(c) => c.to_string(),
        None => String::new(),
    }
}

/// Decodes the first scalar of `src[i..]`, with the replacement scalar
/// and width 1 for anything ill-formed.
fn decode_rune_exec(src: &[u8], i: usize) -> (r: (u32, usize))
    requires
        i < src@.len(),
    ensures
        ({
            let (c, w) = decode_rune(src@, i as int);
            r.0 == c && r.1 == w && 1 <= r.1 <= src@.len() - i && (r.0 == BAD_CH || is_scalar(r.0))
                && is_scalar(r.0)
        }),
{
    let ghost tail = src@.skip(i as int);
    let n = src.len();
    let b0 = src[i];
    proof {
        assert(tail[0] == src@[i as int]);
        assert(tail.len() == n - i);
    }
    if b0 < 0x80 {
        proof {
            assert(b0 & 0x7f == b0) by (bit_vector)
                requires
                    b0 < 0x80,
            ;
            assert(valid_first_scalar(tail));
        }
        (b0 as u32, 1)
    } else if b0 < 0xC0 {
        proof {
            assert(!valid_first_scalar(tail));
        }
        (BAD_CH, 1)
    } else if b0 < 0xE0 {
        if n - i > 1 && 0x80 <= src[i + 1] && src[i + 1] < 0xC0 {
            let b1 = src[i + 1];
            proof {
                assert(tail[1] == src@[i as int + 1]);
            }
            let c: u32 = (((b0 & 0x1F) as u32) << 6u32) | ((b1 & 0x3F) as u32);
            proof {
                assert(c <= 0x7ff) by (bit_vector)
                    requires
                        c == (((b0 & 0x1F) as u32) << 6u32) | ((b1 & 0x3F) as u32),
                ;
            }
            if c >= 0x80 {
                proof {
                    assert(valid_first_scalar(tail));
                }
                (c, 2)
            } else {
                proof {
                    assert(!valid_first_scalar(tail));
                }
                (BAD_CH, 1)
            }
        } else {
            proof {
                if tail.len() >= 2 {
                    assert(tail[1] == src@[i as int + 1]);
                }
                assert(!valid_first_scalar(tail));
            }
            (BAD_CH, 1)
        }
    } else if b0 < 0xF0 {
        if n - i > 2 && 0x80 <= src[i + 1] && src[i + 1] < 0xC0 && 0x80 <= src[i + 2] && src[i + 2]
            < 0xC0 {
            let b1 = src[i + 1];
            let b2 = src[i + 2];
            proof {
                assert(tail[1] == src@[i as int + 1]);
                assert(tail[2] == src@[i as int + 2]);
            }
            let c: u32 = (((b0 & 0x0F) as u32) << 12u32) | (((b1 & 0x3F) as u32) << 6u32) | ((b2
                & 0x3F) as u32);
            proof {
                assert(c <= 0xffff) by (bit_vector)
                    requires
                        c == (((b0 & 0x0F) as u32) << 12u32) | (((b1 & 0x3F) as u32) << 6u32) | ((
                        b2 & 0x3F) as u32),
                ;
            }
            if c >= 0x800 && !(0xD800 <= c && c <= 0xDFFF) {
                proof {
                    assert(valid_first_scalar(tail));
                }
                (c, 3)
            } else {
                proof {
                    assert(!valid_first_scalar(tail));
                }
                (BAD_CH, 1)
            }
        } else {
            proof {
                if tail.len() >= 2 {
                    assert(tail[1] == src@[i as int + 1]);
                }
                if tail.len() >= 3 {
                    assert(tail[2] == src@[i as int + 2]);
                }
                assert(!valid_first_scalar(tail));
            }
            (BAD_CH, 1)
        }
    } else if b0 < 0xF8 {
        if n - i > 3 && 0x80 <= src[i + 1] && src[i + 1] < 0xC0 && 0x80 <= src[i + 2] && src[i + 2]
            < 0xC0 && 0x80 <= src[i + 3] && src[i + 3] < 0xC0 {
            let b1 = src[i + 1];
            let b2 = src[i + 2];
            let b3 = src[i + 3];
            proof {
                assert(tail[1] == src@[i as int + 1]);
                assert(tail[2] == src@[i as int + 2]);
                assert(tail[3] == src@[i as int + 3]);
            }
            let c: u32 = (((b0 & 0x07) as u32) << 18u32) | (((b1 & 0x3F) as u32) << 12u32) | (((b2
                & 0x3F) as u32) << 6u32) | ((b3 & 0x3F) as u32);
            proof {
                assert(c <= 0x1fffff) by (bit_vector)
                    requires
                        c == (((b0 & 0x07) as u32) << 18u32) | (((b1 & 0x3F) as u32) << 12u32) | ((
                        (b2 & 0x3F) as u32) << 6u32) | ((b3 & 0x3F) as u32),
                ;
            }
            if 0x10000 <= c && c <= 0x10FFFF {
                proof {
                    assert(valid_first_scalar(tail));
                }
                (c, 4)
            } else {
                proof {
                    assert(!valid_first_scalar(tail));
                }
                (BAD_CH, 1)
            }
        } else {
            proof {
                if tail.len() >= 2 {
                    assert(tail[1] == src@[i as int + 1]);
                }
                if tail.len() >= 3 {
                    assert(tail[2] == src@[i as int + 2]);
                }
                if tail.len() >= 4 {
                    assert(tail[3] == src@[i as int + 3]);
                }
                assert(!valid_first_scalar(tail));
            }
            (BAD_CH, 1)
        }
    } else {
        proof {
            assert(!valid_first_scalar(tail));
        }
        (BAD_CH, 1)
    }
}

/// The scanner: owns the line-start table and the error collector, and
/// yields one `(position, token, literal)` triple per `scan` call.
pub struct Scanner<'a> {
    source: Source,
    src: &'a [u8],
    errors: ErrorList,
    ch: u32,
    offset: usize,
    rd_offset: usize,
    line_offset: usize,
    /// How many lexical errors the scanner itself has raised.
    pub error_count: usize,
}

impl<'a> Scanner<'a> {
    /// The scanned bytes.
    pub closed spec fn bytes(&self) -> Seq<u8> {
        self.src@
    }

    /// The scanner's ghost state.
    pub closed spec fn lex(&self) -> Lex {
        Lex {
            ch: self.ch,
            off: self.offset as int,
            rd: self.rd_offset as int,
            lines: self.source@.lines,
            errs: self.errors@,
        }
    }

    /// The line-start table's view.
    pub closed spec fn source_view(&self) -> SourceV {
        self.source@
    }

    /// The error count, for specification use.
    pub closed spec fn count(&self) -> int {
        self.error_count as int
    }

    /// Basic consistency: the table matches the buffer and the error
    /// count never exceeds the diagnostics held.
    pub open spec fn wf0(&self) -> bool {
        &&& self.source_view().size == self.bytes().len()
        &&& wf_lines(self.source_view())
        &&& self.lex().lines == self.source_view().lines
        &&& 0 <= self.lex().off <= self.bytes().len()
        &&& 0 <= self.lex().rd <= self.bytes().len()
        &&& self.count() <= self.lex().errs.len()
    }

    /// Full well-formedness, once at least one step has been taken.
    pub open spec fn wf(&self) -> bool {
        &&& self.wf0()
        &&& lex_wf(self.bytes(), self.lex())
    }

    /// Builds a scanner over `src`, whose declared size the table must
    /// match; takes the first step, skipping a leading byte-order mark.
    pub fn new(source: Source, src: &'a [u8]) -> (r: Scanner<'a>)
        requires
            source@.size == src@.len(),
            wf_lines(source@),
        ensures
            r.wf(),
            r.bytes() == src@,
            r.lex() == lex_init(src@, source@.lines),
            r.count() == r.lex().errs.len(),
    {
        let ghost lines0 = source@.lines;
        let mut s = Scanner {
            source,
            src,
            errors: ErrorList::new(),
            ch: 32,
            offset: 0,
            rd_offset: 0,
            line_offset: 0,
            error_count: 0,
        };
        proof {
            assert(s.lex() == Lex { ch: 32, off: 0, rd: 0, lines: lines0, errs: Seq::<
                ErrS,
            >::empty() });
        }
        s.next();
        if s.ch == 0xFEFF {
            s.next();
        }
        proof {
            lemma_lex_init_wf(src@, lines0);
        }
        s
    }

    /// Takes one decoding step: registers a line start when the previous
    /// character was a newline, decodes the next scalar, and raises the
    /// step's lexical errors.
    fn next(&mut self)
        requires
            old(self).wf0(),
        ensures
            final(self).wf(),
            final(self).bytes() == old(self).bytes(),
            final(self).lex() == lex_next(old(self).bytes(), old(self).lex()),
            final(self).count() - old(self).count()
                == final(self).lex().errs.len() - old(self).lex().errs.len(),
    {
        let n = self.src.len();
        if self.rd_offset < n {
            self.offset = self.rd_offset;
            if self.ch == 10 {
                self.line_offset = self.offset;
                self.source.add_line(self.offset);
            }
            let (r, w) = decode_rune_exec(self.src, self.rd_offset);
            if r == 0 {
                self.error(self.offset, String::from_str("illegal character NUL"));
            } else if r == BAD_CH && w == 1 {
                self.error(self.offset, String::from_str("illegal UTF-8 encoding"));
            } else if r == BOM_CH && self.offset > 0 {
                self.error(self.offset, String::from_str("illegal byte order mark"));
            }
            self.rd_offset = self.rd_offset + w;
            self.ch = r;
            proof {
                let exp = lex_next(old(self).bytes(), old(self).lex());
                assert(self.lex().errs =~= exp.errs);
                assert(self.lex().lines =~= exp.lines);
                assert(self.lex() == exp);
            }
        } else {
            self.offset = n;
            if self.ch == 10 {
                self.line_offset = self.offset;
            }
            self.ch = EOF_CH;
        }
    }

    /// The next raw byte, or 0 at the end of input.
    fn peek(&self) -> (r: u8)
        requires
            self.wf0(),
        ensures
            r == if self.lex().rd < self.bytes().len() {
                self.bytes()[self.lex().rd]
            } else {
                0u8
            },
    {
        if self.rd_offset < self.src.len() {
            self.src[self.rd_offset]
        } else {
            0
        }
    }

    /// Records one diagnostic at `offset`, resolved against the table as
    /// it now stands.
    fn error(&mut self, offset: usize, msg: String)
        requires
            old(self).wf0(),
        ensures
            final(self).wf0(),
            final(self).bytes() == old(self).bytes(),
            final(self).lex() == (Lex {
                errs: old(self).lex().errs.push(
                    ErrS { pos: resolve(old(self).lex().lines, offset as int), msg: msg@ },
                ),
                ..old(self).lex()
            }),
            lex_wf(old(self).bytes(), old(self).lex()) ==> lex_wf(final(self).bytes(), final(self).lex()),
            final(self).count() == old(self).count() + 1,
    {
        let p = self.source.position(Pos(offset));
        self.errors.add(p, msg);
        let held = self.errors.len();
        self.error_count = self.error_count + 1;
    }

    /// Appends `arg` to `msg` and records the diagnostic.
    fn errorf(&mut self, offset: usize, msg: &str, arg: String)
        requires
            old(self).wf0(),
        ensures
            final(self).wf0(),
            final(self).bytes() == old(self).bytes(),
            final(self).lex() == (Lex {
                errs: old(self).lex().errs.push(
                    ErrS {
                        pos: resolve(old(self).lex().lines, offset as int),
                        msg: msg@ + arg@,
                    },
                ),
                ..old(self).lex()
            }),
            lex_wf(old(self).bytes(), old(self).lex()) ==> lex_wf(final(self).bytes(), final(self).lex()),
            final(self).count() == old(self).count() + 1,
    {
        let mut m = String::from_str(msg);
        m.append(arg.as_str());
        self.error(offset, m);
    }

    /// Steps past space, tab, carriage return and newline.
    fn skip_whitespace(&mut self)
        requires
            old(self).wf(),
        ensures
            final(self).wf(),
            final(self).bytes() == old(self).bytes(),
            final(self).lex() == skip_ws(old(self).bytes(), old(self).lex()),
            final(self).count() - old(self).count()
                == final(self).lex().errs.len() - old(self).lex().errs.len(),
    {
        while self.ch == 32 || self.ch == 9 || self.ch == 10 || self.ch == 13
            invariant
                self.wf(),
                self.bytes() == old(self).bytes(),
                skip_ws(old(self).bytes(), old(self).lex()) == skip_ws(self.bytes(), self.lex()),
                self.count() - old(self).count()
                    == self.lex().errs.len() - old(self).lex().errs.len(),
            decreases self.bytes().len() - self.lex().off,
        {
            proof {
                lemma_lex_next_wf(self.bytes(), self.lex());
                assert(skip_ws(self.bytes(), self.lex()) == skip_ws(
                    self.bytes(),
                    lex_next(self.bytes(), self.lex()),
                ));
            }
            self.next();
        }
    }

    /// Scans one token: skips whitespace, classifies the character at
    /// the resulting position, consumes it, and hands back the triple.
    pub fn scan(&mut self) -> (r: (Pos, Token, String))
        requires
            old(self).wf(),
        ensures
            final(self).wf(),
            final(self).bytes() == old(self).bytes(),
            ({
                let sr = spec_scan(old(self).bytes(), old(self).lex());
                &&& final(self).lex() == sr.l
                &&& r.0.0 as int == sr.pos
                &&& r.1 == sr.tok
                &&& r.2@ == sr.lit
            }),
            final(self).count() - old(self).count()
                == final(self).lex().errs.len() - old(self).lex().errs.len(),
    {
        self.skip_whitespace();
        let pos = Pos(self.offset);
        let c = self.ch;
        let ghost l1 = self.lex();
        self.next();
        if c == EOF_CH {
            (pos, Token::EOF, String::new())
        } else if c == '+' as u32 {
            (pos, Token::IncByte, String::new())
        } else if c == '-' as u32 {
            (pos, Token::DecByte, String::new())
        } else if c == '>' as u32 {
            (pos, Token::IncPtr, String::new())
        } else if c == '<' as u32 {
            (pos, Token::DecPtr, String::new())
        } else if c == '[' as u32 {
            (pos, Token::LoopOpen, String::new())
        } else if c == ']' as u32 {
            (pos, Token::LoopClose, String::new())
        } else if c == '.' as u32 {
            (pos, Token::OutputByte, String::new())
        } else if c == ',' as u32 {
            (pos, Token::InputByte, String::new())
        } else {
            if c != BOM_CH {
                let lit = scalar_string(c);
                let mut m = String::from_str("illegal character '");
                m.append(lit.as_str());
                m.append("'");
                proof {
                    assert(m@ =~= msg_illegal_char(c));
                }
                self.error(pos.0, m);
                return (pos, Token::ILLEGAL, scalar_string(c));
            }
            (pos, Token::ILLEGAL, scalar_string(c))
        }
    }

    /// A read-only look at the collected diagnostics.
    pub fn errors(&self) -> (r: &ErrorList)
        ensures
            r@ == self.lex().errs,
    {
        &self.errors
    }

    /// Sorts the collected diagnostics into their reporting order.
    pub fn sort_errors(&mut self)
        requires
            old(self).wf(),
        ensures
            final(self).wf(),
            final(self).bytes() == old(self).bytes(),
            final(self).lex() == (Lex {
                errs: crate::errors::spec_sort(old(self).lex().errs),
                ..old(self).lex()
            }),
    {
        self.errors.sort();
    }

    /// Records one diagnostic on behalf of the parser, resolved against
    /// the table as it now stands; the scanner's own error count is not
    /// touched.
    pub fn report(&mut self, pos: Pos, msg: String)
        requires
            old(self).wf(),
        ensures
            final(self).wf(),
            final(self).bytes() == old(self).bytes(),
            final(self).lex() == (Lex {
                errs: old(self).lex().errs.push(
                    ErrS { pos: resolve(old(self).lex().lines, pos.0 as int), msg: msg@ },
                ),
                ..old(self).lex()
            }),
            final(self).count() == old(self).count(),
    {
        let p = self.source.position(pos);
        self.errors.add(p, msg);
    }
}

} // verus!
