//! Byte offsets and resolved source positions.
//!
//! A `Pos` is a raw byte offset into the source buffer; offset 0 is reserved
//! as the "no position" sentinel. A `Position` is the resolved form:
//! offset plus 1-based line and column, where `line == 0` marks an invalid
//! (unresolved) position.

use vstd::prelude::*;
use vstd::string::*;
use crate::decimal::{dec_str, u64_to_string};

verus! {

/// Display text of a position: "line:column", the bare line when the
/// column is 0, or "-" when the position is invalid.
pub open spec fn pos_text(p: Position) -> Seq<char> {
    if p.line != 0 {
        if p.column != 0 {
            dec_str(p.line as int) + ":"@ + dec_str(p.column as int)
        } else {
            dec_str(p.line as int)
        }
    } else {
        "-"@
    }
}

/// A raw byte offset into the source buffer. Offset 0 is the "no position"
/// sentinel and is never produced by real scanning past the start.
#[derive(Debug, Clone, Copy, PartialEq, Eq, Structural)]
pub struct Pos(pub usize);

impl Pos {
    /// True when this offset is a real position rather than the sentinel.
    pub fn is_valid(self) -> (r: bool)
        ensures
            r == (self.0 != 0),
    {
        self.0 != 0
    }
}

/// A resolved source position: byte offset, 1-based line, and 1-based
/// byte-within-line column. `line == 0` means invalid/unresolved; a
/// `column` of 0 means the start of the line (or "show the bare line").
#[derive(Debug, Clone, Copy, PartialEq, Eq, Structural)]
pub struct Position {
    pub offset: usize,
    pub line: usize,
    pub column: usize,
}

impl Position {
    /// True when the position carries a real line number.
    pub fn is_valid(&self) -> (r: bool)
        ensures
            r == (self.line != 0),
    {
        self.line > 0
    }

    /// Renders this position.
    pub fn text(&self) -> (r: String)
        ensures
            r@ == pos_text(*self),
    {
        if self.is_valid() {
            if self.column != 0 {
                let mut r = u64_to_string(self.line as u64);
                r.append(":");
                r.append(u64_to_string(self.column as u64).as_str());
                r
            } else {
                u64_to_string(self.line as u64)
            }
        } else {
            String::from_str("-")
        }
    }
}

impl Default for Position {
    /// The invalid position: all fields zero.
    fn default() -> (r: Position)
        ensures
            r == (Position { offset: 0, line: 0, column: 0 }),
    {
        Position { offset: 0, line: 0, column: 0 }
    }
}

} // verus!
