//! The closed set of lexical categories, with canonical display text.

use vstd::prelude::*;
use vstd::string::*;
use crate::decimal::{dec_str_signed, i32_to_string};

verus! {

/// One lexical category: the eight operators, end of input, an illegal
/// character, or an unrecognized raw token code.
#[derive(Debug, Clone, Copy, PartialEq, Eq, Structural)]
pub enum Token {
    ILLEGAL,
    EOF,
    IncPtr,
    DecPtr,
    IncByte,
    DecByte,
    OutputByte,
    InputByte,
    LoopOpen,
    LoopClose,
    Unknown(i32),
}

/// The canonical display text of a token: its source glyph, or a name
/// for the categories that have none.
pub open spec fn tok_text(t: Token) -> Seq<char> {
    match t {
        Token::ILLEGAL => "ILLEGAL"@,
        Token::EOF => "EOF"@,
        Token::IncPtr => ">"@,
        Token::DecPtr => "<"@,
        Token::IncByte => "+"@,
        Token::DecByte => "-"@,
        Token::OutputByte => "."@,
        Token::InputByte => ","@,
        Token::LoopOpen => "["@,
        Token::LoopClose => "]"@,
        Token::Unknown(v) => "token("@ + dec_str_signed(v as int) + ")"@,
    }
}

impl Token {
    /// Renders the token's canonical display text.
    pub fn text(&self) -> (r: String)
        ensures
            r@ == tok_text(*self),
    {
        match self {
            Token::ILLEGAL => String::from_str("ILLEGAL"),
            Token::EOF => String::from_str("EOF"),
            Token::IncPtr => String::from_str(">"),
            Token::DecPtr => String::from_str("<"),
            Token::IncByte => String::from_str("+"),
            Token::DecByte => String::from_str("-"),
            Token::OutputByte => String::from_str("."),
            Token::InputByte => String::from_str(","),
            Token::LoopOpen => String::from_str("["),
            Token::LoopClose => String::from_str("]"),
            Token::Unknown(v) => {
                let mut r = String::from_str("token(");
                r.append(i32_to_string(*v).as_str());
                r.append(")");
                r
            },
        }
    }
}

} // verus!
