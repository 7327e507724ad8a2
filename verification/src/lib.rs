//! Front end for a minimal eight-operator instruction-pointer language:
//! a scanner that classifies bytes into tokens, a recursive-descent parser
//! that builds a position-annotated syntax tree under a nesting-depth
//! ceiling, a position table that resolves byte offsets to line/column
//! pairs, and an error collector that sorts and deduplicates diagnostics.

pub mod decimal;
pub mod eface;
pub mod errors;
pub mod position;
pub mod source;
pub mod token;
pub mod ast;
pub mod parser;
pub mod scanner;
pub mod walk;
