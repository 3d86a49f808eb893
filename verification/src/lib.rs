//! A front end for a small Lisp-family surface syntax: source text is
//! scanned into a typed token stream and then built into a tree of nested
//! s-expressions.  Nothing here evaluates the tree.

pub mod laws;
pub mod lexer;
pub mod parser;
pub mod reader;

use vstd::prelude::*;

verus! {

/// The kinds of failure a scan or a parse can surface.
#[derive(Clone, Copy, PartialEq, Eq, Structural, Debug)]
pub enum ParseError {
    /// An unsupported backslash escape inside a string literal.
    InvalidEscape,
    /// End of input reached while scanning a string literal.
    UnterminatedString,
    /// A closing bracket where a node was expected.
    UnexpectedToken,
    /// End of the token stream where a node was expected.
    UnexpectedEof,
}

} // verus!
