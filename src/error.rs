use vstd::prelude::*;

use crate::token::Token;

verus! {

/// Why a document failed to parse. Lines and columns count from 0.
#[derive(Debug, Clone, PartialEq)]
pub enum ParseError {
    /// A character that is not valid where it stands.
    IllegalChar(char, usize, usize),
    /// A malformed quoted string or escape sequence.
    InvalidString(String, usize, usize),
    /// A key defined twice in one table, or a table opened twice.
    DuplicateKey(String, usize, usize),
    /// A scalar literal that matches no number, boolean or date shape.
    InvalidNumber(usize, usize),
    /// A literal in the shape of a date or time whose fields are out of range.
    InvalidDateTime(usize, usize),
    /// A bracket, brace or quote that the input ends before closing.
    UnexpectedEndOfInput,
    /// A token where the grammar expects something else.
    UnexpectedToken(String, Token, usize, usize),
}

} // verus!
