use vstd::prelude::*;
use crate::token::Token;

verus! {

/// A syntax error, with the offending token and where it was met: `sp` counts the tokens
/// read from the source by then.
#[derive(Debug, PartialEq)]
pub enum ParserError {
    InvalidTokenInUsing { sp: usize, tok: Token },
    InvalidTokenInUsingEnum { sp: usize, tok: Token },
    InvalidTokenInAlias { sp: usize, tok: Token },
    InvalidTokenInWhile { sp: usize, tok: Token },
    InvalidTokenInStatement { sp: usize, tok: Token },
    UnterminatedAttributes,
}

impl ParserError {
    /// The error was met with `p` tokens read (an unterminated attribute list carries no position).
    pub open spec fn raised_at(self, p: nat) -> bool {
        match self {
            ParserError::InvalidTokenInUsing { sp, .. } => sp == p,
            ParserError::InvalidTokenInUsingEnum { sp, .. } => sp == p,
            ParserError::InvalidTokenInAlias { sp, .. } => sp == p,
            ParserError::InvalidTokenInWhile { sp, .. } => sp == p,
            ParserError::InvalidTokenInStatement { sp, .. } => sp == p,
            ParserError::UnterminatedAttributes => true,
        }
    }
}

/// An input that the grammar of a construct rules out where a caller had already committed to
/// that construct: the token found and where it was met, as for `ParserError`.
#[derive(Debug, PartialEq)]
pub enum InternalError {
    UnexpectedTokenInAsm { sp: usize, tok: Token },
}

} // verus!
