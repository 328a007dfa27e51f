use crate::value::Value;
use vstd::prelude::*;

verus! {

/// An atomic lexical unit of an expression: a numeric literal, a binary
/// operator marker, a grouping marker, or an unclassifiable lexeme.
///
/// `Sub` doubles as unary minus contextually, not structurally.
/// `Invalid` carries the offending character (for a malformed numeric
/// literal, the first character of its run) for diagnostics.
#[derive(Clone, Copy, Debug, PartialEq, Eq, Structural)]
pub enum Token {
    Number(Value),
    Add,
    Sub,
    Mul,
    Div,
    Mod,
    LParen,
    RParen,
    Invalid(char),
}

impl Token {
    /// Well-formed: a numeric literal carries a well-formed value.
    pub open spec fn wf(self) -> bool {
        match self {
            Token::Number(v) => v.wf(),
            _ => true,
        }
    }
}

} // verus!
