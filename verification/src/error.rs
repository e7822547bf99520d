//! The ways in which a text fails to be an expression.

use vstd::prelude::*;
use vstd::string::StringExecFns;

verus! {

/// Why a text was refused. Every failure ends the parse; no partial
/// expression is ever handed out.
#[derive(Clone, Copy, Debug, PartialEq, Eq)]
pub enum ParseError {
    /// A token stands where a number is expected and is no well-formed
    /// numeral: it has a second point, or no digit, or is another character.
    LexicalIncompleteNumber,
    /// The tokens end where an operand or a closing parenthesis is needed.
    UnexpectedEndOfInput,
    /// Another token stands where the closing parenthesis is expected.
    UnmatchedParenthesis,
    /// Tokens remain after a complete expression.
    TrailingTokens,
}

impl ParseError {
    /// A few words that say what went wrong.
    pub open spec fn describe_spec(self) -> Seq<char> {
        match self {
            ParseError::LexicalIncompleteNumber => "malformed number"@,
            ParseError::UnexpectedEndOfInput => "unexpected end of input"@,
            ParseError::UnmatchedParenthesis => "expected )"@,
            ParseError::TrailingTokens => "unexpected tokens at end"@,
        }
    }

    /// A few words that say what went wrong.
    pub fn describe(self) -> (r: String)
        ensures
            r@ == self.describe_spec(),
    {
        match self {
            ParseError::LexicalIncompleteNumber => String::from_str("malformed number"),
            ParseError::UnexpectedEndOfInput => String::from_str("unexpected end of input"),
            ParseError::UnmatchedParenthesis => String::from_str("expected )"),
            ParseError::TrailingTokens => String::from_str("unexpected tokens at end"),
        }
    }
}

} // verus!
