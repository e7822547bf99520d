//! Infix arithmetic: text to tokens, tokens to an expression, the
//! expression folded to a constant, and the result as a generic tree.

pub mod ast;
pub mod binary64;
pub mod decimal;
pub mod error;
pub mod laws;
pub mod natural;
pub mod parser;
pub mod rounding;
pub mod simplify;
pub mod token;
pub mod value;

use vstd::prelude::*;
use crate::ast::Expr;
use crate::error::ParseError;
use crate::parser::{parse, parse_spec};
use crate::simplify::{simplify, simplify_spec};
use crate::token::{tokenize, tokenize_spec};
use crate::value::{to_value, tree_of, Tree, Value};

verus! {

/// The simplified expression that a text writes, or why it writes none.
pub open spec fn evaluate_spec(text: Seq<char>) -> Result<Expr, ParseError> {
    match parse_spec(tokenize_spec(text)) {
        Ok(e) => Ok(simplify_spec(e)),
        Err(e) => Err(e),
    }
}

/// The generic tree of the simplified expression that a text writes.
pub open spec fn parse_infix_spec(text: Seq<char>) -> Result<Tree, ParseError> {
    match evaluate_spec(text) {
        Ok(e) => Ok(tree_of(e)),
        Err(e) => Err(e),
    }
}

/// Reads a text as an expression and folds its constants.
pub fn evaluate(expression: &str) -> (r: Result<Expr, ParseError>)
    ensures
        r == evaluate_spec(expression@),
{
    let tokens = tokenize(expression);
    match parse(&tokens) {
        Ok(e) => Ok(simplify(e)),
        Err(e) => Err(e),
    }
}

/// Reads a text as an expression, folds its constants, and hands the result
/// out as a generic tree.
pub fn parse_infix(expression: &str) -> (r: Result<Value, ParseError>)
    ensures
        match r {
            Ok(v) => parse_infix_spec(expression@) == Ok::<Tree, ParseError>(v@),
            Err(e) => parse_infix_spec(expression@) == Err::<Tree, ParseError>(e),
        },
{
    match evaluate(expression) {
        Ok(e) => Ok(to_value(e)),
        Err(e) => Err(e),
    }
}

} // verus!
