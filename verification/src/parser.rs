//! Recursive descent over tokens.
//!
//! Additive operators bind loosest, then multiplicative ones, then prefix
//! signs; numerals and parenthesised expressions bind tightest. Infix
//! operators group from the left, prefix signs nest to the right.

use vstd::prelude::*;
use crate::ast::{additive_of, multiplicative_of, unary_of, BinaryOp, Expr, UnaryOp};
use crate::decimal::{decimal_spec, from_decimal, numeral_valid};
use crate::error::ParseError;
use crate::token::{lexemes, Lexeme, Token};

verus! {

/// The symbol at a position, where there is one.
pub open spec fn symbol_at(t: Seq<Lexeme>, pos: nat) -> Option<char> {
    if pos < t.len() {
        match t[pos as int] {
            Lexeme::Symbol(c) => Some(c),
            Lexeme::Numeral(_) => None,
        }
    } else {
        None
    }
}

pub open spec fn unary_at(t: Seq<Lexeme>, pos: nat) -> Option<UnaryOp> {
    match symbol_at(t, pos) {
        Some(c) => unary_of(c),
        None => None,
    }
}

pub open spec fn additive_at(t: Seq<Lexeme>, pos: nat) -> Option<BinaryOp> {
    match symbol_at(t, pos) {
        Some(c) => additive_of(c),
        None => None,
    }
}

pub open spec fn multiplicative_at(t: Seq<Lexeme>, pos: nat) -> Option<BinaryOp> {
    match symbol_at(t, pos) {
        Some(c) => multiplicative_of(c),
        None => None,
    }
}

/// A numeral, or an expression in parentheses, from position `pos`: the
/// expression and the position after it.
pub open spec fn parse_primary_spec(t: Seq<Lexeme>, pos: nat) -> Result<(Expr, nat), ParseError>
    decreases t.len() - pos, 0nat,
{
    if pos >= t.len() {
        Err(ParseError::UnexpectedEndOfInput)
    } else {
        match t[pos as int] {
            Lexeme::Symbol(c) => {
                if c == '(' {
                    match parse_add_sub_spec(t, pos + 1) {
                        Err(e) => Err(e),
                        Ok((inner, p)) => {
                            if p >= t.len() {
                                Err(ParseError::UnexpectedEndOfInput)
                            } else if t[p as int] == Lexeme::Symbol(')') {
                                Ok((inner, p + 1))
                            } else {
                                Err(ParseError::UnmatchedParenthesis)
                            }
                        },
                    }
                } else {
                    Err(ParseError::LexicalIncompleteNumber)
                }
            },
            Lexeme::Numeral(text) => {
                if numeral_valid(text) {
                    Ok((Expr::Number(decimal_spec(text)), pos + 1))
                } else {
                    Err(ParseError::LexicalIncompleteNumber)
                }
            },
        }
    }
}

/// Any number of prefix signs, then a primary expression.
pub open spec fn parse_unary_spec(t: Seq<Lexeme>, pos: nat) -> Result<(Expr, nat), ParseError>
    decreases t.len() - pos, 1nat,
{
    match unary_at(t, pos) {
        Some(op) => match parse_unary_spec(t, pos + 1) {
            Err(e) => Err(e),
            Ok((operand, p)) => Ok((Expr::Unary { op, expr: Box::new(operand) }, p)),
        },
        None => parse_primary_spec(t, pos),
    }
}

/// The multiplicative operators and operands that follow `left`, folded in
/// from the left. (A parse always moves forward, so the last branch is
/// never taken: see `laws::lemma_unary_advances`.)
pub open spec fn mul_div_tail(t: Seq<Lexeme>, left: Expr, pos: nat) -> Result<
    (Expr, nat),
    ParseError,
>
    decreases t.len() - pos, 2nat,
{
    match multiplicative_at(t, pos) {
        None => Ok((left, pos)),
        Some(op) => match parse_unary_spec(t, pos + 1) {
            Err(e) => Err(e),
            Ok((right, p)) => {
                if pos < p <= t.len() {
                    mul_div_tail(
                        t,
                        Expr::Binary { op, left: Box::new(left), right: Box::new(right) },
                        p,
                    )
                } else {
                    Err(ParseError::UnexpectedEndOfInput)
                }
            },
        },
    }
}

/// A product or quotient of unary expressions.
pub open spec fn parse_mul_div_spec(t: Seq<Lexeme>, pos: nat) -> Result<(Expr, nat), ParseError>
    decreases t.len() - pos, 3nat,
{
    match parse_unary_spec(t, pos) {
        Err(e) => Err(e),
        Ok((left, p)) => {
            if pos < p <= t.len() {
                mul_div_tail(t, left, p)
            } else {
                Err(ParseError::UnexpectedEndOfInput)
            }
        },
    }
}

/// The additive operators and operands that follow `left`, folded in from
/// the left.
pub open spec fn add_sub_tail(t: Seq<Lexeme>, left: Expr, pos: nat) -> Result<
    (Expr, nat),
    ParseError,
>
    decreases t.len() - pos, 4nat,
{
    match additive_at(t, pos) {
        None => Ok((left, pos)),
        Some(op) => match parse_mul_div_spec(t, pos + 1) {
            Err(e) => Err(e),
            Ok((right, p)) => {
                if pos < p <= t.len() {
                    add_sub_tail(
                        t,
                        Expr::Binary { op, left: Box::new(left), right: Box::new(right) },
                        p,
                    )
                } else {
                    Err(ParseError::UnexpectedEndOfInput)
                }
            },
        },
    }
}

/// A sum or difference of products.
pub open spec fn parse_add_sub_spec(t: Seq<Lexeme>, pos: nat) -> Result<(Expr, nat), ParseError>
    decreases t.len() - pos, 5nat,
{
    match parse_mul_div_spec(t, pos) {
        Err(e) => Err(e),
        Ok((left, p)) => {
            if pos < p <= t.len() {
                add_sub_tail(t, left, p)
            } else {
                Err(ParseError::UnexpectedEndOfInput)
            }
        },
    }
}

/// An expression at the start of the tokens.
pub open spec fn parse_expression_spec(t: Seq<Lexeme>) -> Result<(Expr, nat), ParseError> {
    parse_add_sub_spec(t, 0)
}

/// The expression that the tokens, all of them, write.
pub open spec fn parse_spec(t: Seq<Lexeme>) -> Result<Expr, ParseError> {
    match parse_expression_spec(t) {
        Err(e) => Err(e),
        Ok((e, p)) => if p == t.len() {
            Ok(e)
        } else {
            Err(ParseError::TrailingTokens)
        },
    }
}

/// An executable result says what the mathematical one says.
pub open spec fn agrees(
    r: Result<(Expr, usize), ParseError>,
    s: Result<(Expr, nat), ParseError>,
) -> bool {
    match r {
        Ok((e, p)) => s == Ok::<(Expr, nat), ParseError>((e, p as nat)),
        Err(e) => s == Err::<(Expr, nat), ParseError>(e),
    }
}

fn symbol_of(tokens: &Vec<Token>, pos: usize) -> (r: Option<char>)
    ensures
        r == symbol_at(lexemes(tokens@), pos as nat),
        r is Some ==> pos < tokens@.len() <= usize::MAX,
{
    if pos < tokens.len() {
        match &tokens[pos] {
            Token::Symbol(c) => Some(*c),
            Token::Numeral(_) => None,
        }
    } else {
        None
    }
}

pub fn parse_primary(tokens: &Vec<Token>, pos: usize) -> (r: Result<(Expr, usize), ParseError>)
    ensures
        agrees(r, parse_primary_spec(lexemes(tokens@), pos as nat)),
        r matches Ok((_, p)) ==> pos < p <= tokens@.len(),
    decreases tokens@.len() - pos, 0nat,
{
    if pos >= tokens.len() {
        return Err(ParseError::UnexpectedEndOfInput);
    }
    match &tokens[pos] {
        Token::Symbol(c) => {
            if *c == '(' {
                match parse_add_sub(tokens, pos + 1) {
                    Err(e) => Err(e),
                    Ok((inner, p)) => {
                        match symbol_of(tokens, p) {
                            Some(closing) => {
                                if closing == ')' {
                                    Ok((inner, p + 1))
                                } else {
                                    Err(ParseError::UnmatchedParenthesis)
                                }
                            },
                            None => {
                                if p >= tokens.len() {
                                    Err(ParseError::UnexpectedEndOfInput)
                                } else {
                                    Err(ParseError::UnmatchedParenthesis)
                                }
                            },
                        }
                    },
                }
            } else {
                Err(ParseError::LexicalIncompleteNumber)
            }
        },
        Token::Numeral(text) => {
            match from_decimal(text) {
                Some(bits) => Ok((Expr::Number(bits), pos + 1)),
                None => Err(ParseError::LexicalIncompleteNumber),
            }
        },
    }
}

pub fn parse_unary(tokens: &Vec<Token>, pos: usize) -> (r: Result<(Expr, usize), ParseError>)
    ensures
        agrees(r, parse_unary_spec(lexemes(tokens@), pos as nat)),
        r matches Ok((_, p)) ==> pos < p <= tokens@.len(),
    decreases tokens@.len() - pos, 1nat,
{
    let sign = match symbol_of(tokens, pos) {
        Some(c) => UnaryOp::from_symbol(c),
        None => None,
    };
    match sign {
        Some(op) => {
            match parse_unary(tokens, pos + 1) {
                Err(e) => Err(e),
                Ok((operand, p)) => Ok((Expr::Unary { op, expr: Box::new(operand) }, p)),
            }
        },
        None => parse_primary(tokens, pos),
    }
}

pub fn parse_mul_div(tokens: &Vec<Token>, pos: usize) -> (r: Result<(Expr, usize), ParseError>)
    ensures
        agrees(r, parse_mul_div_spec(lexemes(tokens@), pos as nat)),
        r matches Ok((_, p)) ==> pos < p <= tokens@.len(),
    decreases tokens@.len() - pos, 3nat,
{
    match parse_unary(tokens, pos) {
        Err(e) => Err(e),
        Ok((first, start)) => {
            let mut node: Expr = first;
            let mut p: usize = start;
            loop
                invariant
                    pos < p <= tokens@.len(),
                    mul_div_tail(lexemes(tokens@), node, p as nat) == parse_mul_div_spec(
                        lexemes(tokens@),
                        pos as nat,
                    ),
                decreases tokens@.len() - p,
            {
                let sign = match symbol_of(tokens, p) {
                    Some(c) => BinaryOp::multiplicative(c),
                    None => None,
                };
                match sign {
                    None => {
                        return Ok((node, p));
                    },
                    Some(op) => {
                        match parse_unary(tokens, p + 1) {
                            Err(e) => {
                                return Err(e);
                            },
                            Ok((right, after)) => {
                                node = Expr::Binary {
                                    op,
                                    left: Box::new(node),
                                    right: Box::new(right),
                                };
                                p = after;
                            },
                        }
                    },
                }
            }
        },
    }
}

pub fn parse_add_sub(tokens: &Vec<Token>, pos: usize) -> (r: Result<(Expr, usize), ParseError>)
    ensures
        agrees(r, parse_add_sub_spec(lexemes(tokens@), pos as nat)),
        r matches Ok((_, p)) ==> pos < p <= tokens@.len(),
    decreases tokens@.len() - pos, 5nat,
{
    match parse_mul_div(tokens, pos) {
        Err(e) => Err(e),
        Ok((first, start)) => {
            let mut node: Expr = first;
            let mut p: usize = start;
            loop
                invariant
                    pos < p <= tokens@.len(),
                    add_sub_tail(lexemes(tokens@), node, p as nat) == parse_add_sub_spec(
                        lexemes(tokens@),
                        pos as nat,
                    ),
                decreases tokens@.len() - p,
            {
                let sign = match symbol_of(tokens, p) {
                    Some(c) => BinaryOp::additive(c),
                    None => None,
                };
                match sign {
                    None => {
                        return Ok((node, p));
                    },
                    Some(op) => {
                        match parse_mul_div(tokens, p + 1) {
                            Err(e) => {
                                return Err(e);
                            },
                            Ok((right, after)) => {
                                node = Expr::Binary {
                                    op,
                                    left: Box::new(node),
                                    right: Box::new(right),
                                };
                                p = after;
                            },
                        }
                    },
                }
            }
        },
    }
}

/// Parses an expression at the start of the tokens, and tells how many
/// tokens it takes.
pub fn parse_expression(tokens: &Vec<Token>) -> (r: Result<(Expr, usize), ParseError>)
    ensures
        agrees(r, parse_expression_spec(lexemes(tokens@))),
        r matches Ok((_, p)) ==> 0 < p <= tokens@.len(),
{
    parse_add_sub(tokens, 0)
}

/// Parses the tokens, all of them, as one expression.
pub fn parse(tokens: &Vec<Token>) -> (r: Result<Expr, ParseError>)
    ensures
        r == parse_spec(lexemes(tokens@)),
{
    match parse_expression(tokens) {
        Err(e) => Err(e),
        Ok((e, p)) => {
            if p == tokens.len() {
                Ok(e)
            } else {
                Err(ParseError::TrailingTokens)
            }
        },
    }
}

} // verus!
