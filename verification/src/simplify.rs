//! Constant folding.

use vstd::prelude::*;
use crate::ast::{BinaryOp, Expr, UnaryOp};
use crate::binary64::{
    difference, difference_spec, negate, negate_spec, product, product_spec, quotient,
    quotient_spec, sum, sum_spec,
};

verus! {

/// What a prefix operator makes of a number.
pub open spec fn fold_unary(op: UnaryOp, n: u64) -> u64 {
    match op {
        UnaryOp::Plus => n,
        UnaryOp::Minus => negate_spec(n),
    }
}

/// What an infix operator makes of two numbers.
pub open spec fn fold_binary(op: BinaryOp, a: u64, b: u64) -> u64 {
    match op {
        BinaryOp::Add => sum_spec(a, b),
        BinaryOp::Sub => difference_spec(a, b),
        BinaryOp::Mul => product_spec(a, b),
        BinaryOp::Div => quotient_spec(a, b),
    }
}

/// The expression with every operator whose operands simplify to literals
/// replaced by the literal that it computes. Nothing else is rearranged.
pub open spec fn simplify_spec(e: Expr) -> Expr
    decreases e,
{
    match e {
        Expr::Number(n) => Expr::Number(n),
        Expr::Unary { op, expr } => {
            let inner = simplify_spec(*expr);
            match inner {
                Expr::Number(n) => Expr::Number(fold_unary(op, n)),
                _ => Expr::Unary { op, expr: Box::new(inner) },
            }
        },
        Expr::Binary { op, left, right } => {
            let l = simplify_spec(*left);
            let r = simplify_spec(*right);
            match (l, r) {
                (Expr::Number(a), Expr::Number(b)) => Expr::Number(fold_binary(op, a, b)),
                _ => Expr::Binary { op, left: Box::new(l), right: Box::new(r) },
            }
        },
    }
}

/// The number that an expression computes.
pub open spec fn value_of(e: Expr) -> u64
    decreases e,
{
    match e {
        Expr::Number(n) => n,
        Expr::Unary { op, expr } => fold_unary(op, value_of(*expr)),
        Expr::Binary { op, left, right } => fold_binary(op, value_of(*left), value_of(*right)),
    }
}

pub fn apply_unary(op: UnaryOp, n: u64) -> (r: u64)
    ensures
        r == fold_unary(op, n),
{
    match op {
        UnaryOp::Plus => n,
        UnaryOp::Minus => negate(n),
    }
}

pub fn apply_binary(op: BinaryOp, a: u64, b: u64) -> (r: u64)
    ensures
        r == fold_binary(op, a, b),
{
    match op {
        BinaryOp::Add => sum(a, b),
        BinaryOp::Sub => difference(a, b),
        BinaryOp::Mul => product(a, b),
        BinaryOp::Div => quotient(a, b),
    }
}

/// Folds constants, from the leaves up.
pub fn simplify(expr: Expr) -> (r: Expr)
    ensures
        r == simplify_spec(expr),
    decreases expr,
{
    match expr {
        Expr::Number(n) => Expr::Number(n),
        Expr::Unary { op, expr } => {
            let inner = simplify(*expr);
            match inner {
                Expr::Number(n) => Expr::Number(apply_unary(op, n)),
                other => Expr::Unary { op, expr: Box::new(other) },
            }
        },
        Expr::Binary { op, left, right } => {
            let l = simplify(*left);
            let r = simplify(*right);
            match (l, r) {
                (Expr::Number(a), Expr::Number(b)) => Expr::Number(apply_binary(op, a, b)),
                (l, r) => Expr::Binary { op, left: Box::new(l), right: Box::new(r) },
            }
        },
    }
}

} // verus!
