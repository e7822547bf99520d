//! Expressions.

use vstd::prelude::*;

verus! {

/// A prefix operator.
#[derive(Clone, Copy, Debug, PartialEq, Eq)]
pub enum UnaryOp {
    Plus,
    Minus,
}

/// An infix operator.
#[derive(Clone, Copy, Debug, PartialEq, Eq)]
pub enum BinaryOp {
    Add,
    Sub,
    Mul,
    Div,
}

/// An arithmetic expression. A literal holds the bits of its binary64 value.
#[allow(inconsistent_fields)]
#[derive(Debug, PartialEq, Eq)]
pub enum Expr {
    Number(u64),
    Unary { op: UnaryOp, expr: Box<Expr> },
    Binary { op: BinaryOp, left: Box<Expr>, right: Box<Expr> },
}

impl Clone for Expr {
    fn clone(&self) -> (r: Expr)
        ensures
            r == *self,
        decreases self,
    {
        match self {
            Expr::Number(n) => Expr::Number(*n),
            Expr::Unary { op, expr } => Expr::Unary { op: *op, expr: Box::new((**expr).clone()) },
            Expr::Binary { op, left, right } => Expr::Binary {
                op: *op,
                left: Box::new((**left).clone()),
                right: Box::new((**right).clone()),
            },
        }
    }
}

/// The prefix operator that a character writes.
pub open spec fn unary_of(c: char) -> Option<UnaryOp> {
    if c == '+' {
        Some(UnaryOp::Plus)
    } else if c == '-' {
        Some(UnaryOp::Minus)
    } else {
        None
    }
}

/// The additive operator that a character writes.
pub open spec fn additive_of(c: char) -> Option<BinaryOp> {
    if c == '+' {
        Some(BinaryOp::Add)
    } else if c == '-' {
        Some(BinaryOp::Sub)
    } else {
        None
    }
}

/// The multiplicative operator that a character writes.
pub open spec fn multiplicative_of(c: char) -> Option<BinaryOp> {
    if c == '*' {
        Some(BinaryOp::Mul)
    } else if c == '/' {
        Some(BinaryOp::Div)
    } else {
        None
    }
}

impl UnaryOp {
    /// The character that writes the operator.
    pub open spec fn symbol_spec(self) -> char {
        match self {
            UnaryOp::Plus => '+',
            UnaryOp::Minus => '-',
        }
    }

    pub fn symbol(self) -> (c: char)
        ensures
            c == self.symbol_spec(),
            unary_of(c) == Some(self),
    {
        match self {
            UnaryOp::Plus => '+',
            UnaryOp::Minus => '-',
        }
    }

    pub fn from_symbol(c: char) -> (r: Option<UnaryOp>)
        ensures
            r == unary_of(c),
    {
        if c == '+' {
            Some(UnaryOp::Plus)
        } else if c == '-' {
            Some(UnaryOp::Minus)
        } else {
            None
        }
    }
}

impl BinaryOp {
    /// The character that writes the operator.
    pub open spec fn symbol_spec(self) -> char {
        match self {
            BinaryOp::Add => '+',
            BinaryOp::Sub => '-',
            BinaryOp::Mul => '*',
            BinaryOp::Div => '/',
        }
    }

    pub fn symbol(self) -> (c: char)
        ensures
            c == self.symbol_spec(),
    {
        match self {
            BinaryOp::Add => '+',
            BinaryOp::Sub => '-',
            BinaryOp::Mul => '*',
            BinaryOp::Div => '/',
        }
    }

    pub fn additive(c: char) -> (r: Option<BinaryOp>)
        ensures
            r == additive_of(c),
    {
        if c == '+' {
            Some(BinaryOp::Add)
        } else if c == '-' {
            Some(BinaryOp::Sub)
        } else {
            None
        }
    }

    pub fn multiplicative(c: char) -> (r: Option<BinaryOp>)
        ensures
            r == multiplicative_of(c),
    {
        if c == '*' {
            Some(BinaryOp::Mul)
        } else if c == '/' {
            Some(BinaryOp::Div)
        } else {
            None
        }
    }
}

} // verus!
