//! The generic tree that leaves the library: records of named fields,
//! texts and numbers, with no trace of the expression type.

use vstd::prelude::*;
use vstd::string::StringExecFns;
use crate::ast::{BinaryOp, Expr, UnaryOp};

verus! {

/// What a value is, as a mathematical tree.
pub enum Tree {
    Number(u64),
    Text(Seq<char>),
    Record(Seq<(Seq<char>, Tree)>),
}

/// A generic value: a number (the bits of a binary64), a text, or a record
/// of named values, in order.
#[derive(Debug, PartialEq, Eq)]
pub enum Value {
    Number(u64),
    Text(String),
    Record(Vec<(String, Value)>),
}

impl View for Value {
    type V = Tree;

    open spec fn view(&self) -> Tree
        decreases self,
    {
        match self {
            Value::Number(n) => Tree::Number(*n),
            Value::Text(s) => Tree::Text(s@),
            Value::Record(fields) => Tree::Record(
                Seq::new(
                    fields@.len(),
                    |i: int|
                        if 0 <= i < fields@.len() {
                            (fields@[i].0@, fields@[i].1.view())
                        } else {
                            (Seq::empty(), Tree::Number(0))
                        },
                ),
            ),
        }
    }
}

/// The text that writes a prefix operator.
pub open spec fn unary_text(op: UnaryOp) -> Seq<char> {
    seq![op.symbol_spec()]
}

/// The text that writes an infix operator.
pub open spec fn binary_text(op: BinaryOp) -> Seq<char> {
    seq![op.symbol_spec()]
}

/// The record that stands for an expression: a field `type` that names the
/// variant, then the variant's own fields.
pub open spec fn tree_of(e: Expr) -> Tree
    decreases e,
{
    match e {
        Expr::Number(n) => Tree::Record(
            seq![("type"@, Tree::Text("Number"@)), ("value"@, Tree::Number(n))],
        ),
        Expr::Unary { op, expr } => Tree::Record(
            seq![
                ("type"@, Tree::Text("Unary"@)),
                ("op"@, Tree::Text(unary_text(op))),
                ("expr"@, tree_of(*expr)),
            ],
        ),
        Expr::Binary { op, left, right } => Tree::Record(
            seq![
                ("type"@, Tree::Text("Binary"@)),
                ("op"@, Tree::Text(binary_text(op))),
                ("left"@, tree_of(*left)),
                ("right"@, tree_of(*right)),
            ],
        ),
    }
}

fn text(s: &str) -> (r: Value)
    ensures
        r@ == Tree::Text(s@),
{
    Value::Text(String::from_str(s))
}

fn unary_name(op: UnaryOp) -> (r: Value)
    ensures
        r@ == Tree::Text(unary_text(op)),
{
    proof {
        reveal_strlit("+");
        reveal_strlit("-");
    }
    let r = match op {
        UnaryOp::Plus => text("+"),
        UnaryOp::Minus => text("-"),
    };
    proof {
        assert(r@->Text_0 =~= unary_text(op));
    }
    r
}

fn binary_name(op: BinaryOp) -> (r: Value)
    ensures
        r@ == Tree::Text(binary_text(op)),
{
    proof {
        reveal_strlit("+");
        reveal_strlit("-");
        reveal_strlit("*");
        reveal_strlit("/");
    }
    let r = match op {
        BinaryOp::Add => text("+"),
        BinaryOp::Sub => text("-"),
        BinaryOp::Mul => text("*"),
        BinaryOp::Div => text("/"),
    };
    proof {
        assert(r@->Text_0 =~= binary_text(op));
    }
    r
}

/// Turns an expression into its generic tree, variant by variant.
pub fn to_value(expr: Expr) -> (r: Value)
    ensures
        r@ == tree_of(expr),
    decreases expr,
{
    let mut fields: Vec<(String, Value)> = Vec::new();
    match expr {
        Expr::Number(n) => {
            fields.push((String::from_str("type"), text("Number")));
            let number = Value::Number(n);
            assert(number@ == Tree::Number(n));
            fields.push((String::from_str("value"), number));
            let r = Value::Record(fields);
            proof {
                assert(r@->Record_0 =~= tree_of(expr)->Record_0);
            }
            r
        },
        Expr::Unary { op, expr: operand } => {
            fields.push((String::from_str("type"), text("Unary")));
            fields.push((String::from_str("op"), unary_name(op)));
            fields.push((String::from_str("expr"), to_value(*operand)));
            let r = Value::Record(fields);
            proof {
                assert(r@->Record_0 =~= tree_of(expr)->Record_0);
            }
            r
        },
        Expr::Binary { op, left, right } => {
            fields.push((String::from_str("type"), text("Binary")));
            fields.push((String::from_str("op"), binary_name(op)));
            fields.push((String::from_str("left"), to_value(*left)));
            fields.push((String::from_str("right"), to_value(*right)));
            let r = Value::Record(fields);
            proof {
                assert(r@->Record_0 =~= tree_of(expr)->Record_0);
            }
            r
        },
    }
}

} // verus!
