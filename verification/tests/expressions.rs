use infix_parser::ast::{BinaryOp, Expr, UnaryOp};
use infix_parser::error::ParseError;
use infix_parser::parser::{
    parse, parse_add_sub, parse_expression, parse_mul_div, parse_primary, parse_unary,
};
use infix_parser::simplify::{apply_binary, apply_unary, simplify};
use infix_parser::token::{tokenize, Token};
use infix_parser::value::{to_value, Value};
use infix_parser::{evaluate, parse_infix};

fn number(value: f64) -> Expr {
    Expr::Number(value.to_bits())
}

fn unary(op: UnaryOp, expr: Expr) -> Expr {
    Expr::Unary { op, expr: Box::new(expr) }
}

fn binary(op: BinaryOp, left: Expr, right: Expr) -> Expr {
    Expr::Binary { op, left: Box::new(left), right: Box::new(right) }
}

fn tree(text: &str) -> Result<Expr, ParseError> {
    parse(&tokenize(text))
}

fn field(name: &str, value: Value) -> (String, Value) {
    (name.to_string(), value)
}

fn number_record(value: f64) -> Value {
    Value::Record(vec![
        field("type", Value::Text("Number".to_string())),
        field("value", Value::Number(value.to_bits())),
    ])
}

#[test]
fn a_literal_is_read_as_its_number() {
    assert_eq!(evaluate("42"), Ok(number(42.0)));
    assert_eq!(evaluate("0.1"), Ok(number(0.1)));
    assert_eq!(evaluate("3.25"), Ok(number(3.25)));
    assert_eq!(evaluate("-7.5"), Ok(number(-7.5)));
    for value in [0.0f64, 1.0, 2.5, 1234.5678, 1.0e21, 0.000123, -3.5, -0.25] {
        let printed = format!("{}", value);
        assert_eq!(evaluate(&printed), Ok(number(value)), "{}", printed);
        assert_eq!(parse_infix(&printed), Ok(number_record(value)), "{}", printed);
    }
}

#[test]
fn multiplication_binds_tighter_than_addition() {
    assert_eq!(evaluate("2+3*4"), Ok(number(14.0)));
    assert_eq!(evaluate("(2+3)*4"), Ok(number(20.0)));
    assert_eq!(parse_infix("2+3*4"), Ok(number_record(14.0)));
    assert_eq!(parse_infix("(2+3)*4"), Ok(number_record(20.0)));
    assert_eq!(
        tree("2+3*4"),
        Ok(binary(
            BinaryOp::Add,
            number(2.0),
            binary(BinaryOp::Mul, number(3.0), number(4.0))
        ))
    );
    assert_eq!(
        tree("2*3+4"),
        Ok(binary(
            BinaryOp::Add,
            binary(BinaryOp::Mul, number(2.0), number(3.0)),
            number(4.0)
        ))
    );
}

#[test]
fn operators_group_from_the_left() {
    assert_eq!(evaluate("10-3-2"), Ok(number(5.0)));
    assert_eq!(parse_infix("10-3-2"), Ok(number_record(5.0)));
    assert_eq!(evaluate("16/4/2"), Ok(number(2.0)));
    assert_eq!(
        tree("10-3-2"),
        Ok(binary(
            BinaryOp::Sub,
            binary(BinaryOp::Sub, number(10.0), number(3.0)),
            number(2.0)
        ))
    );
    assert_eq!(
        tree("8/4*2"),
        Ok(binary(
            BinaryOp::Mul,
            binary(BinaryOp::Div, number(8.0), number(4.0)),
            number(2.0)
        ))
    );
}

#[test]
fn signs_can_be_chained() {
    assert_eq!(evaluate("--5"), Ok(number(5.0)));
    assert_eq!(evaluate("-+-5"), Ok(number(5.0)));
    assert_eq!(parse_infix("--5"), Ok(number_record(5.0)));
    assert_eq!(parse_infix("-+-5"), Ok(number_record(5.0)));
    assert_eq!(evaluate("-5"), Ok(number(-5.0)));
    assert_eq!(evaluate("2--3"), Ok(number(5.0)));
    assert_eq!(evaluate("2*-3"), Ok(number(-6.0)));
    assert_eq!(
        tree("-+5"),
        Ok(unary(UnaryOp::Minus, unary(UnaryOp::Plus, number(5.0))))
    );
    assert_eq!(
        tree("-2*3"),
        Ok(binary(BinaryOp::Mul, unary(UnaryOp::Minus, number(2.0)), number(3.0)))
    );
}

#[test]
fn division_by_zero_is_no_error() {
    assert_eq!(evaluate("1/0"), Ok(number(f64::INFINITY)));
    assert_eq!(parse_infix("1/0"), Ok(number_record(f64::INFINITY)));
    assert_eq!(evaluate("-1/0"), Ok(number(f64::NEG_INFINITY)));
    match evaluate("0/0") {
        Ok(Expr::Number(bits)) => assert!(f64::from_bits(bits).is_nan()),
        other => panic!("{:?}", other),
    }
    match evaluate("1/0-1/0") {
        Ok(Expr::Number(bits)) => assert!(f64::from_bits(bits).is_nan()),
        other => panic!("{:?}", other),
    }
}

#[test]
fn arithmetic_is_that_of_binary64() {
    assert_eq!(evaluate("0.1+0.2"), Ok(number(0.1 + 0.2)));
    assert_eq!(evaluate("1/3"), Ok(number(1.0 / 3.0)));
    assert_eq!(evaluate("2/3*3"), Ok(number(2.0 / 3.0 * 3.0)));
    assert_eq!(evaluate("(1.5+2.25)*(10-0.5)/7"), Ok(number((1.5 + 2.25) * (10.0 - 0.5) / 7.0)));
    assert_eq!(evaluate("1.1*1.1*1.1"), Ok(number(1.1 * 1.1 * 1.1)));
}

#[test]
fn a_missing_operand_is_an_unexpected_end() {
    assert_eq!(parse_infix("1+"), Err(ParseError::UnexpectedEndOfInput));
    assert_eq!(parse_infix(""), Err(ParseError::UnexpectedEndOfInput));
    assert_eq!(parse_infix("   "), Err(ParseError::UnexpectedEndOfInput));
    assert_eq!(parse_infix("2*"), Err(ParseError::UnexpectedEndOfInput));
    assert_eq!(parse_infix("-"), Err(ParseError::UnexpectedEndOfInput));
    assert_eq!(parse_infix("("), Err(ParseError::UnexpectedEndOfInput));
}

#[test]
fn a_parenthesis_left_open() {
    assert_eq!(parse_infix("(1+2"), Err(ParseError::UnexpectedEndOfInput));
    assert_eq!(parse_infix("(1(2)"), Err(ParseError::UnmatchedParenthesis));
    assert_eq!(parse_infix("(1 a"), Err(ParseError::UnmatchedParenthesis));
    assert_eq!(parse_infix("((1+2)*3"), Err(ParseError::UnexpectedEndOfInput));
}

#[test]
fn tokens_after_the_expression() {
    assert_eq!(parse_infix("1)"), Err(ParseError::TrailingTokens));
    assert_eq!(parse_infix("1(2)"), Err(ParseError::TrailingTokens));
    assert_eq!(parse_infix("(1)2"), Err(ParseError::TrailingTokens));
    assert_eq!(parse_infix("1 a"), Err(ParseError::TrailingTokens));
    assert_eq!(parse_infix("1+2)"), Err(ParseError::TrailingTokens));
}

#[test]
fn digits_parted_by_white_space_are_two_numerals() {
    assert_eq!(evaluate("1 2"), Err(ParseError::TrailingTokens));
    assert_eq!(parse_infix("1 2"), Err(ParseError::TrailingTokens));
    assert_eq!(parse_infix("1\t2"), Err(ParseError::TrailingTokens));
    assert_eq!(parse_infix("1.5 2.5"), Err(ParseError::TrailingTokens));
    assert_eq!(parse_infix("(1 2)"), Err(ParseError::UnmatchedParenthesis));
    assert_eq!(parse_infix("1 + 2 3"), Err(ParseError::TrailingTokens));
    assert_eq!(parse_infix("12"), Ok(number_record(12.0)));
}

#[test]
fn a_malformed_numeral() {
    assert_eq!(parse_infix("1.2.3"), Err(ParseError::LexicalIncompleteNumber));
    assert_eq!(parse_infix("."), Err(ParseError::LexicalIncompleteNumber));
    assert_eq!(parse_infix("1+."), Err(ParseError::LexicalIncompleteNumber));
    assert_eq!(parse_infix("2*)"), Err(ParseError::LexicalIncompleteNumber));
    assert_eq!(parse_infix("()"), Err(ParseError::LexicalIncompleteNumber));
    assert_eq!(parse_infix("a"), Err(ParseError::LexicalIncompleteNumber));
    assert_eq!(parse_infix("*2"), Err(ParseError::LexicalIncompleteNumber));
    assert_eq!(parse_infix("1e5"), Err(ParseError::TrailingTokens));
}

#[test]
fn the_first_failure_is_the_one_reported() {
    assert_eq!(parse_infix("(1.2.3"), Err(ParseError::LexicalIncompleteNumber));
    assert_eq!(parse_infix("1.2.3)"), Err(ParseError::LexicalIncompleteNumber));
    assert_eq!(parse_infix("(1+)"), Err(ParseError::LexicalIncompleteNumber));
    assert_eq!(parse_infix("1)+"), Err(ParseError::TrailingTokens));
}

#[test]
fn white_space_changes_nothing() {
    assert_eq!(parse_infix("1+2"), parse_infix(" 1 + 2 "));
    assert_eq!(parse_infix(" 1 + 2 "), Ok(number_record(3.0)));
    assert_eq!(parse_infix("( 2 +3 )\t* 4\n"), parse_infix("(2+3)*4"));
    assert_eq!(parse_infix("1 +"), parse_infix("1+"));
    assert_eq!(evaluate(" 2.5 * 2 "), evaluate("2.5*2"));
    assert_eq!(evaluate("2 . 5 * 2"), Err(ParseError::TrailingTokens));
    assert_eq!(evaluate("2. 5"), Err(ParseError::TrailingTokens));
    assert_eq!(evaluate("- - 5"), evaluate("--5"));
}

#[test]
fn simplifying_twice_is_simplifying_once() {
    let texts = ["1", "-1", "1+2", "2+3*4", "(2+3)*4", "10-3-2", "--5", "1/0", "0.1+0.2", "-(1.5*2)/3"];
    for text in texts.iter() {
        let once = simplify(tree(text).unwrap());
        let again = simplify(simplify(tree(text).unwrap()));
        assert_eq!(again, once, "{}", text);
        assert_eq!(evaluate(text), Ok(once), "{}", text);
    }
}

#[test]
fn simplify_folds_every_operator() {
    assert_eq!(simplify(number(3.0)), number(3.0));
    assert_eq!(simplify(unary(UnaryOp::Plus, number(3.0))), number(3.0));
    assert_eq!(simplify(unary(UnaryOp::Minus, number(3.0))), number(-3.0));
    assert_eq!(simplify(binary(BinaryOp::Add, number(3.0), number(4.5))), number(7.5));
    assert_eq!(simplify(binary(BinaryOp::Sub, number(3.0), number(4.5))), number(-1.5));
    assert_eq!(simplify(binary(BinaryOp::Mul, number(3.0), number(4.5))), number(13.5));
    assert_eq!(simplify(binary(BinaryOp::Div, number(3.0), number(4.0))), number(0.75));
    assert_eq!(
        simplify(binary(
            BinaryOp::Add,
            number(1.0),
            binary(BinaryOp::Add, number(2.0), unary(UnaryOp::Minus, number(4.0)))
        )),
        number(-1.0)
    );
    assert_eq!(apply_unary(UnaryOp::Minus, 0), (-0.0f64).to_bits());
    assert_eq!(apply_binary(BinaryOp::Div, 1.0f64.to_bits(), 8.0f64.to_bits()), 0.125f64.to_bits());
}

#[test]
fn the_levels_of_the_grammar() {
    let tokens = tokenize("-2*3+4)");
    assert_eq!(parse_primary(&tokens, 1), Ok((number(2.0), 2)));
    assert_eq!(parse_primary(&tokens, 0), Err(ParseError::LexicalIncompleteNumber));
    assert_eq!(parse_primary(&tokens, 7), Err(ParseError::UnexpectedEndOfInput));
    assert_eq!(parse_unary(&tokens, 0), Ok((unary(UnaryOp::Minus, number(2.0)), 2)));
    assert_eq!(
        parse_mul_div(&tokens, 0),
        Ok((binary(BinaryOp::Mul, unary(UnaryOp::Minus, number(2.0)), number(3.0)), 4))
    );
    assert_eq!(parse_mul_div(&tokens, 3), Ok((number(3.0), 4)));
    let whole = binary(
        BinaryOp::Add,
        binary(BinaryOp::Mul, unary(UnaryOp::Minus, number(2.0)), number(3.0)),
        number(4.0),
    );
    assert_eq!(parse_add_sub(&tokens, 0), Ok((whole, 6)));
    assert_eq!(parse_add_sub(&tokens, 3), Ok((binary(BinaryOp::Add, number(3.0), number(4.0)), 6)));
    assert_eq!(parse_expression(&tokens).map(|found| found.1), Ok(6));
    assert_eq!(parse(&tokens), Err(ParseError::TrailingTokens));
    let nested = tokenize("((7))");
    assert_eq!(parse_primary(&nested, 0), Ok((number(7.0), 5)));
    assert_eq!(parse_primary(&nested, 1), Ok((number(7.0), 4)));
    assert_eq!(parse(&vec![Token::Symbol('('), Token::Symbol(')')]), Err(ParseError::LexicalIncompleteNumber));
}

#[test]
fn operators_and_their_characters() {
    assert_eq!(UnaryOp::from_symbol('+'), Some(UnaryOp::Plus));
    assert_eq!(UnaryOp::from_symbol('-'), Some(UnaryOp::Minus));
    assert_eq!(UnaryOp::from_symbol('*'), None);
    assert_eq!(BinaryOp::additive('+'), Some(BinaryOp::Add));
    assert_eq!(BinaryOp::additive('-'), Some(BinaryOp::Sub));
    assert_eq!(BinaryOp::additive('*'), None);
    assert_eq!(BinaryOp::multiplicative('*'), Some(BinaryOp::Mul));
    assert_eq!(BinaryOp::multiplicative('/'), Some(BinaryOp::Div));
    assert_eq!(BinaryOp::multiplicative('+'), None);
    assert_eq!(UnaryOp::Plus.symbol(), '+');
    assert_eq!(UnaryOp::Minus.symbol(), '-');
    assert_eq!(BinaryOp::Add.symbol(), '+');
    assert_eq!(BinaryOp::Sub.symbol(), '-');
    assert_eq!(BinaryOp::Mul.symbol(), '*');
    assert_eq!(BinaryOp::Div.symbol(), '/');
}

#[test]
fn every_variant_has_its_record() {
    assert_eq!(to_value(number(1.5)), number_record(1.5));
    assert_eq!(
        to_value(unary(UnaryOp::Minus, number(1.5))),
        Value::Record(vec![
            field("type", Value::Text("Unary".to_string())),
            field("op", Value::Text("-".to_string())),
            field("expr", number_record(1.5)),
        ])
    );
    assert_eq!(
        to_value(unary(UnaryOp::Plus, number(1.5))),
        Value::Record(vec![
            field("type", Value::Text("Unary".to_string())),
            field("op", Value::Text("+".to_string())),
            field("expr", number_record(1.5)),
        ])
    );
    let symbols = [(BinaryOp::Add, "+"), (BinaryOp::Sub, "-"), (BinaryOp::Mul, "*"), (BinaryOp::Div, "/")];
    for (op, symbol) in symbols.iter() {
        assert_eq!(
            to_value(binary(*op, number(1.0), unary(UnaryOp::Minus, number(2.0)))),
            Value::Record(vec![
                field("type", Value::Text("Binary".to_string())),
                field("op", Value::Text(symbol.to_string())),
                field("left", number_record(1.0)),
                field(
                    "right",
                    Value::Record(vec![
                        field("type", Value::Text("Unary".to_string())),
                        field("op", Value::Text("-".to_string())),
                        field("expr", number_record(2.0)),
                    ])
                ),
            ])
        );
    }
}

#[test]
fn an_expression_takes_at_least_one_token() {
    let texts = ["1", "1+2", "1)", "(1)(2)", "-1 2 3", "1*2/3+4-5 6", "--(1) )"];
    for text in texts.iter() {
        let tokens = tokenize(text);
        match parse_expression(&tokens) {
            Ok((_, taken)) => assert!(0 < taken && taken <= tokens.len(), "{}", text),
            Err(error) => panic!("{}: {:?}", text, error),
        }
    }
}

#[test]
fn a_copy_of_an_expression_is_equal_to_it() {
    let expr = binary(
        BinaryOp::Div,
        unary(UnaryOp::Minus, number(1.0)),
        binary(BinaryOp::Add, number(2.0), number(3.0)),
    );
    assert_eq!(expr.clone(), expr);
    assert_eq!(simplify(expr.clone()), number(-0.2));
}

#[test]
fn every_failure_has_its_words() {
    assert_eq!(ParseError::LexicalIncompleteNumber.describe(), "malformed number");
    assert_eq!(ParseError::UnexpectedEndOfInput.describe(), "unexpected end of input");
    assert_eq!(ParseError::UnmatchedParenthesis.describe(), "expected )");
    assert_eq!(ParseError::TrailingTokens.describe(), "unexpected tokens at end");
}

fn nodes(expr: &Expr) -> usize {
    match expr {
        Expr::Number(_) => 1,
        Expr::Unary { expr, .. } => 1 + nodes(expr),
        Expr::Binary { left, right, .. } => 1 + nodes(left) + nodes(right),
    }
}

#[test]
fn simplifying_never_grows_an_expression() {
    let texts = ["1", "-1", "1+2", "2+3*4", "(2+3)*4", "10-3-2", "--5", "1/0", "-(1.5*2)/3"];
    for text in texts.iter() {
        let before = tree(text).unwrap();
        let size = nodes(&before);
        let after = simplify(before);
        assert!(nodes(&after) <= size, "{}", text);
        assert_eq!(nodes(&after), 1, "{}", text);
    }
}

#[test]
fn different_expressions_have_different_records() {
    let texts = ["1", "2", "+1", "-1", "--1", "1+2", "1-2", "1*2", "1/2", "2+1", "1+2+3", "1+(2+3)", "1+2*3"];
    for (i, first) in texts.iter().enumerate() {
        for (j, second) in texts.iter().enumerate() {
            let same = to_value(tree(first).unwrap()) == to_value(tree(second).unwrap());
            assert_eq!(same, i == j, "{} and {}", first, second);
        }
    }
}
