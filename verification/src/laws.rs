//! What holds of the library as a whole.

use vstd::prelude::*;
use crate::ast::{BinaryOp, Expr, UnaryOp};
use crate::binary64::negate_spec;
use crate::decimal::{decimal_spec, numeral_valid};
use crate::error::ParseError;
use crate::parser::{
    add_sub_tail, mul_div_tail, parse_add_sub_spec, parse_expression_spec, parse_mul_div_spec,
    parse_primary_spec, parse_spec, parse_unary_spec,
};
use crate::simplify::{simplify_spec, value_of};
use crate::token::{advance, closed, is_numeral_char, is_whitespace, scan, tokenize_spec, Lexeme, Scan};
use crate::value::{tree_of, Tree};
use crate::{evaluate_spec, parse_infix_spec};

verus! {

/// A text with its white space taken out.
pub open spec fn without_whitespace(text: Seq<char>) -> Seq<char> {
    text.filter(|c: char| !is_whitespace(c))
}

/// The scan that goes on from `from` over the characters of `text`.
pub open spec fn resume(from: Scan, text: Seq<char>) -> Scan
    decreases text.len(),
{
    if text.len() == 0 {
        from
    } else {
        resume(advance(from, text.first()), text.drop_first())
    }
}

proof fn lemma_scan_resumes(left: Seq<char>, right: Seq<char>)
    ensures
        scan(left + right) == resume(scan(left), right),
    decreases right.len(),
{
    if right.len() == 0 {
        assert(left + right =~= left);
    } else {
        let next = left.push(right.first());
        assert(next.drop_last() =~= left);
        assert(left + right =~= next + right.drop_first());
        lemma_scan_resumes(next, right.drop_first());
    }
}

/// White space is immaterial wherever it does not part two numeral
/// characters: a white-space character that has no digit or point directly
/// before it, or none directly behind it, can be put in or taken out, and the
/// tokens, the expression, the value and the failure stay what they were.
pub proof fn lemma_whitespace_is_immaterial(left: Seq<char>, w: char, right: Seq<char>)
    requires
        is_whitespace(w),
        !(left.len() > 0 && is_numeral_char(left.last()) && right.len() > 0 && is_numeral_char(
            right.first(),
        )),
    ensures
        tokenize_spec(left + seq![w] + right) == tokenize_spec(left + right),
        evaluate_spec(left + seq![w] + right) == evaluate_spec(left + right),
        parse_infix_spec(left + seq![w] + right) == parse_infix_spec(left + right),
{
    let spaced = left.push(w);
    assert(spaced.drop_last() =~= left);
    assert(left + seq![w] + right =~= spaced + right);
    lemma_scan_resumes(spaced, right);
    lemma_scan_resumes(left, right);
    let s = scan(left);
    let t = scan(spaced);
    assert(t == advance(s, w));
    if left.len() > 0 && is_numeral_char(left.last()) {
        if right.len() > 0 {
            assert(advance(t, right.first()) == advance(s, right.first()));
        }
    } else {
        assert(s.numeral.len() == 0);
        assert(t == s);
    }
    assert(closed(resume(t, right)) == closed(resume(s, right)));
}

/// The characters that write a token.
pub open spec fn spelling(token: Lexeme) -> Seq<char> {
    match token {
        Lexeme::Numeral(text) => text,
        Lexeme::Symbol(c) => seq![c],
    }
}

/// The characters that write a sequence of tokens, one token after another.
pub open spec fn spelled(tokens: Seq<Lexeme>) -> Seq<char>
    decreases tokens.len(),
{
    if tokens.len() == 0 {
        Seq::empty()
    } else {
        spelled(tokens.drop_last()) + spelling(tokens.last())
    }
}

/// A numeral has a character and only digits and points; a symbol is one
/// character that is neither of these nor white space.
pub open spec fn well_formed(token: Lexeme) -> bool {
    match token {
        Lexeme::Numeral(text) => text.len() > 0 && forall|i: int|
            0 <= i < text.len() ==> is_numeral_char(#[trigger] text[i]),
        Lexeme::Symbol(c) => !is_numeral_char(c) && !is_whitespace(c),
    }
}

/// Every token is well formed.
pub open spec fn tokens_well_formed(tokens: Seq<Lexeme>) -> bool {
    forall|i: int| 0 <= i < tokens.len() ==> well_formed(#[trigger] tokens[i])
}

/// Whether a token is a numeral.
pub open spec fn is_numeral(token: Lexeme) -> bool {
    token is Numeral
}

/// No numeral follows a numeral.
pub open spec fn numerals_parted(tokens: Seq<Lexeme>) -> bool {
    forall|i: int, j: int|
        0 <= i && j == i + 1 && j < tokens.len() ==> !(is_numeral(#[trigger] tokens[i])
            && is_numeral(#[trigger] tokens[j]))
}

proof fn lemma_spelled_push(tokens: Seq<Lexeme>, token: Lexeme)
    ensures
        spelled(tokens.push(token)) == spelled(tokens) + spelling(token),
{
    assert(tokens.push(token).drop_last() =~= tokens);
}

/// What the scan has found so far is well formed, closed or not.
spec fn scan_well_formed(s: Scan) -> bool {
    &&& tokens_well_formed(s.done)
    &&& forall|i: int| 0 <= i < s.numeral.len() ==> is_numeral_char(#[trigger] s.numeral[i])
}

proof fn lemma_closed_shape(s: Scan)
    requires
        scan_well_formed(s),
    ensures
        tokens_well_formed(closed(s)),
        spelled(closed(s)) =~= spelled(s.done) + s.numeral,
{
    if s.numeral.len() > 0 {
        lemma_spelled_push(s.done, Lexeme::Numeral(s.numeral));
        let full = closed(s);
        assert forall|i: int| 0 <= i < full.len() implies well_formed(#[trigger] full[i]) by {
            if i < s.done.len() {
                assert(full[i] == s.done[i]);
            }
        }
    }
}

proof fn lemma_advance_shape(s: Scan, c: char)
    requires
        scan_well_formed(s),
    ensures
        scan_well_formed(advance(s, c)),
        spelled(advance(s, c).done) + advance(s, c).numeral =~= if is_whitespace(c) {
            spelled(s.done) + s.numeral
        } else {
            (spelled(s.done) + s.numeral).push(c)
        },
{
    if is_whitespace(c) {
        lemma_closed_shape(s);
    } else if is_numeral_char(c) {
    } else {
        let full = closed(s);
        lemma_closed_shape(s);
        lemma_spelled_push(full, Lexeme::Symbol(c));
        let next = full.push(Lexeme::Symbol(c));
        assert forall|i: int| 0 <= i < next.len() implies well_formed(#[trigger] next[i]) by {
            if i < full.len() {
                assert(next[i] == full[i]);
            }
        }
    }
}

proof fn lemma_scan_shape(text: Seq<char>)
    ensures
        scan_well_formed(scan(text)),
        spelled(scan(text).done) + scan(text).numeral == without_whitespace(text),
    decreases text.len(),
{
    reveal(Seq::filter);
    if text.len() == 0 {
        assert(spelled(scan(text).done) + scan(text).numeral =~= without_whitespace(text));
    } else {
        lemma_scan_shape(text.drop_last());
        lemma_advance_shape(scan(text.drop_last()), text.last());
    }
}

/// In a scan that met no white space, no numeral follows a numeral, and the
/// growing numeral follows none either.
spec fn scan_parted(s: Scan) -> bool {
    &&& numerals_parted(s.done)
    &&& s.done.len() > 0 ==> !is_numeral(s.done.last())
}

proof fn lemma_parted_push(tokens: Seq<Lexeme>, token: Lexeme)
    requires
        numerals_parted(tokens),
        tokens.len() > 0 ==> !(is_numeral(tokens.last()) && is_numeral(token)),
    ensures
        numerals_parted(tokens.push(token)),
{
    let longer = tokens.push(token);
    assert forall|i: int, j: int| 0 <= i && j == i + 1 && j < longer.len() implies !(is_numeral(
        #[trigger] longer[i],
    ) && is_numeral(#[trigger] longer[j])) by {
        if j < tokens.len() {
            assert(longer[i] == tokens[i]);
            assert(longer[j] == tokens[j]);
        } else {
            assert(longer[i] == tokens.last());
            assert(longer[j] == token);
        }
    }
}

proof fn lemma_closed_parted(s: Scan)
    requires
        scan_parted(s),
    ensures
        numerals_parted(closed(s)),
{
    if s.numeral.len() > 0 {
        lemma_parted_push(s.done, Lexeme::Numeral(s.numeral));
    }
}

proof fn lemma_advance_parted(s: Scan, c: char)
    requires
        scan_parted(s),
        !is_whitespace(c),
    ensures
        scan_parted(advance(s, c)),
{
    if !is_numeral_char(c) {
        let next = closed(s).push(Lexeme::Symbol(c));
        assert(advance(s, c).done == next);
        assert(next.last() == Lexeme::Symbol(c));
        lemma_closed_parted(s);
        lemma_parted_push(closed(s), Lexeme::Symbol(c));
    }
}

proof fn lemma_scan_of_unspaced_text(text: Seq<char>)
    requires
        forall|i: int| 0 <= i < text.len() ==> !is_whitespace(#[trigger] text[i]),
    ensures
        scan_parted(scan(text)),
    decreases text.len(),
{
    if text.len() > 0 {
        let shorter = text.drop_last();
        assert forall|i: int| 0 <= i < shorter.len() implies !is_whitespace(
            #[trigger] shorter[i],
        ) by {
            assert(shorter[i] == text[i]);
        }
        lemma_scan_of_unspaced_text(shorter);
        assert(!is_whitespace(text[text.len() - 1]));
        lemma_advance_parted(scan(shorter), text.last());
    }
}

/// In a text without white space no numeral follows a numeral: every
/// numeral is as long as it can be.
pub proof fn lemma_unspaced_numerals_are_parted(text: Seq<char>)
    requires
        forall|i: int| 0 <= i < text.len() ==> !is_whitespace(#[trigger] text[i]),
    ensures
        numerals_parted(tokenize_spec(text)),
{
    lemma_scan_of_unspaced_text(text);
    lemma_closed_parted(scan(text));
}

/// The tokens of a text, written one after another, are the text without
/// its white space; each numeral has a character and only digits and
/// points, and each symbol is one character that is neither digit nor point.
pub proof fn lemma_tokens_spell_the_text(text: Seq<char>)
    ensures
        spelled(tokenize_spec(text)) == without_whitespace(text),
        tokens_well_formed(tokenize_spec(text)),
{
    lemma_scan_shape(text);
    lemma_closed_shape(scan(text));
}

/// Simplifying is total folding: every expression simplifies to the literal
/// of the number that it computes.
pub proof fn lemma_simplify_gives_the_value(e: Expr)
    ensures
        simplify_spec(e) == Expr::Number(value_of(e)),
    decreases e,
{
    match e {
        Expr::Number(_) => {},
        Expr::Unary { op, expr } => {
            lemma_simplify_gives_the_value(*expr);
        },
        Expr::Binary { op, left, right } => {
            lemma_simplify_gives_the_value(*left);
            lemma_simplify_gives_the_value(*right);
        },
    }
}

/// Simplifying a second time changes nothing.
pub proof fn lemma_simplify_is_idempotent(e: Expr)
    ensures
        simplify_spec(simplify_spec(e)) == simplify_spec(e),
    decreases e,
{
    match e {
        Expr::Number(_) => {},
        Expr::Unary { op, expr } => {
            lemma_simplify_is_idempotent(*expr);
        },
        Expr::Binary { op, left, right } => {
            lemma_simplify_is_idempotent(*left);
            lemma_simplify_is_idempotent(*right);
        },
    }
}

/// The number of nodes of an expression.
pub open spec fn size(e: Expr) -> nat
    decreases e,
{
    match e {
        Expr::Number(_) => 1,
        Expr::Unary { op, expr } => 1 + size(*expr),
        Expr::Binary { op, left, right } => 1 + size(*left) + size(*right),
    }
}

/// Simplifying never makes an expression larger.
pub proof fn lemma_simplify_does_not_grow(e: Expr)
    ensures
        size(simplify_spec(e)) <= size(e),
    decreases e,
{
    match e {
        Expr::Number(_) => {},
        Expr::Unary { op, expr } => {
            lemma_simplify_does_not_grow(*expr);
        },
        Expr::Binary { op, left, right } => {
            lemma_simplify_does_not_grow(*left);
            lemma_simplify_does_not_grow(*right);
        },
    }
}

/// The generic tree keeps everything: two expressions with one tree are one
/// expression.
pub proof fn lemma_tree_tells_the_expression(a: Expr, b: Expr)
    requires
        tree_of(a) == tree_of(b),
    ensures
        a == b,
    decreases a,
{
    let fa = tree_of(a)->Record_0;
    let fb = tree_of(b)->Record_0;
    assert(fa.len() == fb.len());
    match a {
        Expr::Number(n) => {
            assert(fa[1] == fb[1]);
        },
        Expr::Unary { op, expr } => {
            match b {
                Expr::Unary { op: other_op, expr: other } => {
                    assert(fa[1] == fb[1]);
                    assert(fa[2] == fb[2]);
                    assert(seq![op.symbol_spec()][0] == seq![other_op.symbol_spec()][0]);
                    lemma_tree_tells_the_expression(*expr, *other);
                },
                _ => {},
            }
        },
        Expr::Binary { op, left, right } => {
            match b {
                Expr::Binary { op: other_op, left: other_left, right: other_right } => {
                    assert(fa[1] == fb[1]);
                    assert(fa[2] == fb[2]);
                    assert(fa[3] == fb[3]);
                    assert(seq![op.symbol_spec()][0] == seq![other_op.symbol_spec()][0]);
                    lemma_tree_tells_the_expression(*left, *other_left);
                    lemma_tree_tells_the_expression(*right, *other_right);
                },
                _ => {},
            }
        },
    }
}

/// A text is refused before anything is simplified: the failure of the
/// parse is the failure of the whole, and what is not refused folds to one
/// literal.
pub proof fn lemma_refusal_precedes_simplification(text: Seq<char>)
    ensures
        parse_spec(tokenize_spec(text)) matches Err(e) ==> evaluate_spec(text) == Err::<
            Expr,
            ParseError,
        >(e) && parse_infix_spec(text) == Err::<Tree, ParseError>(e),
        parse_spec(tokenize_spec(text)) matches Ok(e) ==> evaluate_spec(text) == Ok::<
            Expr,
            ParseError,
        >(Expr::Number(value_of(e))),
{
    match parse_spec(tokenize_spec(text)) {
        Ok(e) => {
            lemma_simplify_gives_the_value(e);
        },
        Err(_) => {},
    }
}

proof fn lemma_scan_numeral(before: Seq<char>, text: Seq<char>)
    requires
        forall|i: int| 0 <= i < text.len() ==> is_numeral_char(#[trigger] text[i]),
    ensures
        scan(before + text) == (Scan {
            done: scan(before).done,
            numeral: scan(before).numeral + text,
        }),
    decreases text.len(),
{
    if text.len() == 0 {
        assert(before + text =~= before);
        assert(scan(before).numeral + text =~= scan(before).numeral);
    } else {
        let shorter = text.drop_last();
        lemma_scan_numeral(before, shorter);
        assert((before + text).drop_last() =~= before + shorter);
        assert(is_numeral_char(text[text.len() - 1]));
        assert((scan(before).numeral + shorter).push(text.last()) =~= scan(before).numeral + text);
    }
}

/// A numeral alone is read as the literal of its value.
pub proof fn lemma_numeral_is_read_as_its_value(text: Seq<char>)
    requires
        numeral_valid(text),
    ensures
        tokenize_spec(text) == seq![Lexeme::Numeral(text)],
        evaluate_spec(text) == Ok::<Expr, ParseError>(Expr::Number(decimal_spec(text))),
        parse_infix_spec(text) == Ok::<Tree, ParseError>(
            tree_of(Expr::Number(decimal_spec(text))),
        ),
{
    let none = Seq::<char>::empty();
    lemma_scan_numeral(none, text);
    assert(none + text =~= text);
    assert(scan(none).numeral + text =~= text);
    let t = tokenize_spec(text);
    assert(t =~= seq![Lexeme::Numeral(text)]);
    let e = Expr::Number(decimal_spec(text));
    assert(parse_primary_spec(t, 0) == Ok::<(Expr, nat), ParseError>((e, 1)));
    assert(parse_unary_spec(t, 0) == Ok::<(Expr, nat), ParseError>((e, 1)));
    assert(mul_div_tail(t, e, 1) == Ok::<(Expr, nat), ParseError>((e, 1)));
    assert(parse_mul_div_spec(t, 0) == Ok::<(Expr, nat), ParseError>((e, 1)));
    assert(add_sub_tail(t, e, 1) == Ok::<(Expr, nat), ParseError>((e, 1)));
    assert(parse_add_sub_spec(t, 0) == Ok::<(Expr, nat), ParseError>((e, 1)));
    assert(parse_spec(t) == Ok::<Expr, ParseError>(e));
}

/// A numeral behind a minus sign is read as the literal of the negated
/// value.
pub proof fn lemma_negative_numeral_is_read_as_its_value(text: Seq<char>)
    requires
        numeral_valid(text),
    ensures
        evaluate_spec(seq!['-'] + text) == Ok::<Expr, ParseError>(
            Expr::Number(negate_spec(decimal_spec(text))),
        ),
{
    let sign = seq!['-'];
    assert(sign.drop_last() =~= Seq::<char>::empty());
    assert(scan(sign) == advance(scan(Seq::<char>::empty()), '-'));
    assert(scan(sign).done =~= seq![Lexeme::Symbol('-')]);
    lemma_scan_numeral(sign, text);
    assert(scan(sign).numeral + text =~= text);
    let t = tokenize_spec(sign + text);
    assert(t =~= seq![Lexeme::Symbol('-'), Lexeme::Numeral(text)]);
    let n = Expr::Number(decimal_spec(text));
    let e = Expr::Unary { op: UnaryOp::Minus, expr: Box::new(n) };
    assert(parse_primary_spec(t, 1) == Ok::<(Expr, nat), ParseError>((n, 2)));
    assert(parse_unary_spec(t, 1) == Ok::<(Expr, nat), ParseError>((n, 2)));
    assert(parse_unary_spec(t, 0) == Ok::<(Expr, nat), ParseError>((e, 2)));
    assert(mul_div_tail(t, e, 2) == Ok::<(Expr, nat), ParseError>((e, 2)));
    assert(parse_mul_div_spec(t, 0) == Ok::<(Expr, nat), ParseError>((e, 2)));
    assert(add_sub_tail(t, e, 2) == Ok::<(Expr, nat), ParseError>((e, 2)));
    assert(parse_add_sub_spec(t, 0) == Ok::<(Expr, nat), ParseError>((e, 2)));
    assert(parse_spec(t) == Ok::<Expr, ParseError>(e));
    assert(simplify_spec(n) == n);
    assert(simplify_spec(e) == Expr::Number(negate_spec(decimal_spec(text))));
}

proof fn lemma_second_numeral_is_left_over(first: Seq<char>, second: Seq<char>)
    requires
        numeral_valid(first),
    ensures
        parse_spec(seq![Lexeme::Numeral(first), Lexeme::Numeral(second)]) == Err::<
            Expr,
            ParseError,
        >(ParseError::TrailingTokens),
{
    let t = seq![Lexeme::Numeral(first), Lexeme::Numeral(second)];
    let e = Expr::Number(decimal_spec(first));
    assert(parse_primary_spec(t, 0) == Ok::<(Expr, nat), ParseError>((e, 1)));
    assert(parse_unary_spec(t, 0) == Ok::<(Expr, nat), ParseError>((e, 1)));
    assert(mul_div_tail(t, e, 1) == Ok::<(Expr, nat), ParseError>((e, 1)));
    assert(parse_mul_div_spec(t, 0) == Ok::<(Expr, nat), ParseError>((e, 1)));
    assert(add_sub_tail(t, e, 1) == Ok::<(Expr, nat), ParseError>((e, 1)));
    assert(parse_add_sub_spec(t, 0) == Ok::<(Expr, nat), ParseError>((e, 1)));
}

proof fn lemma_scan_two_numerals(first: Seq<char>, w: char, second: Seq<char>)
    requires
        first.len() > 0,
        forall|i: int| 0 <= i < first.len() ==> is_numeral_char(#[trigger] first[i]),
        is_whitespace(w),
        second.len() > 0,
        forall|i: int| 0 <= i < second.len() ==> is_numeral_char(#[trigger] second[i]),
    ensures
        tokenize_spec(first + seq![w] + second) == seq![
            Lexeme::Numeral(first),
            Lexeme::Numeral(second),
        ],
{
    let none = Seq::<char>::empty();
    lemma_scan_numeral(none, first);
    assert(none + first =~= first);
    assert(scan(none).numeral + first =~= first);
    let spaced = first.push(w);
    assert(spaced.drop_last() =~= first);
    assert(scan(spaced) == advance(scan(first), w));
    assert(scan(spaced).done =~= seq![Lexeme::Numeral(first)]);
    lemma_scan_numeral(spaced, second);
    assert(scan(spaced).numeral + second =~= second);
    assert(first + seq![w] + second =~= spaced + second);
    assert(tokenize_spec(first + seq![w] + second) =~= seq![
        Lexeme::Numeral(first),
        Lexeme::Numeral(second),
    ]);
}

/// Digits parted by white space are two numerals, and the second is left
/// over: white space between two numerals is not immaterial.
pub proof fn lemma_whitespace_parts_numerals(first: Seq<char>, w: char, second: Seq<char>)
    requires
        numeral_valid(first),
        is_whitespace(w),
        second.len() > 0,
        forall|i: int| 0 <= i < second.len() ==> is_numeral_char(#[trigger] second[i]),
    ensures
        tokenize_spec(first + seq![w] + second) == seq![
            Lexeme::Numeral(first),
            Lexeme::Numeral(second),
        ],
        evaluate_spec(first + seq![w] + second) == Err::<Expr, ParseError>(
            ParseError::TrailingTokens,
        ),
        parse_infix_spec(first + seq![w] + second) == Err::<Tree, ParseError>(
            ParseError::TrailingTokens,
        ),
{
    lemma_scan_two_numerals(first, w, second);
    lemma_second_numeral_is_left_over(first, second);
}

/// A parse always moves forward and never past the end: what `parse_primary_spec`
/// accepts ends behind where it began.
pub proof fn lemma_primary_advances(t: Seq<Lexeme>, pos: nat)
    ensures
        parse_primary_spec(t, pos) matches Ok((_, p)) ==> pos < p <= t.len(),
    decreases t.len() - pos, 0nat,
{
    if pos < t.len() {
        lemma_add_sub_advances(t, pos + 1);
    }
}

/// What `parse_unary_spec` accepts ends behind where it began.
pub proof fn lemma_unary_advances(t: Seq<Lexeme>, pos: nat)
    ensures
        parse_unary_spec(t, pos) matches Ok((_, p)) ==> pos < p <= t.len(),
    decreases t.len() - pos, 1nat,
{
    if pos < t.len() {
        lemma_unary_advances(t, pos + 1);
    }
    lemma_primary_advances(t, pos);
}

proof fn lemma_mul_div_tail_advances(t: Seq<Lexeme>, left: Expr, pos: nat)
    requires
        pos <= t.len(),
    ensures
        mul_div_tail(t, left, pos) matches Ok((_, p)) ==> pos <= p <= t.len(),
    decreases t.len() - pos, 2nat,
{
    if pos < t.len() {
        lemma_unary_advances(t, pos + 1);
        match parse_unary_spec(t, pos + 1) {
            Ok((right, p)) => {
                if pos < p <= t.len() {
                    lemma_mul_div_tail_advances(
                        t,
                        Expr::Binary {
                            op: crate::ast::BinaryOp::Mul,
                            left: Box::new(left),
                            right: Box::new(right),
                        },
                        p,
                    );
                    lemma_mul_div_tail_advances(
                        t,
                        Expr::Binary {
                            op: crate::ast::BinaryOp::Div,
                            left: Box::new(left),
                            right: Box::new(right),
                        },
                        p,
                    );
                }
            },
            Err(_) => {},
        }
    }
}

/// What `parse_mul_div_spec` accepts ends behind where it began.
pub proof fn lemma_mul_div_advances(t: Seq<Lexeme>, pos: nat)
    ensures
        parse_mul_div_spec(t, pos) matches Ok((_, p)) ==> pos < p <= t.len(),
    decreases t.len() - pos, 3nat,
{
    lemma_unary_advances(t, pos);
    match parse_unary_spec(t, pos) {
        Ok((left, p)) => {
            if pos < p <= t.len() {
                lemma_mul_div_tail_advances(t, left, p);
            }
        },
        Err(_) => {},
    }
}

proof fn lemma_add_sub_tail_advances(t: Seq<Lexeme>, left: Expr, pos: nat)
    requires
        pos <= t.len(),
    ensures
        add_sub_tail(t, left, pos) matches Ok((_, p)) ==> pos <= p <= t.len(),
    decreases t.len() - pos, 4nat,
{
    if pos < t.len() {
        lemma_mul_div_advances(t, pos + 1);
        match parse_mul_div_spec(t, pos + 1) {
            Ok((right, p)) => {
                if pos < p <= t.len() {
                    lemma_add_sub_tail_advances(
                        t,
                        Expr::Binary {
                            op: crate::ast::BinaryOp::Add,
                            left: Box::new(left),
                            right: Box::new(right),
                        },
                        p,
                    );
                    lemma_add_sub_tail_advances(
                        t,
                        Expr::Binary {
                            op: crate::ast::BinaryOp::Sub,
                            left: Box::new(left),
                            right: Box::new(right),
                        },
                        p,
                    );
                }
            },
            Err(_) => {},
        }
    }
}

/// What `parse_add_sub_spec` accepts ends behind where it began.
pub proof fn lemma_add_sub_advances(t: Seq<Lexeme>, pos: nat)
    ensures
        parse_add_sub_spec(t, pos) matches Ok((_, p)) ==> pos < p <= t.len(),
    decreases t.len() - pos, 5nat,
{
    lemma_mul_div_advances(t, pos);
    match parse_mul_div_spec(t, pos) {
        Ok((left, p)) => {
            if pos < p <= t.len() {
                lemma_add_sub_tail_advances(t, left, p);
            }
        },
        Err(_) => {},
    }
}

/// An expression takes at least one token and no more than there are.
pub proof fn lemma_parse_advances(t: Seq<Lexeme>)
    ensures
        parse_expression_spec(t) matches Ok((_, p)) ==> 0 < p <= t.len(),
{
    lemma_add_sub_advances(t, 0);
}

} // verus!
