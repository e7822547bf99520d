//! Lexical analysis: from text to tokens.

use vstd::prelude::*;
use vstd::std_specs::iter::IteratorSpec;
use crate::decimal::is_digit;

verus! {

/// The characters that part tokens and are no token themselves: those with
/// the Unicode property White_Space.
pub open spec fn is_whitespace(c: char) -> bool {
    let n = c as int;
    ||| 0x09 <= n <= 0x0D
    ||| n == 0x20
    ||| n == 0x85
    ||| n == 0xA0
    ||| n == 0x1680
    ||| 0x2000 <= n <= 0x200A
    ||| n == 0x2028
    ||| n == 0x2029
    ||| n == 0x202F
    ||| n == 0x205F
    ||| n == 0x3000
}

/// The characters that numerals are made of.
pub open spec fn is_numeral_char(c: char) -> bool {
    is_digit(c) || c == '.'
}

/// What a token is, as a mathematical value.
pub enum Lexeme {
    /// A run of digits and points.
    Numeral(Seq<char>),
    /// Any other character that is not white space.
    Symbol(char),
}

/// A lexical token.
#[derive(Debug, PartialEq, Eq)]
pub enum Token {
    /// A run of digits and points.
    Numeral(Vec<char>),
    /// Any other character that is not white space.
    Symbol(char),
}

impl View for Token {
    type V = Lexeme;

    open spec fn view(&self) -> Lexeme {
        match self {
            Token::Numeral(text) => Lexeme::Numeral(text@),
            Token::Symbol(c) => Lexeme::Symbol(*c),
        }
    }
}

/// The lexemes of a sequence of tokens.
pub open spec fn lexemes(tokens: Seq<Token>) -> Seq<Lexeme> {
    Seq::new(tokens.len(), |i: int| tokens[i]@)
}

pub proof fn lemma_lexemes_push(tokens: Seq<Token>, token: Token)
    ensures
        lexemes(tokens.push(token)) == lexemes(tokens).push(token@),
{
    let longer = tokens.push(token);
    assert forall|k: int| 0 <= k < longer.len() implies lexemes(longer)[k] == lexemes(
        tokens,
    ).push(token@)[k] by {
        if k < tokens.len() {
            assert(longer[k] == tokens[k]);
        } else {
            assert(longer[k] == token);
        }
    }
    assert(lexemes(longer) =~= lexemes(tokens).push(token@));
}

/// Where the scan of a text stands: the tokens that are complete, and the
/// numeral that is still growing.
pub struct Scan {
    pub done: Seq<Lexeme>,
    pub numeral: Seq<char>,
}

/// The complete tokens with the growing numeral, if there is one, closed.
pub open spec fn closed(scan: Scan) -> Seq<Lexeme> {
    if scan.numeral.len() > 0 {
        scan.done.push(Lexeme::Numeral(scan.numeral))
    } else {
        scan.done
    }
}

/// The scan after one more character. White space ends the growing numeral
/// and is itself no token.
pub open spec fn advance(scan: Scan, c: char) -> Scan {
    if is_whitespace(c) {
        Scan { done: closed(scan), numeral: Seq::empty() }
    } else if is_numeral_char(c) {
        Scan { done: scan.done, numeral: scan.numeral.push(c) }
    } else {
        Scan { done: closed(scan).push(Lexeme::Symbol(c)), numeral: Seq::empty() }
    }
}

/// The scan of a whole text.
pub open spec fn scan(text: Seq<char>) -> Scan
    decreases text.len(),
{
    if text.len() == 0 {
        Scan { done: Seq::empty(), numeral: Seq::empty() }
    } else {
        advance(scan(text.drop_last()), text.last())
    }
}

/// The tokens of a text: each numeral is a longest run of digits and points
/// with nothing between them, and white space parts tokens without being
/// one.
pub open spec fn tokenize_spec(text: Seq<char>) -> Seq<Lexeme> {
    closed(scan(text))
}

pub fn whitespace(c: char) -> (r: bool)
    ensures
        r == is_whitespace(c),
{
    ('\u{9}' <= c && c <= '\u{d}') || c == ' ' || c == '\u{85}' || c == '\u{a0}' || c
        == '\u{1680}' || ('\u{2000}' <= c && c <= '\u{200a}') || c == '\u{2028}' || c
        == '\u{2029}' || c == '\u{202f}' || c == '\u{205f}' || c == '\u{3000}'
}

pub fn numeral_char(c: char) -> (r: bool)
    ensures
        r == is_numeral_char(c),
{
    ('0' <= c && c <= '9') || c == '.'
}

/// The characters of a string, in order.
pub fn characters(text: &str) -> (r: Vec<char>)
    ensures
        r@ == text@,
{
    broadcast use vstd::string::group_string_axioms;

    let mut out: Vec<char> = Vec::new();
    let mut it = text.chars();
    loop
        invariant_except_break
            out@ + it.remaining() == text@,
            it.decrease() is Some,
        ensures
            out@ == text@,
        decreases it.decrease()->0,
    {
        let ghost ahead = it.remaining();
        let ghost behind = out@;
        match it.next() {
            Some(c) => {
                out.push(c);
                assert(out@ + it.remaining() =~= behind + ahead);
            },
            None => {
                assert(behind + ahead =~= behind);
                break ;
            },
        }
    }
    out
}

/// Splits a text into tokens. Every text has tokens: this cannot fail.
pub fn tokenize(text: &str) -> (tokens: Vec<Token>)
    ensures
        lexemes(tokens@) == tokenize_spec(text@),
{
    let chars = characters(text);
    let mut tokens: Vec<Token> = Vec::new();
    let mut current: Vec<char> = Vec::new();
    let mut i: usize = 0;
    proof {
        assert(text@.subrange(0, 0) =~= Seq::<char>::empty());
        assert(lexemes(tokens@) =~= Seq::<Lexeme>::empty());
    }
    while i < chars.len()
        invariant
            i <= chars@.len(),
            chars@ == text@,
            scan(text@.subrange(0, i as int)) == (Scan {
                done: lexemes(tokens@),
                numeral: current@,
            }),
        decreases chars@.len() - i,
    {
        let c = chars[i];
        let ghost before = lexemes(tokens@);
        let ghost grown = current@;
        proof {
            assert(text@.subrange(0, i + 1).drop_last() =~= text@.subrange(0, i as int));
        }
        let space = whitespace(c);
        if !space && numeral_char(c) {
            current.push(c);
        } else {
            if current.len() > 0 {
                tokens.push(Token::Numeral(current));
                current = Vec::new();
            }
            let ghost flushed = tokens@;
            proof {
                assert(lexemes(flushed) =~= closed(Scan { done: before, numeral: grown }));
                assert(current@ =~= Seq::<char>::empty());
            }
            if !space {
                tokens.push(Token::Symbol(c));
                proof {
                    lemma_lexemes_push(flushed, Token::Symbol(c));
                }
            }
        }
        i += 1;
    }
    proof {
        assert(text@.subrange(0, i as int) =~= text@);
    }
    let ghost before = lexemes(tokens@);
    if current.len() > 0 {
        let ghost grown = current@;
        tokens.push(Token::Numeral(current));
        proof {
            assert(lexemes(tokens@) =~= before.push(Lexeme::Numeral(grown)));
        }
    }
    tokens
}

} // verus!
