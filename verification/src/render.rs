//! How tokens, integers and positioned errors are written in messages.
//!
//! A float token is written by its `f64` value, which the library does not
//! hold: `TokenType::text` gives `None` for it.
use vstd::prelude::*;

use crate::evaluator::EvaluateError;
use crate::lexer::{digits_value, TokenType};
use crate::text::{digit_value, is_digit};
use crate::number::NumberValue;
use crate::parser::{message_of, ParseError, ParseErrorKind};

verus! {

broadcast use vstd::string::group_string_axioms;

/// The character of a decimal digit `0..=9`.
pub open spec fn digit_char(d: int) -> char {
    if d == 0 {
        '0'
    } else if d == 1 {
        '1'
    } else if d == 2 {
        '2'
    } else if d == 3 {
        '3'
    } else if d == 4 {
        '4'
    } else if d == 5 {
        '5'
    } else if d == 6 {
        '6'
    } else if d == 7 {
        '7'
    } else if d == 8 {
        '8'
    } else {
        '9'
    }
}

/// The decimal digits of `n`, without leading zeros (`"0"` for zero).
pub open spec fn digits_text(n: nat) -> Seq<char>
    decreases n,
{
    if n < 10 {
        seq![digit_char(n as int)]
    } else {
        digits_text(n / 10) + seq![digit_char((n % 10) as int)]
    }
}

/// The decimal text of an integer, with `-` before a negative one.
pub open spec fn int_text(v: int) -> Seq<char> {
    if v < 0 {
        seq!['-'] + digits_text((-v) as nat)
    } else {
        digits_text(v as nat)
    }
}

/// How a token is written in messages; `None` for a float number.
pub open spec fn token_text_of(tt: TokenType) -> Option<Seq<char>> {
    match tt {
        TokenType::Number(NumberValue::Int(n)) => Some(int_text(n as int)),
        TokenType::Number(NumberValue::Float(_)) => None,
        TokenType::Plus => Some("+"@),
        TokenType::Minus => Some("-"@),
        TokenType::Star => Some("*"@),
        TokenType::Slash => Some("/"@),
        TokenType::LParen => Some("("@),
        TokenType::RParen => Some(")"@),
        TokenType::Eof => Some("<EOF>"@),
    }
}

/// A message followed by its position, when both row and column are known.
pub open spec fn located_text(message: Seq<char>, row: Option<usize>, col: Option<usize>) -> Seq<
    char,
> {
    match (row, col) {
        (Some(r), Some(c)) => message + " (line "@ + digits_text(r as nat) + ", column "@
            + digits_text(c as nat) + ")"@,
        _ => message,
    }
}

/// A string of digits without a leading zero (or the single digit `0`).
pub open spec fn canonical_digits(d: Seq<char>) -> bool {
    &&& d.len() > 0
    &&& forall|i: int| 0 <= i < d.len() ==> is_digit(#[trigger] d[i])
    &&& d.len() > 1 ==> d[0] != '0'
}

proof fn lemma_canonical_value_positive(d: Seq<char>)
    requires
        canonical_digits(d),
        d.len() > 1 || d[0] != '0',
    ensures
        digits_value(d) >= 1,
    decreases d.len(),
{
    if d.len() > 1 {
        let e = d.drop_last();
        assert(e[0] == d[0]);
        lemma_canonical_value_positive(e);
        assert(is_digit(d.last()));
    } else {
        assert(d.drop_last() == Seq::<char>::empty());
        assert(digits_value(d.drop_last()) == 0);
        assert(d.last() == d[0]);
    }
}

/// Reading digits and writing the number back agree: the decimal text of
/// the value of a canonical digit string is that string.
pub proof fn lemma_digits_read_back(d: Seq<char>)
    requires
        canonical_digits(d),
    ensures
        digits_text(digits_value(d) as nat) == d,
    decreases d.len(),
{
    if d.len() == 1 {
        assert(d.drop_last() == Seq::<char>::empty());
        assert(digits_value(d.drop_last()) == 0);
        assert(d.last() == d[0]);
        assert(is_digit(d[0]));
        assert(digits_value(d) == digit_value(d[0]));
        assert(seq![digit_char(digit_value(d[0]))] == d);
    } else {
        let e = d.drop_last();
        let c = d.last();
        assert(e[0] == d[0]);
        assert(is_digit(c));
        lemma_canonical_value_positive(e);
        lemma_digits_read_back(e);
        let v = digits_value(e);
        let dv = digit_value(c);
        assert(0 <= dv <= 9);
        assert((v * 10 + dv) / 10 == v && (v * 10 + dv) % 10 == dv && v * 10 + dv >= 10) by (nonlinear_arith)
            requires
                v >= 1,
                0 <= dv <= 9,
        ;
        assert(digit_char(dv) == c);
        assert(e.push(c) == d);
    }
}

fn digit_str(d: u64) -> (res: &'static str)
    requires
        d < 10,
    ensures
        res@ == seq![digit_char(d as int)],
{
    proof {
        reveal_strlit("0");
        reveal_strlit("1");
        reveal_strlit("2");
        reveal_strlit("3");
        reveal_strlit("4");
        reveal_strlit("5");
        reveal_strlit("6");
        reveal_strlit("7");
        reveal_strlit("8");
        reveal_strlit("9");
    }
    if d == 0 {
        "0"
    } else if d == 1 {
        "1"
    } else if d == 2 {
        "2"
    } else if d == 3 {
        "3"
    } else if d == 4 {
        "4"
    } else if d == 5 {
        "5"
    } else if d == 6 {
        "6"
    } else if d == 7 {
        "7"
    } else if d == 8 {
        "8"
    } else {
        "9"
    }
}

/// Appends the decimal digits of `n`.
fn push_digits(s: &mut String, n: u64)
    ensures
        final(s)@ == old(s)@ + digits_text(n as nat),
    decreases n,
{
    if n >= 10 {
        push_digits(s, n / 10);
        s.append(digit_str(n % 10));
        proof {
            assert(old(s)@ + digits_text((n / 10) as nat) + seq![digit_char((n % 10) as int)] == old(
                s,
            )@ + digits_text(n as nat));
        }
    } else {
        s.append(digit_str(n));
    }
}

/// The decimal text of an integer.
pub fn decimal(v: i64) -> (res: String)
    ensures
        res@ == int_text(v as int),
{
    let mut s = String::new();
    if v < 0 {
        s.append("-");
        proof {
            reveal_strlit("-");
        }
        let magnitude: u64 = if v == i64::MIN {
            9223372036854775808u64
        } else {
            (-v) as u64
        };
        push_digits(&mut s, magnitude);
    } else {
        push_digits(&mut s, v as u64);
    }
    s
}

/// `message`, followed by ` (line R, column C)` when both are known.
pub fn located(message: String, row: Option<usize>, col: Option<usize>) -> (res: String)
    ensures
        res@ == located_text(message@, row, col),
{
    match (row, col) {
        (Some(r), Some(c)) => {
            let mut s = message;
            s.append(" (line ");
            push_digits(&mut s, r as u64);
            s.append(", column ");
            push_digits(&mut s, c as u64);
            s.append(")");
            s
        },
        _ => message,
    }
}

impl TokenType {
    /// How the token is written in messages; `None` for a float number,
    /// which is written by its `f64` value.
    pub fn text(&self) -> (res: Option<String>)
        ensures
            match token_text_of(*self) {
                Some(t) => res matches Some(s) && s@ == t,
                None => res is None,
            },
    {
        match self {
            TokenType::Number(NumberValue::Int(n)) => Some(decimal(*n)),
            TokenType::Number(NumberValue::Float(_)) => None,
            TokenType::Plus => Some(String::from_str("+")),
            TokenType::Minus => Some(String::from_str("-")),
            TokenType::Star => Some(String::from_str("*")),
            TokenType::Slash => Some(String::from_str("/")),
            TokenType::LParen => Some(String::from_str("(")),
            TokenType::RParen => Some(String::from_str(")")),
            TokenType::Eof => Some(String::from_str("<EOF>")),
        }
    }
}

/// The token type that an error of kind `kind` names, if any.
pub open spec fn named_token(kind: ParseErrorKind) -> Option<TokenType> {
    match kind {
        ParseErrorKind::EmptyTokenList | ParseErrorKind::MissingEof => None,
        ParseErrorKind::ExpectedEndOfInput(t) => Some(t),
        ParseErrorKind::ExpectedClosingParen(t) => Some(t),
        ParseErrorKind::ExpectedExpression(t) => Some(t),
        ParseErrorKind::ExpectedOperator(t) => Some(t),
    }
}

/// The message of an error, with its token written by `token_text_of`; `None`
/// when the token is a float number.
pub open spec fn own_message_of(kind: ParseErrorKind) -> Option<Seq<char>> {
    match named_token(kind) {
        None => Some(message_of(kind, Seq::empty())),
        Some(t) => match token_text_of(t) {
            Some(text) => Some(message_of(kind, text)),
            None => None,
        },
    }
}

impl ParseError {
    /// The message of this error, with the offending token written by
    /// `TokenType::text`; `None` when that token is a float number, which is
    /// written by its `f64` value.
    pub fn own_message(&self) -> (res: Option<String>)
        ensures
            match own_message_of(self.kind) {
                Some(m) => res matches Some(s) && s@ == m,
                None => res is None,
            },
    {
        let text = match &self.kind {
            ParseErrorKind::EmptyTokenList | ParseErrorKind::MissingEof => Some(String::new()),
            ParseErrorKind::ExpectedEndOfInput(t) => t.text(),
            ParseErrorKind::ExpectedClosingParen(t) => t.text(),
            ParseErrorKind::ExpectedExpression(t) => t.text(),
            ParseErrorKind::ExpectedOperator(t) => t.text(),
        };
        match text {
            Some(t) => Some(self.message(t.as_str())),
            None => None,
        }
    }

    /// The full text of the error: its message, with `token_text` for the
    /// offending token, followed by its position when it has one.
    pub fn text(&self, token_text: &str) -> (res: String)
        ensures
            res@ == located_text(message_of(self.kind, token_text@), self.row, self.col),
    {
        located(self.message(token_text), self.row, self.col)
    }
}

impl EvaluateError {
    /// The full text of the error: its message, followed by its position
    /// when it has one.
    pub fn text(&self) -> (res: String)
        ensures
            res@ == located_text(self.message@, self.row, self.col),
    {
        located(self.message.clone(), self.row, self.col)
    }
}

} // verus!
