//! The lexer: turns source text into tokens.
//!
//! Every token carries the row (always 1: the source is one line) and the
//! column (the index of its first character). The token list always ends with
//! a single `Eof` token, which has no position.
use vstd::prelude::*;

use crate::number::{FloatTerm, NumberValue};
use crate::text::{chars_of, digit_value, is_ascii_digit, is_digit, is_white_space, is_whitespace};

verus! {

#[derive(Debug, PartialEq)]
pub enum TokenType {
    Number(NumberValue),
    Plus,
    Minus,
    Star,
    Slash,
    LParen,
    RParen,
    Eof,
}

impl Clone for TokenType {
    fn clone(&self) -> (res: Self)
        ensures
            res == *self,
    {
        match self {
            TokenType::Number(v) => TokenType::Number(v.clone()),
            TokenType::Plus => TokenType::Plus,
            TokenType::Minus => TokenType::Minus,
            TokenType::Star => TokenType::Star,
            TokenType::Slash => TokenType::Slash,
            TokenType::LParen => TokenType::LParen,
            TokenType::RParen => TokenType::RParen,
            TokenType::Eof => TokenType::Eof,
        }
    }
}

#[derive(Debug, PartialEq)]
pub struct Token {
    pub token_type: TokenType,
    pub row: Option<usize>,
    pub col: Option<usize>,
}

impl Clone for Token {
    fn clone(&self) -> (res: Self)
        ensures
            res == *self,
    {
        Token { token_type: self.token_type.clone(), row: self.row, col: self.col }
    }
}

/// A character that cannot start or continue a token.
#[derive(Debug, Clone, Copy, PartialEq)]
pub struct LexError {
    pub row: usize,
    pub col: usize,
    pub character: char,
}

#[derive(Debug)]
pub struct Lexer {
    chars: Vec<char>,
    position: usize,
}

impl Default for Lexer {
    fn default() -> (res: Self)
        ensures
            res.source() == Seq::<char>::empty(),
            res.position() == 0,
    {
        Lexer { chars: Vec::new(), position: 0 }
    }
}

/// The token type of an operator or parenthesis character.
pub open spec fn operator_type(c: char) -> Option<TokenType> {
    if c == '+' {
        Some(TokenType::Plus)
    } else if c == '-' {
        Some(TokenType::Minus)
    } else if c == '*' {
        Some(TokenType::Star)
    } else if c == '/' {
        Some(TokenType::Slash)
    } else if c == '(' {
        Some(TokenType::LParen)
    } else if c == ')' {
        Some(TokenType::RParen)
    } else {
        None
    }
}

/// A character that may follow a number: whitespace or an operator.
pub open spec fn ends_number(c: char) -> bool {
    is_white_space(c) || operator_type(c) is Some
}

/// The final token of every successful tokenization.
pub open spec fn eof_token() -> Token {
    Token { token_type: TokenType::Eof, row: None, col: None }
}

/// A token on the (only) line 1, at column `col`.
pub open spec fn token_at(token_type: TokenType, col: int) -> Token {
    Token { token_type, row: Some(1), col: Some(col as usize) }
}

/// The error for the character at index `i`.
pub open spec fn error_at_spec(s: Seq<char>, i: int) -> LexError {
    LexError { row: 1, col: i as usize, character: s[i] }
}

/// The number of consecutive digits starting at index `i`.
pub open spec fn digit_run(s: Seq<char>, i: int) -> nat
    decreases s.len() - i,
{
    if 0 <= i < s.len() && is_digit(s[i]) {
        1 + digit_run(s, i + 1)
    } else {
        0
    }
}

/// The value of a string of decimal digits.
pub open spec fn digits_value(d: Seq<char>) -> int
    decreases d.len(),
{
    if d.len() == 0 {
        0
    } else {
        digits_value(d.drop_last()) * 10 + digit_value(d.last())
    }
}

/// The number token for the digits in `s[p..q]` (with a fraction when
/// `fraction` holds), or the error for it.
pub open spec fn finish_number(s: Seq<char>, p: int, q: int, fraction: bool) -> Result<
    (Token, int),
    LexError,
> {
    if q < s.len() && !ends_number(s[q]) {
        Err(error_at_spec(s, q))
    } else if fraction {
        Ok(
            (
                token_at(
                    TokenType::Number(
                        NumberValue::Float(FloatTerm::Literal { start: p as usize, end: q as usize }),
                    ),
                    p,
                ),
                q,
            ),
        )
    } else if digits_value(s.subrange(p, q)) <= i64::MAX {
        Ok((token_at(TokenType::Number(NumberValue::Int(digits_value(s.subrange(p, q)) as i64)), p), q))
    } else {
        Err(error_at_spec(s, p))
    }
}

/// Reads the number that starts at index `p`: digits, then optionally a dot
/// and at least one digit; it must be followed by whitespace, an operator or
/// the end. Gives the token and the index after the number.
pub open spec fn scan_number(s: Seq<char>, p: int) -> Result<(Token, int), LexError> {
    let q1 = p + digit_run(s, p);
    if q1 < s.len() && s[q1] == '.' {
        let f = digit_run(s, q1 + 1);
        if f == 0 {
            Err(error_at_spec(s, q1))
        } else {
            finish_number(s, p, q1 + 1 + f, true)
        }
    } else {
        finish_number(s, p, q1, false)
    }
}

/// `front` followed by the tokens of `rest`, or the error of `rest`.
pub open spec fn prepend(front: Seq<Token>, rest: Result<Seq<Token>, LexError>) -> Result<
    Seq<Token>,
    LexError,
> {
    match rest {
        Ok(r) => Ok(front + r),
        Err(e) => Err(e),
    }
}

/// The tokens of `s` from index `p` on.
pub open spec fn lex_from(s: Seq<char>, p: int) -> Result<Seq<Token>, LexError>
    decreases s.len() - p,
{
    if p < 0 || p >= s.len() {
        Ok(seq![eof_token()])
    } else if is_digit(s[p]) {
        match scan_number(s, p) {
            Err(e) => Err(e),
            Ok((t, q)) => {
                proof {
                    lemma_scan_number_advances(s, p);
                }
                prepend(seq![t], lex_from(s, q))
            },
        }
    } else if is_white_space(s[p]) {
        lex_from(s, p + 1)
    } else if operator_type(s[p]) is Some {
        prepend(seq![token_at(operator_type(s[p]).unwrap(), p)], lex_from(s, p + 1))
    } else {
        Err(error_at_spec(s, p))
    }
}

/// The tokens of a whole source text.
pub open spec fn lex(s: Seq<char>) -> Result<Seq<Token>, LexError> {
    lex_from(s, 0)
}

pub proof fn lemma_digit_run_bounds(s: Seq<char>, i: int)
    requires
        0 <= i <= s.len(),
    ensures
        i + digit_run(s, i) <= s.len(),
        forall|j: int| i <= j < i + digit_run(s, i) ==> is_digit(#[trigger] s[j]),
        i + digit_run(s, i) < s.len() ==> !is_digit(s[i + digit_run(s, i)]),
    decreases s.len() - i,
{
    if i < s.len() && is_digit(s[i]) {
        lemma_digit_run_bounds(s, i + 1);
    }
}

/// A number token ends after its first character and within the text.
pub proof fn lemma_scan_number_advances(s: Seq<char>, p: int)
    requires
        0 <= p < s.len(),
        is_digit(s[p]),
    ensures
        scan_number(s, p) matches Ok((_, q)) ==> p < q <= s.len(),
{
    lemma_digit_run_bounds(s, p);
    let q1 = p + digit_run(s, p);
    if q1 < s.len() && s[q1] == '.' {
        lemma_digit_run_bounds(s, q1 + 1);
    }
}

proof fn lemma_prepend_push(front: Seq<Token>, t: Token, rest: Result<Seq<Token>, LexError>)
    ensures
        prepend(front, prepend(seq![t], rest)) == prepend(front.push(t), rest),
{
    if let Ok(r) = rest {
        assert(front + (seq![t] + r) == front.push(t) + r);
    }
}

impl Lexer {
    /// The characters of the text last given to `tokenize`.
    pub closed spec fn source(&self) -> Seq<char> {
        self.chars@
    }

    /// The index of the next character to read.
    pub closed spec fn position(&self) -> nat {
        self.position as nat
    }

    pub fn new() -> (res: Self)
        ensures
            res.source() == Seq::<char>::empty(),
            res.position() == 0,
    {
        Lexer { chars: Vec::new(), position: 0 }
    }

    /// Splits `source` into tokens. On success the last token is `Eof`; on
    /// failure the error names the first character that cannot be read.
    pub fn tokenize(&mut self, source: &str) -> (res: Result<Vec<Token>, LexError>)
        ensures
            final(self).source() == source@,
            res is Ok ==> final(self).position() == source@.len(),
            res matches Ok(tokens) ==> lex(source@) == Ok::<Seq<Token>, LexError>(tokens@),
            res matches Err(e) ==> lex(source@) == Err::<Seq<Token>, LexError>(e),
    {
        self.chars = chars_of(source);
        self.position = 0;

        let mut tokens: Vec<Token> = Vec::new();

        while self.position < self.chars.len()
            invariant
                self.chars@ == source@,
                self.position <= self.chars.len(),
                lex(source@) == prepend(tokens@, lex_from(source@, self.position as int)),
            decreases self.chars.len() - self.position,
        {
            let ghost s = self.chars@;
            let ghost p = self.position as int;
            let ch = self.chars[self.position];
            if is_ascii_digit(ch) {
                proof {
                    lemma_scan_number_advances(s, p);
                }
                let token = self.consume_number()?;
                proof {
                    lemma_prepend_push(tokens@, token, lex_from(s, self.position as int));
                }
                tokens.push(token);
                continue;
            } else if is_whitespace(ch) {
                // no token produced
            } else if let Some(token_type) = Self::operator_token_type(ch) {
                let token = Token { token_type, row: Some(1), col: Some(self.position) };
                proof {
                    lemma_prepend_push(tokens@, token, lex_from(s, p + 1));
                }
                tokens.push(token);
            } else {
                return Err(LexError { row: 1, col: self.position, character: ch });
            }

            self.position += 1;
        }

        let eof = Token { token_type: TokenType::Eof, row: None, col: None };
        proof {
            assert(tokens@ + seq![eof] == tokens@.push(eof));
        }
        tokens.push(eof);

        Ok(tokens)
    }

    /// Reads the number that starts at the current position and moves past it.
    fn consume_number(&mut self) -> (res: Result<Token, LexError>)
        requires
            old(self).position < old(self).chars.len(),
            is_digit(old(self).chars@[old(self).position as int]),
        ensures
            final(self).chars == old(self).chars,
            match scan_number(old(self).chars@, old(self).position as int) {
                Ok((t, q)) => res == Ok::<Token, LexError>(t) && final(self).position == q,
                Err(e) => res == Err::<Token, LexError>(e),
            },
    {
        let ghost s = self.chars@;
        let start = self.position;
        let mut index = start;

        proof {
            lemma_digit_run_bounds(s, start as int);
        }
        index += self.count_digits_from(index);

        let mut fraction = false;
        if index < self.chars.len() && self.chars[index] == '.' {
            let dot_index = index;
            index += 1;

            proof {
                lemma_digit_run_bounds(s, index as int);
            }
            let fraction_len = self.count_digits_from(index);
            if fraction_len == 0 {
                return Err(self.error_at(dot_index));
            }
            index += fraction_len;
            fraction = true;
        }
        assert(finish_number(s, start as int, index as int, fraction) == scan_number(s, start as int));

        if index < self.chars.len() {
            let next = self.chars[index];
            if !(is_whitespace(next) || Self::operator_token_type(next).is_some()) {
                return Err(self.error_at(index));
            }
        }

        let value = if fraction {
            NumberValue::Float(FloatTerm::Literal { start, end: index })
        } else {
            match self.parse_int(start, index) {
                Some(v) => NumberValue::Int(v),
                None => {
                    return Err(self.error_at(start));
                },
            }
        };
        self.position = index;

        Ok(Token { token_type: TokenType::Number(value), row: Some(1), col: Some(start) })
    }

    /// The digits `chars[start..end]` as an `i64`, or `None` when the value
    /// does not fit.
    fn parse_int(&self, start: usize, end: usize) -> (res: Option<i64>)
        requires
            start <= end <= self.chars.len(),
            forall|j: int| start <= j < end ==> is_digit(#[trigger] self.chars@[j]),
        ensures
            res matches Some(v) ==> v == digits_value(self.chars@.subrange(start as int, end as int)),
            res is None ==> digits_value(self.chars@.subrange(start as int, end as int)) > i64::MAX,
    {
        let ghost s = self.chars@;
        let mut value: i64 = 0;
        let mut i = start;
        while i < end
            invariant
                start <= i <= end <= self.chars.len(),
                s == self.chars@,
                forall|j: int| start <= j < end ==> is_digit(#[trigger] s[j]),
                0 <= value,
                value == digits_value(s.subrange(start as int, i as int)),
            decreases end - i,
        {
            let c = self.chars[i];
            let d = (c as u32 - '0' as u32) as i64;
            assert(s.subrange(start as int, i + 1).drop_last() == s.subrange(start as int, i as int));
            assert(d == digit_value(c));
            if value > (i64::MAX - d) / 10 {
                proof {
                    assert(value * 10 + d > i64::MAX) by (nonlinear_arith)
                        requires
                            value > (i64::MAX - d) / 10,
                            0 <= d <= 9,
                    ;
                    lemma_digits_value_grows(s.subrange(start as int, end as int), (i + 1 - start) as int);
                    assert(s.subrange(start as int, end as int).take((i + 1 - start) as int) == s.subrange(
                        start as int,
                        i + 1,
                    ));
                }
                return None;
            }
            proof {
                assert(value * 10 + d <= i64::MAX) by (nonlinear_arith)
                    requires
                        value <= (i64::MAX - d) / 10,
                        0 <= d <= 9,
                        0 <= value,
                ;
            }
            value = value * 10 + d;
            i += 1;
        }
        Some(value)
    }

    /// The number of consecutive digits from `index` on.
    pub fn count_digits_from(&self, index: usize) -> (res: usize)
        requires
            index <= self.source().len(),
        ensures
            res == digit_run(self.source(), index as int),
    {
        proof {
            lemma_digit_run_bounds(self.chars@, index as int);
        }
        let mut i = index;
        while i < self.chars.len() && is_ascii_digit(self.chars[i])
            invariant
                index <= i <= self.chars.len(),
                digit_run(self.chars@, index as int) == (i - index) + digit_run(self.chars@, i as int),
            decreases self.chars.len() - i,
        {
            i += 1;
        }
        i - index
    }

    /// The error for the character at `index`.
    pub fn error_at(&self, index: usize) -> (res: LexError)
        requires
            index < self.source().len(),
        ensures
            res == error_at_spec(self.source(), index as int),
    {
        LexError { row: 1, col: index, character: self.chars[index] }
    }

    fn operator_token_type(ch: char) -> (res: Option<TokenType>)
        ensures
            res == operator_type(ch),
    {
        match ch {
            '+' => Some(TokenType::Plus),
            '-' => Some(TokenType::Minus),
            '*' => Some(TokenType::Star),
            '/' => Some(TokenType::Slash),
            '(' => Some(TokenType::LParen),
            ')' => Some(TokenType::RParen),
            _ => None,
        }
    }
}

/// A successful tokenization ends with the `Eof` token, and only there.
pub proof fn lemma_lex_from_ends_with_eof(s: Seq<char>, p: int)
    ensures
        lex_from(s, p) matches Ok(ts) ==> {
            &&& ts.len() > 0
            &&& ts.last() == eof_token()
            &&& forall|i: int| 0 <= i < ts.len() - 1 ==> !(#[trigger] ts[i].token_type is Eof)
        },
    decreases s.len() - p,
{
    if 0 <= p < s.len() {
        if is_digit(s[p]) {
            if let Ok((t, q)) = scan_number(s, p) {
                lemma_scan_number_advances(s, p);
                lemma_lex_from_ends_with_eof(s, q);
                if let Ok(r) = lex_from(s, q) {
                    assert forall|i: int| 0 <= i < r.len() implies (seq![t] + r)[i + 1] == r[i] by {}
                }
            }
        } else if is_white_space(s[p]) {
            lemma_lex_from_ends_with_eof(s, p + 1);
        } else if operator_type(s[p]) is Some {
            lemma_lex_from_ends_with_eof(s, p + 1);
            let t = token_at(operator_type(s[p]).unwrap(), p);
            if let Ok(r) = lex_from(s, p + 1) {
                assert forall|i: int| 0 <= i < r.len() implies (seq![t] + r)[i + 1] == r[i] by {}
            }
        }
    }
}

/// A failed tokenization names a character of the text, on line 1, at its
/// index, at or after the index where the reading started.
pub proof fn lemma_lex_from_error_names_character(s: Seq<char>, p: int)
    requires
        0 <= p,
        s.len() <= usize::MAX,
    ensures
        lex_from(s, p) matches Err(e) ==> {
            &&& e.row == 1
            &&& p <= e.col < s.len()
            &&& e.character == s[e.col as int]
        },
    decreases s.len() - p,
{
    if p < s.len() {
        if is_digit(s[p]) {
            lemma_scan_number_advances(s, p);
            lemma_digit_run_bounds(s, p);
            let q1 = p + digit_run(s, p);
            if q1 < s.len() && s[q1] == '.' {
                lemma_digit_run_bounds(s, q1 + 1);
            }
            if let Ok((t, q)) = scan_number(s, p) {
                lemma_lex_from_error_names_character(s, q);
            }
        } else if is_white_space(s[p]) || operator_type(s[p]) is Some {
            lemma_lex_from_error_names_character(s, p + 1);
        }
    }
}

/// A character that the lexer accepts somewhere: whitespace, a digit, the
/// decimal dot, an operator or a parenthesis.
pub open spec fn accepted_char(c: char) -> bool {
    is_white_space(c) || is_digit(c) || c == '.' || operator_type(c) is Some
}

/// Nothing is skipped silently: a text that tokenizes holds only accepted
/// characters from the start of the reading on.
pub proof fn lemma_lex_from_reads_every_char(s: Seq<char>, p: int)
    requires
        0 <= p,
    ensures
        lex_from(s, p) is Ok ==> forall|i: int| p <= i < s.len() ==> accepted_char(#[trigger] s[i]),
    decreases s.len() - p,
{
    if p < s.len() {
        if is_digit(s[p]) {
            if let Ok((t, q)) = scan_number(s, p) {
                lemma_scan_number_advances(s, p);
                lemma_lex_from_reads_every_char(s, q);
                lemma_digit_run_bounds(s, p);
                let q1 = p + digit_run(s, p);
                if q1 < s.len() && s[q1] == '.' {
                    lemma_digit_run_bounds(s, q1 + 1);
                }
                assert forall|i: int| p <= i < q implies accepted_char(#[trigger] s[i]) by {
                    if i < q1 {
                        assert(is_digit(s[i]));
                    } else if i > q1 {
                        assert(is_digit(s[i]));
                    }
                }
            }
        } else if is_white_space(s[p]) || operator_type(s[p]) is Some {
            lemma_lex_from_reads_every_char(s, p + 1);
        }
    }
}

/// Token `t` starts at a character of `s` at or after index `p`: a digit for
/// a number, the operator or parenthesis itself otherwise.
pub open spec fn points_at_start(s: Seq<char>, t: Token, p: int) -> bool {
    &&& t.row == Some(1usize)
    &&& t.col matches Some(c) && p <= c < s.len() && match t.token_type {
        TokenType::Number(_) => is_digit(s[c as int]),
        tt => operator_type(s[c as int]) == Some(tt),
    }
}

/// The column of a token (0 when it has none).
pub open spec fn col_of(t: Token) -> int {
    match t.col {
        Some(c) => c as int,
        None => 0,
    }
}

/// Every token but the final `Eof` points at the character that starts it,
/// and the tokens come in the order of the text.
pub proof fn lemma_lex_from_positions(s: Seq<char>, p: int)
    requires
        0 <= p,
        s.len() <= usize::MAX,
    ensures
        lex_from(s, p) matches Ok(ts) ==> {
            &&& forall|i: int| 0 <= i < ts.len() - 1 ==> points_at_start(s, #[trigger] ts[i], p)
            &&& forall|i: int, j: int|
                0 <= i < j < ts.len() - 1 ==> col_of(#[trigger] ts[i]) < col_of(#[trigger] ts[j])
        },
    decreases s.len() - p,
{
    lemma_lex_from_ends_with_eof(s, p);
    if 0 <= p < s.len() {
        if is_digit(s[p]) {
            if let Ok((t, q)) = scan_number(s, p) {
                lemma_scan_number_advances(s, p);
                lemma_lex_from_positions(s, q);
                lemma_lex_from_ends_with_eof(s, q);
                if let Ok(r) = lex_from(s, q) {
                    let ts = seq![t] + r;
                    assert forall|i: int| 0 <= i < r.len() implies ts[i + 1] == r[i] by {}
                    assert forall|i: int| 0 <= i < ts.len() - 1 implies points_at_start(s, #[trigger] ts[i], p) by {
                        if i > 0 {
                            assert(ts[i] == r[i - 1]);
                        }
                    }
                    assert forall|i: int, j: int|
                        0 <= i < j < ts.len() - 1 implies col_of(#[trigger] ts[i]) < col_of(#[trigger] ts[j]) by {
                        assert(ts[j] == r[j - 1]);
                        assert(points_at_start(s, r[j - 1], q));
                        if i > 0 {
                            assert(ts[i] == r[i - 1]);
                        }
                    }
                }
            }
        } else if is_white_space(s[p]) {
            lemma_lex_from_positions(s, p + 1);
            if let Ok(r) = lex_from(s, p + 1) {
                assert forall|i: int| 0 <= i < r.len() - 1 implies points_at_start(s, #[trigger] r[i], p) by {
                    assert(points_at_start(s, r[i], p + 1));
                }
            }
        } else if operator_type(s[p]) is Some {
            lemma_lex_from_positions(s, p + 1);
            lemma_lex_from_ends_with_eof(s, p + 1);
            let t = token_at(operator_type(s[p]).unwrap(), p);
            if let Ok(r) = lex_from(s, p + 1) {
                let ts = seq![t] + r;
                assert forall|i: int| 0 <= i < r.len() implies ts[i + 1] == r[i] by {}
                assert forall|i: int| 0 <= i < ts.len() - 1 implies points_at_start(s, #[trigger] ts[i], p) by {
                    if i > 0 {
                        assert(ts[i] == r[i - 1]);
                        assert(points_at_start(s, r[i - 1], p + 1));
                    }
                }
                assert forall|i: int, j: int|
                    0 <= i < j < ts.len() - 1 implies col_of(#[trigger] ts[i]) < col_of(#[trigger] ts[j]) by {
                    assert(ts[j] == r[j - 1]);
                    assert(points_at_start(s, r[j - 1], p + 1));
                    if i > 0 {
                        assert(ts[i] == r[i - 1]);
                    }
                }
            }
        }
    }
}

/// `s[a..b]` holds only digits.
pub open spec fn all_digits(s: Seq<char>, a: int, b: int) -> bool {
    0 <= a <= b <= s.len() && forall|i: int| a <= i < b ==> is_digit(#[trigger] s[i])
}

/// `s[a..b]` holds only whitespace.
pub open spec fn all_white(s: Seq<char>, a: int, b: int) -> bool {
    0 <= a <= b <= s.len() && forall|i: int| a <= i < b ==> is_white_space(#[trigger] s[i])
}

/// `s[a..b]` is an integer literal `D+` whose value fits in an `i64`.
pub open spec fn int_item(s: Seq<char>, a: int, b: int) -> bool {
    a < b && all_digits(s, a, b) && digits_value(s.subrange(a, b)) <= i64::MAX
}

/// `s[a..b]` is a decimal literal `D+ '.' D+`.
pub open spec fn float_item(s: Seq<char>, a: int, b: int) -> bool {
    exists|d: int|
        a < d < b - 1 && #[trigger] s[d] == '.' && all_digits(s, a, d) && all_digits(s, d + 1, b)
}

/// One item of a text: an operator or parenthesis, or a number that is not
/// directly followed by anything but whitespace, an operator or the end.
pub open spec fn is_item(s: Seq<char>, it: (int, int)) -> bool {
    let (a, b) = it;
    &&& 0 <= a < b <= s.len()
    &&& {
        ||| b == a + 1 && operator_type(s[a]) is Some
        ||| (b == s.len() || ends_number(s[b])) && (int_item(s, a, b) || float_item(s, a, b))
    }
}

/// `items` splits `s[p..]` as `w0 x1 w1 ... xk wk`: items in order, separated
/// and surrounded by (maybe empty) runs of whitespace.
pub open spec fn splits_into(s: Seq<char>, p: int, items: Seq<(int, int)>) -> bool {
    &&& 0 <= p <= s.len()
    &&& forall|j: int| 0 <= j < items.len() ==> is_item(s, #[trigger] items[j])
    &&& forall|j: int| 0 < j < items.len() ==> all_white(s, items[j - 1].1, #[trigger] items[j].0)
    &&& items.len() == 0 ==> all_white(s, p, s.len() as int)
    &&& items.len() > 0 ==> all_white(s, p, items[0].0) && all_white(s, items.last().1, s.len() as int)
}

/// The token of an item: its operator, its integer value, or its decimal
/// literal, at the column where it starts.
pub open spec fn item_token(s: Seq<char>, it: (int, int)) -> Token {
    let (a, b) = it;
    if operator_type(s[a]) is Some {
        token_at(operator_type(s[a]).unwrap(), a)
    } else if all_digits(s, a, b) {
        token_at(TokenType::Number(NumberValue::Int(digits_value(s.subrange(a, b)) as i64)), a)
    } else {
        token_at(
            TokenType::Number(NumberValue::Float(FloatTerm::Literal { start: a as usize, end: b as usize })),
            a,
        )
    }
}

/// The tokens of the items, one per item, then `Eof`.
pub open spec fn tokens_of_items(s: Seq<char>, items: Seq<(int, int)>) -> Seq<Token> {
    items.map_values(|it: (int, int)| item_token(s, it)) + seq![eof_token()]
}

proof fn lemma_digit_run_of_digits(s: Seq<char>, a: int, b: int)
    requires
        all_digits(s, a, b),
        b == s.len() || !is_digit(s[b]),
    ensures
        digit_run(s, a) == b - a,
    decreases b - a,
{
    if a < b {
        lemma_digit_run_of_digits(s, a + 1, b);
    }
}

/// A number item is read by the lexer as exactly that item.
proof fn lemma_scan_item(s: Seq<char>, a: int, b: int)
    requires
        is_item(s, (a, b)),
        is_digit(s[a]),
    ensures
        scan_number(s, a) == Ok::<(Token, int), LexError>((item_token(s, (a, b)), b)),
{
    if int_item(s, a, b) {
        lemma_digit_run_of_digits(s, a, b);
    } else {
        let d = choose|d: int|
            a < d < b - 1 && #[trigger] s[d] == '.' && all_digits(s, a, d) && all_digits(s, d + 1, b);
        lemma_digit_run_of_digits(s, a, d);
        lemma_digit_run_of_digits(s, d + 1, b);
        assert(!all_digits(s, a, b)) by {
            assert(!is_digit(s[d]));
        }
    }
}

/// Reading along a split gives one token per item, then `Eof`.
proof fn lemma_lex_along_split(s: Seq<char>, p: int, items: Seq<(int, int)>)
    requires
        splits_into(s, p, items),
    ensures
        lex_from(s, p) == Ok::<Seq<Token>, LexError>(tokens_of_items(s, items)),
    decreases s.len() - p,
{
    if p == s.len() {
        if items.len() > 0 {
            assert(is_item(s, items[0]));
        }
        assert(tokens_of_items(s, items) == seq![eof_token()]);
    } else if items.len() > 0 && items[0].0 == p {
        let (a, b) = items[0];
        assert(is_item(s, items[0]));
        let rest = items.drop_first();
        assert(splits_into(s, b, rest)) by {
            assert forall|j: int| 0 <= j < rest.len() implies is_item(s, #[trigger] rest[j]) by {
                assert(rest[j] == items[j + 1]);
            }
            assert forall|j: int| 0 < j < rest.len() implies all_white(s, rest[j - 1].1, #[trigger] rest[j].0) by {
                assert(rest[j] == items[j + 1] && rest[j - 1] == items[j]);
            }
            if rest.len() > 0 {
                assert(rest[0] == items[1]);
                assert(rest.last() == items.last());
            }
        }
        lemma_lex_along_split(s, b, rest);
        let t = item_token(s, items[0]);
        if is_digit(s[a]) {
            lemma_scan_item(s, a, b);
        } else {
            assert(b == a + 1);
        }
        assert(tokens_of_items(s, items) == seq![t] + tokens_of_items(s, rest)) by {
            assert(items.map_values(|it: (int, int)| item_token(s, it)) == seq![t] + rest.map_values(
                |it: (int, int)| item_token(s, it),
            ));
        }
    } else {
        assert(is_white_space(s[p]));
        if items.len() > 0 {
            assert(is_item(s, items[0]));
        }
        lemma_lex_along_split(s, p + 1, items);
    }
}

/// A text that tokenizes splits into items.
proof fn lemma_split_of_lexed(s: Seq<char>, p: int) -> (items: Seq<(int, int)>)
    requires
        0 <= p <= s.len(),
        lex_from(s, p) is Ok,
    ensures
        splits_into(s, p, items),
    decreases s.len() - p,
{
    if p == s.len() {
        Seq::empty()
    } else if is_white_space(s[p]) {
        let items = lemma_split_of_lexed(s, p + 1);
        items
    } else if operator_type(s[p]) is Some {
        let rest = lemma_split_of_lexed(s, p + 1);
        let items = seq![(p, p + 1)] + rest;
        assert forall|j: int| 0 <= j < items.len() implies is_item(s, #[trigger] items[j]) by {
            if j > 0 {
                assert(items[j] == rest[j - 1]);
            }
        }
        assert forall|j: int| 0 < j < items.len() implies all_white(s, items[j - 1].1, #[trigger] items[j].0) by {
            assert(items[j] == rest[j - 1]);
            if j > 1 {
                assert(items[j - 1] == rest[j - 2]);
            }
        }
        if rest.len() > 0 {
            assert(items.last() == rest.last());
        }
        items
    } else {
        let (t, q) = scan_number(s, p).unwrap();
        lemma_scan_number_advances(s, p);
        lemma_digit_run_bounds(s, p);
        let q1 = p + digit_run(s, p);
        assert(is_item(s, (p, q))) by {
            if q1 < s.len() && s[q1] == '.' {
                lemma_digit_run_bounds(s, q1 + 1);
                assert(s[q1] == '.' && all_digits(s, p, q1) && all_digits(s, q1 + 1, q));
            } else {
                assert(all_digits(s, p, q));
            }
        }
        let rest = lemma_split_of_lexed(s, q);
        let items = seq![(p, q)] + rest;
        assert forall|j: int| 0 <= j < items.len() implies is_item(s, #[trigger] items[j]) by {
            if j > 0 {
                assert(items[j] == rest[j - 1]);
            }
        }
        assert forall|j: int| 0 < j < items.len() implies all_white(s, items[j - 1].1, #[trigger] items[j].0) by {
            assert(items[j] == rest[j - 1]);
            if j > 1 {
                assert(items[j - 1] == rest[j - 2]);
            }
        }
        if rest.len() > 0 {
            assert(items.last() == rest.last());
        }
        items
    }
}

/// Tokenizing succeeds exactly on the texts that split into items
/// `w0 x1 w1 ... xk wk` (runs of whitespace `wi`; items `xi` an operator or
/// parenthesis, an integer `D+` that fits in an `i64`, or a decimal
/// `D+ '.' D+`, a number not directly followed by anything but whitespace,
/// an operator or the end). Along such a split the tokens are one per item,
/// at the column where it starts, then the only `Eof`.
pub proof fn lemma_lex_splits_into_items(s: Seq<char>)
    ensures
        lex(s) is Ok <==> exists|items: Seq<(int, int)>| splits_into(s, 0, items),
        forall|items: Seq<(int, int)>|
            splits_into(s, 0, items) ==> lex(s) == Ok::<Seq<Token>, LexError>(
                #[trigger] tokens_of_items(s, items),
            ),
{
    assert forall|items: Seq<(int, int)>| splits_into(s, 0, items) implies lex(s) == Ok::<
        Seq<Token>,
        LexError,
    >(#[trigger] tokens_of_items(s, items)) by {
        lemma_lex_along_split(s, 0, items);
    }
    if lex(s) is Ok {
        let items = lemma_split_of_lexed(s, 0);
        assert(splits_into(s, 0, items));
    }
    if exists|items: Seq<(int, int)>| splits_into(s, 0, items) {
        let items = choose|items: Seq<(int, int)>| splits_into(s, 0, items);
        lemma_lex_along_split(s, 0, items);
    }
}

/// Digits only add to the value: a prefix is never worth more than the whole.
pub proof fn lemma_digits_value_grows(d: Seq<char>, k: int)
    requires
        0 <= k <= d.len(),
        forall|j: int| 0 <= j < d.len() ==> is_digit(#[trigger] d[j]),
    ensures
        0 <= digits_value(d.take(k)) <= digits_value(d),
    decreases d.len(),
{
    if d.len() > 0 {
        if k == d.len() {
            assert(d.take(k) == d);
            lemma_digits_value_grows(d.drop_last(), k - 1);
            assert(d.drop_last().take(k - 1) == d.drop_last());
        } else {
            lemma_digits_value_grows(d.drop_last(), k);
            assert(d.drop_last().take(k) == d.take(k));
        }
    } else {
        assert(d.take(k) == d);
    }
}

} // verus!
