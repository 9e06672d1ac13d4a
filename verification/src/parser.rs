//! The parser: turns a token list into an expression tree by precedence
//! climbing.
//!
//! Grammar, with `*` and `/` binding tighter than `+` and `-`, all four left
//! associative, and unary minus binding tighter than any binary operator:
//!
//! ```text
//! expression := prefix (operator expression)*
//! prefix     := number | '-' expression | '(' expression ')'
//! ```
use vstd::prelude::*;

use crate::lexer::{eof_token, lemma_lex_from_ends_with_eof, lex, Token, TokenType};
use crate::number::NumberValue;

verus! {

#[derive(Debug, Clone, Copy, PartialEq, Eq)]
pub enum BinaryOperator {
    Add,
    Sub,
    Mul,
    Div,
}

#[derive(Debug, Clone, Copy, PartialEq, Eq)]
pub enum UnaryOperator {
    Neg,
}

#[derive(Debug, PartialEq)]
pub struct Literal {
    pub row: Option<usize>,
    pub col: Option<usize>,
    pub value: NumberValue,
}

#[derive(Debug, PartialEq)]
pub struct BinaryOp {
    pub row: Option<usize>,
    pub col: Option<usize>,
    pub left: Box<Expr>,
    pub op: BinaryOperator,
    pub right: Box<Expr>,
}

#[derive(Debug, PartialEq)]
pub struct UnaryOp {
    pub row: Option<usize>,
    pub col: Option<usize>,
    pub op: UnaryOperator,
    pub operand: Box<Expr>,
}

/// An expression tree. Each node carries the position of the token that
/// made it: the number, the binary operator, or the unary minus.
#[derive(Debug, PartialEq)]
pub enum Expr {
    Literal(Literal),
    Binary(BinaryOp),
    Unary(UnaryOp),
}

impl Clone for Literal {
    fn clone(&self) -> (res: Self)
        ensures
            res == *self,
    {
        Literal { row: self.row, col: self.col, value: self.value.clone() }
    }
}

impl Clone for BinaryOp {
    fn clone(&self) -> (res: Self)
        ensures
            res == *self,
        decreases self,
    {
        BinaryOp {
            row: self.row,
            col: self.col,
            left: Box::new((*self.left).clone()),
            op: self.op,
            right: Box::new((*self.right).clone()),
        }
    }
}

impl Clone for UnaryOp {
    fn clone(&self) -> (res: Self)
        ensures
            res == *self,
        decreases self,
    {
        UnaryOp { row: self.row, col: self.col, op: self.op, operand: Box::new((*self.operand).clone()) }
    }
}

impl Clone for Expr {
    fn clone(&self) -> (res: Self)
        ensures
            res == *self,
        decreases self,
    {
        match self {
            Expr::Literal(l) => Expr::Literal(l.clone()),
            Expr::Binary(b) => Expr::Binary(b.clone()),
            Expr::Unary(u) => Expr::Unary(u.clone()),
        }
    }
}

/// Why a token list is not an expression.
#[derive(Debug, PartialEq)]
pub enum ParseErrorKind {
    /// The token list has no token at all.
    EmptyTokenList,
    /// The last token is not `Eof`.
    MissingEof,
    /// A whole expression was read, but this token follows it.
    ExpectedEndOfInput(TokenType),
    /// An opening parenthesis is closed by this token instead of `)`.
    ExpectedClosingParen(TokenType),
    /// An expression must start here, and this token cannot start one.
    ExpectedExpression(TokenType),
    /// A binary operator is needed here.
    ExpectedOperator(TokenType),
}

impl Clone for ParseErrorKind {
    fn clone(&self) -> (res: Self)
        ensures
            res == *self,
    {
        match self {
            ParseErrorKind::EmptyTokenList => ParseErrorKind::EmptyTokenList,
            ParseErrorKind::MissingEof => ParseErrorKind::MissingEof,
            ParseErrorKind::ExpectedEndOfInput(t) => ParseErrorKind::ExpectedEndOfInput(t.clone()),
            ParseErrorKind::ExpectedClosingParen(t) => ParseErrorKind::ExpectedClosingParen(t.clone()),
            ParseErrorKind::ExpectedExpression(t) => ParseErrorKind::ExpectedExpression(t.clone()),
            ParseErrorKind::ExpectedOperator(t) => ParseErrorKind::ExpectedOperator(t.clone()),
        }
    }
}

/// A parse error at the position of the offending token (none for an empty
/// list or an `Eof` token).
#[derive(Debug, PartialEq)]
pub struct ParseError {
    pub row: Option<usize>,
    pub col: Option<usize>,
    pub kind: ParseErrorKind,
}

/// The message of an error of kind `kind`, where `token_text` is how the
/// offending token is written.
pub open spec fn message_of(kind: ParseErrorKind, token_text: Seq<char>) -> Seq<char> {
    match kind {
        ParseErrorKind::EmptyTokenList => "Token list is empty"@,
        ParseErrorKind::MissingEof => "Last token has to be EOF"@,
        ParseErrorKind::ExpectedEndOfInput(_) => "Unexpected token '"@ + token_text
            + "', expected end of input"@,
        ParseErrorKind::ExpectedClosingParen(_) => "Expected ')', found '"@ + token_text + "'"@,
        ParseErrorKind::ExpectedExpression(_) => "Unexpected token '"@ + token_text
            + "', expected an expression"@,
        ParseErrorKind::ExpectedOperator(_) => "Unexpected token '"@ + token_text
            + "', expected an operator"@,
    }
}

impl ParseError {
    /// The message of this error; `token_text` is how the offending token is
    /// written (it is not used by the kinds that name no token).
    pub fn message(&self, token_text: &str) -> (res: String)
        ensures
            res@ == message_of(self.kind, token_text@),
    {
        match self.kind {
            ParseErrorKind::EmptyTokenList => String::from_str("Token list is empty"),
            ParseErrorKind::MissingEof => String::from_str("Last token has to be EOF"),
            ParseErrorKind::ExpectedEndOfInput(_) => {
                let mut m = String::from_str("Unexpected token '");
                m.append(token_text);
                m.append("', expected end of input");
                m
            },
            ParseErrorKind::ExpectedClosingParen(_) => {
                let mut m = String::from_str("Expected ')', found '");
                m.append(token_text);
                m.append("'");
                m
            },
            ParseErrorKind::ExpectedExpression(_) => {
                let mut m = String::from_str("Unexpected token '");
                m.append(token_text);
                m.append("', expected an expression");
                m
            },
            ParseErrorKind::ExpectedOperator(_) => {
                let mut m = String::from_str("Unexpected token '");
                m.append(token_text);
                m.append("', expected an operator");
                m
            },
        }
    }
}

impl Clone for ParseError {
    fn clone(&self) -> (res: Self)
        ensures
            res == *self,
    {
        ParseError { row: self.row, col: self.col, kind: self.kind.clone() }
    }
}

#[derive(Debug)]
pub struct Parser {
    tokens: Vec<Token>,
    position: usize,
}

impl Default for Parser {
    fn default() -> (res: Self)
        ensures
            res.tokens() == Seq::<Token>::empty(),
    {
        Parser { tokens: Vec::new(), position: 0 }
    }
}

/// The token at `p`; past the end, an `Eof` token.
pub open spec fn tok(ts: Seq<Token>, p: int) -> Token {
    if 0 <= p < ts.len() {
        ts[p]
    } else {
        eof_token()
    }
}

/// A token list that the parser reads: not empty, ending with `Eof`.
pub open spec fn well_terminated(ts: Seq<Token>) -> bool {
    ts.len() > 0 && ts.last().token_type is Eof
}

/// Binding strength of a binary operator; -1 for every other token.
pub open spec fn precedence_of(tt: TokenType) -> int {
    match tt {
        TokenType::Plus | TokenType::Minus => 1,
        TokenType::Star | TokenType::Slash => 2,
        _ => -1,
    }
}

pub open spec fn error_for(t: Token, kind: ParseErrorKind) -> ParseError {
    ParseError { row: t.row, col: t.col, kind }
}

/// The binary operator that a token stands for.
pub open spec fn binary_operator_of(t: Token) -> Result<BinaryOperator, ParseError> {
    match t.token_type {
        TokenType::Plus => Ok(BinaryOperator::Add),
        TokenType::Minus => Ok(BinaryOperator::Sub),
        TokenType::Star => Ok(BinaryOperator::Mul),
        TokenType::Slash => Ok(BinaryOperator::Div),
        _ => Err(error_for(t, ParseErrorKind::ExpectedOperator(t.token_type))),
    }
}

/// The binary node made by operator token `t`.
pub open spec fn binary_node(t: Token, op: BinaryOperator, left: Expr, right: Expr) -> Expr {
    Expr::Binary(
        BinaryOp { row: t.row, col: t.col, left: Box::new(left), op, right: Box::new(right) },
    )
}

/// Reads an expression from `p` on whose binary operators bind at least as
/// tightly as `min`; gives the tree and the index after it.
pub open spec fn parse_expr(ts: Seq<Token>, p: int, min: int) -> Result<(Expr, int), ParseError>
    decreases ts.len() - p, 1int,
{
    match parse_prefix(ts, p) {
        Err(e) => Err(e),
        Ok((left, p1)) => {
            if p <= p1 <= ts.len() {
                parse_loop(ts, left, p1, min)
            } else {
                Ok((left, p1))
            }
        },
    }
}

/// With `left` read up to `p`, takes binary operators of precedence at least
/// `min`, each followed by an expression of higher precedence.
pub open spec fn parse_loop(ts: Seq<Token>, left: Expr, p: int, min: int) -> Result<
    (Expr, int),
    ParseError,
>
    decreases ts.len() - p, 0int,
{
    let t = tok(ts, p);
    let prec = precedence_of(t.token_type);
    if prec < min {
        Ok((left, p))
    } else {
        match binary_operator_of(t) {
            Err(e) => Err(e),
            Ok(op) => match parse_expr(ts, p + 1, prec + 1) {
                Err(e) => Err(e),
                Ok((right, p2)) => {
                    if p < p2 <= ts.len() {
                        parse_loop(ts, binary_node(t, op, left, right), p2, min)
                    } else {
                        Ok((binary_node(t, op, left, right), p2))
                    }
                },
            },
        }
    }
}

/// Reads a number, a negated expression, or a parenthesized expression.
pub open spec fn parse_prefix(ts: Seq<Token>, p: int) -> Result<(Expr, int), ParseError>
    decreases ts.len() - p, 0int,
{
    let t = tok(ts, p);
    match t.token_type {
        TokenType::Number(value) => Ok(
            (Expr::Literal(Literal { row: t.row, col: t.col, value }), p + 1),
        ),
        TokenType::Minus => match parse_expr(ts, p + 1, 3) {
            Err(e) => Err(e),
            Ok((operand, q)) => Ok(
                (
                    Expr::Unary(
                        UnaryOp {
                            row: t.row,
                            col: t.col,
                            op: UnaryOperator::Neg,
                            operand: Box::new(operand),
                        },
                    ),
                    q,
                ),
            ),
        },
        TokenType::LParen => match parse_expr(ts, p + 1, 0) {
            Err(e) => Err(e),
            Ok((inner, q)) => {
                let c = tok(ts, q);
                if c.token_type is RParen {
                    Ok((inner, q + 1))
                } else {
                    Err(error_for(c, ParseErrorKind::ExpectedClosingParen(c.token_type)))
                }
            },
        },
        _ => Err(error_for(t, ParseErrorKind::ExpectedExpression(t.token_type))),
    }
}

/// A token after which a prefix reads a nested expression.
pub open spec fn opens_subexpression(tt: TokenType) -> bool {
    tt is Minus || tt is LParen
}

/// The check made before parsing.
pub open spec fn validation(ts: Seq<Token>) -> Result<(), ParseError> {
    if ts.len() == 0 {
        Err(ParseError { row: None, col: None, kind: ParseErrorKind::EmptyTokenList })
    } else if !(ts.last().token_type is Eof) {
        Err(error_for(ts.last(), ParseErrorKind::MissingEof))
    } else {
        Ok(())
    }
}

/// The expression that a whole token list stands for.
pub open spec fn parse_tokens(ts: Seq<Token>) -> Result<Expr, ParseError> {
    match validation(ts) {
        Err(e) => Err(e),
        Ok(_) => match parse_expr(ts, 0, 0) {
            Err(e) => Err(e),
            Ok((e, p)) => {
                let t = tok(ts, p);
                if t.token_type is Eof {
                    Ok(e)
                } else {
                    Err(error_for(t, ParseErrorKind::ExpectedEndOfInput(t.token_type)))
                }
            },
        },
    }
}

/// On a well-terminated list, an expression read from a position before the
/// end ends later, but still before the end.
pub proof fn lemma_expr_advances(ts: Seq<Token>, p: int, min: int)
    requires
        well_terminated(ts),
        0 <= p < ts.len(),
    ensures
        parse_expr(ts, p, min) matches Ok((_, q)) ==> p < q < ts.len(),
    decreases ts.len() - p, 1int,
{
    lemma_prefix_advances(ts, p);
    if let Ok((left, p1)) = parse_prefix(ts, p) {
        lemma_loop_advances(ts, left, p1, min);
    }
}

pub proof fn lemma_prefix_advances(ts: Seq<Token>, p: int)
    requires
        well_terminated(ts),
        0 <= p < ts.len(),
    ensures
        parse_prefix(ts, p) matches Ok((_, q)) ==> p < q < ts.len(),
    decreases ts.len() - p, 0int,
{
    let t = tok(ts, p);
    match t.token_type {
        TokenType::Minus => {
            lemma_expr_advances(ts, p + 1, 3);
        },
        TokenType::LParen => {
            lemma_expr_advances(ts, p + 1, 0);
        },
        _ => {},
    }
}

pub proof fn lemma_loop_advances(ts: Seq<Token>, left: Expr, p: int, min: int)
    requires
        well_terminated(ts),
        0 <= p < ts.len(),
    ensures
        parse_loop(ts, left, p, min) matches Ok((_, q)) ==> p <= q < ts.len(),
    decreases ts.len() - p, 0int,
{
    let t = tok(ts, p);
    let prec = precedence_of(t.token_type);
    if prec >= min {
        if let Ok(op) = binary_operator_of(t) {
            lemma_expr_advances(ts, p + 1, prec + 1);
            if let Ok((right, p2)) = parse_expr(ts, p + 1, prec + 1) {
                lemma_loop_advances(ts, binary_node(t, op, left, right), p2, min);
            }
        }
    }
}

/// The result is never the error of a missing operator: an operator is only
/// looked for where the token has an operator's precedence.
pub open spec fn not_operator_error(r: Result<(Expr, int), ParseError>) -> bool {
    !(r matches Err(e) && e.kind is ExpectedOperator)
}

pub proof fn lemma_expr_never_misses_operator(ts: Seq<Token>, p: int, min: int)
    requires
        min >= 0,
    ensures
        not_operator_error(parse_expr(ts, p, min)),
    decreases ts.len() - p, 1int,
{
    lemma_prefix_never_misses_operator(ts, p);
    if let Ok((left, p1)) = parse_prefix(ts, p) {
        if p <= p1 <= ts.len() {
            lemma_loop_never_misses_operator(ts, left, p1, min);
        }
    }
}

pub proof fn lemma_prefix_never_misses_operator(ts: Seq<Token>, p: int)
    ensures
        not_operator_error(parse_prefix(ts, p)),
    decreases ts.len() - p, 0int,
{
    let t = tok(ts, p);
    match t.token_type {
        TokenType::Minus => {
            lemma_expr_never_misses_operator(ts, p + 1, 3);
        },
        TokenType::LParen => {
            lemma_expr_never_misses_operator(ts, p + 1, 0);
        },
        _ => {},
    }
}

pub proof fn lemma_loop_never_misses_operator(ts: Seq<Token>, left: Expr, p: int, min: int)
    requires
        min >= 0,
    ensures
        not_operator_error(parse_loop(ts, left, p, min)),
    decreases ts.len() - p, 0int,
{
    let t = tok(ts, p);
    let prec = precedence_of(t.token_type);
    if prec >= min {
        if let Ok(op) = binary_operator_of(t) {
            lemma_expr_never_misses_operator(ts, p + 1, prec + 1);
            if let Ok((right, p2)) = parse_expr(ts, p + 1, prec + 1) {
                if p < p2 <= ts.len() {
                    lemma_loop_never_misses_operator(ts, binary_node(t, op, left, right), p2, min);
                }
            }
        }
    }
}

/// Parsing a token list never fails for want of an operator: where the
/// parser expects an operator, the token has an operator's precedence.
pub proof fn lemma_parse_never_misses_operator(ts: Seq<Token>)
    ensures
        !(parse_tokens(ts) matches Err(e) && e.kind is ExpectedOperator),
{
    lemma_expr_never_misses_operator(ts, 0, 0);
}

/// The token type of a binary operator.
pub open spec fn operator_token(op: BinaryOperator) -> TokenType {
    match op {
        BinaryOperator::Add => TokenType::Plus,
        BinaryOperator::Sub => TokenType::Minus,
        BinaryOperator::Mul => TokenType::Star,
        BinaryOperator::Div => TokenType::Slash,
    }
}

/// Token `ts[i]`, among `ts[p..q]`, has the given position and type.
pub open spec fn token_in(ts: Seq<Token>, p: int, q: int, row: Option<usize>, col: Option<usize>, tt: TokenType) -> bool {
    exists|i: int| p <= i < q && #[trigger] ts[i] == (Token { token_type: tt, row, col })
}

/// Every node of `e` is made from a token of `ts[p..q]` and carries its
/// position: a literal its number, a negation its `-`, a binary node its
/// operator.
pub open spec fn made_from(e: Expr, ts: Seq<Token>, p: int, q: int) -> bool
    decreases e,
{
    match e {
        Expr::Literal(l) => token_in(ts, p, q, l.row, l.col, TokenType::Number(l.value)),
        Expr::Unary(u) => token_in(ts, p, q, u.row, u.col, TokenType::Minus) && made_from(*u.operand, ts, p, q),
        Expr::Binary(b) => token_in(ts, p, q, b.row, b.col, operator_token(b.op)) && made_from(*b.left, ts, p, q)
            && made_from(*b.right, ts, p, q),
    }
}

pub proof fn lemma_made_from_widens(e: Expr, ts: Seq<Token>, p: int, q: int, p2: int, q2: int)
    requires
        made_from(e, ts, p, q),
        p2 <= p,
        q <= q2,
    ensures
        made_from(e, ts, p2, q2),
    decreases e,
{
    match e {
        Expr::Literal(l) => {
            let i = choose|i: int| p <= i < q && #[trigger] ts[i] == (Token { token_type: TokenType::Number(l.value), row: l.row, col: l.col });
            assert(p2 <= i < q2 && ts[i] == (Token { token_type: TokenType::Number(l.value), row: l.row, col: l.col }));
        },
        Expr::Unary(u) => {
            let i = choose|i: int| p <= i < q && #[trigger] ts[i] == (Token { token_type: TokenType::Minus, row: u.row, col: u.col });
            assert(p2 <= i < q2 && ts[i] == (Token { token_type: TokenType::Minus, row: u.row, col: u.col }));
            lemma_made_from_widens(*u.operand, ts, p, q, p2, q2);
        },
        Expr::Binary(b) => {
            let i = choose|i: int| p <= i < q && #[trigger] ts[i] == (Token { token_type: operator_token(b.op), row: b.row, col: b.col });
            assert(p2 <= i < q2 && ts[i] == (Token { token_type: operator_token(b.op), row: b.row, col: b.col }));
            lemma_made_from_widens(*b.left, ts, p, q, p2, q2);
            lemma_made_from_widens(*b.right, ts, p, q, p2, q2);
        },
    }
}

/// Each node of a parsed expression carries the position of the token it was
/// made from: the number of a literal, the `-` of a negation, the operator
/// (not the left operand) of a binary node.
pub proof fn lemma_expr_made_from_tokens(ts: Seq<Token>, p: int, min: int)
    requires
        well_terminated(ts),
        0 <= p < ts.len(),
    ensures
        parse_expr(ts, p, min) matches Ok((e, q)) ==> made_from(e, ts, p, q),
    decreases ts.len() - p, 1int,
{
    lemma_prefix_advances(ts, p);
    lemma_prefix_made_from_tokens(ts, p);
    if let Ok((left, p1)) = parse_prefix(ts, p) {
        lemma_loop_made_from_tokens(ts, left, p, p1, min);
    }
}

pub proof fn lemma_prefix_made_from_tokens(ts: Seq<Token>, p: int)
    requires
        well_terminated(ts),
        0 <= p < ts.len(),
    ensures
        parse_prefix(ts, p) matches Ok((e, q)) ==> made_from(e, ts, p, q),
    decreases ts.len() - p, 0int,
{
    let t = tok(ts, p);
    match t.token_type {
        TokenType::Number(value) => {
            assert(ts[p] == (Token { token_type: TokenType::Number(value), row: t.row, col: t.col }));
        },
        TokenType::Minus => {
            lemma_expr_advances(ts, p + 1, 3);
            lemma_expr_made_from_tokens(ts, p + 1, 3);
            if let Ok((operand, q)) = parse_expr(ts, p + 1, 3) {
                assert(ts[p] == (Token { token_type: TokenType::Minus, row: t.row, col: t.col }));
                lemma_made_from_widens(operand, ts, p + 1, q, p, q);
            }
        },
        TokenType::LParen => {
            lemma_expr_advances(ts, p + 1, 0);
            lemma_expr_made_from_tokens(ts, p + 1, 0);
            if let Ok((inner, q)) = parse_expr(ts, p + 1, 0) {
                lemma_made_from_widens(inner, ts, p + 1, q, p, q + 1);
            }
        },
        _ => {},
    }
}

pub proof fn lemma_loop_made_from_tokens(ts: Seq<Token>, left: Expr, p0: int, p: int, min: int)
    requires
        well_terminated(ts),
        0 <= p0 <= p < ts.len(),
        made_from(left, ts, p0, p),
    ensures
        parse_loop(ts, left, p, min) matches Ok((e, q)) ==> made_from(e, ts, p0, q),
    decreases ts.len() - p, 0int,
{
    let t = tok(ts, p);
    let prec = precedence_of(t.token_type);
    if prec >= min {
        if let Ok(op) = binary_operator_of(t) {
            lemma_expr_advances(ts, p + 1, prec + 1);
            lemma_expr_made_from_tokens(ts, p + 1, prec + 1);
            if let Ok((right, p2)) = parse_expr(ts, p + 1, prec + 1) {
                let node = binary_node(t, op, left, right);
                assert(ts[p] == (Token { token_type: operator_token(op), row: t.row, col: t.col }));
                lemma_made_from_widens(left, ts, p0, p, p0, p2);
                lemma_made_from_widens(right, ts, p + 1, p2, p0, p2);
                assert(made_from(node, ts, p0, p2));
                lemma_loop_made_from_tokens(ts, node, p0, p2, min);
            }
        }
    }
}

/// A successfully parsed token list gives an expression whose every node
/// carries the position of the token it was made from.
pub proof fn lemma_parse_made_from_tokens(ts: Seq<Token>)
    ensures
        parse_tokens(ts) matches Ok(e) ==> made_from(e, ts, 0, ts.len() as int),
{
    if validation(ts) is Ok {
        lemma_expr_advances(ts, 0, 0);
        lemma_expr_made_from_tokens(ts, 0, 0);
        if let Ok((e, q)) = parse_expr(ts, 0, 0) {
            lemma_made_from_widens(e, ts, 0, q, 0, ts.len() as int);
        }
    }
}

/// The grammar level that an expression read with minimum precedence `min`
/// belongs to: 1 for `E`, 2 for `T`, 3 for `F`.
pub open spec fn level_of(min: int) -> int {
    if min <= 1 {
        1
    } else if min == 2 {
        2
    } else {
        3
    }
}

/// `e` is a parse tree of `ts[p..q]` at grammar level `lvl` of
///
/// ```text
/// E ::= E ('+' | '-') T | T        (level 1)
/// T ::= T ('*' | '/') F | F        (level 2)
/// F ::= Number | '-' F | '(' E ')' (level 3)
/// ```
///
/// with a binary node for each binary operator (carrying its position), a
/// negation for each `'-' F`, a literal for each number, and no node for
/// parentheses.
pub open spec fn derives(e: Expr, ts: Seq<Token>, p: int, q: int, lvl: int) -> bool
    decreases q - p, 3 - lvl,
{
    if p < 0 || q > ts.len() || p >= q {
        false
    } else if lvl <= 2 {
        ||| {
            &&& e matches Expr::Binary(b)
            &&& precedence_of(operator_token(b.op)) == lvl
            &&& exists|m: int|
                p < m && m + 1 < q && #[trigger] ts[m] == (Token {
                    token_type: operator_token(b.op),
                    row: b.row,
                    col: b.col,
                }) && derives(*b.left, ts, p, m, lvl) && derives(*b.right, ts, m + 1, q, lvl + 1)
        }
        ||| derives(e, ts, p, q, lvl + 1)
    } else {
        ||| {
            &&& e matches Expr::Literal(l)
            &&& q == p + 1
            &&& ts[p] == (Token { token_type: TokenType::Number(l.value), row: l.row, col: l.col })
        }
        ||| {
            &&& e matches Expr::Unary(u)
            &&& u.op == UnaryOperator::Neg
            &&& ts[p] == (Token { token_type: TokenType::Minus, row: u.row, col: u.col })
            &&& derives(*u.operand, ts, p + 1, q, 3)
        }
        ||| {
            &&& q >= p + 2
            &&& ts[p].token_type is LParen
            &&& ts[q - 1].token_type is RParen
            &&& derives(e, ts, p + 1, q - 1, 1)
        }
    }
}

pub proof fn lemma_expr_derives(ts: Seq<Token>, p: int, min: int)
    requires
        well_terminated(ts),
        0 <= p < ts.len(),
        0 <= min <= 3,
    ensures
        parse_expr(ts, p, min) matches Ok((e, q)) ==> derives(e, ts, p, q, level_of(min)),
    decreases ts.len() - p, 1int,
{
    lemma_prefix_advances(ts, p);
    lemma_prefix_derives(ts, p);
    if let Ok((left, p1)) = parse_prefix(ts, p) {
        assert(derives(left, ts, p, p1, 2));
        assert(derives(left, ts, p, p1, 1));
        lemma_loop_derives(ts, left, p, p1, min);
    }
}

pub proof fn lemma_prefix_derives(ts: Seq<Token>, p: int)
    requires
        well_terminated(ts),
        0 <= p < ts.len(),
    ensures
        parse_prefix(ts, p) matches Ok((e, q)) ==> derives(e, ts, p, q, 3),
    decreases ts.len() - p, 0int,
{
    let t = tok(ts, p);
    match t.token_type {
        TokenType::Minus => {
            lemma_expr_advances(ts, p + 1, 3);
            lemma_expr_derives(ts, p + 1, 3);
        },
        TokenType::LParen => {
            lemma_expr_advances(ts, p + 1, 0);
            lemma_expr_derives(ts, p + 1, 0);
        },
        _ => {},
    }
}

/// With `left` a parse tree of `ts[p0..p]` at the level of `min` (and of `T`
/// when a `*` or `/` follows), the loop gives a parse tree at that level.
pub proof fn lemma_loop_derives(ts: Seq<Token>, left: Expr, p0: int, p: int, min: int)
    requires
        well_terminated(ts),
        0 <= p0 < p < ts.len(),
        0 <= min <= 3,
        derives(left, ts, p0, p, level_of(min)),
        precedence_of(tok(ts, p).token_type) >= 2 ==> derives(left, ts, p0, p, 2),
    ensures
        parse_loop(ts, left, p, min) matches Ok((e, q)) ==> derives(e, ts, p0, q, level_of(min)),
    decreases ts.len() - p, 0int,
{
    let t = tok(ts, p);
    let prec = precedence_of(t.token_type);
    if prec >= min {
        if let Ok(op) = binary_operator_of(t) {
            lemma_expr_advances(ts, p + 1, prec + 1);
            lemma_expr_derives(ts, p + 1, prec + 1);
            lemma_expr_stops_below(ts, p + 1, prec + 1);
            if let Ok((right, p2)) = parse_expr(ts, p + 1, prec + 1) {
                let node = binary_node(t, op, left, right);
                assert(ts[p] == (Token { token_type: operator_token(op), row: t.row, col: t.col }));
                if prec == 2 {
                    assert(derives(node, ts, p0, p2, 2));
                    assert(derives(node, ts, p0, p2, level_of(min)));
                } else {
                    assert(derives(node, ts, p0, p2, 1));
                }
                lemma_loop_derives(ts, node, p0, p2, min);
            }
        }
    }
}

/// A successful parse gives a parse tree, for the grammar of `derives`, of
/// the tokens before the `Eof` where it stops.
pub proof fn lemma_parse_gives_parse_tree(ts: Seq<Token>)
    ensures
        parse_tokens(ts) matches Ok(e) ==> exists|n: int|
            0 <= n < ts.len() && #[trigger] ts[n].token_type is Eof && derives(e, ts, 0, n, 1),
{
    if validation(ts) is Ok {
        lemma_expr_advances(ts, 0, 0);
        lemma_expr_derives(ts, 0, 0);
        if let Ok((e, q)) = parse_expr(ts, 0, 0) {
            if tok(ts, q).token_type is Eof {
                assert(ts[q].token_type is Eof && derives(e, ts, 0, q, 1));
            }
        }
    }
}

/// Every parse tree is found: a parse tree `e` of `ts[p..q]` at the level
/// of `min`, followed by a token that binds more loosely than `min`, is what
/// the parser reads from `p`.
pub proof fn lemma_expr_finds_tree(ts: Seq<Token>, e: Expr, p: int, q: int, min: int)
    requires
        0 <= min <= 3,
        derives(e, ts, p, q, level_of(min)),
        precedence_of(tok(ts, q).token_type) < min,
    ensures
        parse_expr(ts, p, min) == Ok::<(Expr, int), ParseError>((e, q)),
    decreases q - p, 2int, 0int,
{
    lemma_expr_reaches_tree(ts, e, p, q, level_of(min), min);
}

/// The parser from `p` reaches the loop state where `e`, a parse tree of
/// `ts[p..q]` at level `lvl`, has been read and `q` is next.
pub proof fn lemma_expr_reaches_tree(ts: Seq<Token>, e: Expr, p: int, q: int, lvl: int, min: int)
    requires
        0 <= min <= lvl <= 3,
        level_of(min) <= lvl,
        derives(e, ts, p, q, lvl),
        precedence_of(tok(ts, q).token_type) < lvl + 1,
    ensures
        parse_expr(ts, p, min) == parse_loop(ts, e, q, min),
    decreases q - p, 1int, 3 - lvl,
{
    let binary_here = e matches Expr::Binary(b) && precedence_of(operator_token(b.op)) == lvl && exists|m: int|
        p < m && m + 1 < q && #[trigger] ts[m] == (Token {
            token_type: operator_token(b.op),
            row: b.row,
            col: b.col,
        }) && derives(*b.left, ts, p, m, lvl) && derives(*b.right, ts, m + 1, q, lvl + 1);
    if lvl <= 2 && binary_here {
        let b = e->Binary_0;
        let m = choose|m: int|
            p < m && m + 1 < q && #[trigger] ts[m] == (Token {
                token_type: operator_token(b.op),
                row: b.row,
                col: b.col,
            }) && derives(*b.left, ts, p, m, lvl) && derives(*b.right, ts, m + 1, q, lvl + 1);
        lemma_expr_reaches_tree(ts, *b.left, p, m, lvl, min);
        lemma_expr_finds_tree(ts, *b.right, m + 1, q, lvl + 1);
        let t = tok(ts, m);
        assert(binary_operator_of(t) == Ok::<BinaryOperator, ParseError>(b.op));
        assert(binary_node(t, b.op, *b.left, *b.right) == e);
    } else if lvl <= 2 {
        lemma_expr_reaches_tree(ts, e, p, q, lvl + 1, min);
    } else {
        lemma_prefix_finds_tree(ts, e, p, q);
    }
}

pub proof fn lemma_prefix_finds_tree(ts: Seq<Token>, e: Expr, p: int, q: int)
    requires
        derives(e, ts, p, q, 3),
    ensures
        parse_prefix(ts, p) == Ok::<(Expr, int), ParseError>((e, q)),
    decreases q - p, 0int, 0int,
{
    let literal_here = e matches Expr::Literal(l) && q == p + 1 && ts[p] == (Token {
        token_type: TokenType::Number(l.value),
        row: l.row,
        col: l.col,
    });
    let negation_here = e matches Expr::Unary(u) && u.op == UnaryOperator::Neg && ts[p] == (Token {
        token_type: TokenType::Minus,
        row: u.row,
        col: u.col,
    }) && derives(*u.operand, ts, p + 1, q, 3);
    if literal_here {
    } else if negation_here {
        let u = e->Unary_0;
        lemma_expr_finds_tree(ts, *u.operand, p + 1, q, 3);
    } else {
        lemma_expr_finds_tree(ts, e, p + 1, q - 1, 0);
    }
}

/// The grammar law. On a list that ends with `Eof`, parsing succeeds exactly
/// when the tokens before an `Eof` form a sentence `E`; the result is then
/// that sentence's parse tree, which is unique: every parse tree of the
/// tokens before any `Eof` is the parser's result (the tokens of a parse tree
/// include no `Eof`, so it ends at the first one).
pub proof fn lemma_parse_is_the_grammar(ts: Seq<Token>)
    requires
        well_terminated(ts),
    ensures
        parse_tokens(ts) is Ok <==> exists|e: Expr, n: int|
            0 <= n < ts.len() && #[trigger] ts[n].token_type is Eof && #[trigger] derives(e, ts, 0, n, 1),
        forall|e: Expr, n: int|
            0 <= n < ts.len() && #[trigger] ts[n].token_type is Eof && #[trigger] derives(e, ts, 0, n, 1)
                ==> parse_tokens(ts) == Ok::<Expr, ParseError>(e),
{
    assert forall|e: Expr, n: int|
        0 <= n < ts.len() && #[trigger] ts[n].token_type is Eof && #[trigger] derives(e, ts, 0, n, 1)
            implies parse_tokens(ts) == Ok::<Expr, ParseError>(e) by {
        lemma_expr_finds_tree(ts, e, 0, n, 0);
    }
    lemma_parse_gives_parse_tree(ts);
    if let Ok(e) = parse_tokens(ts) {
        let n = choose|n: int| 0 <= n < ts.len() && #[trigger] ts[n].token_type is Eof && derives(e, ts, 0, n, 1);
        assert(ts[n].token_type is Eof && derives(e, ts, 0, n, 1));
    }
}

/// The tokens that the lexer produces pass the parser's check: the list is
/// never empty, and it ends with its only `Eof` token.
pub proof fn lemma_lexed_tokens_are_well_terminated(s: Seq<char>)
    ensures
        lex(s) matches Ok(ts) ==> {
            &&& well_terminated(ts)
            &&& validation(ts) is Ok
            &&& forall|i: int| 0 <= i < ts.len() - 1 ==> !(#[trigger] ts[i].token_type is Eof)
        },
{
    lemma_lex_from_ends_with_eof(s, 0);
}

/// An expression read with minimum precedence `min` stops at a token that
/// binds more loosely than `min` (or is no operator at all).
pub proof fn lemma_expr_stops_below(ts: Seq<Token>, p: int, min: int)
    requires
        well_terminated(ts),
        0 <= p < ts.len(),
    ensures
        parse_expr(ts, p, min) matches Ok((_, q)) ==> precedence_of(tok(ts, q).token_type) < min,
{
    lemma_prefix_advances(ts, p);
    if let Ok((left, p1)) = parse_prefix(ts, p) {
        lemma_loop_stops_below(ts, left, p1, min);
    }
}

pub proof fn lemma_loop_stops_below(ts: Seq<Token>, left: Expr, p: int, min: int)
    requires
        well_terminated(ts),
        0 <= p < ts.len(),
    ensures
        parse_loop(ts, left, p, min) matches Ok((_, q)) ==> precedence_of(tok(ts, q).token_type) < min,
    decreases ts.len() - p,
{
    let t = tok(ts, p);
    let prec = precedence_of(t.token_type);
    if prec >= min {
        if let Ok(op) = binary_operator_of(t) {
            lemma_expr_advances(ts, p + 1, prec + 1);
            if let Ok((right, p2)) = parse_expr(ts, p + 1, prec + 1) {
                lemma_loop_stops_below(ts, binary_node(t, op, left, right), p2, min);
            }
        }
    }
}

impl Parser {
    /// The tokens last given to `parse`.
    pub closed spec fn tokens(&self) -> Seq<Token> {
        self.tokens@
    }

    pub fn new() -> (res: Self)
        ensures
            res.tokens() == Seq::<Token>::empty(),
    {
        Parser { tokens: Vec::new(), position: 0 }
    }

    /// Parses a token list into one expression that uses all tokens up to
    /// the final `Eof`.
    pub fn parse(&mut self, tokens: Vec<Token>) -> (res: Result<Expr, ParseError>)
        ensures
            final(self).tokens() == tokens@,
            res == parse_tokens(tokens@),
    {
        self.tokens = tokens;
        self.position = 0;

        self.validate_tokens()?;

        proof {
            lemma_expr_advances(self.tokens@, 0, 0);
        }
        let expression = self.parse_expression(0)?;
        let current_token = self.tokens[self.position].clone();

        match current_token.token_type {
            TokenType::Eof => {},
            other => {
                return Err(
                    ParseError {
                        row: current_token.row,
                        col: current_token.col,
                        kind: ParseErrorKind::ExpectedEndOfInput(other),
                    },
                );
            },
        }

        Ok(expression)
    }

    fn validate_tokens(&self) -> (res: Result<(), ParseError>)
        ensures
            res == validation(self.tokens@),
    {
        if self.tokens.len() == 0 {
            return Err(ParseError { row: None, col: None, kind: ParseErrorKind::EmptyTokenList });
        }
        let last_token = &self.tokens[self.tokens.len() - 1];
        match last_token.token_type {
            TokenType::Eof => Ok(()),
            _ => Err(
                ParseError { row: last_token.row, col: last_token.col, kind: ParseErrorKind::MissingEof },
            ),
        }
    }

    fn parse_expression(&mut self, min_precedence: i8) -> (res: Result<Expr, ParseError>)
        requires
            well_terminated(old(self).tokens@),
            old(self).position < old(self).tokens.len(),
            0 <= min_precedence <= 3,
        ensures
            final(self).tokens@ == old(self).tokens@,
            match parse_expr(old(self).tokens@, old(self).position as int, min_precedence as int) {
                Ok((e, q)) => res == Ok::<Expr, ParseError>(e) && final(self).position == q,
                Err(er) => res == Err::<Expr, ParseError>(er),
            },
            res is Ok ==> precedence_of(old(self).tokens@[final(self).position as int].token_type)
                < min_precedence,
        decreases old(self).tokens@.len() - old(self).position, 1int,
    {
        let ghost ts = self.tokens@;
        let ghost p0 = self.position as int;
        proof {
            lemma_prefix_advances(ts, p0);
            lemma_expr_stops_below(ts, p0, min_precedence as int);
        }
        let mut left_expr = self.parse_prefix()?;

        loop
            invariant
                self.tokens@ == ts,
                old(self).tokens@ == ts,
                old(self).position == p0,
                ts.len() == self.tokens.len(),
                well_terminated(ts),
                0 <= min_precedence <= 3,
                p0 < self.position < ts.len(),
                parse_expr(ts, p0, min_precedence as int) == parse_loop(
                    ts,
                    left_expr,
                    self.position as int,
                    min_precedence as int,
                ),
            ensures
                self.tokens@ == ts,
                parse_expr(ts, p0, min_precedence as int) == Ok::<(Expr, int), ParseError>(
                    (left_expr, self.position as int),
                ),
            decreases ts.len() - self.position,
        {
            let ghost p = self.position as int;
            let token = self.tokens[self.position].clone();
            let current_precedence = Self::precedence(&token.token_type);

            if current_precedence < min_precedence {
                break;
            }

            let operator = Self::binary_operator(&token)?;
            self.position += 1;
            proof {
                lemma_expr_advances(ts, p + 1, current_precedence + 1);
            }
            let right_expr = self.parse_expression(current_precedence + 1)?;
            left_expr = Expr::Binary(
                BinaryOp {
                    row: token.row,
                    col: token.col,
                    left: Box::new(left_expr),
                    op: operator,
                    right: Box::new(right_expr),
                },
            );
        }

        Ok(left_expr)
    }

    fn parse_prefix(&mut self) -> (res: Result<Expr, ParseError>)
        requires
            well_terminated(old(self).tokens@),
            old(self).position < old(self).tokens.len(),
        ensures
            final(self).tokens@ == old(self).tokens@,
            match parse_prefix(old(self).tokens@, old(self).position as int) {
                Ok((e, q)) => res == Ok::<Expr, ParseError>(e) && final(self).position == q,
                Err(er) => res == Err::<Expr, ParseError>(er),
            },
            res is Err && !opens_subexpression(old(self).tokens@[old(self).position as int].token_type)
                ==> final(self).position == old(self).position,
        decreases old(self).tokens@.len() - old(self).position, 0int,
    {
        let ghost ts = self.tokens@;
        let ghost p0 = self.position as int;
        let token = self.tokens[self.position].clone();

        match token.token_type {
            TokenType::Number(value) => {
                self.position += 1;
                Ok(Expr::Literal(Literal { row: token.row, col: token.col, value }))
            },
            TokenType::Minus => {
                self.position += 1;
                proof {
                    lemma_expr_advances(ts, p0 + 1, 3);
                }
                let operand = self.parse_expression(3)?;
                Ok(
                    Expr::Unary(
                        UnaryOp {
                            row: token.row,
                            col: token.col,
                            op: UnaryOperator::Neg,
                            operand: Box::new(operand),
                        },
                    ),
                )
            },
            TokenType::LParen => {
                self.position += 1;
                proof {
                    lemma_expr_advances(ts, p0 + 1, 0);
                }
                let expression = self.parse_expression(0)?;

                let current_token = self.tokens[self.position].clone();
                match current_token.token_type {
                    TokenType::RParen => {},
                    other => {
                        return Err(
                            ParseError {
                                row: current_token.row,
                                col: current_token.col,
                                kind: ParseErrorKind::ExpectedClosingParen(other),
                            },
                        );
                    },
                }

                self.position += 1;
                Ok(expression)
            },
            other => Err(
                ParseError {
                    row: token.row,
                    col: token.col,
                    kind: ParseErrorKind::ExpectedExpression(other),
                },
            ),
        }
    }

    fn precedence(token_type: &TokenType) -> (res: i8)
        ensures
            res == precedence_of(*token_type),
    {
        match token_type {
            TokenType::Plus | TokenType::Minus => 1,
            TokenType::Star | TokenType::Slash => 2,
            _ => -1,
        }
    }

    fn binary_operator(token: &Token) -> (res: Result<BinaryOperator, ParseError>)
        ensures
            res == binary_operator_of(*token),
    {
        match token.token_type {
            TokenType::Plus => Ok(BinaryOperator::Add),
            TokenType::Minus => Ok(BinaryOperator::Sub),
            TokenType::Star => Ok(BinaryOperator::Mul),
            TokenType::Slash => Ok(BinaryOperator::Div),
            _ => Err(
                ParseError {
                    row: token.row,
                    col: token.col,
                    kind: ParseErrorKind::ExpectedOperator(token.token_type.clone()),
                },
            ),
        }
    }
}

} // verus!
