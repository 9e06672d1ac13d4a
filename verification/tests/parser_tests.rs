use calculator::lexer::{Lexer, Token, TokenType};
use calculator::number::NumberValue;
use calculator::parser::{
    BinaryOp, BinaryOperator, Expr, Literal, ParseError, ParseErrorKind, Parser, UnaryOp, UnaryOperator,
};

fn parse(source: &str) -> Result<Expr, ParseError> {
    let tokens = Lexer::new().tokenize(source).unwrap();
    Parser::new().parse(tokens)
}

fn lit(col: usize, v: i64) -> Box<Expr> {
    Box::new(Expr::Literal(Literal { row: Some(1), col: Some(col), value: NumberValue::Int(v) }))
}

fn bin(col: usize, left: Box<Expr>, op: BinaryOperator, right: Box<Expr>) -> Box<Expr> {
    Box::new(Expr::Binary(BinaryOp { row: Some(1), col: Some(col), left, op, right }))
}

#[test]
fn parses_simple_addition() {
    let expr = parse("1 + 2").unwrap();
    match expr {
        Expr::Binary(b) => assert_eq!(b.op, BinaryOperator::Add),
        other => panic!("expected a binary expression, got {other:?}"),
    }
}

#[test]
fn multiplication_binds_tighter_than_addition() {
    let expr = parse("1 + 2 * 3").unwrap();
    match expr {
        Expr::Binary(BinaryOp {
            op: BinaryOperator::Add,
            right,
            ..
        }) => match *right {
            Expr::Binary(BinaryOp {
                op: BinaryOperator::Mul,
                ..
            }) => {}
            other => panic!("expected the right side to be a multiplication, got {other:?}"),
        },
        other => panic!("expected a top-level addition, got {other:?}"),
    }
}

#[test]
fn parser_parentheses_override_precedence() {
    let expr = parse("(1 + 2) * 3").unwrap();
    match expr {
        Expr::Binary(b) => assert_eq!(b.op, BinaryOperator::Mul),
        other => panic!("expected a binary expression, got {other:?}"),
    }
}

#[test]
fn parses_unary_minus() {
    let expr = parse("-5").unwrap();
    match expr {
        Expr::Unary(u) => assert_eq!(u.op, UnaryOperator::Neg),
        other => panic!("expected a unary expression, got {other:?}"),
    }
}

#[test]
fn errors_on_empty_token_list() {
    let err = Parser::new().parse(vec![]).unwrap_err();
    assert_eq!(err.message(""), "Token list is empty");
    assert_eq!(err.kind, ParseErrorKind::EmptyTokenList);
    assert_eq!((err.row, err.col), (None, None));
}

#[test]
fn errors_on_missing_eof() {
    let tokens = vec![Token {
        token_type: TokenType::Number(NumberValue::Int(1)),
        row: Some(1),
        col: Some(0),
    }];
    let err = Parser::new().parse(tokens).unwrap_err();
    assert_eq!(err.message(""), "Last token has to be EOF");
    assert_eq!(err.kind, ParseErrorKind::MissingEof);
    assert_eq!((err.row, err.col), (Some(1), Some(0)));
}

#[test]
fn errors_on_unclosed_parenthesis() {
    assert!(parse("(1 + 2").is_err());
}

#[test]
fn errors_on_trailing_tokens() {
    assert!(parse("1 2").is_err());
}

#[test]
fn unclosed_parenthesis_reports_the_token_found() {
    let err = parse("(1 + 2").unwrap_err();
    assert_eq!(
        err,
        ParseError { row: None, col: None, kind: ParseErrorKind::ExpectedClosingParen(TokenType::Eof) }
    );
    let err = parse("(1 2)").unwrap_err();
    assert_eq!(
        err,
        ParseError {
            row: Some(1),
            col: Some(3),
            kind: ParseErrorKind::ExpectedClosingParen(TokenType::Number(NumberValue::Int(2)))
        }
    );
}

#[test]
fn trailing_tokens_report_the_first_extra_token() {
    let err = parse("1 2").unwrap_err();
    assert_eq!(
        err,
        ParseError {
            row: Some(1),
            col: Some(2),
            kind: ParseErrorKind::ExpectedEndOfInput(TokenType::Number(NumberValue::Int(2)))
        }
    );
    let err = parse("(1))").unwrap_err();
    assert_eq!(err.kind, ParseErrorKind::ExpectedEndOfInput(TokenType::RParen));
    assert_eq!(err.col, Some(3));
}

#[test]
fn missing_operand_reports_the_token_found() {
    let err = parse("1 + * 2").unwrap_err();
    assert_eq!(
        err,
        ParseError { row: Some(1), col: Some(4), kind: ParseErrorKind::ExpectedExpression(TokenType::Star) }
    );
    let err = parse("").unwrap_err();
    assert_eq!(err, ParseError { row: None, col: None, kind: ParseErrorKind::ExpectedExpression(TokenType::Eof) });
    let err = parse("()").unwrap_err();
    assert_eq!(err.kind, ParseErrorKind::ExpectedExpression(TokenType::RParen));
}

#[test]
fn operators_of_equal_precedence_group_to_the_left() {
    let expr = parse("8 - 3 - 2").unwrap();
    assert_eq!(
        Box::new(expr),
        bin(6, bin(2, lit(0, 8), BinaryOperator::Sub, lit(4, 3)), BinaryOperator::Sub, lit(8, 2))
    );
}

#[test]
fn full_tree_of_mixed_precedence() {
    let expr = parse("1+2*3-4").unwrap();
    assert_eq!(
        Box::new(expr),
        bin(
            5,
            bin(1, lit(0, 1), BinaryOperator::Add, bin(3, lit(2, 2), BinaryOperator::Mul, lit(4, 3))),
            BinaryOperator::Sub,
            lit(6, 4)
        )
    );
}

#[test]
fn unary_minus_binds_tighter_than_multiplication() {
    let expr = parse("-2 * 3").unwrap();
    assert_eq!(
        Box::new(expr),
        bin(
            3,
            Box::new(Expr::Unary(UnaryOp {
                row: Some(1),
                col: Some(0),
                op: UnaryOperator::Neg,
                operand: lit(1, 2)
            })),
            BinaryOperator::Mul,
            lit(5, 3)
        )
    );
}

#[test]
fn parser_keeps_the_tokens_it_was_given() {
    let mut parser = Parser::new();
    let first = parser.parse(Lexer::new().tokenize("4").unwrap()).unwrap();
    let second = parser.parse(Lexer::new().tokenize("5").unwrap()).unwrap();
    assert_eq!(first, *lit(0, 4));
    assert_eq!(second, *lit(0, 5));
}

#[test]
fn messages_name_the_offending_token() {
    assert_eq!(
        parse("1 2").unwrap_err().message("2"),
        "Unexpected token '2', expected end of input"
    );
    assert_eq!(parse("(1 + 2").unwrap_err().message("<EOF>"), "Expected ')', found '<EOF>'");
    assert_eq!(
        parse("1 + * 2").unwrap_err().message("*"),
        "Unexpected token '*', expected an expression"
    );
    let err = ParseError { row: None, col: None, kind: ParseErrorKind::ExpectedOperator(TokenType::LParen) };
    assert_eq!(err.message("("), "Unexpected token '(', expected an operator");
}

#[test]
fn clones_and_defaults() {
    let expr = parse("-(1 + 2) * 3").unwrap();
    assert_eq!(expr.clone(), expr);
    let err = parse("(1").unwrap_err();
    assert_eq!(err.clone(), err);
    let mut parser = Parser::default();
    assert_eq!(parser.parse(Lexer::new().tokenize("7").unwrap()).unwrap(), *lit(0, 7));
    let mut lexer = Lexer::default();
    assert_eq!(lexer.tokenize("").unwrap().len(), 1);
}
