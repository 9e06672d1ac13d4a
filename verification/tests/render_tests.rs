use calculator::evaluator::EvaluateError;
use calculator::lexer::TokenType;
use calculator::number::{FloatTerm, NumberValue};
use calculator::parser::{ParseError, ParseErrorKind};
use calculator::render::{decimal, located};

#[test]
fn decimal_writes_integers_like_display() {
    for v in [0i64, 7, 10, -1, -120, 9999, i64::MAX, i64::MIN, 1_000_000_007] {
        assert_eq!(decimal(v), v.to_string());
    }
}

#[test]
fn token_text_of_everything_but_floats() {
    assert_eq!(TokenType::Number(NumberValue::Int(-42)).text(), Some(String::from("-42")));
    assert_eq!(TokenType::Plus.text(), Some(String::from("+")));
    assert_eq!(TokenType::Minus.text(), Some(String::from("-")));
    assert_eq!(TokenType::Star.text(), Some(String::from("*")));
    assert_eq!(TokenType::Slash.text(), Some(String::from("/")));
    assert_eq!(TokenType::LParen.text(), Some(String::from("(")));
    assert_eq!(TokenType::RParen.text(), Some(String::from(")")));
    assert_eq!(TokenType::Eof.text(), Some(String::from("<EOF>")));
    assert_eq!(
        TokenType::Number(NumberValue::Float(FloatTerm::Literal { start: 0, end: 3 })).text(),
        None
    );
}

#[test]
fn located_adds_the_position_when_known() {
    assert_eq!(located(String::from("Oops"), Some(1), Some(12)), "Oops (line 1, column 12)");
    assert_eq!(located(String::from("Oops"), None, Some(12)), "Oops");
    assert_eq!(located(String::from("Oops"), None, None), "Oops");
}

#[test]
fn error_texts() {
    let err = ParseError {
        row: Some(1),
        col: Some(2),
        kind: ParseErrorKind::ExpectedEndOfInput(TokenType::Number(NumberValue::Int(2))),
    };
    assert_eq!(err.text("2"), "Unexpected token '2', expected end of input (line 1, column 2)");
    let err = ParseError { row: None, col: None, kind: ParseErrorKind::EmptyTokenList };
    assert_eq!(err.text(""), "Token list is empty");
    let err = EvaluateError { row: Some(1), col: Some(2), message: String::from("Division by zero") };
    assert_eq!(err.text(), "Division by zero (line 1, column 2)");
}

#[test]
fn own_message_writes_the_token_itself() {
    let err = ParseError {
        row: Some(1),
        col: Some(2),
        kind: ParseErrorKind::ExpectedEndOfInput(TokenType::Number(NumberValue::Int(-7))),
    };
    assert_eq!(err.own_message(), Some(String::from("Unexpected token '-7', expected end of input")));
    let err = ParseError { row: None, col: None, kind: ParseErrorKind::ExpectedClosingParen(TokenType::Eof) };
    assert_eq!(err.own_message(), Some(String::from("Expected ')', found '<EOF>'")));
    let err = ParseError { row: None, col: None, kind: ParseErrorKind::MissingEof };
    assert_eq!(err.own_message(), Some(String::from("Last token has to be EOF")));
    let err = ParseError {
        row: Some(1),
        col: Some(2),
        kind: ParseErrorKind::ExpectedEndOfInput(TokenType::Number(NumberValue::Float(FloatTerm::Literal {
            start: 2,
            end: 5,
        }))),
    };
    assert_eq!(err.own_message(), None);
}
