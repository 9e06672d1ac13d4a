use calculator::lexer::{LexError, Lexer, Token, TokenType};
use calculator::number::{FloatTerm, NumberValue};
use calculator::text::{chars_of, is_ascii_digit, is_whitespace};

fn token_types(source: &str) -> Vec<TokenType> {
    Lexer::new()
        .tokenize(source)
        .unwrap()
        .iter()
        .map(|t| t.token_type.clone())
        .collect()
}

/// The f64 that the literal at `start..end` of `source` stands for.
fn literal_value(source: &str, start: usize, end: usize) -> f64 {
    source
        .chars()
        .skip(start)
        .take(end - start)
        .collect::<String>()
        .parse()
        .unwrap()
}

#[test]
fn tokenizes_addition() {
    assert_eq!(
        token_types("1 + 2"),
        vec![
            TokenType::Number(NumberValue::Int(1)),
            TokenType::Plus,
            TokenType::Number(NumberValue::Int(2)),
            TokenType::Eof
        ]
    );
}

#[test]
fn tokenizes_all_operators() {
    assert_eq!(
        token_types("1 + 2 - 3 * 4 / (5)"),
        vec![
            TokenType::Number(NumberValue::Int(1)),
            TokenType::Plus,
            TokenType::Number(NumberValue::Int(2)),
            TokenType::Minus,
            TokenType::Number(NumberValue::Int(3)),
            TokenType::Star,
            TokenType::Number(NumberValue::Int(4)),
            TokenType::Slash,
            TokenType::LParen,
            TokenType::Number(NumberValue::Int(5)),
            TokenType::RParen,
            TokenType::Eof
        ]
    );
}

#[test]
fn parses_int_and_float_values() {
    let source = "6 3.14";
    let tokens = Lexer::new().tokenize(source).unwrap();
    assert_eq!(tokens[0].token_type, TokenType::Number(NumberValue::Int(6)));
    assert_eq!(
        tokens[1].token_type,
        TokenType::Number(NumberValue::Float(FloatTerm::Literal { start: 2, end: 6 }))
    );
    assert_eq!(literal_value(source, 2, 6), 3.14);
}

#[test]
fn single_digit_source_produces_number_then_eof() {
    assert_eq!(token_types("6"), vec![TokenType::Number(NumberValue::Int(6)), TokenType::Eof]);
}

#[test]
fn unexpected_character_is_an_error_not_silently_skipped() {
    let err = Lexer::new().tokenize("asd").unwrap_err();
    assert_eq!(err.col, 0);
    assert_eq!(err.character, 'a');
}

#[test]
fn number_with_trailing_garbage_is_an_error_not_a_panic() {
    let err = Lexer::new().tokenize("123asd").unwrap_err();
    assert_eq!(err.col, 3);
    assert_eq!(err.character, 'a');
}

#[test]
fn error_location_is_correct_even_after_a_valid_decimal_part() {
    let err = Lexer::new().tokenize("123.45asd").unwrap_err();
    assert_eq!(err.col, 6);
    assert_eq!(err.character, 'a');
}

#[test]
fn trailing_dot_with_no_fraction_is_an_error() {
    let err = Lexer::new().tokenize("1.").unwrap_err();
    assert_eq!(err.col, 1);
    assert_eq!(err.character, '.');
}

#[test]
fn empty_source_is_just_eof() {
    assert_eq!(token_types(""), vec![TokenType::Eof]);
    assert_eq!(token_types(" \t\n"), vec![TokenType::Eof]);
}

#[test]
fn tokens_carry_row_and_column() {
    let tokens = Lexer::new().tokenize(" 12+ (3.5)").unwrap();
    let positions: Vec<(Option<usize>, Option<usize>)> =
        tokens.iter().map(|t| (t.row, t.col)).collect();
    assert_eq!(
        positions,
        vec![
            (Some(1), Some(1)),
            (Some(1), Some(3)),
            (Some(1), Some(5)),
            (Some(1), Some(6)),
            (Some(1), Some(9)),
            (None, None)
        ]
    );
    assert_eq!(
        tokens[3],
        Token {
            token_type: TokenType::Number(NumberValue::Float(FloatTerm::Literal { start: 6, end: 9 })),
            row: Some(1),
            col: Some(6)
        }
    );
}

#[test]
fn largest_int_literal_is_read_exactly() {
    assert_eq!(
        token_types("9223372036854775807"),
        vec![TokenType::Number(NumberValue::Int(i64::MAX)), TokenType::Eof]
    );
    assert_eq!(
        token_types("007"),
        vec![TokenType::Number(NumberValue::Int(7)), TokenType::Eof]
    );
}

#[test]
fn int_literal_beyond_i64_is_an_error_at_its_start() {
    let err = Lexer::new().tokenize("1 + 9223372036854775808").unwrap_err();
    assert_eq!(err, LexError { row: 1, col: 4, character: '9' });
}

#[test]
fn huge_float_literal_is_accepted() {
    let source = "99999999999999999999.5";
    assert_eq!(
        token_types(source),
        vec![
            TokenType::Number(NumberValue::Float(FloatTerm::Literal { start: 0, end: 22 })),
            TokenType::Eof
        ]
    );
}

#[test]
fn number_needs_a_separator_before_a_second_dot() {
    let err = Lexer::new().tokenize("1.5.2").unwrap_err();
    assert_eq!(err, LexError { row: 1, col: 3, character: '.' });
}

#[test]
fn leading_dot_is_not_a_number() {
    let err = Lexer::new().tokenize(".5").unwrap_err();
    assert_eq!(err, LexError { row: 1, col: 0, character: '.' });
}

#[test]
fn unicode_whitespace_separates_tokens_and_columns_count_characters() {
    let tokens = Lexer::new().tokenize("1\u{3000}+\u{a0}2").unwrap();
    assert_eq!(tokens.len(), 4);
    assert_eq!(tokens[1].col, Some(2));
    assert_eq!(tokens[2].col, Some(4));
    let err = Lexer::new().tokenize("é1").unwrap_err();
    assert_eq!(err, LexError { row: 1, col: 0, character: 'é' });
    let err = Lexer::new().tokenize("1 é").unwrap_err();
    assert_eq!(err, LexError { row: 1, col: 2, character: 'é' });
}

#[test]
fn whitespace_test_agrees_with_std_on_every_char() {
    for code in 0..=0x10FFFFu32 {
        if let Some(c) = char::from_u32(code) {
            assert_eq!(is_whitespace(c), c.is_whitespace(), "{:?}", c);
            assert_eq!(is_ascii_digit(c), c.is_ascii_digit(), "{:?}", c);
        }
    }
}

#[test]
fn chars_of_gives_the_characters_in_order() {
    assert_eq!(chars_of("aé 1"), vec!['a', 'é', ' ', '1']);
    assert_eq!(chars_of(""), Vec::<char>::new());
}

#[test]
fn count_digits_and_error_at_read_the_last_source() {
    let mut lexer = Lexer::new();
    let _ = lexer.tokenize("12a3");
    assert_eq!(lexer.count_digits_from(0), 2);
    assert_eq!(lexer.count_digits_from(2), 0);
    assert_eq!(lexer.count_digits_from(3), 1);
    assert_eq!(lexer.count_digits_from(4), 0);
    assert_eq!(lexer.error_at(2), LexError { row: 1, col: 2, character: 'a' });
}
