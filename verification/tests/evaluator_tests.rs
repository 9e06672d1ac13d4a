use calculator::evaluator::{EvaluateError, Evaluation, Evaluator};
use calculator::lexer::Lexer;
use calculator::number::{FloatTerm, NumberValue};
use calculator::parser::{Expr, Parser};

#[derive(Debug, PartialEq)]
enum Num {
    Int(i64),
    Float(f64),
}

/// Computes a float term with `f64`, reading literals from `source`.
fn float_of(term: &FloatTerm, source: &str) -> f64 {
    match term {
        FloatTerm::Literal { start, end } => source
            .chars()
            .skip(*start)
            .take(end - start)
            .collect::<String>()
            .parse()
            .unwrap(),
        FloatTerm::FromInt(v) => *v as f64,
        FloatTerm::Neg(a) => -float_of(a, source),
        FloatTerm::Add(a, b) => float_of(a, source) + float_of(b, source),
        FloatTerm::Sub(a, b) => float_of(a, source) - float_of(b, source),
        FloatTerm::Mul(a, b) => float_of(a, source) * float_of(b, source),
        FloatTerm::Div(a, b) => float_of(a, source) / float_of(b, source),
    }
}

fn parse(source: &str) -> Expr {
    let tokens = Lexer::new().tokenize(source).unwrap();
    Parser::new().parse(tokens).unwrap()
}

/// Runs the evaluation, answering its zero tests, and counts the rounds.
fn eval_counting(source: &str) -> (Result<Num, EvaluateError>, usize) {
    let expr = parse(source);
    let evaluator = Evaluator::new();
    let mut answers = Vec::new();
    let mut rounds = 0;
    loop {
        rounds += 1;
        assert!(!evaluator.overflows(&expr, &answers));
        match evaluator.evaluate(&expr, &answers) {
            Evaluation::Done(Ok(NumberValue::Int(v))) => return (Ok(Num::Int(v)), rounds),
            Evaluation::Done(Ok(NumberValue::Float(t))) => {
                return (Ok(Num::Float(float_of(&t, source))), rounds)
            }
            Evaluation::Done(Err(e)) => return (Err(e), rounds),
            Evaluation::NeedsZeroTest(t) => answers.push(float_of(&t, source) == 0.0),
        }
    }
}

fn eval(source: &str) -> Result<Num, EvaluateError> {
    eval_counting(source).0
}

#[test]
fn adds_two_ints() {
    assert_eq!(eval("1 + 2").unwrap(), Num::Int(3));
}

#[test]
fn respects_operator_precedence() {
    assert_eq!(eval("1 + 2 * 3").unwrap(), Num::Int(7));
}

#[test]
fn evaluator_parentheses_override_precedence() {
    assert_eq!(eval("(1 + 2) * 3").unwrap(), Num::Int(9));
}

#[test]
fn unary_minus_negates() {
    assert_eq!(eval("-5 + 3").unwrap(), Num::Int(-2));
}

#[test]
fn int_and_int_stays_int() {
    assert_eq!(eval("7 - 2").unwrap(), Num::Int(5));
}

#[test]
fn mixing_float_widens_to_float() {
    assert_eq!(eval("1 + 2.5").unwrap(), Num::Float(3.5));
}

#[test]
fn division_of_two_ints_is_still_a_float() {
    assert_eq!(eval("7 / 2").unwrap(), Num::Float(3.5));
}

#[test]
fn division_by_int_zero_is_an_error() {
    assert!(eval("1 / 0").is_err());
}

#[test]
fn division_by_float_zero_is_an_error() {
    assert!(eval("1 / 0.0").is_err());
}

#[test]
fn division_by_zero_names_the_operator() {
    let err = eval("4 + 1 / 0").unwrap_err();
    assert_eq!(
        err,
        EvaluateError { row: Some(1), col: Some(6), message: String::from("Division by zero") }
    );
    let err = eval("1 / (0.5 - 0.5)").unwrap_err();
    assert_eq!((err.row, err.col), (Some(1), Some(2)));
    assert_eq!(err.message, "Division by zero");
}

#[test]
fn first_division_by_zero_in_evaluation_order_wins() {
    let err = eval("(1 / 0.0) + (2 / 0)").unwrap_err();
    assert_eq!(err.col, Some(3));
    let err = eval("(1 / 0) + (2 / 0.0)").unwrap_err();
    assert_eq!(err.col, Some(3));
}

#[test]
fn integer_evaluation_asks_no_question() {
    assert_eq!(eval_counting("(2 + 3) * -4 - 1"), (Ok(Num::Int(-21)), 1));
    assert_eq!(eval_counting("7 / 2"), (Ok(Num::Float(3.5)), 1));
}

#[test]
fn each_float_divisor_is_asked_about_once() {
    let (res, rounds) = eval_counting("1 / 2.0 / 4.0");
    assert_eq!(res, Ok(Num::Float(0.125)));
    assert_eq!(rounds, 3);
}

#[test]
fn zero_test_hands_back_the_divisor() {
    let expr = parse("3 / (2.5 - 1)");
    let evaluator = Evaluator::new();
    assert_eq!(
        evaluator.evaluate(&expr, &vec![]),
        Evaluation::NeedsZeroTest(FloatTerm::Sub(
            Box::new(FloatTerm::Literal { start: 5, end: 8 }),
            Box::new(FloatTerm::FromInt(1))
        ))
    );
    match evaluator.evaluate(&expr, &vec![false]) {
        Evaluation::Done(Ok(NumberValue::Float(FloatTerm::Div(a, _)))) => {
            assert_eq!(*a, FloatTerm::FromInt(3))
        }
        other => panic!("unexpected {other:?}"),
    }
    match evaluator.evaluate(&expr, &vec![true]) {
        Evaluation::Done(Err(e)) => assert_eq!(e.col, Some(2)),
        other => panic!("unexpected {other:?}"),
    }
    // Answers beyond those needed change nothing.
    assert_eq!(evaluator.evaluate(&expr, &vec![false, true]), evaluator.evaluate(&expr, &vec![false]));
}

#[test]
fn negative_zero_divisor_is_zero() {
    assert!(eval("1 / -0.0").is_err());
    assert!(eval("1 / (0 * -1.5)").is_err());
}

#[test]
fn float_results_follow_ieee_order_of_operations() {
    assert_eq!(eval("0.1 + 0.2").unwrap(), Num::Float(0.1 + 0.2));
    assert_eq!(eval("-(1.5) * 2").unwrap(), Num::Float(-3.0));
    assert_eq!(eval("10 - 0.5 - 0.25").unwrap(), Num::Float(9.25));
}

#[test]
fn integer_overflow_is_detected_before_evaluation() {
    let evaluator = Evaluator::new();
    let expr = parse("9223372036854775807 + 1");
    assert!(evaluator.overflows(&expr, &vec![]));
    let expr = parse("-(0 - 9223372036854775807 - 1)");
    assert!(evaluator.overflows(&expr, &vec![]));
    let expr = parse("3037000500 * 3037000500");
    assert!(evaluator.overflows(&expr, &vec![]));
    let expr = parse("0 - 9223372036854775807 - 1");
    assert!(!evaluator.overflows(&expr, &vec![]));
    assert_eq!(evaluator.evaluate(&expr, &vec![]), Evaluation::Done(Ok(NumberValue::Int(i64::MIN))));
    // An earlier error stops the evaluation before the overflow is reached.
    let expr = parse("(1 / 0.0) + 9223372036854775807 * 2");
    assert!(evaluator.overflows(&expr, &vec![false]));
    assert!(!evaluator.overflows(&expr, &vec![true]));
    assert!(!evaluator.overflows(&expr, &vec![]));
}

#[test]
fn default_evaluator_and_error_clone() {
    let evaluator = Evaluator::default();
    let expr = parse("2 * 3");
    assert_eq!(evaluator.evaluate(&expr, &vec![]), Evaluation::Done(Ok(NumberValue::Int(6))));
    let err = eval("1 / 0").unwrap_err();
    assert_eq!(err.clone(), err);
}
