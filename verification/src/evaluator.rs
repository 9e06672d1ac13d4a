//! The evaluator: computes the value of an expression tree.
//!
//! Integers are computed exactly; as soon as a float takes part, or at any
//! division, the result is a float, described by a `FloatTerm`. The one
//! decision that depends on a float's value is the division-by-zero check of a
//! float divisor: the caller answers it. `evaluate` takes the answers given so
//! far (in the order the divisions are met); when it reaches a float divisor
//! without an answer, it hands that divisor back, and the caller evaluates it,
//! appends `value == 0.0` to the answers and calls again.
use vstd::prelude::*;

use crate::number::{
    exact_number, rat_add, rat_div, rat_mul, rat_neg, rat_sub, FloatTerm, NumberValue,
};
use crate::parser::{BinaryOperator, Expr, UnaryOperator};

verus! {

broadcast use vstd::string::group_string_axioms;

/// An evaluation error, at the position of the operator that caused it.
#[derive(Debug, PartialEq)]
pub struct EvaluateError {
    pub row: Option<usize>,
    pub col: Option<usize>,
    pub message: String,
}

impl Clone for EvaluateError {
    fn clone(&self) -> (res: Self)
        ensures
            res == *self,
    {
        EvaluateError { row: self.row, col: self.col, message: self.message.clone() }
    }
}

/// What `evaluate` gives back.
#[derive(Debug, PartialEq)]
pub enum Evaluation {
    /// The evaluation is complete.
    Done(Result<NumberValue, EvaluateError>),
    /// The evaluation needs to know whether this divisor is zero.
    NeedsZeroTest(FloatTerm),
}

/// The course of an evaluation, as far as the answers reach.
#[derive(Debug, PartialEq)]
pub enum Outcome {
    Value(NumberValue),
    DivisionByZero { row: Option<usize>, col: Option<usize> },
    /// An integer result leaves the `i64` range.
    Overflow,
    NeedsZeroTest(FloatTerm),
}

#[derive(Debug)]
pub struct Evaluator {}

impl Default for Evaluator {
    fn default() -> (res: Self)
        ensures
            res == (Evaluator {  }),
    {
        Evaluator {  }
    }
}

/// The message of a division by zero.
pub open spec fn division_by_zero_message() -> Seq<char> {
    "Division by zero"@
}

/// Applies a binary operator to two values; `k` answers have been used.
pub open spec fn apply_binary(
    op: BinaryOperator,
    lv: NumberValue,
    rv: NumberValue,
    row: Option<usize>,
    col: Option<usize>,
    answers: Seq<bool>,
    k: int,
) -> (Outcome, int) {
    match op {
        BinaryOperator::Add => if lv.sum_overflows(rv) {
            (Outcome::Overflow, k)
        } else {
            (Outcome::Value(lv.sum(rv)), k)
        },
        BinaryOperator::Sub => if lv.difference_overflows(rv) {
            (Outcome::Overflow, k)
        } else {
            (Outcome::Value(lv.difference(rv)), k)
        },
        BinaryOperator::Mul => if lv.product_overflows(rv) {
            (Outcome::Overflow, k)
        } else {
            (Outcome::Value(lv.product(rv)), k)
        },
        BinaryOperator::Div => match rv {
            NumberValue::Int(v) => if v == 0 {
                (Outcome::DivisionByZero { row, col }, k)
            } else {
                (Outcome::Value(lv.quotient(rv)), k)
            },
            NumberValue::Float(t) => if 0 <= k < answers.len() {
                if answers[k] {
                    (Outcome::DivisionByZero { row, col }, k + 1)
                } else {
                    (Outcome::Value(lv.quotient(rv)), k + 1)
                }
            } else {
                (Outcome::NeedsZeroTest(t), k)
            },
        },
    }
}

/// Evaluates `e` left to right, depth first, with answers `answers[k..]`
/// for the float divisors met; gives the outcome and the answers used so far.
pub open spec fn eval_at(e: Expr, answers: Seq<bool>, k: int) -> (Outcome, int)
    decreases e,
{
    match e {
        Expr::Literal(l) => (Outcome::Value(l.value), k),
        Expr::Unary(u) => {
            let (o, k1) = eval_at(*u.operand, answers, k);
            match o {
                Outcome::Value(v) => match u.op {
                    UnaryOperator::Neg => if v.negation_overflows() {
                        (Outcome::Overflow, k1)
                    } else {
                        (Outcome::Value(v.negation()), k1)
                    },
                },
                _ => (o, k1),
            }
        },
        Expr::Binary(b) => {
            let (ol, k1) = eval_at(*b.left, answers, k);
            match ol {
                Outcome::Value(lv) => {
                    let (or, k2) = eval_at(*b.right, answers, k1);
                    match or {
                        Outcome::Value(rv) => apply_binary(b.op, lv, rv, b.row, b.col, answers, k2),
                        _ => (or, k2),
                    }
                },
                _ => (ol, k1),
            }
        },
    }
}

/// The outcome of evaluating `e` with the given answers.
pub open spec fn evaluation(e: Expr, answers: Seq<bool>) -> Outcome {
    eval_at(e, answers, 0).0
}

pub proof fn lemma_eval_at_uses_answers_in_order(e: Expr, answers: Seq<bool>, k: int)
    requires
        0 <= k <= answers.len(),
    ensures
        k <= eval_at(e, answers, k).1 <= answers.len(),
    decreases e,
{
    match e {
        Expr::Literal(_) => {},
        Expr::Unary(u) => {
            lemma_eval_at_uses_answers_in_order(*u.operand, answers, k);
        },
        Expr::Binary(b) => {
            lemma_eval_at_uses_answers_in_order(*b.left, answers, k);
            let k1 = eval_at(*b.left, answers, k).1;
            lemma_eval_at_uses_answers_in_order(*b.right, answers, k1);
        },
    }
}

impl Evaluator {
    pub fn new() -> (res: Self)
        ensures
            res == (Evaluator {  }),
    {
        Evaluator {  }
    }

    /// Evaluates `expression`, using `zero_answers[i]` as the answer to
    /// "is this divisor zero?" for the `i`-th float divisor met.
    ///
    /// An evaluation in which an integer result leaves the `i64` range has
    /// no value; `overflows` tells beforehand whether that happens.
    pub fn evaluate(&self, expression: &Expr, zero_answers: &Vec<bool>) -> (res: Evaluation)
        requires
            !(evaluation(*expression, zero_answers@) is Overflow),
        ensures
            match evaluation(*expression, zero_answers@) {
                Outcome::Value(v) => res == Evaluation::Done(Ok(v)),
                Outcome::DivisionByZero { row, col } => res matches Evaluation::Done(Err(e)) && e.row
                    == row && e.col == col && e.message@ == division_by_zero_message(),
                Outcome::NeedsZeroTest(t) => res == Evaluation::NeedsZeroTest(t),
                Outcome::Overflow => false,
            },
    {
        let (outcome, _) = self.run(expression, zero_answers, 0);
        match outcome {
            Outcome::Value(v) => Evaluation::Done(Ok(v)),
            Outcome::DivisionByZero { row, col } => {
                let message = String::from_str("Division by zero");
                proof {
                    reveal_strlit("Division by zero");
                }
                Evaluation::Done(Err(EvaluateError { row, col, message }))
            },
            Outcome::NeedsZeroTest(t) => Evaluation::NeedsZeroTest(t),
            Outcome::Overflow => vstd::pervasive::unreached(),
        }
    }

    /// Whether evaluating `expression` with these answers reaches an integer
    /// operation whose result leaves the `i64` range.
    pub fn overflows(&self, expression: &Expr, zero_answers: &Vec<bool>) -> (res: bool)
        ensures
            res == (evaluation(*expression, zero_answers@) is Overflow),
    {
        let (outcome, _) = self.run(expression, zero_answers, 0);
        match outcome {
            Outcome::Overflow => true,
            _ => false,
        }
    }

    fn run(&self, e: &Expr, answers: &Vec<bool>, k: usize) -> (res: (Outcome, usize))
        requires
            k <= answers.len(),
        ensures
            res.0 == eval_at(*e, answers@, k as int).0,
            res.1 == eval_at(*e, answers@, k as int).1,
            k <= res.1 <= answers.len(),
        decreases e,
    {
        match e {
            Expr::Literal(l) => (Outcome::Value(l.value.clone()), k),
            Expr::Unary(u) => {
                let (o, k1) = self.run(&u.operand, answers, k);
                match o {
                    Outcome::Value(v) => match u.op {
                        UnaryOperator::Neg => {
                            if let NumberValue::Int(i) = v {
                                if i == i64::MIN {
                                    return (Outcome::Overflow, k1);
                                }
                            }
                            (Outcome::Value(v.neg()), k1)
                        },
                    },
                    other => (other, k1),
                }
            },
            Expr::Binary(b) => {
                let (ol, k1) = self.run(&b.left, answers, k);
                match ol {
                    Outcome::Value(lv) => {
                        let (or, k2) = self.run(&b.right, answers, k1);
                        match or {
                            Outcome::Value(rv) => Self::apply(b.op, lv, rv, b.row, b.col, answers, k2),
                            other => (other, k2),
                        }
                    },
                    other => (other, k1),
                }
            },
        }
    }

    fn apply(
        op: BinaryOperator,
        lv: NumberValue,
        rv: NumberValue,
        row: Option<usize>,
        col: Option<usize>,
        answers: &Vec<bool>,
        k: usize,
    ) -> (res: (Outcome, usize))
        requires
            k <= answers.len(),
        ensures
            res.0 == apply_binary(op, lv, rv, row, col, answers@, k as int).0,
            res.1 == apply_binary(op, lv, rv, row, col, answers@, k as int).1,
            k <= res.1 <= answers.len(),
    {
        match op {
            BinaryOperator::Add => {
                if let (NumberValue::Int(a), NumberValue::Int(b)) = (&lv, &rv) {
                    if a.checked_add(*b).is_none() {
                        return (Outcome::Overflow, k);
                    }
                }
                (Outcome::Value(lv.add(rv)), k)
            },
            BinaryOperator::Sub => {
                if let (NumberValue::Int(a), NumberValue::Int(b)) = (&lv, &rv) {
                    if a.checked_sub(*b).is_none() {
                        return (Outcome::Overflow, k);
                    }
                }
                (Outcome::Value(lv.sub(rv)), k)
            },
            BinaryOperator::Mul => {
                if let (NumberValue::Int(a), NumberValue::Int(b)) = (&lv, &rv) {
                    if a.checked_mul(*b).is_none() {
                        return (Outcome::Overflow, k);
                    }
                }
                (Outcome::Value(lv.mul(rv)), k)
            },
            BinaryOperator::Div => {
                match &rv {
                    NumberValue::Int(v) => {
                        if *v == 0 {
                            return (Outcome::DivisionByZero { row, col }, k);
                        }
                        (Outcome::Value(lv.div(rv)), k)
                    },
                    NumberValue::Float(t) => {
                        if k < answers.len() {
                            if answers[k] {
                                (Outcome::DivisionByZero { row, col }, k + 1)
                            } else {
                                (Outcome::Value(lv.div(rv)), k + 1)
                            }
                        } else {
                            (Outcome::NeedsZeroTest(t.clone()), k)
                        }
                    },
                }
            },
        }
    }
}

/// The number of division nodes in `e`.
pub open spec fn divisions(e: Expr) -> nat
    decreases e,
{
    match e {
        Expr::Literal(_) => 0,
        Expr::Unary(u) => divisions(*u.operand),
        Expr::Binary(b) => divisions(*b.left) + divisions(*b.right) + if b.op == BinaryOperator::Div {
            1nat
        } else {
            0nat
        },
    }
}

/// Each division reads at most one answer, and an evaluation asks for a
/// zero test only once every answer given has been read.
pub proof fn lemma_answers_read_once(e: Expr, answers: Seq<bool>, k: int)
    requires
        0 <= k <= answers.len(),
    ensures
        eval_at(e, answers, k).1 <= k + divisions(e),
        eval_at(e, answers, k).0 is NeedsZeroTest ==> eval_at(e, answers, k).1 == answers.len()
            && answers.len() < k + divisions(e),
    decreases e,
{
    lemma_eval_at_uses_answers_in_order(e, answers, k);
    match e {
        Expr::Literal(_) => {},
        Expr::Unary(u) => {
            lemma_answers_read_once(*u.operand, answers, k);
        },
        Expr::Binary(b) => {
            lemma_answers_read_once(*b.left, answers, k);
            lemma_eval_at_uses_answers_in_order(*b.left, answers, k);
            let k1 = eval_at(*b.left, answers, k).1;
            lemma_answers_read_once(*b.right, answers, k1);
            lemma_eval_at_uses_answers_in_order(*b.right, answers, k1);
        },
    }
}

/// The zero-test exchange ends: once answers are given for as many divisors
/// as the expression has divisions, the evaluation asks no more. Each round
/// that asks reads all answers given so far, so every divisor is asked about
/// once, and an expression with `n` divisions is done in at most `n + 1`
/// rounds.
pub proof fn lemma_zero_tests_end(e: Expr, answers: Seq<bool>)
    ensures
        answers.len() >= divisions(e) ==> !(evaluation(e, answers) is NeedsZeroTest),
        evaluation(e, answers) is NeedsZeroTest ==> eval_at(e, answers, 0).1 == answers.len(),
{
    lemma_answers_read_once(e, answers, 0);
}

/// An expression whose value is an integer: integer literals, and no
/// division.
pub open spec fn int_typed(e: Expr) -> bool
    decreases e,
{
    match e {
        Expr::Literal(l) => l.value is Int,
        Expr::Unary(u) => int_typed(*u.operand),
        Expr::Binary(b) => b.op != BinaryOperator::Div && int_typed(*b.left) && int_typed(*b.right),
    }
}

/// The mathematical value of an integer-typed expression.
pub open spec fn int_value(e: Expr) -> int
    decreases e,
{
    match e {
        Expr::Literal(l) => match l.value {
            NumberValue::Int(v) => v as int,
            NumberValue::Float(_) => 0,
        },
        Expr::Unary(u) => -int_value(*u.operand),
        Expr::Binary(b) => match b.op {
            BinaryOperator::Add => int_value(*b.left) + int_value(*b.right),
            BinaryOperator::Sub => int_value(*b.left) - int_value(*b.right),
            BinaryOperator::Mul => int_value(*b.left) * int_value(*b.right),
            BinaryOperator::Div => 0,
        },
    }
}

/// Every subexpression's mathematical value lies in the `i64` range.
pub open spec fn int_fits(e: Expr) -> bool
    decreases e,
{
    &&& i64::MIN <= int_value(e) <= i64::MAX
    &&& match e {
        Expr::Literal(_) => true,
        Expr::Unary(u) => int_fits(*u.operand),
        Expr::Binary(b) => int_fits(*b.left) && int_fits(*b.right),
    }
}

/// A value is an integer exactly when the expression is integer-typed: two
/// integers stay an integer under `+`, `-`, `*` and negation, a float
/// operand makes the result a float, and a quotient is always a float.
pub proof fn lemma_value_kind(e: Expr, answers: Seq<bool>, k: int)
    ensures
        eval_at(e, answers, k).0 matches Outcome::Value(v) ==> (v is Int <==> int_typed(e)),
    decreases e,
{
    match e {
        Expr::Literal(_) => {},
        Expr::Unary(u) => {
            lemma_value_kind(*u.operand, answers, k);
        },
        Expr::Binary(b) => {
            lemma_value_kind(*b.left, answers, k);
            let k1 = eval_at(*b.left, answers, k).1;
            lemma_value_kind(*b.right, answers, k1);
        },
    }
}

/// The exact value of an expression tree: its literals' exact values
/// combined by exact arithmetic, operator by operator.
pub open spec fn exact_expr(e: Expr, lit: spec_fn(usize, usize) -> (int, int)) -> (int, int)
    decreases e,
{
    match e {
        Expr::Literal(l) => exact_number(l.value, lit),
        Expr::Unary(u) => rat_neg(exact_expr(*u.operand, lit)),
        Expr::Binary(b) => match b.op {
            BinaryOperator::Add => rat_add(exact_expr(*b.left, lit), exact_expr(*b.right, lit)),
            BinaryOperator::Sub => rat_sub(exact_expr(*b.left, lit), exact_expr(*b.right, lit)),
            BinaryOperator::Mul => rat_mul(exact_expr(*b.left, lit), exact_expr(*b.right, lit)),
            BinaryOperator::Div => rat_div(exact_expr(*b.left, lit), exact_expr(*b.right, lit)),
        },
    }
}

/// The evaluator computes what the expression says: a value it gives is, read
/// exactly, the exact value of the tree (for an integer, that value itself;
/// for a float, the value before the rounding of each IEEE operation), with
/// each operator applied to its left and right operand in that order.
pub proof fn lemma_evaluation_computes_the_expression(
    e: Expr,
    answers: Seq<bool>,
    k: int,
    lit: spec_fn(usize, usize) -> (int, int),
)
    ensures
        eval_at(e, answers, k).0 matches Outcome::Value(v) ==> exact_number(v, lit) == exact_expr(e, lit),
    decreases e,
{
    match e {
        Expr::Literal(_) => {},
        Expr::Unary(u) => {
            lemma_evaluation_computes_the_expression(*u.operand, answers, k, lit);
            if let Outcome::Value(v) = eval_at(*u.operand, answers, k).0 {
                if !v.negation_overflows() {
                    crate::number::lemma_negation_negates(v, lit);
                }
            }
        },
        Expr::Binary(b) => {
            lemma_evaluation_computes_the_expression(*b.left, answers, k, lit);
            let k1 = eval_at(*b.left, answers, k).1;
            lemma_evaluation_computes_the_expression(*b.right, answers, k1, lit);
            if let Outcome::Value(lv) = eval_at(*b.left, answers, k).0 {
                if let Outcome::Value(rv) = eval_at(*b.right, answers, k1).0 {
                    match b.op {
                        BinaryOperator::Add => if !lv.sum_overflows(rv) {
                            crate::number::lemma_sum_adds(lv, rv, lit);
                        },
                        BinaryOperator::Sub => if !lv.difference_overflows(rv) {
                            crate::number::lemma_difference_subtracts(lv, rv, lit);
                        },
                        BinaryOperator::Mul => if !lv.product_overflows(rv) {
                            crate::number::lemma_product_multiplies(lv, rv, lit);
                        },
                        BinaryOperator::Div => {
                            crate::number::lemma_quotient_divides(lv, rv, lit);
                        },
                    }
                }
            }
        },
    }
}

/// Division by an integer zero is an error at the division, whatever the
/// dividend (integer or float); by a non-zero integer it is a float value.
/// No answer is read for an integer divisor.
pub proof fn lemma_division_by_integer(e: Expr, answers: Seq<bool>, k: int)
    requires
        e matches Expr::Binary(b) && b.op == BinaryOperator::Div,
        eval_at(*e->Binary_0.left, answers, k).0 is Value,
        eval_at(*e->Binary_0.right, answers, eval_at(*e->Binary_0.left, answers, k).1).0 matches Outcome::Value(
            NumberValue::Int(_),
        ),
    ensures
        ({
            let b = e->Binary_0;
            let k1 = eval_at(*b.left, answers, k).1;
            let (or, k2) = eval_at(*b.right, answers, k1);
            let d = or->Value_0->Int_0;
            &&& d == 0 ==> eval_at(e, answers, k) == (Outcome::DivisionByZero { row: b.row, col: b.col }, k2)
            &&& d != 0 ==> eval_at(e, answers, k).0 is Value && eval_at(e, answers, k).1 == k2
        }),
{
}

/// Division by a float asks about that divisor: with the next answer "zero"
/// it is an error at the division, with "not zero" a float value, and
/// without an answer the divisor itself is asked about.
pub proof fn lemma_division_by_float(e: Expr, answers: Seq<bool>, k: int)
    requires
        e matches Expr::Binary(b) && b.op == BinaryOperator::Div,
        eval_at(*e->Binary_0.left, answers, k).0 is Value,
        eval_at(*e->Binary_0.right, answers, eval_at(*e->Binary_0.left, answers, k).1).0 matches Outcome::Value(
            NumberValue::Float(_),
        ),
    ensures
        ({
            let b = e->Binary_0;
            let k1 = eval_at(*b.left, answers, k).1;
            let (or, k2) = eval_at(*b.right, answers, k1);
            let t = or->Value_0->Float_0;
            &&& 0 <= k2 < answers.len() && answers[k2] ==> eval_at(e, answers, k) == (
                Outcome::DivisionByZero { row: b.row, col: b.col },
                k2 + 1,
            )
            &&& 0 <= k2 < answers.len() && !answers[k2] ==> eval_at(e, answers, k).0 is Value && eval_at(
                e,
                answers,
                k,
            ).1 == k2 + 1
            &&& !(0 <= k2 < answers.len()) ==> eval_at(e, answers, k) == (Outcome::NeedsZeroTest(t), k2)
        }),
{
}

/// The first failure wins: an operand that does not give a value (an error,
/// an overflow, or a question) is the outcome of the whole node, the left
/// operand before the right.
pub proof fn lemma_failures_propagate(e: Expr, answers: Seq<bool>, k: int)
    ensures
        e is Unary && !(eval_at(*e->Unary_0.operand, answers, k).0 is Value) ==> eval_at(e, answers, k)
            == eval_at(*e->Unary_0.operand, answers, k),
        e is Binary && !(eval_at(*e->Binary_0.left, answers, k).0 is Value) ==> eval_at(e, answers, k)
            == eval_at(*e->Binary_0.left, answers, k),
        e is Binary && eval_at(*e->Binary_0.left, answers, k).0 is Value && !(eval_at(
            *e->Binary_0.right,
            answers,
            eval_at(*e->Binary_0.left, answers, k).1,
        ).0 is Value) ==> eval_at(e, answers, k) == eval_at(
            *e->Binary_0.right,
            answers,
            eval_at(*e->Binary_0.left, answers, k).1,
        ),
{
}

/// Integer expressions are computed exactly, without consulting any answer:
/// the value is the mathematical one when every intermediate result fits in
/// an `i64`, and the evaluation overflows otherwise.
pub proof fn lemma_integer_evaluation_is_exact(e: Expr, answers: Seq<bool>, k: int)
    requires
        int_typed(e),
    ensures
        int_fits(e) ==> eval_at(e, answers, k) == (Outcome::Value(NumberValue::Int(int_value(e) as i64)), k),
        !int_fits(e) ==> eval_at(e, answers, k).0 == Outcome::Overflow,
    decreases e,
{
    match e {
        Expr::Literal(_) => {},
        Expr::Unary(u) => {
            lemma_integer_evaluation_is_exact(*u.operand, answers, k);
        },
        Expr::Binary(b) => {
            lemma_integer_evaluation_is_exact(*b.left, answers, k);
            let k1 = eval_at(*b.left, answers, k).1;
            lemma_integer_evaluation_is_exact(*b.right, answers, k1);
        },
    }
}

/// Once an evaluation is complete, further answers change nothing: answers
/// are only read for the float divisors met before the result.
pub proof fn lemma_further_answers_change_nothing(e: Expr, answers: Seq<bool>, more: Seq<bool>, k: int)
    requires
        0 <= k <= answers.len(),
        !(eval_at(e, answers, k).0 is NeedsZeroTest),
    ensures
        eval_at(e, answers + more, k) == eval_at(e, answers, k),
    decreases e,
{
    lemma_eval_at_uses_answers_in_order(e, answers, k);
    match e {
        Expr::Literal(_) => {},
        Expr::Unary(u) => {
            lemma_further_answers_change_nothing(*u.operand, answers, more, k);
        },
        Expr::Binary(b) => {
            lemma_further_answers_change_nothing(*b.left, answers, more, k);
            let (ol, k1) = eval_at(*b.left, answers, k);
            lemma_eval_at_uses_answers_in_order(*b.left, answers, k);
            if ol is Value {
                lemma_further_answers_change_nothing(*b.right, answers, more, k1);
                let k2 = eval_at(*b.right, answers, k1).1;
                lemma_eval_at_uses_answers_in_order(*b.right, answers, k1);
                if k2 < answers.len() {
                    assert((answers + more)[k2] == answers[k2]);
                }
            }
        },
    }
}

} // verus!
