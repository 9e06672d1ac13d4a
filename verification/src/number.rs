//! Numeric values of the calculator.
//!
//! A value is either an exact 64-bit integer or a floating-point number.
//! Floating-point numbers are never computed here: a float is described by a
//! `FloatTerm`, the exact sequence of IEEE-754 operations that produces it
//! (literals, integer conversions, negation and the four binary operations).
//! Whoever holds the source text can compute the term with `f64`, in the same
//! order and with the same operations, and obtains the same bits.
use vstd::prelude::*;

verus! {

/// A description of a floating-point computation.
///
/// `==` on terms compares the computations, not the `f64` values they yield:
/// the same literal at two columns, or a value and its double negation, are
/// different terms although they give the same number.
#[derive(Debug, PartialEq)]
pub enum FloatTerm {
    /// The decimal literal written at characters `start..end` of the source,
    /// read as the nearest `f64`.
    Literal { start: usize, end: usize },
    /// The integer converted with `as f64`.
    FromInt(i64),
    /// IEEE negation of the operand.
    Neg(Box<FloatTerm>),
    /// IEEE sum of the operands.
    Add(Box<FloatTerm>, Box<FloatTerm>),
    /// IEEE difference of the operands.
    Sub(Box<FloatTerm>, Box<FloatTerm>),
    /// IEEE product of the operands.
    Mul(Box<FloatTerm>, Box<FloatTerm>),
    /// IEEE quotient of the operands.
    Div(Box<FloatTerm>, Box<FloatTerm>),
}

/// A number: an exact integer, or a float described by its computation.
///
/// `==` is exact for integers; for floats it compares the computations (see
/// `FloatTerm`), not their values, so equal floats may compare unequal.
#[derive(Debug, PartialEq)]
pub enum NumberValue {
    Int(i64),
    Float(FloatTerm),
}

impl Clone for FloatTerm {
    fn clone(&self) -> (res: Self)
        ensures
            res == *self,
        decreases self,
    {
        match self {
            FloatTerm::Literal { start, end } => FloatTerm::Literal { start: *start, end: *end },
            FloatTerm::FromInt(v) => FloatTerm::FromInt(*v),
            FloatTerm::Neg(a) => FloatTerm::Neg(Box::new((**a).clone())),
            FloatTerm::Add(a, b) => FloatTerm::Add(Box::new((**a).clone()), Box::new((**b).clone())),
            FloatTerm::Sub(a, b) => FloatTerm::Sub(Box::new((**a).clone()), Box::new((**b).clone())),
            FloatTerm::Mul(a, b) => FloatTerm::Mul(Box::new((**a).clone()), Box::new((**b).clone())),
            FloatTerm::Div(a, b) => FloatTerm::Div(Box::new((**a).clone()), Box::new((**b).clone())),
        }
    }
}

impl Clone for NumberValue {
    fn clone(&self) -> (res: Self)
        ensures
            res == *self,
    {
        match self {
            NumberValue::Int(v) => NumberValue::Int(*v),
            NumberValue::Float(t) => NumberValue::Float(t.clone()),
        }
    }
}

/// The integer range of `i64`.
pub open spec fn in_i64(x: int) -> bool {
    i64::MIN <= x <= i64::MAX
}


/// Exact rational arithmetic on `(numerator, denominator)` pairs, the
/// reading of a float computation without rounding.
pub open spec fn rat_add(x: (int, int), y: (int, int)) -> (int, int) {
    (x.0 * y.1 + y.0 * x.1, x.1 * y.1)
}

pub open spec fn rat_sub(x: (int, int), y: (int, int)) -> (int, int) {
    (x.0 * y.1 - y.0 * x.1, x.1 * y.1)
}

pub open spec fn rat_mul(x: (int, int), y: (int, int)) -> (int, int) {
    (x.0 * y.0, x.1 * y.1)
}

pub open spec fn rat_div(x: (int, int), y: (int, int)) -> (int, int) {
    (x.0 * y.1, x.1 * y.0)
}

pub open spec fn rat_neg(x: (int, int)) -> (int, int) {
    (-x.0, x.1)
}

/// The exact value of a float computation, with the literals read by `lit`
/// (start and end of the literal in the source to its exact value): every
/// IEEE operation taken as the exact operation on rationals that it rounds.
pub open spec fn exact_term(t: FloatTerm, lit: spec_fn(usize, usize) -> (int, int)) -> (int, int)
    decreases t,
{
    match t {
        FloatTerm::Literal { start, end } => lit(start, end),
        FloatTerm::FromInt(v) => (v as int, 1),
        FloatTerm::Neg(a) => rat_neg(exact_term(*a, lit)),
        FloatTerm::Add(a, b) => rat_add(exact_term(*a, lit), exact_term(*b, lit)),
        FloatTerm::Sub(a, b) => rat_sub(exact_term(*a, lit), exact_term(*b, lit)),
        FloatTerm::Mul(a, b) => rat_mul(exact_term(*a, lit), exact_term(*b, lit)),
        FloatTerm::Div(a, b) => rat_div(exact_term(*a, lit), exact_term(*b, lit)),
    }
}

/// The exact value of a number: an integer over 1, or its float's exact
/// value.
pub open spec fn exact_number(v: NumberValue, lit: spec_fn(usize, usize) -> (int, int)) -> (int, int) {
    match v {
        NumberValue::Int(i) => (i as int, 1),
        NumberValue::Float(t) => exact_term(t, lit),
    }
}

/// A number's float term has the number's exact value.
proof fn lemma_float_term_exact(a: NumberValue, lit: spec_fn(usize, usize) -> (int, int))
    ensures
        exact_term(a.float_term(), lit) == exact_number(a, lit),
{
}

/// Addition adds: the sum is an integer exactly when both operands are, and
/// its exact value is the exact sum of the operands' values, left plus right
/// (for a float, before the one rounding of the IEEE sum).
pub proof fn lemma_sum_adds(a: NumberValue, b: NumberValue, lit: spec_fn(usize, usize) -> (int, int))
    requires
        !a.sum_overflows(b),
    ensures
        a.sum(b) is Int <==> (a is Int && b is Int),
        exact_number(a.sum(b), lit) == rat_add(exact_number(a, lit), exact_number(b, lit)),
{
    lemma_float_term_exact(a, lit);
    lemma_float_term_exact(b, lit);
    if let (NumberValue::Int(x), NumberValue::Int(y)) = (a, b) {
        assert(rat_add((x as int, 1), (y as int, 1)) == (x + y, 1int)) by (nonlinear_arith);
    } else {
        assert(exact_number(a.sum(b), lit) == rat_add(exact_term(a.float_term(), lit), exact_term(b.float_term(), lit)));
    }
}

/// Subtraction subtracts the right operand from the left.
pub proof fn lemma_difference_subtracts(a: NumberValue, b: NumberValue, lit: spec_fn(usize, usize) -> (int, int))
    requires
        !a.difference_overflows(b),
    ensures
        a.difference(b) is Int <==> (a is Int && b is Int),
        exact_number(a.difference(b), lit) == rat_sub(exact_number(a, lit), exact_number(b, lit)),
{
    lemma_float_term_exact(a, lit);
    lemma_float_term_exact(b, lit);
    if let (NumberValue::Int(x), NumberValue::Int(y)) = (a, b) {
        assert(rat_sub((x as int, 1), (y as int, 1)) == (x - y, 1int)) by (nonlinear_arith);
    } else {
        assert(exact_number(a.difference(b), lit) == rat_sub(exact_term(a.float_term(), lit), exact_term(b.float_term(), lit)));
    }
}

/// Multiplication multiplies the operands' values.
pub proof fn lemma_product_multiplies(a: NumberValue, b: NumberValue, lit: spec_fn(usize, usize) -> (int, int))
    requires
        !a.product_overflows(b),
    ensures
        a.product(b) is Int <==> (a is Int && b is Int),
        exact_number(a.product(b), lit) == rat_mul(exact_number(a, lit), exact_number(b, lit)),
{
    lemma_float_term_exact(a, lit);
    lemma_float_term_exact(b, lit);
    if let (NumberValue::Int(x), NumberValue::Int(y)) = (a, b) {
        assert(rat_mul((x as int, 1), (y as int, 1)) == (x * y, 1int)) by (nonlinear_arith);
    } else {
        assert(exact_number(a.product(b), lit) == rat_mul(exact_term(a.float_term(), lit), exact_term(b.float_term(), lit)));
    }
}

/// Division divides the left operand by the right, and always gives a float.
pub proof fn lemma_quotient_divides(a: NumberValue, b: NumberValue, lit: spec_fn(usize, usize) -> (int, int))
    ensures
        a.quotient(b) is Float,
        exact_number(a.quotient(b), lit) == rat_div(exact_number(a, lit), exact_number(b, lit)),
{
    lemma_float_term_exact(a, lit);
    lemma_float_term_exact(b, lit);
    assert(exact_number(a.quotient(b), lit) == rat_div(exact_term(a.float_term(), lit), exact_term(b.float_term(), lit)));
}

/// Negation negates the value, of every float as of every integer, and keeps
/// its kind.
pub proof fn lemma_negation_negates(a: NumberValue, lit: spec_fn(usize, usize) -> (int, int))
    requires
        !a.negation_overflows(),
    ensures
        a.negation() is Int <==> a is Int,
        exact_number(a.negation(), lit) == rat_neg(exact_number(a, lit)),
{
}

/// Two integers give back integer arithmetic; the operations on numbers
/// agree with the operations on their exact values in either order of the
/// operands where the operation commutes.
pub proof fn lemma_operand_order(a: NumberValue, b: NumberValue, lit: spec_fn(usize, usize) -> (int, int))
    requires
        !a.sum_overflows(b),
        !a.product_overflows(b),
    ensures
        exact_number(a.sum(b), lit).0 * exact_number(b.sum(a), lit).1 == exact_number(b.sum(a), lit).0
            * exact_number(a.sum(b), lit).1,
        exact_number(a.product(b), lit).0 * exact_number(b.product(a), lit).1 == exact_number(
            b.product(a),
            lit,
        ).0 * exact_number(a.product(b), lit).1,
{
    let x = exact_number(a, lit);
    let y = exact_number(b, lit);
    assert((x.0 * y.1 + y.0 * x.1) * (y.1 * x.1) == (y.0 * x.1 + x.0 * y.1) * (x.1 * y.1)) by (nonlinear_arith);
    assert((x.0 * y.0) * (y.1 * x.1) == (y.0 * x.0) * (x.1 * y.1)) by (nonlinear_arith);
}

impl NumberValue {
    /// The value as a float: an integer is converted, a float is itself.
    pub open spec fn float_term(self) -> FloatTerm {
        match self {
            NumberValue::Int(v) => FloatTerm::FromInt(v),
            NumberValue::Float(t) => t,
        }
    }

    /// Both operands as integers, when both are integers.
    pub open spec fn int_pair(self, other: Self) -> Option<(i64, i64)> {
        match (self, other) {
            (NumberValue::Int(a), NumberValue::Int(b)) => Some((a, b)),
            _ => None,
        }
    }

    /// Negation: integers stay integers, floats are negated as floats.
    pub open spec fn negation(self) -> NumberValue {
        match self {
            NumberValue::Int(v) => NumberValue::Int((-v) as i64),
            NumberValue::Float(t) => NumberValue::Float(FloatTerm::Neg(Box::new(t))),
        }
    }

    /// Negating `i64::MIN` overflows.
    pub open spec fn negation_overflows(self) -> bool {
        match self {
            NumberValue::Int(v) => !in_i64(-v),
            NumberValue::Float(_) => false,
        }
    }

    /// Sum: exact for two integers, a float sum as soon as one side is a float.
    pub open spec fn sum(self, other: Self) -> NumberValue {
        match self.int_pair(other) {
            Some((a, b)) => NumberValue::Int((a + b) as i64),
            None => NumberValue::Float(
                FloatTerm::Add(Box::new(self.float_term()), Box::new(other.float_term())),
            ),
        }
    }

    pub open spec fn sum_overflows(self, other: Self) -> bool {
        match self.int_pair(other) {
            Some((a, b)) => !in_i64(a + b),
            None => false,
        }
    }

    /// Difference: exact for two integers, a float difference otherwise.
    pub open spec fn difference(self, other: Self) -> NumberValue {
        match self.int_pair(other) {
            Some((a, b)) => NumberValue::Int((a - b) as i64),
            None => NumberValue::Float(
                FloatTerm::Sub(Box::new(self.float_term()), Box::new(other.float_term())),
            ),
        }
    }

    pub open spec fn difference_overflows(self, other: Self) -> bool {
        match self.int_pair(other) {
            Some((a, b)) => !in_i64(a - b),
            None => false,
        }
    }

    /// Product: exact for two integers, a float product otherwise.
    pub open spec fn product(self, other: Self) -> NumberValue {
        match self.int_pair(other) {
            Some((a, b)) => NumberValue::Int((a * b) as i64),
            None => NumberValue::Float(
                FloatTerm::Mul(Box::new(self.float_term()), Box::new(other.float_term())),
            ),
        }
    }

    pub open spec fn product_overflows(self, other: Self) -> bool {
        match self.int_pair(other) {
            Some((a, b)) => !in_i64(a * b),
            None => false,
        }
    }

    /// Quotient: always a float, also for two integers.
    pub open spec fn quotient(self, other: Self) -> NumberValue {
        NumberValue::Float(FloatTerm::Div(Box::new(self.float_term()), Box::new(other.float_term())))
    }

    /// The value as a float: an integer is converted, a float is itself.
    pub fn to_float_term(self) -> (res: FloatTerm)
        ensures
            res == self.float_term(),
    {
        match self {
            NumberValue::Int(v) => FloatTerm::FromInt(v),
            NumberValue::Float(t) => t,
        }
    }

    fn both_ints(&self, other: &Self) -> (res: Option<(i64, i64)>)
        ensures
            res == self.int_pair(*other),
    {
        match (self, other) {
            (NumberValue::Int(a), NumberValue::Int(b)) => Some((*a, *b)),
            _ => None,
        }
    }

    /// Negates the value; integer negation is exact.
    pub fn neg(self) -> (res: Self)
        requires
            !self.negation_overflows(),
        ensures
            res == self.negation(),
    {
        match self {
            NumberValue::Int(v) => NumberValue::Int(-v),
            NumberValue::Float(t) => NumberValue::Float(FloatTerm::Neg(Box::new(t))),
        }
    }

    /// Adds two values; two integers give their exact sum.
    pub fn add(self, other: Self) -> (res: Self)
        requires
            !self.sum_overflows(other),
        ensures
            res == self.sum(other),
    {
        match self.both_ints(&other) {
            Some((a, b)) => NumberValue::Int(a + b),
            None => NumberValue::Float(
                FloatTerm::Add(Box::new(self.to_float_term()), Box::new(other.to_float_term())),
            ),
        }
    }

    /// Subtracts two values; two integers give their exact difference.
    pub fn sub(self, other: Self) -> (res: Self)
        requires
            !self.difference_overflows(other),
        ensures
            res == self.difference(other),
    {
        match self.both_ints(&other) {
            Some((a, b)) => NumberValue::Int(a - b),
            None => NumberValue::Float(
                FloatTerm::Sub(Box::new(self.to_float_term()), Box::new(other.to_float_term())),
            ),
        }
    }

    /// Multiplies two values; two integers give their exact product.
    pub fn mul(self, other: Self) -> (res: Self)
        requires
            !self.product_overflows(other),
        ensures
            res == self.product(other),
    {
        match self.both_ints(&other) {
            Some((a, b)) => NumberValue::Int(a * b),
            None => NumberValue::Float(
                FloatTerm::Mul(Box::new(self.to_float_term()), Box::new(other.to_float_term())),
            ),
        }
    }

    /// Divides two values; the quotient is always a float.
    pub fn div(self, other: Self) -> (res: Self)
        ensures
            res == self.quotient(other),
    {
        NumberValue::Float(
            FloatTerm::Div(Box::new(self.to_float_term()), Box::new(other.to_float_term())),
        )
    }
}

} // verus!
