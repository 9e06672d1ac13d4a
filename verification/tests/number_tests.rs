use calculator::number::{FloatTerm, NumberValue};

fn lit(start: usize, end: usize) -> FloatTerm {
    FloatTerm::Literal { start, end }
}

#[test]
fn two_ints_stay_exact() {
    assert_eq!(NumberValue::Int(7).add(NumberValue::Int(-9)), NumberValue::Int(-2));
    assert_eq!(NumberValue::Int(7).sub(NumberValue::Int(9)), NumberValue::Int(-2));
    assert_eq!(NumberValue::Int(-7).mul(NumberValue::Int(6)), NumberValue::Int(-42));
    assert_eq!(NumberValue::Int(i64::MAX).neg(), NumberValue::Int(-i64::MAX));
}

#[test]
fn a_float_operand_makes_a_float_sum() {
    assert_eq!(
        NumberValue::Int(1).add(NumberValue::Float(lit(4, 7))),
        NumberValue::Float(FloatTerm::Add(Box::new(FloatTerm::FromInt(1)), Box::new(lit(4, 7))))
    );
    assert_eq!(
        NumberValue::Float(lit(0, 3)).sub(NumberValue::Int(2)),
        NumberValue::Float(FloatTerm::Sub(Box::new(lit(0, 3)), Box::new(FloatTerm::FromInt(2))))
    );
    assert_eq!(
        NumberValue::Float(lit(0, 3)).mul(NumberValue::Float(lit(6, 9))),
        NumberValue::Float(FloatTerm::Mul(Box::new(lit(0, 3)), Box::new(lit(6, 9))))
    );
    assert_eq!(
        NumberValue::Float(lit(0, 3)).neg(),
        NumberValue::Float(FloatTerm::Neg(Box::new(lit(0, 3))))
    );
}

#[test]
fn quotient_of_two_ints_is_a_float() {
    assert_eq!(
        NumberValue::Int(7).div(NumberValue::Int(2)),
        NumberValue::Float(FloatTerm::Div(Box::new(FloatTerm::FromInt(7)), Box::new(FloatTerm::FromInt(2))))
    );
}

#[test]
fn float_term_of_an_int_is_its_conversion() {
    assert_eq!(NumberValue::Int(5).to_float_term(), FloatTerm::FromInt(5));
    assert_eq!(NumberValue::Float(lit(1, 4)).to_float_term(), lit(1, 4));
}

#[test]
fn clone_is_equal() {
    let v = NumberValue::Float(FloatTerm::Div(Box::new(lit(0, 3)), Box::new(FloatTerm::Neg(Box::new(FloatTerm::FromInt(2))))));
    assert_eq!(v.clone(), v);
}
