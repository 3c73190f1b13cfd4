use equate::equation::{evaluate_expression, tokenize, validate_equation, EquationFault};
use equate::rational::{EvalFault, Rational};
use equate::tile::{Operator, TileKind};
use equate::validation::ValidationError;

fn num(n: u8) -> TileKind {
    TileKind::Number { value: n }
}
fn frac(n: u8, d: u8) -> TileKind {
    TileKind::Fraction { numerator: n, denominator: d }
}
fn op(o: Operator) -> TileKind {
    TileKind::Operator { op: o }
}
fn eq() -> TileKind {
    TileKind::Equals
}
fn q(num: u128, den: u128) -> Rational {
    Rational { num, den }
}

#[test]
fn precedence_evaluates_products_first() {
    let r = evaluate_expression(&[num(2), op(Operator::Add), num(3), op(Operator::Multiply), num(4)]);
    assert_eq!(r, Ok(q(14, 1)));
}

#[test]
fn division_is_exact() {
    // 6 / 4 = 3 / 2
    assert!(validate_equation(&[num(6), op(Operator::Divide), num(4), eq(), num(3), op(Operator::Divide), num(2)])
        .is_ok());
    // 1 / 3 + 1 / 3 + 1 / 3 = 1
    assert!(validate_equation(&[
        frac(1, 3),
        op(Operator::Add),
        frac(1, 3),
        op(Operator::Add),
        frac(1, 3),
        eq(),
        num(1)
    ])
    .is_ok());
}

#[test]
fn division_by_zero_is_invalid() {
    assert_eq!(
        validate_equation(&[num(1), op(Operator::Divide), num(0), eq(), num(1)]),
        Err(ValidationError::InvalidEquation(EquationFault::InvalidLeft))
    );
    assert_eq!(evaluate_expression(&[num(5), op(Operator::Divide), num(0)]), Err(EvalFault::Malformed));
}

#[test]
fn zero_denominator_fraction_is_invalid() {
    assert_eq!(
        validate_equation(&[num(1), eq(), frac(1, 0)]),
        Err(ValidationError::InvalidEquation(EquationFault::InvalidRight))
    );
}

#[test]
fn equals_count_must_be_one() {
    assert_eq!(
        validate_equation(&[num(1), eq(), num(1), eq(), num(1)]),
        Err(ValidationError::InvalidEquation(EquationFault::EqualsCount(2)))
    );
    assert_eq!(
        validate_equation(&[num(1), op(Operator::Add), num(1)]),
        Err(ValidationError::InvalidEquation(EquationFault::EqualsCount(0)))
    );
}

#[test]
fn empty_side_is_rejected() {
    assert_eq!(
        validate_equation(&[eq(), num(1)]),
        Err(ValidationError::InvalidEquation(EquationFault::EmptySide))
    );
    assert_eq!(
        validate_equation(&[num(1), eq()]),
        Err(ValidationError::InvalidEquation(EquationFault::EmptySide))
    );
}

#[test]
fn unequal_sides_report_both_values() {
    let r = validate_equation(&[num(3), op(Operator::Add), num(4), eq(), num(8)]);
    assert_eq!(r, Err(ValidationError::InvalidEquation(EquationFault::Unequal(q(7, 1), q(8, 1)))));
    assert_eq!(r.unwrap_err().to_string(), "Invalid equation: 7 ≠ 8");
}

#[test]
fn dangling_operator_is_invalid() {
    assert_eq!(
        validate_equation(&[num(3), op(Operator::Add), eq(), num(3)]),
        Err(ValidationError::InvalidEquation(EquationFault::InvalidLeft))
    );
}

#[test]
fn tokens_group_digits_and_mixed_numbers() {
    let (values, ops) = tokenize(&[num(1), num(2), op(Operator::Add), num(3), frac(1, 4)]).unwrap();
    assert_eq!(values, vec![q(12, 1), q(13, 4)]);
    assert_eq!(ops, vec![Operator::Add]);
    assert_eq!(tokenize(&[num(1), eq()]), Err(EvalFault::Malformed));
}

#[test]
fn zero_whole_part_makes_a_mixed_number() {
    let (values, ops) = tokenize(&[num(0), frac(1, 2)]).unwrap();
    assert_eq!(values, vec![q(1, 2)]);
    assert!(ops.is_empty());
    assert_eq!(evaluate_expression(&[num(0), frac(1, 2)]), Ok(q(1, 2)));
}

#[test]
fn numbers_and_operators_must_alternate() {
    assert_eq!(evaluate_expression(&[op(Operator::Add), frac(1, 2), frac(1, 2)]), Err(EvalFault::Malformed));
    assert_eq!(evaluate_expression(&[frac(1, 2), frac(1, 2), op(Operator::Add)]), Err(EvalFault::Malformed));
    assert_eq!(evaluate_expression(&[num(3), op(Operator::Add)]), Err(EvalFault::Malformed));
    assert_eq!(evaluate_expression(&[num(3), op(Operator::Add), op(Operator::Add), num(3)]), Err(EvalFault::Malformed));
    assert_eq!(evaluate_expression(&[]), Err(EvalFault::Malformed));
    assert_eq!(
        validate_equation(&[frac(1, 2), frac(1, 2), op(Operator::Add), eq(), num(1)]),
        Err(ValidationError::InvalidEquation(EquationFault::InvalidLeft))
    );
}

#[test]
fn subtraction_below_zero_anywhere_is_rejected() {
    assert_eq!(
        evaluate_expression(&[num(2), op(Operator::Subtract), num(3), op(Operator::Multiply), num(1)]),
        Err(EvalFault::Malformed)
    );
    assert_eq!(evaluate_expression(&[num(9), op(Operator::Subtract), num(3), op(Operator::Subtract), num(6)]), Ok(q(0, 1)));
}

#[test]
fn huge_numbers_are_out_of_range() {
    let nines: Vec<TileKind> = std::iter::repeat(num(9)).take(39).collect();
    assert_eq!(evaluate_expression(&nines), Err(EvalFault::OutOfRange));
    let mut line = nines.clone();
    line.push(eq());
    line.push(num(1));
    assert_eq!(validate_equation(&line), Err(ValidationError::InvalidEquation(EquationFault::OutOfRange)));
    let fits: Vec<TileKind> = std::iter::repeat(num(9)).take(38).collect();
    assert!(evaluate_expression(&fits).is_ok());
}

#[test]
fn fault_messages() {
    assert_eq!(EquationFault::EqualsCount(2).to_string(), "must have exactly one = (found 2)");
    assert_eq!(EquationFault::EmptySide.to_string(), "empty side of equation");
    assert_eq!(EquationFault::InvalidLeft.to_string(), "invalid left-hand expression");
    assert_eq!(EquationFault::InvalidRight.to_string(), "invalid right-hand expression");
    assert_eq!(EquationFault::Unequal(q(13, 4), q(3, 1)).to_string(), "3.25 ≠ 3");
    assert_eq!(EquationFault::Unequal(q(24, 3), q(9, 1)).to_string(), "8 ≠ 9");
    assert_eq!(EquationFault::Unequal(q(7, 2), q(4, 1)).to_string(), "3.5 ≠ 4");
    assert_eq!(EquationFault::Unequal(q(2, 3), q(1, 1)).to_string(), "2/3 ≠ 1");
    assert_eq!(EquationFault::Unequal(q(6, 4), q(2, 1)).to_string(), "1.5 ≠ 2");
}
