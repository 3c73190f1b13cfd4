use equate::board::Board;
use equate::equation::validate_equation;
use equate::tile::{Operator, PlacedTile, Tile, TileKind};
use equate::validation::{validate_move, ValidationError};

fn num(n: u8) -> TileKind {
    TileKind::Number { value: n }
}
fn frac(n: u8, d: u8) -> TileKind {
    TileKind::Fraction { numerator: n, denominator: d }
}
fn op(o: Operator) -> TileKind {
    TileKind::Operator { op: o }
}
fn eq() -> TileKind {
    TileKind::Equals
}

fn placed(tile: Tile, row: usize, col: usize) -> PlacedTile {
    PlacedTile { tile, row, col }
}

#[test]
fn valid_simple_equation() {
    // 3 + 4 = 7
    assert!(validate_equation(&[num(3), op(Operator::Add), num(4), eq(), num(7)]).is_ok());
}

#[test]
fn invalid_equation() {
    assert!(validate_equation(&[num(3), op(Operator::Add), num(4), eq(), num(8)]).is_err());
}

#[test]
fn multi_digit_numbers() {
    // 24 / 3 = 8
    assert!(validate_equation(&[num(2), num(4), op(Operator::Divide), num(3), eq(), num(8)]).is_ok());
}

#[test]
fn operator_precedence() {
    // 2 + 3 * 4 = 14
    assert!(validate_equation(&[
        num(2),
        op(Operator::Add),
        num(3),
        op(Operator::Multiply),
        num(4),
        eq(),
        num(1),
        num(4)
    ])
    .is_ok());
}

#[test]
fn fractions() {
    // 1/2 + 1/2 = 1
    assert!(validate_equation(&[frac(1, 2), op(Operator::Add), frac(1, 2), eq(), num(1)]).is_ok());
}

#[test]
fn mixed_numbers() {
    // 3 1/4 = 13/4
    assert!(validate_equation(&[num(3), frac(1, 4), eq(), num(1), num(3), op(Operator::Divide), num(4)]).is_ok());
}

#[test]
fn negative_intermediate_rejected() {
    // 4 - 6 + 7 = 5: both sides equal 5 but the left side goes negative at (4-6)
    assert!(validate_equation(&[
        num(4),
        op(Operator::Subtract),
        num(6),
        op(Operator::Add),
        num(7),
        eq(),
        num(5)
    ])
    .is_err());
}

#[test]
fn zero_subtraction_allowed() {
    // 7 - 7 = 0
    assert!(validate_equation(&[num(7), op(Operator::Subtract), num(7), eq(), num(0)]).is_ok());
}

#[test]
fn first_move_must_cover_center() {
    let board = Board::new();
    assert!(matches!(
        validate_move(&board, &[placed(Tile::number(1), 0, 0)], true),
        Err(ValidationError::MustCoverCenter)
    ));
}
