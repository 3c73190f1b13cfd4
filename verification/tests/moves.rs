use equate::board::Board;
use equate::equation::EquationFault;
use equate::rational::Rational;
use equate::tile::{Operator, PlacedTile, Tile};
use equate::validation::{equation_positions, validate_move, ValidationError};

fn at(tile: Tile, row: usize, col: usize) -> PlacedTile {
    PlacedTile { tile, row, col }
}

/// 3 + 4 = 7 along row 9 from column `start`.
fn three_plus_four(start: usize) -> Vec<PlacedTile> {
    vec![
        at(Tile::number(3), 9, start),
        at(Tile::operator(Operator::Add), 9, start + 1),
        at(Tile::number(4), 9, start + 2),
        at(Tile::equals(), 9, start + 3),
        at(Tile::number(7), 9, start + 4),
    ]
}

fn board_with(placed: &[PlacedTile]) -> Board {
    let mut board = Board::new();
    for p in placed {
        board.place_tile(p.row, p.col, p.tile);
    }
    board
}

#[test]
fn valid_first_move() {
    assert_eq!(validate_move(&Board::new(), &three_plus_four(7), true), Ok(()));
}

#[test]
fn single_tile_on_center_forms_no_equation() {
    assert_eq!(validate_move(&Board::new(), &[at(Tile::number(1), 9, 9)], true), Ok(()));
}

#[test]
fn no_tiles_placed() {
    assert_eq!(validate_move(&Board::new(), &[], true), Err(ValidationError::NoTilesPlaced));
}

#[test]
fn duplicate_position() {
    let placed = vec![at(Tile::number(1), 9, 9), at(Tile::number(2), 9, 9)];
    assert_eq!(validate_move(&Board::new(), &placed, true), Err(ValidationError::DuplicatePosition));
}

#[test]
fn not_in_line_or_column() {
    let placed = vec![at(Tile::number(1), 9, 9), at(Tile::number(2), 10, 10)];
    assert_eq!(validate_move(&Board::new(), &placed, true), Err(ValidationError::NotInLineOrColumn));
}

#[test]
fn overlaps_existing_tile() {
    let board = board_with(&three_plus_four(7));
    let placed = vec![at(Tile::number(1), 9, 8)];
    assert_eq!(validate_move(&board, &placed, false), Err(ValidationError::OverlapsExistingTile));
}

#[test]
fn gap_in_placement() {
    let placed = vec![at(Tile::number(1), 9, 9), at(Tile::number(2), 9, 11)];
    assert_eq!(validate_move(&Board::new(), &placed, true), Err(ValidationError::GapInPlacement));
}

#[test]
fn existing_tile_closes_a_gap() {
    // 3 * 2 = 6 down column 7, through the 3 already at (9, 7)
    let board = board_with(&three_plus_four(7));
    let placed = vec![
        at(Tile::operator(Operator::Multiply), 10, 7),
        at(Tile::number(2), 11, 7),
        at(Tile::equals(), 12, 7),
        at(Tile::number(6), 13, 7),
    ];
    assert_eq!(validate_move(&board, &placed, false), Ok(()));
    let lines = equation_positions(&board, &placed);
    assert_eq!(lines, vec![vec![(9, 7), (10, 7), (11, 7), (12, 7), (13, 7)]]);
}

#[test]
fn not_connected() {
    let board = board_with(&three_plus_four(7));
    let placed = vec![at(Tile::number(1), 0, 0), at(Tile::equals(), 0, 1), at(Tile::number(1), 0, 2)];
    assert_eq!(validate_move(&board, &placed, false), Err(ValidationError::NotConnected));
}

#[test]
fn must_cover_center() {
    assert_eq!(validate_move(&Board::new(), &three_plus_four(0), true), Err(ValidationError::MustCoverCenter));
}

#[test]
fn invalid_equation_in_move() {
    let mut placed = three_plus_four(7);
    placed[4] = at(Tile::number(8), 9, 11);
    assert_eq!(
        validate_move(&Board::new(), &placed, true),
        Err(ValidationError::InvalidEquation(EquationFault::Unequal(
            Rational { num: 7, den: 1 },
            Rational { num: 8, den: 1 }
        )))
    );
}

#[test]
fn cross_line_must_hold_too() {
    // a 5 under the 3 of 3 + 4 = 7 makes the column "35", which has no "="
    let board = board_with(&three_plus_four(7));
    let placed = vec![at(Tile::number(5), 10, 7)];
    assert_eq!(
        validate_move(&board, &placed, false),
        Err(ValidationError::InvalidEquation(EquationFault::EqualsCount(0)))
    );
    assert_eq!(equation_positions(&board, &placed), vec![vec![(9, 7), (10, 7)]]);
}

#[test]
fn main_line_extends_over_existing_tiles() {
    let board = board_with(&three_plus_four(7));
    // append "+ 0" after the 7: 3 + 4 = 7 + 0 is one "=" with both sides 7
    let placed = vec![at(Tile::operator(Operator::Add), 9, 12), at(Tile::number(0), 9, 13)];
    assert_eq!(validate_move(&board, &placed, false), Ok(()));
    assert_eq!(
        equation_positions(&board, &placed),
        vec![vec![(9, 7), (9, 8), (9, 9), (9, 10), (9, 11), (9, 12), (9, 13)]]
    );
}

#[test]
fn error_messages() {
    assert_eq!(ValidationError::NoTilesPlaced.to_string(), "No tiles placed");
    assert_eq!(ValidationError::NotInLineOrColumn.to_string(), "All tiles must be in the same row or column");
    assert_eq!(ValidationError::OverlapsExistingTile.to_string(), "Tile overlaps an existing tile");
    assert_eq!(ValidationError::DuplicatePosition.to_string(), "Two tiles placed at the same position");
    assert_eq!(ValidationError::GapInPlacement.to_string(), "No gaps allowed between placed tiles");
    assert_eq!(ValidationError::NotConnected.to_string(), "Tiles must connect to existing tiles");
    assert_eq!(ValidationError::MustCoverCenter.to_string(), "First move must cover the center square");
    assert_eq!(
        ValidationError::InvalidEquation(EquationFault::EmptySide).to_string(),
        "Invalid equation: empty side of equation"
    );
}

#[test]
fn unequal_halves_are_written_as_decimals() {
    // 7 ÷ 2 = 4 along row 9: the left side is 3.5
    let placed = vec![
        at(Tile::number(7), 9, 8),
        at(Tile::operator(Operator::Divide), 9, 9),
        at(Tile::number(2), 9, 10),
        at(Tile::equals(), 9, 11),
        at(Tile::number(4), 9, 12),
    ];
    let err = validate_move(&Board::new(), &placed, true).unwrap_err();
    assert_eq!(err.to_string(), "Invalid equation: 3.5 ≠ 4");
}
