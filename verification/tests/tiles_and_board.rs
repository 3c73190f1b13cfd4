use equate::board::{premium_squares, Board, PremiumSquare, BOARD_SIZE, CENTER};
use equate::scoring::{checked_score, placed_on_board, score_move};
use equate::tile::{build_tile_bag, Operator, PlacedTile, Tile, TileKind};

#[test]
fn number_tiles_have_standard_points() {
    let points: Vec<u32> = (0u8..10).map(|n| Tile::number(n).point_value).collect();
    assert_eq!(points, vec![3, 1, 1, 2, 2, 2, 2, 3, 3, 4]);
    assert_eq!(Tile::number(12).point_value, 1);
    assert_eq!(Tile::number(7).kind, TileKind::Number { value: 7 });
}

#[test]
fn operator_and_equals_tiles_have_standard_points() {
    assert_eq!(Tile::operator(Operator::Add).point_value, 1);
    assert_eq!(Tile::operator(Operator::Subtract).point_value, 2);
    assert_eq!(Tile::operator(Operator::Multiply).point_value, 3);
    assert_eq!(Tile::operator(Operator::Divide).point_value, 5);
    assert_eq!(Tile::operator(Operator::Divide).kind, TileKind::Operator { op: Operator::Divide });
    assert_eq!(Tile::equals().point_value, 3);
    assert_eq!(Tile::equals().kind, TileKind::Equals);
}

#[test]
fn standard_bag_composition() {
    let bag = build_tile_bag();
    assert_eq!(bag.len(), 88);
    let count = |k: TileKind| bag.iter().filter(|t| t.kind == k).count();
    assert_eq!(count(TileKind::Number { value: 0 }), 4);
    assert_eq!(count(TileKind::Number { value: 1 }), 8);
    assert_eq!(count(TileKind::Number { value: 5 }), 6);
    assert_eq!(count(TileKind::Number { value: 9 }), 4);
    assert_eq!(count(TileKind::Operator { op: Operator::Add }), 8);
    assert_eq!(count(TileKind::Operator { op: Operator::Subtract }), 6);
    assert_eq!(count(TileKind::Operator { op: Operator::Multiply }), 6);
    assert_eq!(count(TileKind::Operator { op: Operator::Divide }), 4);
    assert_eq!(count(TileKind::Equals), 8);
    assert_eq!(bag[0].kind, TileKind::Number { value: 0 });
    assert_eq!(bag[87].kind, TileKind::Equals);
}

#[test]
fn new_board_is_empty_with_premiums() {
    let board = Board::new();
    assert_eq!(board.cells.len(), BOARD_SIZE);
    for row in &board.cells {
        assert_eq!(row.len(), BOARD_SIZE);
        assert!(row.iter().all(|c| c.tile.is_none()));
    }
    assert_eq!(board.cells[CENTER][CENTER].premium, Some(PremiumSquare::DoubleEquation));
    assert_eq!(board.cells[0][1].premium, Some(PremiumSquare::TripleEquation));
    assert_eq!(board.cells[0][0].premium, None);
    assert_eq!(board.cells[9][14].premium, Some(PremiumSquare::TripleTile));
}

#[test]
fn premium_layout_mirrors_about_the_center_row() {
    let board = Board::new();
    for r in 0..BOARD_SIZE {
        for c in 0..BOARD_SIZE {
            assert_eq!(board.cells[r][c].premium, board.cells[18 - r][c].premium);
        }
    }
    assert_eq!(board.cells[18][1].premium, Some(PremiumSquare::TripleEquation));
    assert_eq!(board.cells[10][1].premium, Some(PremiumSquare::DoubleTile));
    assert_eq!(board.cells[3][2].premium, Some(PremiumSquare::TripleEquation));
    assert_eq!(board.cells[15][2].premium, Some(PremiumSquare::TripleEquation));
    assert_eq!(board.cells[3][16].premium, Some(PremiumSquare::DoubleEquation));
}

#[test]
fn premium_list_is_top_half_then_mirror() {
    let list = premium_squares();
    assert_eq!(list.len(), 93);
    assert_eq!(list[0], (0, 1, PremiumSquare::TripleEquation));
    assert_eq!(list[48], (9, 9, PremiumSquare::DoubleEquation));
    assert_eq!(list[49], (18, 1, PremiumSquare::TripleEquation));
}

#[test]
fn place_then_get_tile() {
    let mut board = Board::new();
    assert!(!board.is_occupied(3, 4));
    assert!(board.get_tile(3, 4).is_none());
    board.place_tile(3, 4, Tile::number(5));
    assert!(board.is_occupied(3, 4));
    assert_eq!(board.get_tile(3, 4).unwrap().kind, TileKind::Number { value: 5 });
    assert!(!board.is_occupied(4, 3));
    assert_eq!(board.cells[3][4].premium, None);
    board.place_tile(9, 9, Tile::equals());
    assert_eq!(board.cells[9][9].premium, Some(PremiumSquare::DoubleEquation));
}

#[test]
fn off_board_squares_are_empty() {
    let board = Board::new();
    assert!(board.get_tile(19, 0).is_none());
    assert!(!board.is_occupied(0, 19));
    assert!(!board.is_occupied(usize::MAX, usize::MAX));
}

fn row9(tiles: Vec<Tile>, start: usize) -> Vec<PlacedTile> {
    tiles.into_iter().enumerate().map(|(i, tile)| PlacedTile { tile, row: 9, col: start + i }).collect()
}

#[test]
fn score_doubles_on_equation_premium() {
    let board = Board::new();
    // 3 + 4 = 7 from the centre: 2 + 1 + 2 + 3 + 3 = 11 points, doubled by the centre
    let placed = row9(
        vec![Tile::number(3), Tile::operator(Operator::Add), Tile::number(4), Tile::equals(), Tile::number(7)],
        9,
    );
    assert_eq!(score_move(&board, &placed), 22);
    assert_eq!(checked_score(&board, &placed), Some(22));
}

#[test]
fn existing_tiles_add_their_face_value() {
    // 3 on the centre, then + 4 = 7: new tiles 1 + 2 + 3 + 3 = 9, plus the 3's
    // face value 2; the double-equation square under the 3 no longer counts
    let mut board = Board::new();
    board.place_tile(9, 9, Tile::number(3));
    let placed = row9(vec![Tile::operator(Operator::Add), Tile::number(4), Tile::equals(), Tile::number(7)], 10);
    assert_eq!(score_move(&board, &placed), 11);
    assert_eq!(checked_score(&board, &placed), Some(11));
}

#[test]
fn extending_an_equation_counts_the_whole_line() {
    let mut board = Board::new();
    for p in row9(
        vec![Tile::number(3), Tile::operator(Operator::Add), Tile::number(4), Tile::equals(), Tile::number(7)],
        7,
    ) {
        board.place_tile(p.row, p.col, p.tile);
    }
    // + 0 after the 7: new tiles 1 + 3, existing 2 + 1 + 2 + 3 + 3
    let placed = row9(vec![Tile::operator(Operator::Add), Tile::number(0)], 12);
    assert_eq!(score_move(&board, &placed), 15);
}

#[test]
fn score_triples_on_tile_premium() {
    let board = Board::new();
    // a 9 (4 points) on the triple-tile square (9, 14)
    let placed = vec![PlacedTile { tile: Tile::number(9), row: 9, col: 14 }];
    assert_eq!(score_move(&board, &placed), 12);
}

#[test]
fn checked_score_reports_overflow() {
    let board = Board::new();
    let big = Tile { kind: TileKind::Equals, point_value: u32::MAX };
    let placed = vec![PlacedTile { tile: big, row: 0, col: 0 }, PlacedTile { tile: big, row: 0, col: 2 }];
    assert!(placed_on_board(&board, &placed));
    assert_eq!(checked_score(&board, &placed), None);
    let off = vec![PlacedTile { tile: Tile::equals(), row: 0, col: 19 }];
    assert!(!placed_on_board(&board, &off));
}
