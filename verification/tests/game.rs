use equate::board::PremiumSquare;
use equate::game::GameState;
use equate::tile::{build_tile_bag, Operator, PlacedTile, Tile, TileKind};

fn three_plus_four_at_center() -> Vec<PlacedTile> {
    let tiles = vec![Tile::number(3), Tile::operator(Operator::Add), Tile::number(4), Tile::equals(), Tile::number(7)];
    tiles.into_iter().enumerate().map(|(i, tile)| PlacedTile { tile, row: 9, col: 9 + i }).collect()
}

#[test]
fn new_game_is_fresh_with_full_bag() {
    let g = GameState::new();
    assert!(g.is_first_move);
    assert_eq!(g.bag.len(), 88);
    assert_eq!(g.board.cells[9][9].premium, Some(PremiumSquare::DoubleEquation));
    let mut kinds: Vec<String> = g.bag.iter().map(|t| format!("{:?}", t.kind)).collect();
    let mut standard: Vec<String> = build_tile_bag().iter().map(|t| format!("{:?}", t.kind)).collect();
    kinds.sort();
    standard.sort();
    assert_eq!(kinds, standard);
}

#[test]
fn new_game_bag_is_shuffled() {
    let standard: Vec<TileKind> = build_tile_bag().iter().map(|t| t.kind).collect();
    let shuffled: Vec<TileKind> = GameState::new().bag.iter().map(|t| t.kind).collect();
    assert_ne!(shuffled, standard);
}

#[test]
fn draw_takes_from_the_front() {
    let mut g = GameState::new();
    let front: Vec<TileKind> = g.bag[..7].iter().map(|t| t.kind).collect();
    let rest: Vec<TileKind> = g.bag[7..].iter().map(|t| t.kind).collect();
    let drawn = g.draw_tiles(7);
    assert_eq!(drawn.iter().map(|t| t.kind).collect::<Vec<_>>(), front);
    assert_eq!(g.bag.iter().map(|t| t.kind).collect::<Vec<_>>(), rest);
    let all = g.draw_tiles(1000);
    assert_eq!(all.len(), 81);
    assert!(g.bag.is_empty());
    assert!(g.draw_tiles(3).is_empty());
}

#[test]
fn accepted_move_is_scored_and_laid() {
    let mut g = GameState::new();
    let placed = three_plus_four_at_center();
    assert_eq!(g.apply_move(&placed), Ok(22));
    assert!(!g.is_first_move);
    assert_eq!(g.bag.len(), 88);
    for p in &placed {
        assert_eq!(g.board.get_tile(p.row, p.col).unwrap().kind, p.tile.kind);
    }
    assert!(!g.board.is_occupied(9, 14));
}

#[test]
fn refused_move_leaves_the_game_unchanged() {
    let mut g = GameState::new();
    let mut placed = three_plus_four_at_center();
    for p in placed.iter_mut() {
        p.row = 0;
    }
    assert_eq!(g.apply_move(&placed), Err("First move must cover the center square".to_string()));
    assert!(g.is_first_move);
    assert!(!g.board.is_occupied(0, 9));
}

#[test]
fn accepted_move_cannot_be_replayed() {
    let mut g = GameState::new();
    let placed = three_plus_four_at_center();
    assert_eq!(g.apply_move(&placed), Ok(22));
    assert_eq!(g.apply_move(&placed), Err("Tile overlaps an existing tile".to_string()));
    assert!(!g.is_first_move);
    assert_eq!(g.bag.len(), 88);
}
