//! The state of one game: the board, the bag of undrawn tiles, and whether
//! the next move is the first.

use vstd::prelude::*;

use rand::seq::SliceRandom;

use crate::board::{covers, grid_has, lemma_with_tiles_reads_back, lemma_with_tiles_shape, with_tiles, Board, Cell};
use crate::scoring::{all_on_board, move_score, score_fits, score_move};
use crate::tile::{build_tile_bag, standard_bag, PlacedTile, Tile};
use crate::validation::{error_text, lemma_accepted_move, move_verdict, overlaps_existing, validate_move, ValidationError};

verus! {

/// Put the tiles of the bag in a random order.
///
/// Calls `rand::seq::SliceRandom::shuffle` with the thread-local generator of
/// `rand::thread_rng`. Claimed: the bag afterwards holds the same tiles, each
/// as many times, in some order; which order is left open.
#[verifier::external_body]
fn shuffle_tiles(bag: &mut Vec<Tile>)
    ensures
        final(bag)@.to_multiset() == old(bag)@.to_multiset(),
{
    bag.shuffle(&mut rand::thread_rng());
}

/// Full game state, managed server-side.
#[derive(Clone, Debug)]
pub struct GameState {
    pub board: Board,
    pub bag: Vec<Tile>,
    pub is_first_move: bool,
}

/// How many tiles a draw of `n` takes from a bag of `len`.
pub open spec fn draw_count(n: int, len: int) -> int {
    if n < len {
        n
    } else {
        len
    }
}

/// The rule that `apply_move` requires of a move it accepts: every tile lands
/// on the board and the score fits in a `u32`.
pub open spec fn move_applicable(state: GameState, placed: Seq<PlacedTile>) -> bool {
    move_verdict(state.board, placed, state.is_first_move) is Ok ==> {
        &&& all_on_board(state.board, placed)
        &&& score_fits(state.board, placed)
    }
}

/// Drawing loses no tile: the tiles drawn followed by those left are the bag
/// as it was.
pub proof fn lemma_draw_keeps_tiles(bag: Seq<Tile>, n: int)
    requires
        0 <= n,
    ensures
        bag.take(draw_count(n, bag.len() as int)) + bag.skip(draw_count(n, bag.len() as int)) == bag,
        bag.take(draw_count(n, bag.len() as int)).len() == draw_count(n, bag.len() as int),
{
    assert(bag.take(draw_count(n, bag.len() as int)) + bag.skip(draw_count(n, bag.len() as int)) =~= bag);
}

/// After an accepted move is laid on the board, each placed square holds its
/// tile and keeps its premium, and every other square is as it was.
pub proof fn lemma_accepted_move_reads_back(board: Board, placed: Seq<PlacedTile>, is_first_move: bool)
    requires
        move_verdict(board, placed, is_first_move) is Ok,
        all_on_board(board, placed),
    ensures
        forall|i: int| 0 <= i < placed.len() ==> #[trigger] with_tiles(board.grid(), placed)[placed[i].row as int][placed[i].col as int]
            == (Cell { tile: Some(placed[i].tile), premium: board.premium_at(placed[i].row as int, placed[i].col as int) }),
        forall|r: int, c: int|
            board.in_bounds(r, c) && !covers(placed, r, c) ==> #[trigger] with_tiles(board.grid(), placed)[r][c]
                == board.grid()[r][c],
{
    lemma_accepted_move(board, placed, is_first_move);
    board.lemma_grid();
    assert forall|i: int| 0 <= i < placed.len() implies grid_has(board.grid(), #[trigger] placed[i].row as int, placed[i].col as int) by {
        assert(board.in_bounds(placed[i].row as int, placed[i].col as int));
    }
    assert forall|i: int, j: int| 0 <= i < j < placed.len() implies !(#[trigger] placed[i].row == #[trigger] placed[j].row
        && placed[i].col == placed[j].col) by {
        if placed[i].row == placed[j].row && placed[i].col == placed[j].col {
            assert(crate::validation::has_duplicate(placed));
        }
    }
    lemma_with_tiles_reads_back(board.grid(), placed);
    assert forall|i: int| 0 <= i < placed.len() implies #[trigger] with_tiles(board.grid(), placed)[placed[i].row as int][placed[i].col as int]
        == (Cell { tile: Some(placed[i].tile), premium: board.premium_at(placed[i].row as int, placed[i].col as int) }) by {
        assert(board.in_bounds(placed[i].row as int, placed[i].col as int));
    }
}

/// A move accepted and laid on the board cannot be played again: the same
/// tiles on the resulting board are refused as overlapping existing tiles,
/// whether or not that move is the first.
pub proof fn lemma_replayed_move_overlaps(
    before: Board,
    after: Board,
    placed: Seq<PlacedTile>,
    is_first_move: bool,
    replay_first: bool,
)
    requires
        move_verdict(before, placed, is_first_move) is Ok,
        all_on_board(before, placed),
        after.grid() == with_tiles(before.grid(), placed),
    ensures
        move_verdict(after, placed, replay_first) == Err::<(), ValidationError>(ValidationError::OverlapsExistingTile),
{
    lemma_accepted_move(before, placed, is_first_move);
    lemma_accepted_move_reads_back(before, placed, is_first_move);
    before.lemma_grid();
    after.lemma_grid();
    assert forall|i: int| 0 <= i < placed.len() implies grid_has(before.grid(), #[trigger] placed[i].row as int, placed[i].col as int) by {
        assert(before.in_bounds(placed[i].row as int, placed[i].col as int));
    }
    lemma_with_tiles_shape(before.grid(), placed);
    let p = placed[0];
    assert(grid_has(after.grid(), p.row as int, p.col as int));
    assert(after.tile_at(p.row as int, p.col as int) == Some(p.tile));
    assert(overlaps_existing(after, placed));
}

/// Once `apply_move` has accepted a move, playing the same tiles again on
/// the game it left meets the requirement of `apply_move` and is refused as
/// overlapping existing tiles, so that second call leaves the game unchanged.
pub proof fn lemma_replayed_move_refused(before: GameState, after: GameState, placed: Seq<PlacedTile>)
    requires
        move_applicable(before, placed),
        move_verdict(before.board, placed, before.is_first_move) is Ok,
        after.board.grid() == with_tiles(before.board.grid(), placed),
    ensures
        move_applicable(after, placed),
        move_verdict(after.board, placed, after.is_first_move) == Err::<(), ValidationError>(
            ValidationError::OverlapsExistingTile,
        ),
{
    lemma_replayed_move_overlaps(before.board, after.board, placed, before.is_first_move, after.is_first_move);
}

impl GameState {
    /// A fresh game: an empty board and the standard bag, shuffled.
    pub fn new() -> (g: GameState)
        ensures
            g.board.is_fresh(),
            g.bag@.to_multiset() == standard_bag().to_multiset(),
            g.is_first_move,
    {
        let mut bag = build_tile_bag();
        shuffle_tiles(&mut bag);
        GameState { board: Board::new(), bag, is_first_move: true }
    }

    /// Take up to `n` tiles from the front of the bag.
    pub fn draw_tiles(&mut self, n: usize) -> (drawn: Vec<Tile>)
        ensures
            drawn@ == old(self).bag@.take(draw_count(n as int, old(self).bag@.len() as int)),
            final(self).bag@ == old(self).bag@.skip(draw_count(n as int, old(self).bag@.len() as int)),
            final(self).board == old(self).board,
            final(self).is_first_move == old(self).is_first_move,
    {
        let count = if n < self.bag.len() {
            n
        } else {
            self.bag.len()
        };
        let mut drawn = self.bag.split_off(count);
        std::mem::swap(&mut self.bag, &mut drawn);
        drawn
    }

    /// Validate, apply, and score a move. Returns the points earned, or the
    /// message of the first rule the move breaks, leaving the game unchanged.
    pub fn apply_move(&mut self, placed: &[PlacedTile]) -> (r: Result<u32, String>)
        requires
            move_applicable(*old(self), placed@),
        ensures
            r is Ok <==> move_verdict(old(self).board, placed@, old(self).is_first_move) is Ok,
            r matches Err(msg) ==> {
                &&& move_verdict(old(self).board, placed@, old(self).is_first_move) matches Err(e)
                &&& msg@ == error_text(e)
                &&& *final(self) == *old(self)
            },
            r matches Ok(score) ==> {
                &&& score == move_score(old(self).board, placed@)
                &&& final(self).board.grid() == with_tiles(old(self).board.grid(), placed@)
                &&& final(self).board.cells@.len() == old(self).board.cells@.len()
                &&& final(self).bag == old(self).bag
                &&& !final(self).is_first_move
            },
    {
        match validate_move(&self.board, placed, self.is_first_move) {
            Err(e) => {
                return Err(e.to_string());
            },
            Ok(()) => {},
        }
        let score = score_move(&self.board, placed);
        let ghost g0 = self.board.grid();
        let ghost pl = placed@;
        proof {
            crate::board::lemma_with_tiles_shape(g0, pl);
        }
        let n = placed.len();
        let mut i: usize = 0;
        while i < n
            invariant
                n == pl.len(),
                pl == placed@,
                i <= n,
                all_on_board(old(self).board, pl),
                g0 == old(self).board.grid(),
                self.board.grid() == with_tiles(g0, pl.take(i as int)),
                self.bag == old(self).bag,
            decreases n - i,
        {
            proof {
                self.board.lemma_grid();
                old(self).board.lemma_grid();
                crate::board::lemma_with_tiles_shape(g0, pl.take(i as int));
                assert(pl.take(i + 1).drop_last() =~= pl.take(i as int));
                assert(old(self).board.in_bounds(pl[i as int].row as int, pl[i as int].col as int));
            }
            let pt = &placed[i];
            self.board.place_tile(pt.row, pt.col, pt.tile);
            i = i + 1;
        }
        assert(pl.take(n as int) =~= pl);
        proof {
            self.board.lemma_grid();
            old(self).board.lemma_grid();
            crate::board::lemma_with_tiles_shape(g0, pl);
        }
        self.is_first_move = false;
        Ok(score)
    }
}

impl Default for GameState {
    fn default() -> (g: GameState)
        ensures
            g.board.is_fresh(),
            g.bag@.to_multiset() == standard_bag().to_multiset(),
            g.is_first_move,
    {
        GameState::new()
    }
}

} // verus!
