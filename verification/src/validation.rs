//! Checking a move against the placement rules, and the equations it forms.
//!
//! A move places tiles on empty squares of one row or one column, without
//! gaps; the first move covers the centre, later ones touch a tile already on
//! the board. Every line of two or more tiles that the move forms or extends
//! must then be a correct equation.

use vstd::prelude::*;

use crate::board::{Board, BOARD_SIZE, CENTER};
use crate::equation::{
    equation_holds, equation_verdict, fault_text, lemma_verdict_is_exact, validate_equation,
    EquationFault,
};
use crate::tile::{PlacedTile, Tile, TileKind};

verus! {

/// Why a move is refused.
#[derive(Clone, Copy, Debug, PartialEq, Eq, Structural)]
pub enum ValidationError {
    NoTilesPlaced,
    NotInLineOrColumn,
    OverlapsExistingTile,
    DuplicatePosition,
    GapInPlacement,
    NotConnected,
    MustCoverCenter,
    InvalidEquation(EquationFault),
}

/// What the message of an error says.
pub open spec fn error_text(e: ValidationError) -> Seq<char> {
    match e {
        ValidationError::NoTilesPlaced => "No tiles placed"@,
        ValidationError::NotInLineOrColumn => "All tiles must be in the same row or column"@,
        ValidationError::OverlapsExistingTile => "Tile overlaps an existing tile"@,
        ValidationError::DuplicatePosition => "Two tiles placed at the same position"@,
        ValidationError::GapInPlacement => "No gaps allowed between placed tiles"@,
        ValidationError::NotConnected => "Tiles must connect to existing tiles"@,
        ValidationError::MustCoverCenter => "First move must cover the center square"@,
        ValidationError::InvalidEquation(f) => "Invalid equation: "@ + fault_text(f),
    }
}

impl ValidationError {
    /// The message of the error.
    pub fn to_string(&self) -> (s: String)
        ensures
            s@ == error_text(*self),
    {
        match self {
            ValidationError::NoTilesPlaced => String::from_str("No tiles placed"),
            ValidationError::NotInLineOrColumn => String::from_str("All tiles must be in the same row or column"),
            ValidationError::OverlapsExistingTile => String::from_str("Tile overlaps an existing tile"),
            ValidationError::DuplicatePosition => String::from_str("Two tiles placed at the same position"),
            ValidationError::GapInPlacement => String::from_str("No gaps allowed between placed tiles"),
            ValidationError::NotConnected => String::from_str("Tiles must connect to existing tiles"),
            ValidationError::MustCoverCenter => String::from_str("First move must cover the center square"),
            ValidationError::InvalidEquation(f) => {
                let mut s = String::from_str("Invalid equation: ");
                let detail = f.to_string();
                s.append(detail.as_str());
                s
            },
        }
    }
}

/// A square, as row and column.
pub type Pos = (usize, usize);

// ---------------------------------------------------------------------------
// The board as it would be after the move
// ---------------------------------------------------------------------------

/// The tile that the move places on `(r, c)`: the first placed tile there.
pub open spec fn placed_tile_at(placed: Seq<PlacedTile>, r: int, c: int) -> Option<Tile>
    decreases placed.len(),
{
    if placed.len() == 0 {
        None
    } else if placed[0].row == r && placed[0].col == c {
        Some(placed[0].tile)
    } else {
        placed_tile_at(placed.drop_first(), r, c)
    }
}

/// The tile on `(r, c)` once the move is laid on the board.
pub open spec fn temp_tile(board: Board, placed: Seq<PlacedTile>, r: int, c: int) -> Option<Tile> {
    match placed_tile_at(placed, r, c) {
        Some(t) => Some(t),
        None => board.tile_at(r, c),
    }
}

/// Square `k` of the row (when `horizontal`) or column numbered `fixed`.
pub open spec fn line_pos(fixed: int, k: int, horizontal: bool) -> (int, int) {
    if horizontal {
        (fixed, k)
    } else {
        (k, fixed)
    }
}

pub open spec fn temp_at(board: Board, placed: Seq<PlacedTile>, fixed: int, k: int, horizontal: bool) -> Option<Tile> {
    temp_tile(board, placed, line_pos(fixed, k, horizontal).0, line_pos(fixed, k, horizontal).1)
}

/// From `anchor`, walk towards square 0 while the next square holds a tile.
pub open spec fn left_extent(board: Board, placed: Seq<PlacedTile>, fixed: int, anchor: int, horizontal: bool) -> int
    decreases anchor,
{
    if anchor <= 0 {
        anchor
    } else if temp_at(board, placed, fixed, anchor - 1, horizontal) is Some {
        left_extent(board, placed, fixed, anchor - 1, horizontal)
    } else {
        anchor
    }
}

/// Whether square `k` of the line lies on the board and holds a tile.
pub open spec fn on_board_with_tile(board: Board, placed: Seq<PlacedTile>, fixed: int, k: int, horizontal: bool) -> bool {
    let p = line_pos(fixed, k, horizontal);
    &&& 0 <= p.0 < BOARD_SIZE
    &&& 0 <= p.1 < BOARD_SIZE
    &&& temp_tile(board, placed, p.0, p.1) is Some
}

/// From `anchor`, walk away from square 0 while the next square is on the
/// board and holds a tile.
pub open spec fn right_extent(board: Board, placed: Seq<PlacedTile>, fixed: int, anchor: int, horizontal: bool) -> int
    decreases BOARD_SIZE - anchor,
{
    if anchor + 1 < BOARD_SIZE && on_board_with_tile(board, placed, fixed, anchor + 1, horizontal) {
        right_extent(board, placed, fixed, anchor + 1, horizontal)
    } else {
        anchor
    }
}

/// The squares of the line from `start` to `end` that hold a tile, in order.
pub open spec fn line_positions(
    board: Board,
    placed: Seq<PlacedTile>,
    fixed: int,
    start: int,
    end: int,
    horizontal: bool,
) -> Seq<Pos>
    decreases end - start + 1,
{
    if end < start {
        Seq::empty()
    } else {
        let prev = line_positions(board, placed, fixed, start, end - 1, horizontal);
        let p = line_pos(fixed, end, horizontal);
        if temp_tile(board, placed, p.0, p.1) is Some {
            prev.push((p.0 as usize, p.1 as usize))
        } else {
            prev
        }
    }
}

/// The coordinate of a placed tile along the direction of the move.
pub open spec fn along(pt: PlacedTile, horizontal: bool) -> usize {
    if horizontal {
        pt.col
    } else {
        pt.row
    }
}

/// The coordinate of a placed tile across the direction of the move.
pub open spec fn across(pt: PlacedTile, horizontal: bool) -> usize {
    if horizontal {
        pt.row
    } else {
        pt.col
    }
}

pub open spec fn min_along(placed: Seq<PlacedTile>, horizontal: bool) -> int
    decreases placed.len(),
{
    if placed.len() <= 1 {
        along(placed[0], horizontal) as int
    } else {
        let m = min_along(placed.drop_last(), horizontal);
        let x = along(placed.last(), horizontal) as int;
        if x < m { x } else { m }
    }
}

pub open spec fn max_along(placed: Seq<PlacedTile>, horizontal: bool) -> int
    decreases placed.len(),
{
    if placed.len() <= 1 {
        along(placed[0], horizontal) as int
    } else {
        let m = max_along(placed.drop_last(), horizontal);
        let x = along(placed.last(), horizontal) as int;
        if x > m { x } else { m }
    }
}

/// The line along the move through all its tiles, stretched over the tiles
/// already on the board at both ends.
pub open spec fn main_line(board: Board, placed: Seq<PlacedTile>, horizontal: bool) -> Seq<Pos> {
    let fixed = across(placed[0], horizontal) as int;
    let start = left_extent(board, placed, fixed, min_along(placed, horizontal), horizontal);
    let end = right_extent(board, placed, fixed, max_along(placed, horizontal), horizontal);
    line_positions(board, placed, fixed, start, end, horizontal)
}

/// The line across the move through one placed tile.
pub open spec fn cross_line(board: Board, placed: Seq<PlacedTile>, pt: PlacedTile, horizontal: bool) -> Seq<Pos> {
    let fixed = along(pt, horizontal) as int;
    let anchor = across(pt, horizontal) as int;
    let start = left_extent(board, placed, fixed, anchor, !horizontal);
    let end = right_extent(board, placed, fixed, anchor, !horizontal);
    line_positions(board, placed, fixed, start, end, !horizontal)
}

/// The cross lines of the first `k` placed tiles that hold two tiles or more.
pub open spec fn cross_lines(board: Board, placed: Seq<PlacedTile>, horizontal: bool, k: int) -> Seq<Seq<Pos>>
    decreases k,
{
    if k <= 0 {
        Seq::empty()
    } else {
        let prev = cross_lines(board, placed, horizontal, k - 1);
        let l = cross_line(board, placed, placed[k - 1], horizontal);
        if l.len() > 1 {
            prev.push(l)
        } else {
            prev
        }
    }
}

/// Every line of two tiles or more that the move forms: the main line first,
/// then the cross line of each placed tile, in the order the tiles were placed.
pub open spec fn equation_lines(board: Board, placed: Seq<PlacedTile>, horizontal: bool) -> Seq<Seq<Pos>> {
    let main = main_line(board, placed, horizontal);
    (if main.len() > 1 { seq![main] } else { Seq::empty() }) + cross_lines(
        board,
        placed,
        horizontal,
        placed.len() as int,
    )
}

/// What the tiles on a line show, in order.
pub open spec fn line_kinds(board: Board, placed: Seq<PlacedTile>, line: Seq<Pos>) -> Seq<TileKind>
    decreases line.len(),
{
    if line.len() == 0 {
        Seq::empty()
    } else {
        let prev = line_kinds(board, placed, line.drop_last());
        match temp_tile(board, placed, line.last().0 as int, line.last().1 as int) {
            Some(t) => prev.push(t.kind),
            None => prev,
        }
    }
}

/// The tile sequences of all the equations that the move forms.
pub open spec fn equations_of(board: Board, placed: Seq<PlacedTile>, horizontal: bool) -> Seq<Seq<TileKind>> {
    equation_lines(board, placed, horizontal).map_values(|l: Seq<Pos>| line_kinds(board, placed, l))
}

// ---------------------------------------------------------------------------
// The rules
// ---------------------------------------------------------------------------

pub open spec fn all_same_row(placed: Seq<PlacedTile>) -> bool {
    forall|i: int| 0 <= i < placed.len() ==> #[trigger] placed[i].row == placed[0].row
}

pub open spec fn all_same_col(placed: Seq<PlacedTile>) -> bool {
    forall|i: int| 0 <= i < placed.len() ==> #[trigger] placed[i].col == placed[0].col
}

pub open spec fn has_duplicate(placed: Seq<PlacedTile>) -> bool {
    exists|i: int, j: int|
        0 <= i < j < placed.len() && #[trigger] placed[i].row == #[trigger] placed[j].row
            && placed[i].col == placed[j].col
}

pub open spec fn overlaps_existing(board: Board, placed: Seq<PlacedTile>) -> bool {
    exists|i: int|
        0 <= i < placed.len() && board.tile_at(#[trigger] placed[i].row as int, placed[i].col as int) is Some
}

/// Some placed tile stands at coordinate `k` along the move.
pub open spec fn placed_along(placed: Seq<PlacedTile>, horizontal: bool, k: int) -> bool {
    exists|i: int| 0 <= i < placed.len() && #[trigger] along(placed[i], horizontal) == k
}

/// The tile already on square `k` of a line of the board.
pub open spec fn board_tile_on_line(board: Board, fixed: int, k: int, horizontal: bool) -> Option<Tile> {
    board.tile_at(line_pos(fixed, k, horizontal).0, line_pos(fixed, k, horizontal).1)
}

/// Some square between the first and the last placed tile of the line is
/// neither placed nor already occupied.
pub open spec fn has_gap(board: Board, placed: Seq<PlacedTile>, horizontal: bool) -> bool {
    let fixed = across(placed[0], horizontal) as int;
    exists|k: int|
        min_along(placed, horizontal) <= k <= max_along(placed, horizontal) && !placed_along(
            placed,
            horizontal,
            k,
        ) && #[trigger] board_tile_on_line(board, fixed, k, horizontal) is None
}

pub open spec fn covers_center(placed: Seq<PlacedTile>) -> bool {
    exists|i: int| 0 <= i < placed.len() && #[trigger] placed[i].row == CENTER && placed[i].col == CENTER
}

/// An orthogonal neighbour of `(r, c)` lies on the board and holds a tile.
pub open spec fn adjacent_to_existing(board: Board, r: int, c: int) -> bool {
    ||| (0 <= r - 1 < BOARD_SIZE && 0 <= c < BOARD_SIZE && board.tile_at(r - 1, c) is Some)
    ||| (0 <= r + 1 < BOARD_SIZE && 0 <= c < BOARD_SIZE && board.tile_at(r + 1, c) is Some)
    ||| (0 <= r < BOARD_SIZE && 0 <= c - 1 < BOARD_SIZE && board.tile_at(r, c - 1) is Some)
    ||| (0 <= r < BOARD_SIZE && 0 <= c + 1 < BOARD_SIZE && board.tile_at(r, c + 1) is Some)
}

pub open spec fn touches_existing(board: Board, placed: Seq<PlacedTile>) -> bool {
    exists|i: int|
        0 <= i < placed.len() && adjacent_to_existing(
            board,
            #[trigger] placed[i].row as int,
            placed[i].col as int,
        )
}

/// The first equation that is not correct, if any.
pub open spec fn equations_verdict(eqs: Seq<Seq<TileKind>>) -> Result<(), ValidationError>
    decreases eqs.len(),
{
    if eqs.len() == 0 {
        Ok(())
    } else {
        match equation_verdict(eqs[0], true) {
            Ok(()) => equations_verdict(eqs.drop_first()),
            Err(f) => Err(ValidationError::InvalidEquation(f)),
        }
    }
}

/// Whether a move is allowed, and if not, the first rule it breaks.
pub open spec fn move_verdict(board: Board, placed: Seq<PlacedTile>, is_first_move: bool) -> Result<(), ValidationError> {
    if placed.len() == 0 {
        Err(ValidationError::NoTilesPlaced)
    } else if has_duplicate(placed) {
        Err(ValidationError::DuplicatePosition)
    } else if !all_same_row(placed) && !all_same_col(placed) {
        Err(ValidationError::NotInLineOrColumn)
    } else if overlaps_existing(board, placed) {
        Err(ValidationError::OverlapsExistingTile)
    } else if has_gap(board, placed, all_same_row(placed)) {
        Err(ValidationError::GapInPlacement)
    } else if is_first_move && !covers_center(placed) {
        Err(ValidationError::MustCoverCenter)
    } else if !is_first_move && !touches_existing(board, placed) {
        Err(ValidationError::NotConnected)
    } else {
        equations_verdict(equations_of(board, placed, all_same_row(placed)))
    }
}

// ---------------------------------------------------------------------------
// What an accepted move guarantees
// ---------------------------------------------------------------------------

proof fn lemma_equations_verdict_ok(eqs: Seq<Seq<TileKind>>)
    requires
        equations_verdict(eqs) is Ok,
    ensures
        forall|i: int| 0 <= i < eqs.len() ==> equation_holds(#[trigger] eqs[i]),
    decreases eqs.len(),
{
    if eqs.len() > 0 {
        lemma_equations_verdict_ok(eqs.drop_first());
        lemma_verdict_is_exact(eqs[0]);
        assert forall|i: int| 0 <= i < eqs.len() implies equation_holds(#[trigger] eqs[i]) by {
            if i > 0 {
                assert(eqs[i] == eqs.drop_first()[i - 1]);
            }
        }
    }
}

/// An accepted move places at least one tile, no two on one square, all in
/// one row or one column, only on empty squares, with no gap between them;
/// the first move covers the centre and a later one touches a tile already on
/// the board; and every line of two tiles or more that it forms is a
/// mathematically correct equation.
pub proof fn lemma_accepted_move(board: Board, placed: Seq<PlacedTile>, is_first_move: bool)
    requires
        move_verdict(board, placed, is_first_move) is Ok,
    ensures
        placed.len() > 0,
        !has_duplicate(placed),
        all_same_row(placed) || all_same_col(placed),
        forall|i: int| 0 <= i < placed.len() ==> board.tile_at(#[trigger] placed[i].row as int, placed[i].col as int) is None,
        !has_gap(board, placed, all_same_row(placed)),
        is_first_move ==> covers_center(placed),
        !is_first_move ==> touches_existing(board, placed),
        forall|i: int|
            0 <= i < equations_of(board, placed, all_same_row(placed)).len() ==> equation_holds(
                #[trigger] equations_of(board, placed, all_same_row(placed))[i],
            ),
{
    lemma_equations_verdict_ok(equations_of(board, placed, all_same_row(placed)));
}

/// Some orthogonal neighbour of `(r, c)` (up, down, left or right) holds a
/// tile of the board.
pub open spec fn edge_neighbour_occupied(board: Board, r: int, c: int) -> bool {
    ||| board.tile_at(r - 1, c) is Some
    ||| board.tile_at(r + 1, c) is Some
    ||| board.tile_at(r, c - 1) is Some
    ||| board.tile_at(r, c + 1) is Some
}

/// A later move is accepted only when one of its tiles shares an edge with a
/// tile already on the board: tiles that meet the board only at a corner do
/// not connect.
pub proof fn lemma_later_move_shares_an_edge(board: Board, placed: Seq<PlacedTile>)
    requires
        move_verdict(board, placed, false) is Ok,
    ensures
        exists|i: int|
            0 <= i < placed.len() && edge_neighbour_occupied(
                board,
                (#[trigger] placed[i]).row as int,
                placed[i].col as int,
            ),
{
    lemma_accepted_move(board, placed, false);
    let i = choose|i: int|
        0 <= i < placed.len() && adjacent_to_existing(board, #[trigger] placed[i].row as int, placed[i].col as int);
    assert(edge_neighbour_occupied(board, placed[i].row as int, placed[i].col as int));
}

/// A later move that passes every placement check before connection, but
/// none of whose tiles shares an edge with a tile on the board, is refused
/// as not connected.
pub proof fn lemma_unconnected_move_refused(board: Board, placed: Seq<PlacedTile>)
    requires
        placed.len() > 0,
        !has_duplicate(placed),
        all_same_row(placed) || all_same_col(placed),
        !overlaps_existing(board, placed),
        !has_gap(board, placed, all_same_row(placed)),
        forall|i: int|
            0 <= i < placed.len() ==> !edge_neighbour_occupied(
                board,
                (#[trigger] placed[i]).row as int,
                placed[i].col as int,
            ),
    ensures
        move_verdict(board, placed, false) == Err::<(), ValidationError>(ValidationError::NotConnected),
{
    assert forall|i: int| 0 <= i < placed.len() implies !adjacent_to_existing(
        board,
        #[trigger] placed[i].row as int,
        placed[i].col as int,
    ) by {
        assert(!edge_neighbour_occupied(board, placed[i].row as int, placed[i].col as int));
    }
}

proof fn lemma_cross_lines_members(board: Board, placed: Seq<PlacedTile>, horizontal: bool, k: int)
    requires
        0 <= k <= placed.len(),
    ensures
        forall|j: int|
            0 <= j < k && (#[trigger] cross_line(board, placed, placed[j], horizontal)).len() > 1 ==> cross_lines(
                board,
                placed,
                horizontal,
                k,
            ).contains(cross_line(board, placed, placed[j], horizontal)),
        forall|m: int|
            0 <= m < cross_lines(board, placed, horizontal, k).len() ==> {
                let l = #[trigger] cross_lines(board, placed, horizontal, k)[m];
                &&& l.len() > 1
                &&& exists|j: int| 0 <= j < k && l == cross_line(board, placed, #[trigger] placed[j], horizontal)
            },
    decreases k,
{
    if k > 0 {
        lemma_cross_lines_members(board, placed, horizontal, k - 1);
        let prev = cross_lines(board, placed, horizontal, k - 1);
        let l = cross_line(board, placed, placed[k - 1], horizontal);
        let cur = cross_lines(board, placed, horizontal, k);
        assert forall|j: int|
            0 <= j < k && (#[trigger] cross_line(board, placed, placed[j], horizontal)).len() > 1 implies cur.contains(
            cross_line(board, placed, placed[j], horizontal),
        ) by {
            if j < k - 1 {
                let m = choose|m: int| 0 <= m < prev.len() && prev[m] == cross_line(board, placed, placed[j], horizontal);
                if l.len() > 1 {
                    assert(cur[m] == prev[m]);
                }
            } else {
                assert(cur[prev.len() as int] == l);
            }
        }
        assert forall|m: int| 0 <= m < cur.len() implies {
            let x = #[trigger] cur[m];
            &&& x.len() > 1
            &&& exists|j: int| 0 <= j < k && x == cross_line(board, placed, #[trigger] placed[j], horizontal)
        } by {
            if m < prev.len() {
                assert(cur[m] == prev[m]);
                let x = prev[m];
                let j = choose|j: int| 0 <= j < k - 1 && x == cross_line(board, placed, #[trigger] placed[j], horizontal);
                assert(x == cross_line(board, placed, placed[j], horizontal));
            } else {
                assert(cur[m] == l);
                assert(l == cross_line(board, placed, placed[k - 1], horizontal));
            }
        }
    }
}

/// The lines a move forms are exactly its main line, when it holds two tiles
/// or more, and the cross line through each placed tile that holds two tiles
/// or more, whatever the main line is; no other line is checked.
pub proof fn lemma_equation_lines_complete(board: Board, placed: Seq<PlacedTile>, horizontal: bool)
    ensures
        main_line(board, placed, horizontal).len() > 1 ==> equation_lines(board, placed, horizontal).contains(
            main_line(board, placed, horizontal),
        ),
        forall|i: int|
            0 <= i < placed.len() && (#[trigger] cross_line(board, placed, placed[i], horizontal)).len() > 1
                ==> equation_lines(board, placed, horizontal).contains(cross_line(board, placed, placed[i], horizontal)),
        forall|m: int|
            0 <= m < equation_lines(board, placed, horizontal).len() ==> {
                let l = #[trigger] equation_lines(board, placed, horizontal)[m];
                &&& l.len() > 1
                &&& (l == main_line(board, placed, horizontal) || exists|j: int|
                    0 <= j < placed.len() && l == cross_line(board, placed, #[trigger] placed[j], horizontal))
            },
{
    let main = main_line(board, placed, horizontal);
    let head: Seq<Seq<Pos>> = if main.len() > 1 { seq![main] } else { Seq::empty() };
    let cl = cross_lines(board, placed, horizontal, placed.len() as int);
    let all = equation_lines(board, placed, horizontal);
    assert(all == head + cl);
    lemma_cross_lines_members(board, placed, horizontal, placed.len() as int);
    if main.len() > 1 {
        assert(all[0] == main);
    }
    assert forall|i: int|
        0 <= i < placed.len() && (#[trigger] cross_line(board, placed, placed[i], horizontal)).len() > 1 implies all.contains(
        cross_line(board, placed, placed[i], horizontal),
    ) by {
        let m = choose|m: int| 0 <= m < cl.len() && cl[m] == cross_line(board, placed, placed[i], horizontal);
        assert(all[head.len() + m] == cl[m]);
    }
    assert forall|m: int| 0 <= m < all.len() implies {
        let l = #[trigger] all[m];
        &&& l.len() > 1
        &&& (l == main || exists|j: int| 0 <= j < placed.len() && l == cross_line(board, placed, #[trigger] placed[j], horizontal))
    } by {
        if m < head.len() {
            assert(all[m] == main);
        } else {
            assert(all[m] == cl[m - head.len()]);
        }
    }
}

/// In an accepted move, the run of tiles across the move through every placed
/// tile, when it holds two tiles or more, reads as a correct equation, and so
/// does the main line.
pub proof fn lemma_accepted_move_lines_hold(board: Board, placed: Seq<PlacedTile>, is_first_move: bool)
    requires
        move_verdict(board, placed, is_first_move) is Ok,
    ensures
        ({
            let h = all_same_row(placed);
            &&& main_line(board, placed, h).len() > 1 ==> equation_holds(
                line_kinds(board, placed, main_line(board, placed, h)),
            )
            &&& forall|i: int|
                0 <= i < placed.len() && (#[trigger] cross_line(board, placed, placed[i], h)).len() > 1
                    ==> equation_holds(line_kinds(board, placed, cross_line(board, placed, placed[i], h)))
        }),
{
    let h = all_same_row(placed);
    lemma_accepted_move(board, placed, is_first_move);
    lemma_equation_lines_complete(board, placed, h);
    let lines = equation_lines(board, placed, h);
    let eqs = equations_of(board, placed, h);
    assert(eqs.len() == lines.len());
    let main = main_line(board, placed, h);
    if main.len() > 1 {
        let m = choose|m: int| 0 <= m < lines.len() && lines[m] == main;
        assert(eqs[m] == line_kinds(board, placed, lines[m]));
    }
    assert forall|i: int|
        0 <= i < placed.len() && (#[trigger] cross_line(board, placed, placed[i], h)).len() > 1 implies equation_holds(
        line_kinds(board, placed, cross_line(board, placed, placed[i], h)),
    ) by {
        let l = cross_line(board, placed, placed[i], h);
        assert(lines.contains(l));
        let m = choose|m: int| 0 <= m < lines.len() && lines[m] == l;
        assert(eqs[m] == line_kinds(board, placed, lines[m]));
    }
}

// ---------------------------------------------------------------------------
// The lines of a move are whole runs of tiles
// ---------------------------------------------------------------------------

/// Every square from `start` to `end` of the line holds a tile.
pub open spec fn filled(board: Board, placed: Seq<PlacedTile>, fixed: int, start: int, end: int, horizontal: bool) -> bool {
    forall|k: int| start <= k <= end ==> #[trigger] temp_at(board, placed, fixed, k, horizontal) is Some
}

/// Squares `start` to `end` of the line lie on the board and hold tiles, and
/// the square just before them and the one just after them are off the board
/// or empty: a run of tiles that cannot be stretched.
pub open spec fn maximal_run(board: Board, placed: Seq<PlacedTile>, fixed: int, start: int, end: int, horizontal: bool) -> bool {
    &&& 0 <= start <= end < BOARD_SIZE
    &&& filled(board, placed, fixed, start, end, horizontal)
    &&& start == 0 || temp_at(board, placed, fixed, start - 1, horizontal) is None
    &&& end + 1 == BOARD_SIZE || temp_at(board, placed, fixed, end + 1, horizontal) is None
}

/// Squares `start` to `end` of the line, in order.
pub open spec fn squares(fixed: int, start: int, end: int, horizontal: bool) -> Seq<Pos> {
    Seq::new(
        (end - start + 1) as nat,
        |i: int| (line_pos(fixed, start + i, horizontal).0 as usize, line_pos(fixed, start + i, horizontal).1 as usize),
    )
}

proof fn lemma_left_extent(board: Board, placed: Seq<PlacedTile>, fixed: int, anchor: int, horizontal: bool)
    requires
        0 <= anchor,
    ensures
        ({
            let s = left_extent(board, placed, fixed, anchor, horizontal);
            &&& 0 <= s <= anchor
            &&& forall|k: int| s <= k < anchor ==> #[trigger] temp_at(board, placed, fixed, k, horizontal) is Some
            &&& s == 0 || temp_at(board, placed, fixed, s - 1, horizontal) is None
        }),
    decreases anchor,
{
    if anchor > 0 && temp_at(board, placed, fixed, anchor - 1, horizontal) is Some {
        lemma_left_extent(board, placed, fixed, anchor - 1, horizontal);
    }
}

proof fn lemma_right_extent(board: Board, placed: Seq<PlacedTile>, fixed: int, anchor: int, horizontal: bool)
    requires
        0 <= fixed < BOARD_SIZE,
        0 <= anchor < BOARD_SIZE,
    ensures
        ({
            let e = right_extent(board, placed, fixed, anchor, horizontal);
            &&& anchor <= e < BOARD_SIZE
            &&& forall|k: int| anchor < k <= e ==> #[trigger] temp_at(board, placed, fixed, k, horizontal) is Some
            &&& e + 1 == BOARD_SIZE || temp_at(board, placed, fixed, e + 1, horizontal) is None
        }),
    decreases BOARD_SIZE - anchor,
{
    if anchor + 1 < BOARD_SIZE && on_board_with_tile(board, placed, fixed, anchor + 1, horizontal) {
        lemma_right_extent(board, placed, fixed, anchor + 1, horizontal);
    }
}

proof fn lemma_filled_line(board: Board, placed: Seq<PlacedTile>, fixed: int, start: int, end: int, horizontal: bool)
    requires
        0 <= fixed < BOARD_SIZE,
        0 <= start <= end + 1,
        end < BOARD_SIZE,
        filled(board, placed, fixed, start, end, horizontal),
    ensures
        line_positions(board, placed, fixed, start, end, horizontal) == squares(fixed, start, end, horizontal),
    decreases end - start + 1,
{
    if end >= start {
        lemma_filled_line(board, placed, fixed, start, end - 1, horizontal);
        assert(temp_at(board, placed, fixed, end, horizontal) is Some);
        assert(squares(fixed, start, end, horizontal) =~= squares(fixed, start, end - 1, horizontal).push(
            (line_pos(fixed, end, horizontal).0 as usize, line_pos(fixed, end, horizontal).1 as usize),
        ));
    } else {
        assert(squares(fixed, start, end, horizontal) =~= Seq::<Pos>::empty());
    }
}

proof fn lemma_placed_here(placed: Seq<PlacedTile>, i: int)
    requires
        0 <= i < placed.len(),
    ensures
        placed_tile_at(placed, placed[i].row as int, placed[i].col as int) is Some,
    decreases placed.len(),
{
    if i > 0 && !(placed[0].row == placed[i].row && placed[0].col == placed[i].col) {
        assert(placed.drop_first()[i - 1] == placed[i]);
        lemma_placed_here(placed.drop_first(), i - 1);
    }
}

proof fn lemma_min_max_along(placed: Seq<PlacedTile>, horizontal: bool)
    requires
        placed.len() > 0,
        forall|i: int| 0 <= i < placed.len() ==> #[trigger] along(placed[i], horizontal) < BOARD_SIZE,
    ensures
        0 <= min_along(placed, horizontal),
        max_along(placed, horizontal) < BOARD_SIZE,
        forall|i: int|
            0 <= i < placed.len() ==> min_along(placed, horizontal) <= #[trigger] along(placed[i], horizontal)
                <= max_along(placed, horizontal),
    decreases placed.len(),
{
    if placed.len() > 1 {
        let rest = placed.drop_last();
        assert forall|i: int| 0 <= i < rest.len() implies #[trigger] along(rest[i], horizontal) < BOARD_SIZE by {
            assert(rest[i] == placed[i]);
        }
        lemma_min_max_along(rest, horizontal);
        assert(along(placed[placed.len() - 1], horizontal) < BOARD_SIZE);
        assert forall|i: int| 0 <= i < placed.len() implies min_along(placed, horizontal) <= #[trigger] along(
            placed[i],
            horizontal,
        ) <= max_along(placed, horizontal) by {
            if i < placed.len() - 1 {
                assert(rest[i] == placed[i]);
                assert(along(rest[i], horizontal) == along(placed[i], horizontal));
            }
        }
    } else {
        assert(along(placed[0], horizontal) < BOARD_SIZE);
    }
}

/// The main line of an accepted move whose tiles lie on the board is the whole
/// run of tiles through them: every square from its first to its last holds a
/// tile, the squares just beyond both ends are off the board or empty, every
/// placed tile lies on it, and it lists exactly those squares, in order.
pub proof fn lemma_main_line_is_run(board: Board, placed: Seq<PlacedTile>, is_first_move: bool)
    requires
        move_verdict(board, placed, is_first_move) is Ok,
        forall|i: int| 0 <= i < placed.len() ==> (#[trigger] placed[i]).row < BOARD_SIZE && placed[i].col < BOARD_SIZE,
    ensures
        ({
            let h = all_same_row(placed);
            let fixed = across(placed[0], h) as int;
            let start = left_extent(board, placed, fixed, min_along(placed, h), h);
            let end = right_extent(board, placed, fixed, max_along(placed, h), h);
            &&& maximal_run(board, placed, fixed, start, end, h)
            &&& forall|i: int|
                0 <= i < placed.len() ==> across(#[trigger] placed[i], h) == fixed && start <= along(placed[i], h) <= end
            &&& main_line(board, placed, h) == squares(fixed, start, end, h)
        }),
{
    lemma_accepted_move(board, placed, is_first_move);
    let h = all_same_row(placed);
    let fixed = across(placed[0], h) as int;
    assert forall|i: int| 0 <= i < placed.len() implies #[trigger] along(placed[i], h) < BOARD_SIZE by {
        assert(placed[i].row < BOARD_SIZE);
    }
    lemma_min_max_along(placed, h);
    let lo = min_along(placed, h);
    let hi = max_along(placed, h);
    assert(placed[0].row < BOARD_SIZE);
    assert forall|i: int| 0 <= i < placed.len() implies across(#[trigger] placed[i], h) == fixed by {
        if h {
            assert(placed[i].row == placed[0].row);
        } else {
            assert(placed[i].col == placed[0].col);
        }
    }
    assert forall|k: int| lo <= k <= hi implies #[trigger] temp_at(board, placed, fixed, k, h) is Some by {
        if placed_along(placed, h, k) {
            let i = choose|i: int| 0 <= i < placed.len() && #[trigger] along(placed[i], h) == k;
            assert(across(placed[i], h) == fixed);
            lemma_placed_here(placed, i);
            assert(line_pos(fixed, k, h) == (placed[i].row as int, placed[i].col as int));
        } else {
            assert(!(board_tile_on_line(board, fixed, k, h) is None));
        }
    }
    lemma_left_extent(board, placed, fixed, lo, h);
    lemma_right_extent(board, placed, fixed, hi, h);
    let start = left_extent(board, placed, fixed, lo, h);
    let end = right_extent(board, placed, fixed, hi, h);
    assert forall|k: int| start <= k <= end implies #[trigger] temp_at(board, placed, fixed, k, h) is Some by {}
    lemma_filled_line(board, placed, fixed, start, end, h);
}

/// The cross line through a placed tile on the board is the whole run of
/// tiles across the move through that tile: every square from its first to
/// its last holds a tile, the squares just beyond both ends are off the board
/// or empty, the tile lies on it, and it lists exactly those squares, in
/// order.
pub proof fn lemma_cross_line_is_run(board: Board, placed: Seq<PlacedTile>, i: int, horizontal: bool)
    requires
        0 <= i < placed.len(),
        placed[i].row < BOARD_SIZE,
        placed[i].col < BOARD_SIZE,
    ensures
        ({
            let pt = placed[i];
            let fixed = along(pt, horizontal) as int;
            let anchor = across(pt, horizontal) as int;
            let start = left_extent(board, placed, fixed, anchor, !horizontal);
            let end = right_extent(board, placed, fixed, anchor, !horizontal);
            &&& maximal_run(board, placed, fixed, start, end, !horizontal)
            &&& start <= anchor <= end
            &&& cross_line(board, placed, pt, horizontal) == squares(fixed, start, end, !horizontal)
        }),
{
    let pt = placed[i];
    let v = !horizontal;
    let fixed = along(pt, horizontal) as int;
    let anchor = across(pt, horizontal) as int;
    lemma_placed_here(placed, i);
    assert(line_pos(fixed, anchor, v) == (pt.row as int, pt.col as int));
    assert(temp_at(board, placed, fixed, anchor, v) is Some);
    lemma_left_extent(board, placed, fixed, anchor, v);
    lemma_right_extent(board, placed, fixed, anchor, v);
    let start = left_extent(board, placed, fixed, anchor, v);
    let end = right_extent(board, placed, fixed, anchor, v);
    assert forall|k: int| start <= k <= end implies #[trigger] temp_at(board, placed, fixed, k, v) is Some by {}
    lemma_filled_line(board, placed, fixed, start, end, v);
}

// ---------------------------------------------------------------------------
// Executable code
// ---------------------------------------------------------------------------

/// The board with the move's tiles laid on it, without changing the board.
struct TempBoard<'a> {
    board: &'a Board,
    placed: &'a [PlacedTile],
}

impl<'a> TempBoard<'a> {
    /// The tile on `(row, col)`: a placed one first, else the board's.
    fn get_tile(&self, row: usize, col: usize) -> (t: Option<&Tile>)
        ensures
            t matches Some(x) ==> temp_tile(*self.board, self.placed@, row as int, col as int) == Some(*x),
            t is None ==> temp_tile(*self.board, self.placed@, row as int, col as int) is None,
    {
        let n = self.placed.len();
        let mut i: usize = 0;
        assert(self.placed@.subrange(0, n as int) =~= self.placed@);
        while i < n
            invariant
                n == self.placed@.len(),
                i <= n,
                placed_tile_at(self.placed@, row as int, col as int) == placed_tile_at(
                    self.placed@.subrange(i as int, n as int),
                    row as int,
                    col as int,
                ),
            decreases n - i,
        {
            assert(self.placed@.subrange(i as int, n as int).drop_first() =~= self.placed@.subrange(
                i + 1,
                n as int,
            ));
            if self.placed[i].row == row && self.placed[i].col == col {
                return Some(&self.placed[i].tile);
            }
            i = i + 1;
        }
        assert(self.placed@.subrange(n as int, n as int).len() == 0);
        self.board.get_tile(row, col)
    }

    /// Whether square `k` of a line holds a tile.
    fn has_tile_on_line(&self, fixed: usize, k: usize, horizontal: bool) -> (b: bool)
        ensures
            b == temp_at(*self.board, self.placed@, fixed as int, k as int, horizontal) is Some,
    {
        if horizontal {
            self.get_tile(fixed, k).is_some()
        } else {
            self.get_tile(k, fixed).is_some()
        }
    }
}

fn expand_left(temp: &TempBoard, fixed: usize, anchor: usize, horizontal: bool) -> (pos: usize)
    ensures
        pos as int == left_extent(*temp.board, temp.placed@, fixed as int, anchor as int, horizontal),
        pos <= anchor,
{
    let mut pos = anchor;
    while pos > 0 && temp.has_tile_on_line(fixed, pos - 1, horizontal)
        invariant
            pos <= anchor,
            left_extent(*temp.board, temp.placed@, fixed as int, anchor as int, horizontal)
                == left_extent(*temp.board, temp.placed@, fixed as int, pos as int, horizontal),
        decreases pos,
    {
        pos = pos - 1;
    }
    pos
}

fn expand_right(temp: &TempBoard, fixed: usize, anchor: usize, horizontal: bool) -> (pos: usize)
    ensures
        pos as int == right_extent(*temp.board, temp.placed@, fixed as int, anchor as int, horizontal),
        pos >= anchor,
{
    let mut pos = anchor;
    while pos < BOARD_SIZE - 1 && fixed < BOARD_SIZE && temp.has_tile_on_line(fixed, pos + 1, horizontal)
        invariant
            pos >= anchor,
            right_extent(*temp.board, temp.placed@, fixed as int, anchor as int, horizontal)
                == right_extent(*temp.board, temp.placed@, fixed as int, pos as int, horizontal),
        decreases BOARD_SIZE - pos,
    {
        pos = pos + 1;
    }
    pos
}

/// The squares from `start` to `end` of a line that hold a tile.
fn line_positions_exec(temp: &TempBoard, fixed: usize, start: usize, end: usize, horizontal: bool) -> (v: Vec<Pos>)
    requires
        start <= end,
    ensures
        v@ == line_positions(*temp.board, temp.placed@, fixed as int, start as int, end as int, horizontal),
{
    let mut v: Vec<Pos> = Vec::new();
    let mut k = start;
    loop
        invariant_except_break
            start <= k <= end,
            v@ == line_positions(*temp.board, temp.placed@, fixed as int, start as int, k - 1, horizontal),
        ensures
            v@ == line_positions(*temp.board, temp.placed@, fixed as int, start as int, end as int, horizontal),
        decreases end - k,
    {
        if temp.has_tile_on_line(fixed, k, horizontal) {
            if horizontal {
                v.push((fixed, k));
            } else {
                v.push((k, fixed));
            }
        }
        if k == end {
            break;
        }
        k = k + 1;
    }
    v
}

fn along_exec(pt: &PlacedTile, horizontal: bool) -> (x: usize)
    ensures
        x == along(*pt, horizontal),
{
    if horizontal {
        pt.col
    } else {
        pt.row
    }
}

fn across_exec(pt: &PlacedTile, horizontal: bool) -> (x: usize)
    ensures
        x == across(*pt, horizontal),
{
    if horizontal {
        pt.row
    } else {
        pt.col
    }
}

fn min_max_along(placed: &[PlacedTile], horizontal: bool) -> (r: (usize, usize))
    requires
        placed@.len() > 0,
    ensures
        r.0 == min_along(placed@, horizontal),
        r.1 == max_along(placed@, horizontal),
        r.0 <= r.1,
        forall|i: int| 0 <= i < placed@.len() ==> r.0 <= #[trigger] along(placed@[i], horizontal) <= r.1,
{
    let n = placed.len();
    let mut lo = along_exec(&placed[0], horizontal);
    let mut hi = lo;
    let mut i: usize = 1;
    assert(placed@.subrange(0, 1).len() == 1);
    while i < n
        invariant
            n == placed@.len(),
            1 <= i <= n,
            lo == min_along(placed@.subrange(0, i as int), horizontal),
            hi == max_along(placed@.subrange(0, i as int), horizontal),
            lo <= hi,
            forall|j: int| 0 <= j < i ==> lo <= #[trigger] along(placed@[j], horizontal) <= hi,
        decreases n - i,
    {
        assert(placed@.subrange(0, i + 1).drop_last() =~= placed@.subrange(0, i as int));
        let x = along_exec(&placed[i], horizontal);
        if x < lo {
            lo = x;
        }
        if x > hi {
            hi = x;
        }
        i = i + 1;
    }
    assert(placed@.subrange(0, n as int) =~= placed@);
    (lo, hi)
}

/// The equation lines of the move: the main line, then each cross line, each
/// kept when it holds at least two tiles.
fn collect_positions(temp: &TempBoard, placed: &[PlacedTile], horizontal: bool) -> (v: Vec<Vec<Pos>>)
    requires
        placed@.len() > 0,
        temp.placed@ == placed@,
    ensures
        v@.map_values(|l: Vec<Pos>| l@) == equation_lines(*temp.board, placed@, horizontal),
{
    let ghost board = *temp.board;
    let ghost pl = placed@;
    let mut result: Vec<Vec<Pos>> = Vec::new();
    let (lo, hi) = min_max_along(placed, horizontal);
    let fixed = across_exec(&placed[0], horizontal);
    let start = expand_left(temp, fixed, lo, horizontal);
    let end = expand_right(temp, fixed, hi, horizontal);
    let main = line_positions_exec(temp, fixed, start, end, horizontal);
    let ghost main_view = main@;
    assert(main_view == main_line(board, pl, horizontal));
    let ghost head: Seq<Seq<Pos>> = if main_view.len() > 1 { seq![main_view] } else { Seq::empty() };
    if main.len() > 1 {
        result.push(main);
    }
    assert(result@.map_values(|l: Vec<Pos>| l@) =~= head);
    let n = placed.len();
    let mut i: usize = 0;
    while i < n
        invariant
            n == pl.len(),
            i <= n,
            board == *temp.board,
            pl == temp.placed@,
            pl == placed@,
            result@.map_values(|l: Vec<Pos>| l@) == head + cross_lines(board, pl, horizontal, i as int),
        decreases n - i,
    {
        let pt = &placed[i];
        let cfixed = along_exec(pt, horizontal);
        let anchor = across_exec(pt, horizontal);
        let cs = expand_left(temp, cfixed, anchor, !horizontal);
        let ce = expand_right(temp, cfixed, anchor, !horizontal);
        let cross = line_positions_exec(temp, cfixed, cs, ce, !horizontal);
        assert(cross@ == cross_line(board, pl, pl[i as int], horizontal));
        let ghost before = result@.map_values(|l: Vec<Pos>| l@);
        if cross.len() > 1 {
            result.push(cross);
            assert(result@.map_values(|l: Vec<Pos>| l@) =~= before.push(
                cross_line(board, pl, pl[i as int], horizontal),
            ));
        }
        i = i + 1;
    }
    result
}

/// The tile sequence on each line.
fn collect_equations(temp: &TempBoard, placed: &[PlacedTile], horizontal: bool) -> (v: Vec<Vec<TileKind>>)
    requires
        placed@.len() > 0,
        temp.placed@ == placed@,
    ensures
        v@.map_values(|k: Vec<TileKind>| k@) == equations_of(*temp.board, placed@, horizontal),
{
    let ghost board = *temp.board;
    let ghost pl = placed@;
    let lines = collect_positions(temp, placed, horizontal);
    let ghost lv = lines@.map_values(|l: Vec<Pos>| l@);
    let mut result: Vec<Vec<TileKind>> = Vec::new();
    let n = lines.len();
    let mut i: usize = 0;
    while i < n
        invariant
            n == lines@.len(),
            i <= n,
            board == *temp.board,
            pl == temp.placed@,
            lv == lines@.map_values(|l: Vec<Pos>| l@),
            lv == equation_lines(board, pl, horizontal),
            result@.map_values(|k: Vec<TileKind>| k@) =~= lv.take(i as int).map_values(
                |l: Seq<Pos>| line_kinds(board, pl, l),
            ),
        decreases n - i,
    {
        let line = &lines[i];
        assert(line@ == lv[i as int]);
        let m = line.len();
        let mut kinds: Vec<TileKind> = Vec::new();
        let mut j: usize = 0;
        while j < m
            invariant
                m == line@.len(),
                j <= m,
                board == *temp.board,
                pl == temp.placed@,
                kinds@ == line_kinds(board, pl, line@.take(j as int)),
            decreases m - j,
        {
            assert(line@.take(j + 1).drop_last() =~= line@.take(j as int));
            let (r, c) = line[j];
            match temp.get_tile(r, c) {
                Some(t) => {
                    kinds.push(t.kind);
                },
                None => {},
            }
            j = j + 1;
        }
        assert(line@.take(m as int) =~= line@);
        let ghost before = result@.map_values(|k: Vec<TileKind>| k@);
        result.push(kinds);
        assert(lv.take(i + 1) =~= lv.take(i as int).push(lv[i as int]));
        assert(result@.map_values(|k: Vec<TileKind>| k@) =~= before.push(line_kinds(board, pl, lv[i as int])));
        i = i + 1;
    }
    assert(lv.take(n as int) =~= lv);
    result
}

fn all_same_row_exec(placed: &[PlacedTile]) -> (b: bool)
    requires
        placed@.len() > 0,
    ensures
        b == all_same_row(placed@),
{
    let n = placed.len();
    let mut i: usize = 0;
    while i < n
        invariant
            n == placed@.len(),
            i <= n,
            forall|j: int| 0 <= j < i ==> #[trigger] placed@[j].row == placed@[0].row,
        decreases n - i,
    {
        if placed[i].row != placed[0].row {
            return false;
        }
        i = i + 1;
    }
    true
}

fn all_same_col_exec(placed: &[PlacedTile]) -> (b: bool)
    requires
        placed@.len() > 0,
    ensures
        b == all_same_col(placed@),
{
    let n = placed.len();
    let mut i: usize = 0;
    while i < n
        invariant
            n == placed@.len(),
            i <= n,
            forall|j: int| 0 <= j < i ==> #[trigger] placed@[j].col == placed@[0].col,
        decreases n - i,
    {
        if placed[i].col != placed[0].col {
            return false;
        }
        i = i + 1;
    }
    true
}

fn placed_along_exec(placed: &[PlacedTile], horizontal: bool, k: usize) -> (b: bool)
    ensures
        b == placed_along(placed@, horizontal, k as int),
{
    let n = placed.len();
    let mut i: usize = 0;
    while i < n
        invariant
            n == placed@.len(),
            i <= n,
            forall|j: int| 0 <= j < i ==> #[trigger] along(placed@[j], horizontal) != k,
        decreases n - i,
    {
        if along_exec(&placed[i], horizontal) == k {
            return true;
        }
        i = i + 1;
    }
    false
}

/// Whether an orthogonal neighbour of `(row, col)` on the board holds a tile.
fn is_adjacent_to_existing(board: &Board, row: usize, col: usize) -> (b: bool)
    ensures
        b == adjacent_to_existing(*board, row as int, col as int),
{
    (row >= 1 && row - 1 < BOARD_SIZE && col < BOARD_SIZE && board.is_occupied(row - 1, col))
        || (row < BOARD_SIZE - 1 && col < BOARD_SIZE && board.is_occupied(row + 1, col))
        || (row < BOARD_SIZE && col >= 1 && col - 1 < BOARD_SIZE && board.is_occupied(row, col - 1))
        || (row < BOARD_SIZE && col < BOARD_SIZE - 1 && board.is_occupied(row, col + 1))
}

/// Check a move: placement rules in a fixed order, then every equation it
/// forms. The first rule broken is the error returned.
pub fn validate_move(board: &Board, placed: &[PlacedTile], is_first_move: bool) -> (r: Result<(), ValidationError>)
    ensures
        r == move_verdict(*board, placed@, is_first_move),
{
    let ghost pl = placed@;
    let n = placed.len();
    if n == 0 {
        return Err(ValidationError::NoTilesPlaced);
    }
    // No two tiles on one square.
    let mut j: usize = 0;
    while j < n
        invariant
            n == pl.len(),
            pl == placed@,
            j <= n,
            forall|a: int, b: int|
                0 <= a < b < j ==> !(#[trigger] pl[a].row == #[trigger] pl[b].row && pl[a].col == pl[b].col),
        decreases n - j,
    {
        let mut i: usize = 0;
        while i < j
            invariant
                n == pl.len(),
                pl == placed@,
                i <= j < n,
                forall|a: int, b: int|
                    0 <= a < b < j ==> !(#[trigger] pl[a].row == #[trigger] pl[b].row && pl[a].col == pl[b].col),
                forall|a: int| 0 <= a < i ==> !(#[trigger] pl[a].row == pl[j as int].row && pl[a].col == pl[j as int].col),
            decreases j - i,
        {
            if placed[i].row == placed[j].row && placed[i].col == placed[j].col {
                assert(pl[i as int].row == pl[j as int].row);
                return Err(ValidationError::DuplicatePosition);
            }
            i = i + 1;
        }
        j = j + 1;
    }
    assert(!has_duplicate(pl));
    // One row or one column.
    let same_row = all_same_row_exec(placed);
    let same_col = all_same_col_exec(placed);
    if !same_row && !same_col {
        return Err(ValidationError::NotInLineOrColumn);
    }
    // Only empty squares.
    let mut i: usize = 0;
    while i < n
        invariant
            n == pl.len(),
            pl == placed@,
            i <= n,
            forall|a: int| 0 <= a < i ==> board.tile_at(#[trigger] pl[a].row as int, pl[a].col as int) is None,
            !has_duplicate(pl),
            same_row == all_same_row(pl),
            same_col == all_same_col(pl),
            same_row || same_col,
        decreases n - i,
    {
        if board.is_occupied(placed[i].row, placed[i].col) {
            assert(board.tile_at(pl[i as int].row as int, pl[i as int].col as int) is Some);
            return Err(ValidationError::OverlapsExistingTile);
        }
        i = i + 1;
    }
    assert(!overlaps_existing(*board, pl));
    // No gaps within the placement span.
    let horizontal = same_row;
    let (lo, hi) = min_max_along(placed, horizontal);
    let fixed = across_exec(&placed[0], horizontal);
    let mut k = lo;
    loop
        invariant_except_break
            lo <= k <= hi,
        invariant
            n == pl.len(),
            n > 0,
            pl == placed@,
            !has_duplicate(pl),
            !overlaps_existing(*board, pl),
            horizontal == all_same_row(pl),
            horizontal == same_row,
            same_row || same_col,
            same_col == all_same_col(pl),
            lo == min_along(pl, horizontal),
            hi == max_along(pl, horizontal),
            fixed == across(pl[0], horizontal),
            forall|k2: int|
                lo <= k2 < k ==> placed_along(pl, horizontal, k2) || #[trigger] board_tile_on_line(
                    *board,
                    fixed as int,
                    k2,
                    horizontal,
                ) is Some,
        ensures
            forall|k2: int|
                lo <= k2 <= hi ==> placed_along(pl, horizontal, k2) || #[trigger] board_tile_on_line(
                    *board,
                    fixed as int,
                    k2,
                    horizontal,
                ) is Some,
        decreases hi - k,
    {
        let on_board = if horizontal {
            board.is_occupied(fixed, k)
        } else {
            board.is_occupied(k, fixed)
        };
        assert(on_board == board_tile_on_line(*board, fixed as int, k as int, horizontal) is Some);
        if !placed_along_exec(placed, horizontal, k) && !on_board {
            assert(has_gap(*board, pl, horizontal));
            return Err(ValidationError::GapInPlacement);
        }
        if k == hi {
            break;
        }
        k = k + 1;
    }
    assert(!has_gap(*board, pl, horizontal));
    // Cover the centre, or touch what is on the board.
    if is_first_move {
        let mut covers = false;
        let mut i: usize = 0;
        while i < n
            invariant
                n == pl.len(),
                pl == placed@,
                i <= n,
                covers == exists|a: int| 0 <= a < i && #[trigger] pl[a].row == CENTER && pl[a].col == CENTER,
            decreases n - i,
        {
            if placed[i].row == CENTER && placed[i].col == CENTER {
                covers = true;
            }
            i = i + 1;
        }
        if !covers {
            return Err(ValidationError::MustCoverCenter);
        }
    } else {
        let mut connected = false;
        let mut i: usize = 0;
        while i < n
            invariant
                n == pl.len(),
                pl == placed@,
                i <= n,
                connected == exists|a: int|
                    0 <= a < i && adjacent_to_existing(*board, #[trigger] pl[a].row as int, pl[a].col as int),
            decreases n - i,
        {
            if is_adjacent_to_existing(board, placed[i].row, placed[i].col) {
                connected = true;
            }
            i = i + 1;
        }
        if !connected {
            return Err(ValidationError::NotConnected);
        }
    }
    // Every equation formed is correct.
    let temp = TempBoard { board, placed };
    let eqs = collect_equations(&temp, placed, horizontal);
    let ghost ev = eqs@.map_values(|k: Vec<TileKind>| k@);
    let m = eqs.len();
    let mut e: usize = 0;
    assert(ev.subrange(0, m as int) =~= ev);
    while e < m
        invariant
            m == ev.len(),
            pl == placed@,
            ev == eqs@.map_values(|k: Vec<TileKind>| k@),
            e <= m,
            move_verdict(*board, pl, is_first_move) == equations_verdict(ev.subrange(e as int, m as int)),
        decreases m - e,
    {
        assert(ev.subrange(e as int, m as int).drop_first() =~= ev.subrange(e + 1, m as int));
        assert(ev.subrange(e as int, m as int)[0] == eqs@[e as int]@);
        let line = eqs[e].as_slice();
        assert(line@ == ev[e as int]);
        match validate_equation(line) {
            Ok(()) => {},
            Err(err) => {
                return Err(err);
            },
        }
        e = e + 1;
    }
    Ok(())
}

/// The squares of every equation that a move forms: the main line, then each
/// cross line, each kept when it holds at least two tiles.
pub fn equation_positions(board: &Board, placed: &[PlacedTile]) -> (v: Vec<Vec<Pos>>)
    requires
        placed@.len() > 0,
    ensures
        v@.map_values(|l: Vec<Pos>| l@) == equation_lines(*board, placed@, all_same_row(placed@)),
{
    let horizontal = all_same_row_exec(placed);
    let temp = TempBoard { board, placed };
    collect_positions(&temp, placed, horizontal)
}

} // verus!
