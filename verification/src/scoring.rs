//! Scoring a move: each placed tile scores its points times the tile premium
//! of its square, each tile already on the board in an equation the move
//! forms adds its face value, and the sum is multiplied by the equation
//! premiums of the squares covered. Premiums apply only to newly placed tiles.

use vstd::prelude::*;

use crate::board::{covers, Board, PremiumSquare};
use crate::tile::PlacedTile;
use crate::validation::{all_same_row, equation_lines, equation_positions, Pos};

verus! {

/// The factor a square applies to the tile placed on it.
pub open spec fn tile_multiplier(p: Option<PremiumSquare>) -> int {
    match p {
        Some(PremiumSquare::DoubleTile) => 2,
        Some(PremiumSquare::TripleTile) => 3,
        _ => 1,
    }
}

/// The factor a square applies to the whole move.
pub open spec fn equation_multiplier(p: Option<PremiumSquare>) -> int {
    match p {
        Some(PremiumSquare::DoubleEquation) => 2,
        Some(PremiumSquare::TripleEquation) => 3,
        _ => 1,
    }
}

/// The points of one placed tile, with the tile premium of its square.
pub open spec fn tile_points(board: Board, pt: PlacedTile) -> int {
    pt.tile.point_value * tile_multiplier(board.premium_at(pt.row as int, pt.col as int))
}

/// The sum of the points of the placed tiles.
pub open spec fn tile_total(board: Board, placed: Seq<PlacedTile>) -> int
    decreases placed.len(),
{
    if placed.len() == 0 {
        0
    } else {
        tile_total(board, placed.drop_last()) + tile_points(board, placed.last())
    }
}

/// The product of the equation premiums of the squares covered.
pub open spec fn equation_factor(board: Board, placed: Seq<PlacedTile>) -> int
    decreases placed.len(),
{
    if placed.len() == 0 {
        1
    } else {
        equation_factor(board, placed.drop_last()) * equation_multiplier(
            board.premium_at(placed.last().row as int, placed.last().col as int),
        )
    }
}

/// The face value of the tile already on square `p`, counted when no placed
/// tile covers it.
pub open spec fn existing_value(board: Board, placed: Seq<PlacedTile>, p: Pos) -> int {
    if covers(placed, p.0 as int, p.1 as int) {
        0
    } else {
        match board.tile_at(p.0 as int, p.1 as int) {
            Some(t) => t.point_value as int,
            None => 0,
        }
    }
}

/// The face values of the tiles already on the board along one line.
pub open spec fn existing_points(board: Board, placed: Seq<PlacedTile>, line: Seq<Pos>) -> int
    decreases line.len(),
{
    if line.len() == 0 {
        0
    } else {
        existing_points(board, placed, line.drop_last()) + existing_value(board, placed, line.last())
    }
}

/// The face values of the tiles already on the board along several lines.
pub open spec fn lines_points(board: Board, placed: Seq<PlacedTile>, lines: Seq<Seq<Pos>>) -> int
    decreases lines.len(),
{
    if lines.len() == 0 {
        0
    } else {
        lines_points(board, placed, lines.drop_last()) + existing_points(board, placed, lines.last())
    }
}

/// The face values of the tiles already on the board in the equations the
/// move forms.
pub open spec fn existing_total(board: Board, placed: Seq<PlacedTile>) -> int {
    if placed.len() == 0 {
        0
    } else {
        lines_points(board, placed, equation_lines(board, placed, all_same_row(placed)))
    }
}

/// The points before the equation premiums: the placed tiles with their tile
/// premiums, and the tiles already on the board at face value.
pub open spec fn base_points(board: Board, placed: Seq<PlacedTile>) -> int {
    tile_total(board, placed) + existing_total(board, placed)
}

/// The score of a move.
pub open spec fn move_score(board: Board, placed: Seq<PlacedTile>) -> int {
    base_points(board, placed) * equation_factor(board, placed)
}

/// Every placed tile stands on a square of the board.
pub open spec fn all_on_board(board: Board, placed: Seq<PlacedTile>) -> bool {
    forall|i: int| 0 <= i < placed.len() ==> board.in_bounds(#[trigger] placed[i].row as int, placed[i].col as int)
}

/// The score of a move, and both of its factors, fit in a `u32`.
pub open spec fn score_fits(board: Board, placed: Seq<PlacedTile>) -> bool {
    &&& base_points(board, placed) <= u32::MAX
    &&& equation_factor(board, placed) <= u32::MAX
    &&& move_score(board, placed) <= u32::MAX
}

proof fn lemma_tile_points_nonneg(board: Board, pt: PlacedTile)
    ensures
        tile_points(board, pt) >= 0,
{
    let v = pt.tile.point_value as int;
    let m = tile_multiplier(board.premium_at(pt.row as int, pt.col as int));
    assert(v * m >= 0) by (nonlinear_arith)
        requires
            v >= 0,
            m >= 1,
    ;
}

proof fn lemma_totals_monotone(board: Board, placed: Seq<PlacedTile>, i: int)
    requires
        0 <= i <= placed.len(),
    ensures
        0 <= tile_total(board, placed.take(i)) <= tile_total(board, placed),
        1 <= equation_factor(board, placed.take(i)) <= equation_factor(board, placed),
    decreases placed.len() - i,
{
    if i < placed.len() {
        lemma_totals_monotone(board, placed, i + 1);
        let p = placed.take(i + 1);
        assert(p.drop_last() =~= placed.take(i));
        lemma_tile_points_nonneg(board, p.last());
        lemma_totals_nonneg(board, placed.take(i));
        let f = equation_factor(board, placed.take(i));
        let m = equation_multiplier(board.premium_at(p.last().row as int, p.last().col as int));
        assert(f <= f * m) by (nonlinear_arith)
            requires
                f >= 1,
                m >= 1,
        ;
    } else {
        assert(placed.take(i) =~= placed);
        lemma_totals_nonneg(board, placed);
    }
}

proof fn lemma_totals_nonneg(board: Board, placed: Seq<PlacedTile>)
    ensures
        tile_total(board, placed) >= 0,
        equation_factor(board, placed) >= 1,
    decreases placed.len(),
{
    if placed.len() > 0 {
        lemma_totals_nonneg(board, placed.drop_last());
        lemma_tile_points_nonneg(board, placed.last());
        let f = equation_factor(board, placed.drop_last());
        let m = equation_multiplier(board.premium_at(placed.last().row as int, placed.last().col as int));
        assert(f * m >= 1) by (nonlinear_arith)
            requires
                f >= 1,
                m >= 1,
        ;
    }
}

proof fn lemma_existing_points_prefix(board: Board, placed: Seq<PlacedTile>, line: Seq<Pos>, j: int)
    requires
        0 <= j <= line.len(),
    ensures
        0 <= existing_points(board, placed, line.take(j)) <= existing_points(board, placed, line),
    decreases line.len() - j,
{
    if j < line.len() {
        lemma_existing_points_prefix(board, placed, line, j + 1);
        assert(line.take(j + 1).drop_last() =~= line.take(j));
        lemma_existing_points_nonneg(board, placed, line.take(j));
    } else {
        assert(line.take(j) =~= line);
        lemma_existing_points_nonneg(board, placed, line);
    }
}

proof fn lemma_existing_points_nonneg(board: Board, placed: Seq<PlacedTile>, line: Seq<Pos>)
    ensures
        existing_points(board, placed, line) >= 0,
    decreases line.len(),
{
    if line.len() > 0 {
        lemma_existing_points_nonneg(board, placed, line.drop_last());
    }
}

proof fn lemma_lines_points_prefix(board: Board, placed: Seq<PlacedTile>, lines: Seq<Seq<Pos>>, k: int)
    requires
        0 <= k <= lines.len(),
    ensures
        0 <= lines_points(board, placed, lines.take(k)) <= lines_points(board, placed, lines),
    decreases lines.len() - k,
{
    if k < lines.len() {
        lemma_lines_points_prefix(board, placed, lines, k + 1);
        assert(lines.take(k + 1).drop_last() =~= lines.take(k));
        lemma_existing_points_nonneg(board, placed, lines[k]);
        lemma_lines_points_nonneg(board, placed, lines.take(k));
    } else {
        assert(lines.take(k) =~= lines);
        lemma_lines_points_nonneg(board, placed, lines);
    }
}

proof fn lemma_lines_points_nonneg(board: Board, placed: Seq<PlacedTile>, lines: Seq<Seq<Pos>>)
    ensures
        lines_points(board, placed, lines) >= 0,
    decreases lines.len(),
{
    if lines.len() > 0 {
        lemma_lines_points_nonneg(board, placed, lines.drop_last());
        lemma_existing_points_nonneg(board, placed, lines.last());
    }
}

proof fn lemma_existing_total_nonneg(board: Board, placed: Seq<PlacedTile>)
    ensures
        existing_total(board, placed) >= 0,
{
    if placed.len() > 0 {
        lemma_lines_points_nonneg(board, placed, equation_lines(board, placed, all_same_row(placed)));
    }
}

/// The board holds no tile.
pub open spec fn no_tiles(board: Board) -> bool {
    forall|r: int, c: int| #[trigger] board.tile_at(r, c) is None
}

proof fn lemma_no_existing_points(board: Board, placed: Seq<PlacedTile>, lines: Seq<Seq<Pos>>)
    requires
        no_tiles(board),
    ensures
        lines_points(board, placed, lines) == 0,
    decreases lines.len(),
{
    if lines.len() > 0 {
        lemma_no_existing_points(board, placed, lines.drop_last());
        lemma_no_existing_points_line(board, placed, lines.last());
    }
}

proof fn lemma_no_existing_points_line(board: Board, placed: Seq<PlacedTile>, line: Seq<Pos>)
    requires
        no_tiles(board),
    ensures
        existing_points(board, placed, line) == 0,
    decreases line.len(),
{
    if line.len() > 0 {
        lemma_no_existing_points_line(board, placed, line.drop_last());
        assert(board.tile_at(line.last().0 as int, line.last().1 as int) is None);
    }
}

/// A single tile played on a board with no tiles scores its point value,
/// twice that on a double-tile or double-equation square, three times that
/// on a triple-tile or triple-equation square.
pub proof fn lemma_single_tile_score(board: Board, pt: PlacedTile)
    requires
        no_tiles(board),
    ensures
        move_score(board, seq![pt]) == pt.tile.point_value * match board.premium_at(pt.row as int, pt.col as int) {
            Some(PremiumSquare::DoubleTile) => 2int,
            Some(PremiumSquare::TripleTile) => 3int,
            Some(PremiumSquare::DoubleEquation) => 2int,
            Some(PremiumSquare::TripleEquation) => 3int,
            None => 1int,
        },
{
    let placed = seq![pt];
    assert(placed.drop_last() =~= Seq::<PlacedTile>::empty());
    assert(placed.last() == pt);
    lemma_no_existing_points(board, placed, equation_lines(board, placed, all_same_row(placed)));
    let v = pt.tile.point_value as int;
    let p = board.premium_at(pt.row as int, pt.col as int);
    assert(tile_total(board, placed.drop_last()) == 0);
    assert(equation_factor(board, placed.drop_last()) == 1);
    assert(tile_total(board, placed) == v * tile_multiplier(p));
    assert(equation_factor(board, placed) == equation_multiplier(p));
    match p {
        Some(PremiumSquare::DoubleTile) => {},
        Some(PremiumSquare::TripleTile) => {},
        Some(PremiumSquare::DoubleEquation) => {
            assert(v * 1 * 2 == v * 2) by (nonlinear_arith);
        },
        Some(PremiumSquare::TripleEquation) => {
            assert(v * 1 * 3 == v * 3) by (nonlinear_arith);
        },
        None => {},
    }
}


/// Whether some placed tile covers `(r, c)`.
fn covered(placed: &[PlacedTile], r: usize, c: usize) -> (b: bool)
    ensures
        b == covers(placed@, r as int, c as int),
{
    let n = placed.len();
    let mut i: usize = 0;
    while i < n
        invariant
            n == placed@.len(),
            i <= n,
            forall|j: int| 0 <= j < i ==> !(#[trigger] placed@[j].row == r && placed@[j].col == c),
        decreases n - i,
    {
        if placed[i].row == r && placed[i].col == c {
            assert(placed@[i as int].row == r && placed@[i as int].col == c);
            return true;
        }
        i = i + 1;
    }
    false
}

/// Score a move. Premium squares apply only to newly placed tiles; tiles
/// already on the board in an equation the move forms contribute their face
/// value.
pub fn score_move(board: &Board, placed: &[PlacedTile]) -> (score: u32)
    requires
        all_on_board(*board, placed@),
        score_fits(*board, placed@),
    ensures
        score == move_score(*board, placed@),
{
    match checked_score(board, placed) {
        Some(s) => s,
        None => 0,
    }
}

/// Whether every placed tile stands on a square of the board.
pub fn placed_on_board(board: &Board, placed: &[PlacedTile]) -> (b: bool)
    ensures
        b == all_on_board(*board, placed@),
{
    let n = placed.len();
    let mut i: usize = 0;
    while i < n
        invariant
            n == placed@.len(),
            i <= n,
            forall|j: int| 0 <= j < i ==> board.in_bounds(#[trigger] placed@[j].row as int, placed@[j].col as int),
        decreases n - i,
    {
        let pt = &placed[i];
        if !(pt.row < board.cells.len() && pt.col < board.cells[pt.row].len()) {
            assert(!board.in_bounds(placed@[i as int].row as int, placed@[i as int].col as int));
            return false;
        }
        i = i + 1;
    }
    true
}

/// The score of a move when it fits in a `u32`, and none otherwise.
pub fn checked_score(board: &Board, placed: &[PlacedTile]) -> (r: Option<u32>)
    requires
        all_on_board(*board, placed@),
    ensures
        r is Some <==> score_fits(*board, placed@),
        r matches Some(s) ==> s == move_score(*board, placed@),
{
    let ghost pl = placed@;
    let mut tile_sum: u64 = 0;
    let mut factor: u64 = 1;
    let n = placed.len();
    let mut i: usize = 0;
    while i < n
        invariant
            n == pl.len(),
            pl == placed@,
            i <= n,
            all_on_board(*board, pl),
            tile_sum == tile_total(*board, pl.take(i as int)),
            factor == equation_factor(*board, pl.take(i as int)),
            tile_sum <= u32::MAX,
            factor <= u32::MAX,
        decreases n - i,
    {
        proof {
            lemma_totals_monotone(*board, pl, i + 1);
            assert(pl.take(i + 1).drop_last() =~= pl.take(i as int));
        }
        let pt = &placed[i];
        assert(board.in_bounds(pt.row as int, pt.col as int));
        let premium = board.cells[pt.row][pt.col].premium;
        let tile_mult: u64 = match premium {
            Some(PremiumSquare::DoubleTile) => 2,
            Some(PremiumSquare::TripleTile) => 3,
            _ => 1,
        };
        let eq_mult: u64 = match premium {
            Some(PremiumSquare::DoubleEquation) => 2,
            Some(PremiumSquare::TripleEquation) => 3,
            _ => 1,
        };
        let points = pt.tile.point_value as u64;
        assert(points * tile_mult <= 3 * 0xffff_ffff) by (nonlinear_arith)
            requires
                points <= 0xffff_ffff,
                tile_mult <= 3,
        ;
        tile_sum = tile_sum + points * tile_mult;
        factor = factor * eq_mult;
        i = i + 1;
        if tile_sum > 0xffff_ffff || factor > 0xffff_ffff {
            proof {
                lemma_existing_total_nonneg(*board, pl);
                lemma_totals_monotone(*board, pl, i as int);
            }
            return None;
        }
    }
    assert(pl.take(n as int) =~= pl);
    proof {
        lemma_totals_nonneg(*board, pl);
    }
    // The face values of the tiles already on the board in each equation.
    let mut existing: u64 = 0;
    if n > 0 {
        let lines = equation_positions(board, placed);
        let ghost lv = lines@.map_values(|l: Vec<Pos>| l@);
        assert(lv == equation_lines(*board, pl, all_same_row(pl)));
        let m = lines.len();
        let mut li: usize = 0;
        while li < m
            invariant
                m == lines@.len(),
                lv == lines@.map_values(|l: Vec<Pos>| l@),
                lv == equation_lines(*board, pl, all_same_row(pl)),
                n > 0,
                n == pl.len(),
                pl == placed@,
                li <= m,
                existing == lines_points(*board, pl, lv.take(li as int)),
                existing <= u32::MAX,
                tile_sum == tile_total(*board, pl),
                tile_total(*board, pl) >= 0,
            decreases m - li,
        {
            let line = &lines[li];
            assert(line@ == lv[li as int]);
            let k = line.len();
            let mut j: usize = 0;
            proof {
                lemma_lines_points_prefix(*board, pl, lv, li + 1);
                assert(lv.take(li + 1).drop_last() =~= lv.take(li as int));
                assert(line@.take(0) =~= Seq::<Pos>::empty());
            }
            while j < k
                invariant
                    k == line@.len(),
                    line@ == lv[li as int],
                    lv == equation_lines(*board, pl, all_same_row(pl)),
                    n > 0,
                    n == pl.len(),
                    pl == placed@,
                    li < m,
                    m == lv.len(),
                    j <= k,
                    existing == lines_points(*board, pl, lv.take(li as int)) + existing_points(
                        *board,
                        pl,
                        line@.take(j as int),
                    ),
                    existing <= u32::MAX,
                    lines_points(*board, pl, lv.take(li + 1)) == lines_points(*board, pl, lv.take(li as int))
                        + existing_points(*board, pl, lv[li as int]),
                    lines_points(*board, pl, lv.take(li + 1)) <= lines_points(*board, pl, lv),
                    tile_sum == tile_total(*board, pl),
                    tile_total(*board, pl) >= 0,
                decreases k - j,
            {
                proof {
                    assert(line@.take(j + 1).drop_last() =~= line@.take(j as int));
                    lemma_existing_points_prefix(*board, pl, line@, j + 1);
                }
                let (r, c) = line[j];
                if !covered(placed, r, c) {
                    match board.get_tile(r, c) {
                        Some(t) => {
                            existing = existing + t.point_value as u64;
                        },
                        None => {},
                    }
                }
                j = j + 1;
                if existing > 0xffff_ffff {
                    proof {
                        assert(existing <= lines_points(*board, pl, lv));
                        assert(existing_total(*board, pl) == lines_points(*board, pl, lv));
                        assert(base_points(*board, pl) > u32::MAX);
                    }
                    return None;
                }
            }
            assert(line@.take(k as int) =~= line@);
            li = li + 1;
        }
        assert(lv.take(m as int) =~= lv);
    }
    let base = tile_sum + existing;
    if base > 0xffff_ffff {
        return None;
    }
    assert(base * factor <= 0xffff_ffff * 0xffff_ffff) by (nonlinear_arith)
        requires
            base <= 0xffff_ffff,
            factor <= 0xffff_ffff,
    ;
    let score = base * factor;
    if score > 0xffff_ffff {
        None
    } else {
        Some(score as u32)
    }
}

} // verus!
