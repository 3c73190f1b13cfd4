//! The 19 x 19 board: which tile stands on each square, and the premium
//! squares of the official layout.

use vstd::prelude::*;

use crate::tile::{PlacedTile, Tile};

verus! {

/// Number of rows and of columns of the board.
pub const BOARD_SIZE: usize = 19;

/// Row and column of the centre square.
pub const CENTER: usize = 9;

/// A premium square multiplies the score of the tile placed on it, or of the
/// whole equation.
#[derive(Clone, Copy, Debug, PartialEq, Eq, Structural)]
pub enum PremiumSquare {
    /// 2S: twice the symbol's score
    DoubleTile,
    /// 3S: three times the symbol's score
    TripleTile,
    /// 2E: twice the equation's score
    DoubleEquation,
    /// 3E: three times the equation's score
    TripleEquation,
}

/// One square of the board.
#[derive(Clone, Copy, Debug)]
pub struct Cell {
    pub tile: Option<Tile>,
    pub premium: Option<PremiumSquare>,
}

impl Default for Cell {
    fn default() -> (c: Cell)
        ensures
            c.tile is None,
            c.premium is None,
    {
        Cell { tile: None, premium: None }
    }
}

/// The board, row by row.
#[derive(Clone, Debug)]
pub struct Board {
    pub cells: Vec<Vec<Cell>>,
}

/// One entry of the premium layout: row, column and kind.
pub type PremiumEntry = (usize, usize, PremiumSquare);

/// The premium squares of rows 0 to 9, in the order the layout lists them.
pub open spec fn top_half_layout() -> Seq<PremiumEntry> {
    seq![
        (0usize, 1usize, PremiumSquare::TripleEquation),
        (0usize, 17usize, PremiumSquare::TripleEquation),
        (0usize, 5usize, PremiumSquare::TripleTile),
        (0usize, 13usize, PremiumSquare::TripleTile),
        (0usize, 9usize, PremiumSquare::DoubleTile),
        (1usize, 0usize, PremiumSquare::TripleEquation),
        (1usize, 18usize, PremiumSquare::TripleEquation),
        (1usize, 4usize, PremiumSquare::TripleTile),
        (1usize, 14usize, PremiumSquare::TripleTile),
        (1usize, 8usize, PremiumSquare::DoubleTile),
        (1usize, 10usize, PremiumSquare::DoubleTile),
        (2usize, 3usize, PremiumSquare::DoubleEquation),
        (2usize, 15usize, PremiumSquare::DoubleEquation),
        (2usize, 7usize, PremiumSquare::DoubleTile),
        (2usize, 11usize, PremiumSquare::DoubleTile),
        (3usize, 2usize, PremiumSquare::TripleEquation),
        (3usize, 16usize, PremiumSquare::DoubleEquation),
        (3usize, 6usize, PremiumSquare::TripleTile),
        (3usize, 12usize, PremiumSquare::TripleTile),
        (4usize, 1usize, PremiumSquare::TripleTile),
        (4usize, 9usize, PremiumSquare::TripleTile),
        (4usize, 17usize, PremiumSquare::TripleTile),
        (4usize, 5usize, PremiumSquare::DoubleTile),
        (4usize, 13usize, PremiumSquare::DoubleTile),
        (5usize, 0usize, PremiumSquare::TripleTile),
        (5usize, 8usize, PremiumSquare::TripleTile),
        (5usize, 10usize, PremiumSquare::TripleTile),
        (5usize, 18usize, PremiumSquare::TripleTile),
        (5usize, 4usize, PremiumSquare::DoubleTile),
        (5usize, 14usize, PremiumSquare::DoubleTile),
        (6usize, 3usize, PremiumSquare::TripleTile),
        (6usize, 15usize, PremiumSquare::TripleTile),
        (6usize, 7usize, PremiumSquare::DoubleTile),
        (6usize, 11usize, PremiumSquare::DoubleTile),
        (7usize, 2usize, PremiumSquare::DoubleTile),
        (7usize, 6usize, PremiumSquare::DoubleTile),
        (7usize, 12usize, PremiumSquare::DoubleTile),
        (7usize, 16usize, PremiumSquare::DoubleTile),
        (8usize, 1usize, PremiumSquare::DoubleTile),
        (8usize, 8usize, PremiumSquare::DoubleTile),
        (8usize, 10usize, PremiumSquare::DoubleTile),
        (8usize, 17usize, PremiumSquare::DoubleTile),
        (8usize, 5usize, PremiumSquare::TripleTile),
        (8usize, 13usize, PremiumSquare::TripleTile),
        (9usize, 0usize, PremiumSquare::DoubleTile),
        (9usize, 18usize, PremiumSquare::DoubleTile),
        (9usize, 4usize, PremiumSquare::TripleTile),
        (9usize, 14usize, PremiumSquare::TripleTile),
        (9usize, 9usize, PremiumSquare::DoubleEquation)
    ]
}

/// The entries of `s` above the centre row, reflected onto rows 10 to 18.
pub open spec fn mirrored_rows(s: Seq<PremiumEntry>) -> Seq<PremiumEntry>
    decreases s.len(),
{
    if s.len() == 0 {
        Seq::empty()
    } else {
        let rest = mirrored_rows(s.drop_last());
        let e = s.last();
        if e.0 < 9 {
            rest.push(((18 - e.0) as usize, e.1, e.2))
        } else {
            rest
        }
    }
}

/// The whole premium layout: the top half, then its reflection.
pub open spec fn premium_layout() -> Seq<PremiumEntry> {
    top_half_layout() + mirrored_rows(top_half_layout())
}

/// The premium that a list of entries gives square `(r, c)`: the last entry
/// for that square wins, and a square without entry has none.
pub open spec fn layout_premium(s: Seq<PremiumEntry>, r: int, c: int) -> Option<PremiumSquare>
    decreases s.len(),
{
    if s.len() == 0 {
        None
    } else if s.last().0 == r && s.last().1 == c {
        Some(s.last().2)
    } else {
        layout_premium(s.drop_last(), r, c)
    }
}

/// The premium of square `(r, c)` on a fresh board.
pub open spec fn standard_premium(r: int, c: int) -> Option<PremiumSquare> {
    layout_premium(premium_layout(), r, c)
}

/// An empty square with the given premium.
pub open spec fn empty_cell(p: Option<PremiumSquare>) -> Cell {
    Cell { tile: None, premium: p }
}

/// The grid with `t` laid on square `(r, c)`, which keeps its premium.
pub open spec fn place_in(g: Seq<Seq<Cell>>, r: int, c: int, t: Tile) -> Seq<Seq<Cell>> {
    g.update(r, g[r].update(c, Cell { tile: Some(t), premium: g[r][c].premium }))
}

/// The grid with the placed tiles laid on it, one after the other.
pub open spec fn with_tiles(g: Seq<Seq<Cell>>, placed: Seq<PlacedTile>) -> Seq<Seq<Cell>>
    decreases placed.len(),
{
    if placed.len() == 0 {
        g
    } else {
        let p = placed.last();
        place_in(with_tiles(g, placed.drop_last()), p.row as int, p.col as int, p.tile)
    }
}

/// Reading back after laying one tile: the square holds it and keeps its
/// premium, and every other square is as it was.
pub proof fn lemma_place_in_reads_back(g: Seq<Seq<Cell>>, r: int, c: int, t: Tile)
    requires
        grid_has(g, r, c),
    ensures
        place_in(g, r, c, t)[r][c] == (Cell { tile: Some(t), premium: g[r][c].premium }),
        forall|r2: int, c2: int| grid_has(g, r2, c2) && !(r2 == r && c2 == c) ==> #[trigger] place_in(g, r, c, t)[r2][c2] == g[r2][c2],
        place_in(g, r, c, t).len() == g.len(),
        forall|r2: int| 0 <= r2 < g.len() ==> #[trigger] place_in(g, r, c, t)[r2].len() == g[r2].len(),
{
}

/// Whether some placed tile goes on `(r, c)`.
pub open spec fn covers(placed: Seq<PlacedTile>, r: int, c: int) -> bool {
    exists|i: int| 0 <= i < placed.len() && #[trigger] placed[i].row == r && placed[i].col == c
}

/// Whether `(r, c)` lies in the grid.
pub open spec fn grid_has(g: Seq<Seq<Cell>>, r: int, c: int) -> bool {
    0 <= r < g.len() && 0 <= c < g[r].len()
}

/// Laying tiles keeps the grid's shape.
pub proof fn lemma_with_tiles_shape(g: Seq<Seq<Cell>>, placed: Seq<PlacedTile>)
    requires
        forall|i: int| 0 <= i < placed.len() ==> grid_has(g, #[trigger] placed[i].row as int, placed[i].col as int),
    ensures
        with_tiles(g, placed).len() == g.len(),
        forall|r: int| 0 <= r < g.len() ==> #[trigger] with_tiles(g, placed)[r].len() == g[r].len(),
    decreases placed.len(),
{
    if placed.len() > 0 {
        let prev = placed.drop_last();
        assert forall|i: int| 0 <= i < prev.len() implies grid_has(g, #[trigger] prev[i].row as int, prev[i].col as int) by {
            assert(prev[i] == placed[i]);
        }
        lemma_with_tiles_shape(g, prev);
        assert(grid_has(g, placed.last().row as int, placed.last().col as int));
    }
}

/// Reading back after laying tiles on distinct squares of the grid: each
/// placed square holds its tile and keeps its premium, and every other square
/// is as it was.
pub proof fn lemma_with_tiles_reads_back(g: Seq<Seq<Cell>>, placed: Seq<PlacedTile>)
    requires
        forall|i: int| 0 <= i < placed.len() ==> grid_has(g, #[trigger] placed[i].row as int, placed[i].col as int),
        forall|i: int, j: int|
            0 <= i < j < placed.len() ==> !(#[trigger] placed[i].row == #[trigger] placed[j].row
                && placed[i].col == placed[j].col),
    ensures
        forall|i: int| 0 <= i < placed.len() ==> #[trigger] with_tiles(g, placed)[placed[i].row as int][placed[i].col as int]
            == (Cell { tile: Some(placed[i].tile), premium: g[placed[i].row as int][placed[i].col as int].premium }),
        forall|r: int, c: int| grid_has(g, r, c) && !covers(placed, r, c) ==> #[trigger] with_tiles(g, placed)[r][c] == g[r][c],
    decreases placed.len(),
{
    if placed.len() > 0 {
        let prev = placed.drop_last();
        let p = placed.last();
        let n = placed.len() - 1;
        assert forall|i: int| 0 <= i < prev.len() implies grid_has(g, #[trigger] prev[i].row as int, prev[i].col as int) by {
            assert(prev[i] == placed[i]);
        }
        assert forall|i: int, j: int| 0 <= i < j < prev.len() implies !(#[trigger] prev[i].row == #[trigger] prev[j].row
            && prev[i].col == prev[j].col) by {
            assert(prev[i] == placed[i] && prev[j] == placed[j]);
        }
        lemma_with_tiles_reads_back(g, prev);
        lemma_with_tiles_shape(g, prev);
        let h = with_tiles(g, prev);
        assert(grid_has(g, p.row as int, p.col as int));
        assert forall|i: int| 0 <= i < placed.len() implies #[trigger] with_tiles(g, placed)[placed[i].row as int][placed[i].col as int]
            == (Cell { tile: Some(placed[i].tile), premium: g[placed[i].row as int][placed[i].col as int].premium }) by {
            if i < n {
                assert(prev[i] == placed[i]);
                assert(!(placed[i].row == placed[n].row && placed[i].col == placed[n].col));
            } else {
                assert(!covers(prev, p.row as int, p.col as int)) by {
                    if covers(prev, p.row as int, p.col as int) {
                        let k = choose|k: int| 0 <= k < prev.len() && #[trigger] prev[k].row == p.row as int && prev[k].col == p.col as int;
                        assert(prev[k] == placed[k]);
                    }
                }
            }
        }
        assert forall|r: int, c: int| grid_has(g, r, c) && !covers(placed, r, c) implies #[trigger] with_tiles(g, placed)[r][c] == g[r][c] by {
            assert(!(p.row == r && p.col == c)) by {
                if p.row == r && p.col == c {
                    assert(placed[n].row == r && placed[n].col == c);
                }
            }
            assert(!covers(prev, r, c)) by {
                if covers(prev, r, c) {
                    let k = choose|k: int| 0 <= k < prev.len() && #[trigger] prev[k].row == r && prev[k].col == c;
                    assert(placed[k] == prev[k]);
                }
            }
        }
    }
}

// ---------------------------------------------------------------------------
// Properties of the layout
// ---------------------------------------------------------------------------

proof fn lemma_layout_concat(a: Seq<PremiumEntry>, b: Seq<PremiumEntry>, r: int, c: int)
    ensures
        layout_premium(a + b, r, c) == (if layout_premium(b, r, c) is Some {
            layout_premium(b, r, c)
        } else {
            layout_premium(a, r, c)
        }),
    decreases b.len(),
{
    if b.len() > 0 {
        assert((a + b).drop_last() =~= a + b.drop_last());
        lemma_layout_concat(a, b.drop_last(), r, c);
    } else {
        assert(a + b =~= a);
    }
}

proof fn lemma_layout_none_outside(s: Seq<PremiumEntry>, lo: int, hi: int, r: int, c: int)
    requires
        forall|i: int| 0 <= i < s.len() ==> lo <= #[trigger] s[i].0 <= hi,
        r < lo || r > hi,
    ensures
        layout_premium(s, r, c) is None,
    decreases s.len(),
{
    if s.len() > 0 {
        let p = s.drop_last();
        assert forall|i: int| 0 <= i < p.len() implies lo <= #[trigger] p[i].0 <= hi by {
            assert(p[i] == s[i]);
        }
        lemma_layout_none_outside(p, lo, hi, r, c);
    }
}

proof fn lemma_mirrored_rows(s: Seq<PremiumEntry>, r: int, c: int)
    requires
        0 <= r < 9,
        forall|i: int| 0 <= i < s.len() ==> #[trigger] s[i].0 <= 9,
    ensures
        layout_premium(mirrored_rows(s), 18 - r, c) == layout_premium(s, r, c),
        forall|i: int| 0 <= i < mirrored_rows(s).len() ==> 10 <= #[trigger] mirrored_rows(s)[i].0 <= 18,
    decreases s.len(),
{
    if s.len() > 0 {
        let p = s.drop_last();
        assert forall|i: int| 0 <= i < p.len() implies #[trigger] p[i].0 <= 9 by {
            assert(p[i] == s[i]);
        }
        lemma_mirrored_rows(p, r, c);
        let rest = mirrored_rows(p);
        let e = s.last();
        if e.0 < 9 {
            let m = rest.push(((18 - e.0) as usize, e.1, e.2));
            assert(m.drop_last() =~= rest);
            assert forall|i: int| 0 <= i < m.len() implies 10 <= #[trigger] m[i].0 <= 18 by {
                if i < rest.len() {
                    assert(m[i] == rest[i]);
                }
            }
        }
    }
}

proof fn lemma_top_half_rows()
    ensures
        forall|i: int| 0 <= i < top_half_layout().len() ==> #[trigger] top_half_layout()[i].0 <= 9,
{
}

/// The premium layout is symmetric about the centre row: rows 10 to 18 mirror
/// rows 8 to 0.
pub proof fn lemma_layout_mirror(r: int, c: int)
    requires
        0 <= r < BOARD_SIZE,
    ensures
        standard_premium(r, c) == standard_premium(18 - r, c),
{
    lemma_top_half_rows();
    let t = top_half_layout();
    if r < 9 {
        lemma_mirrored_rows(t, r, c);
        lemma_layout_concat(t, mirrored_rows(t), r, c);
        lemma_layout_concat(t, mirrored_rows(t), 18 - r, c);
        lemma_layout_none_outside(mirrored_rows(t), 10, 18, r, c);
        lemma_layout_none_outside(t, 0, 9, 18 - r, c);
    } else if r > 9 {
        lemma_mirrored_rows(t, 18 - r, c);
        lemma_layout_concat(t, mirrored_rows(t), r, c);
        lemma_layout_concat(t, mirrored_rows(t), 18 - r, c);
        lemma_layout_none_outside(mirrored_rows(t), 10, 18, 18 - r, c);
        lemma_layout_none_outside(t, 0, 9, r, c);
    }
}

/// The centre square doubles the equation.
pub proof fn lemma_center_premium()
    ensures
        standard_premium(CENTER as int, CENTER as int) == Some(PremiumSquare::DoubleEquation),
{
    let t = top_half_layout();
    lemma_top_half_rows();
    lemma_mirrored_rows(t, 0, 0);
    lemma_layout_concat(t, mirrored_rows(t), 9, 9);
    lemma_layout_none_outside(mirrored_rows(t), 10, 18, 9, 9);
}

impl Board {
    /// The board as a grid of squares.
    pub open spec fn grid(&self) -> Seq<Seq<Cell>> {
        self.cells@.map_values(|row: Vec<Cell>| row@)
    }

    /// The grid has one row per row of cells, holding the same squares.
    pub proof fn lemma_grid(&self)
        ensures
            self.grid().len() == self.cells@.len(),
            forall|r: int| 0 <= r < self.cells@.len() ==> #[trigger] self.grid()[r] == self.cells@[r]@,
            forall|r: int, c: int| self.in_bounds(r, c) <==> grid_has(self.grid(), r, c),
    {
    }

    /// Whether `(r, c)` names a square of this board.
    pub open spec fn in_bounds(&self, r: int, c: int) -> bool {
        0 <= r < self.cells@.len() && 0 <= c < self.cells@[r]@.len()
    }

    /// The tile on square `(r, c)`; none off the board.
    pub open spec fn tile_at(&self, r: int, c: int) -> Option<Tile> {
        if self.in_bounds(r, c) {
            self.cells@[r]@[c].tile
        } else {
            None
        }
    }

    /// The premium of square `(r, c)`; none off the board.
    pub open spec fn premium_at(&self, r: int, c: int) -> Option<PremiumSquare> {
        if self.in_bounds(r, c) {
            self.cells@[r]@[c].premium
        } else {
            None
        }
    }

    /// Nineteen rows of nineteen squares.
    pub open spec fn standard_shape(&self) -> bool {
        &&& self.cells@.len() == BOARD_SIZE
        &&& forall|r: int| 0 <= r < BOARD_SIZE ==> #[trigger] self.cells@[r]@.len() == BOARD_SIZE
    }

    /// A fresh board: standard shape, no tiles, the standard premium layout.
    pub open spec fn is_fresh(&self) -> bool {
        &&& self.standard_shape()
        &&& forall|r: int, c: int|
            0 <= r < BOARD_SIZE && 0 <= c < BOARD_SIZE ==> #[trigger] self.cells@[r]@[c]
                == empty_cell(standard_premium(r, c))
    }

    /// An empty board with the official premium squares.
    pub fn new() -> (b: Board)
        ensures
            b.is_fresh(),
    {
        let layout = premium_squares();
        let mut cells: Vec<Vec<Cell>> = Vec::new();
        let mut r: usize = 0;
        while r < BOARD_SIZE
            invariant
                r <= BOARD_SIZE,
                cells@.len() == r,
                forall|i: int| 0 <= i < r ==> #[trigger] cells@[i]@.len() == BOARD_SIZE,
                forall|i: int, j: int|
                    0 <= i < r && 0 <= j < BOARD_SIZE ==> #[trigger] cells@[i]@[j] == empty_cell(
                        None,
                    ),
            decreases BOARD_SIZE - r,
        {
            let mut row: Vec<Cell> = Vec::new();
            let mut c: usize = 0;
            while c < BOARD_SIZE
                invariant
                    c <= BOARD_SIZE,
                    row@.len() == c,
                    forall|j: int| 0 <= j < c ==> #[trigger] row@[j] == empty_cell(None),
                decreases BOARD_SIZE - c,
            {
                row.push(Cell { tile: None, premium: None });
                c = c + 1;
            }
            cells.push(row);
            r = r + 1;
        }
        let mut board = Board { cells };
        let mut k: usize = 0;
        while k < layout.len()
            invariant
                k <= layout@.len(),
                layout@ == premium_layout(),
                board.standard_shape(),
                forall|i: int, j: int|
                    0 <= i < BOARD_SIZE && 0 <= j < BOARD_SIZE ==> #[trigger] board.cells@[i]@[j]
                        == empty_cell(layout_premium(layout@.take(k as int), i, j)),
            decreases layout@.len() - k,
        {
            let (pr, pc, p) = layout[k];
            assert(layout@.take(k + 1).drop_last() =~= layout@.take(k as int));
            if pr < BOARD_SIZE && pc < BOARD_SIZE {
                board.set_cell(pr, pc, Cell { tile: None, premium: Some(p) });
            } else {
                assert forall|i: int, j: int| 0 <= i < BOARD_SIZE && 0 <= j < BOARD_SIZE implies
                    layout_premium(layout@.take(k + 1), i, j)
                        == layout_premium(layout@.take(k as int), i, j) by {}
            }
            k = k + 1;
        }
        assert(layout@.take(layout@.len() as int) =~= layout@);
        board
    }

    /// Replace square `(r, c)`.
    fn set_cell(&mut self, r: usize, c: usize, cell: Cell)
        requires
            old(self).in_bounds(r as int, c as int),
        ensures
            final(self).cells@.len() == old(self).cells@.len(),
            forall|i: int| #![trigger final(self).cells@[i]]
                0 <= i < old(self).cells@.len() && i != r ==> final(self).cells@[i] == old(
                    self,
                ).cells@[i],
            final(self).cells@[r as int]@ == old(self).cells@[r as int]@.update(c as int, cell),
    {
        let mut row = self.cells.remove(r);
        row.set(c, cell);
        self.cells.insert(r, row);
    }

    /// Put `tile` on square `(row, col)`, keeping its premium.
    pub fn place_tile(&mut self, row: usize, col: usize, tile: Tile)
        requires
            old(self).in_bounds(row as int, col as int),
        ensures
            final(self).grid() == place_in(old(self).grid(), row as int, col as int, tile),
    {
        let premium = self.cells[row][col].premium;
        self.set_cell(row, col, Cell { tile: Some(tile), premium });
        proof {
            assert(self.grid() =~= old(self).grid().update(
                row as int,
                old(self).grid()[row as int].update(
                    col as int,
                    Cell { tile: Some(tile), premium: old(self).grid()[row as int][col as int].premium },
                ),
            ));
        }
    }

    /// The tile on square `(row, col)`, if any; none off the board.
    pub fn get_tile(&self, row: usize, col: usize) -> (t: Option<&Tile>)
        ensures
            t matches Some(x) ==> self.tile_at(row as int, col as int) == Some(*x),
            t is None ==> self.tile_at(row as int, col as int) is None,
    {
        if row < self.cells.len() && col < self.cells[row].len() {
            match &self.cells[row][col].tile {
                Some(x) => Some(x),
                None => None,
            }
        } else {
            None
        }
    }

    /// Whether a tile stands on square `(row, col)`; false off the board.
    pub fn is_occupied(&self, row: usize, col: usize) -> (b: bool)
        ensures
            b == self.tile_at(row as int, col as int) is Some,
    {
        if row < self.cells.len() && col < self.cells[row].len() {
            self.cells[row][col].tile.is_some()
        } else {
            false
        }
    }
}

impl Default for Board {
    fn default() -> (b: Board)
        ensures
            b.is_fresh(),
    {
        Board::new()
    }
}

/// A copy of the board, square for square.
pub(crate) fn copy_board(b: &Board) -> (c: Board)
    ensures
        c.grid() == b.grid(),
        c.cells@.len() == b.cells@.len(),
{
    let mut cells: Vec<Vec<Cell>> = Vec::new();
    let n = b.cells.len();
    let mut r: usize = 0;
    while r < n
        invariant
            n == b.cells@.len(),
            r <= n,
            cells@.len() == r,
            forall|i: int| 0 <= i < r ==> #[trigger] cells@[i]@ == b.cells@[i]@,
        decreases n - r,
    {
        let src = &b.cells[r];
        let m = src.len();
        let mut row: Vec<Cell> = Vec::new();
        let mut c: usize = 0;
        while c < m
            invariant
                m == src@.len(),
                c <= m,
                row@ == src@.take(c as int),
            decreases m - c,
        {
            row.push(src[c]);
            c = c + 1;
            assert(row@ =~= src@.take(c as int));
        }
        assert(src@.take(m as int) =~= src@);
        cells.push(row);
        r = r + 1;
    }
    let c = Board { cells };
    assert(c.grid() =~= b.grid());
    c
}

/// Premium square layout from the official Equate board: rows 0 to 9 as
/// listed, then rows 10 to 18 as the vertical mirror of rows 8 to 0.
pub fn premium_squares() -> (all: Vec<PremiumEntry>)
    ensures
        all@ == premium_layout(),
{
    let top_half: Vec<PremiumEntry> = vec![
        (0, 1, PremiumSquare::TripleEquation),
        (0, 17, PremiumSquare::TripleEquation),
        (0, 5, PremiumSquare::TripleTile),
        (0, 13, PremiumSquare::TripleTile),
        (0, 9, PremiumSquare::DoubleTile),
        (1, 0, PremiumSquare::TripleEquation),
        (1, 18, PremiumSquare::TripleEquation),
        (1, 4, PremiumSquare::TripleTile),
        (1, 14, PremiumSquare::TripleTile),
        (1, 8, PremiumSquare::DoubleTile),
        (1, 10, PremiumSquare::DoubleTile),
        (2, 3, PremiumSquare::DoubleEquation),
        (2, 15, PremiumSquare::DoubleEquation),
        (2, 7, PremiumSquare::DoubleTile),
        (2, 11, PremiumSquare::DoubleTile),
        (3, 2, PremiumSquare::TripleEquation),
        (3, 16, PremiumSquare::DoubleEquation),
        (3, 6, PremiumSquare::TripleTile),
        (3, 12, PremiumSquare::TripleTile),
        (4, 1, PremiumSquare::TripleTile),
        (4, 9, PremiumSquare::TripleTile),
        (4, 17, PremiumSquare::TripleTile),
        (4, 5, PremiumSquare::DoubleTile),
        (4, 13, PremiumSquare::DoubleTile),
        (5, 0, PremiumSquare::TripleTile),
        (5, 8, PremiumSquare::TripleTile),
        (5, 10, PremiumSquare::TripleTile),
        (5, 18, PremiumSquare::TripleTile),
        (5, 4, PremiumSquare::DoubleTile),
        (5, 14, PremiumSquare::DoubleTile),
        (6, 3, PremiumSquare::TripleTile),
        (6, 15, PremiumSquare::TripleTile),
        (6, 7, PremiumSquare::DoubleTile),
        (6, 11, PremiumSquare::DoubleTile),
        (7, 2, PremiumSquare::DoubleTile),
        (7, 6, PremiumSquare::DoubleTile),
        (7, 12, PremiumSquare::DoubleTile),
        (7, 16, PremiumSquare::DoubleTile),
        (8, 1, PremiumSquare::DoubleTile),
        (8, 8, PremiumSquare::DoubleTile),
        (8, 10, PremiumSquare::DoubleTile),
        (8, 17, PremiumSquare::DoubleTile),
        (8, 5, PremiumSquare::TripleTile),
        (8, 13, PremiumSquare::TripleTile),
        (9, 0, PremiumSquare::DoubleTile),
        (9, 18, PremiumSquare::DoubleTile),
        (9, 4, PremiumSquare::TripleTile),
        (9, 14, PremiumSquare::TripleTile),
        (9, 9, PremiumSquare::DoubleEquation)
    ];
    assert(top_half@ =~= top_half_layout());
    let mut all = top_half;
    let n = all.len();
    let mut i: usize = 0;
    while i < n
        invariant
            i <= n,
            n == top_half_layout().len(),
            all@ == top_half_layout() + mirrored_rows(top_half_layout().take(i as int)),
        decreases n - i,
    {
        assert(top_half_layout().take(i + 1).drop_last() =~= top_half_layout().take(i as int));
        assert(all@[i as int] == top_half_layout()[i as int]);
        let (row, col, premium) = all[i];
        if row < 9 {
            all.push((18 - row, col, premium));
        }
        i = i + 1;
        assert(all@ =~= top_half_layout() + mirrored_rows(top_half_layout().take(i as int)));
    }
    assert(top_half_layout().take(n as int) =~= top_half_layout());
    all
}

} // verus!
