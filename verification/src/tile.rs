//! Tiles: digits, fractions, operators and the equals sign, with the point
//! value of each, and the standard bag the game starts from.

use vstd::prelude::*;

verus! {

/// An arithmetic operator printed on a tile.
#[derive(Clone, Copy, Debug, PartialEq, Eq, Structural)]
pub enum Operator {
    Add,
    Subtract,
    Multiply,
    Divide,
}

/// What a tile shows.
#[derive(Clone, Copy, Debug, PartialEq, Eq, Structural)]
pub enum TileKind {
    Number { value: u8 },
    Fraction { numerator: u8, denominator: u8 },
    Operator { op: Operator },
    Equals,
}

/// A tile: what it shows and how many points it is worth.
#[derive(Clone, Copy, Debug)]
pub struct Tile {
    pub kind: TileKind,
    pub point_value: u32,
}

/// A tile placed at a specific board position during a move.
#[derive(Clone, Copy, Debug)]
pub struct PlacedTile {
    pub tile: Tile,
    pub row: usize,
    pub col: usize,
}

/// Points of a digit tile; digits above 9 are worth 1.
pub open spec fn number_points(n: u8) -> u32 {
    if n == 0 { 3 }
    else if n == 1 || n == 2 { 1 }
    else if 3 <= n <= 6 { 2 }
    else if n == 7 || n == 8 { 3 }
    else if n == 9 { 4 }
    else { 1 }
}

/// Points of an operator tile.
pub open spec fn operator_points(op: Operator) -> u32 {
    match op {
        Operator::Add => 1,
        Operator::Subtract => 2,
        Operator::Multiply => 3,
        Operator::Divide => 5,
    }
}

pub open spec fn number_tile(n: u8) -> Tile {
    Tile { kind: TileKind::Number { value: n }, point_value: number_points(n) }
}

pub open spec fn operator_tile(op: Operator) -> Tile {
    Tile { kind: TileKind::Operator { op }, point_value: operator_points(op) }
}

pub open spec fn equals_tile() -> Tile {
    Tile { kind: TileKind::Equals, point_value: 3 }
}

impl Tile {
    /// A digit tile worth its standard number of points.
    pub fn number(n: u8) -> (t: Tile)
        ensures
            t == number_tile(n),
    {
        let point_value: u32 = match n {
            0 => 3,
            1 => 1,
            2 => 1,
            3 => 2,
            4 => 2,
            5 => 2,
            6 => 2,
            7 => 3,
            8 => 3,
            9 => 4,
            _ => 1,
        };
        Tile { kind: TileKind::Number { value: n }, point_value }
    }

    /// An operator tile worth its standard number of points.
    pub fn operator(op: Operator) -> (t: Tile)
        ensures
            t == operator_tile(op),
    {
        let point_value: u32 = match op {
            Operator::Add => 1,
            Operator::Subtract => 2,
            Operator::Multiply => 3,
            Operator::Divide => 5,
        };
        Tile { kind: TileKind::Operator { op }, point_value }
    }

    /// The equals tile, worth 3 points.
    pub fn equals() -> (t: Tile)
        ensures
            t == equals_tile(),
    {
        Tile { kind: TileKind::Equals, point_value: 3 }
    }
}

/// How many tiles of digit `n` the standard bag holds.
pub open spec fn digit_count(n: int) -> nat {
    if n == 0 { 4 }
    else if n == 1 || n == 2 { 8 }
    else if 3 <= n <= 6 { 6 }
    else { 4 }
}

/// `count` copies of one tile.
pub open spec fn copies(t: Tile, count: nat) -> Seq<Tile> {
    Seq::new(count, |i: int| t)
}

/// The digit tiles of the standard bag for the digits below `k`, in digit order.
pub open spec fn digit_tiles(k: int) -> Seq<Tile>
    decreases k,
{
    if k <= 0 {
        Seq::empty()
    } else {
        digit_tiles(k - 1) + copies(number_tile((k - 1) as u8), digit_count(k - 1))
    }
}

/// The standard bag, in the order it is built: digits 0 to 9, then eight `+`,
/// six `-`, six `*`, four `/` and eight `=`.
pub open spec fn standard_bag() -> Seq<Tile> {
    digit_tiles(10)
        + copies(operator_tile(Operator::Add), 8)
        + copies(operator_tile(Operator::Subtract), 6)
        + copies(operator_tile(Operator::Multiply), 6)
        + copies(operator_tile(Operator::Divide), 4)
        + copies(equals_tile(), 8)
}

/// A copy of a row of tiles.
pub(crate) fn copy_tiles(v: &Vec<Tile>) -> (c: Vec<Tile>)
    ensures
        c@ == v@,
{
    let mut c: Vec<Tile> = Vec::new();
    let n = v.len();
    let mut i: usize = 0;
    while i < n
        invariant
            n == v@.len(),
            i <= n,
            c@ == v@.take(i as int),
        decreases n - i,
    {
        c.push(v[i]);
        i = i + 1;
        assert(c@ =~= v@.take(i as int));
    }
    assert(v@.take(n as int) =~= v@);
    c
}

/// The standard bag holds 88 tiles.
pub proof fn lemma_standard_bag_len()
    ensures
        standard_bag().len() == 88,
{
    reveal_with_fuel(digit_tiles, 11);
}

fn push_copies(bag: &mut Vec<Tile>, t: Tile, count: usize)
    ensures
        final(bag)@ == old(bag)@ + copies(t, count as nat),
{
    let ghost start = bag@;
    let mut i: usize = 0;
    while i < count
        invariant
            i <= count,
            bag@ == start + copies(t, i as nat),
        decreases count - i,
    {
        bag.push(t);
        i = i + 1;
        assert(bag@ =~= start + copies(t, i as nat));
    }
}

fn digit_count_of(n: u8) -> (c: usize)
    ensures
        c == digit_count(n as int),
{
    if n == 0 {
        4
    } else if n == 1 || n == 2 {
        8
    } else if n <= 6 {
        6
    } else {
        4
    }
}

/// Build the standard tile bag (unshuffled).
pub fn build_tile_bag() -> (bag: Vec<Tile>)
    ensures
        bag@ == standard_bag(),
{
    let mut bag: Vec<Tile> = Vec::new();
    let mut n: u8 = 0;
    while n < 10
        invariant
            n <= 10,
            bag@ == digit_tiles(n as int),
        decreases 10 - n,
    {
        let count = digit_count_of(n);
        push_copies(&mut bag, Tile::number(n), count);
        n = n + 1;
    }
    push_copies(&mut bag, Tile::operator(Operator::Add), 8);
    push_copies(&mut bag, Tile::operator(Operator::Subtract), 6);
    push_copies(&mut bag, Tile::operator(Operator::Multiply), 6);
    push_copies(&mut bag, Tile::operator(Operator::Divide), 4);
    push_copies(&mut bag, Tile::equals(), 8);
    bag
}

} // verus!
