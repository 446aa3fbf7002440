//! Small value types shared by the puzzles.

use vstd::prelude::*;

pub mod marks;
pub mod matching;
pub mod numbers;
pub mod strings;
pub mod text;

verus! {

/// A grid of values, stored row by row.
pub type Vec2<T> = Vec<Vec<T>>;

/// A cell of a two-dimensional grid.
#[derive(Debug, Clone, Copy, Hash, PartialEq, Eq)]
pub struct Position2<T> {
    pub row: T,
    pub col: T,
}

impl<T> Position2<T> {
    /// The cell in `row` and `col`.
    pub fn new(row: T, col: T) -> (position: Self)
        ensures
            position.row == row,
            position.col == col,
    {
        Self { row, col }
    }
}

/// One of the four ways to leave a cell of a grid.
#[derive(Debug, Copy, Clone, PartialEq, Eq, Structural)]
pub enum Direction {
    Up,
    Down,
    Left,
    Right,
}

impl Direction {
    /// The four directions in declaration order.
    pub fn _all() -> (directions: [Direction; 4])
        ensures
            directions@ == seq![
                Direction::Up,
                Direction::Down,
                Direction::Left,
                Direction::Right,
            ],
    {
        [Direction::Up, Direction::Down, Direction::Left, Direction::Right]
    }

    /// The four directions in the order in which a clockwise walk tries them.
    pub open spec fn clockwise() -> Seq<Direction> {
        seq![Direction::Right, Direction::Down, Direction::Left, Direction::Up]
    }

    /// The four directions, clockwise from the right.
    pub fn all_clockwise() -> (directions: [Direction; 4])
        ensures
            directions@ == Self::clockwise(),
    {
        [Direction::Right, Direction::Down, Direction::Left, Direction::Up]
    }
}

} // verus!
