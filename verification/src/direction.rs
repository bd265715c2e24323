//! The eight directions in which a word may run across the grid.

use rand::rngs::StdRng;
use vstd::prelude::*;

use crate::random::choose_direction;

verus! {

/// A direction of placement: one step moves by a row delta and a column
/// delta, each of -1, 0 or 1, and never by both zero.
#[derive(Debug, Clone, Copy, PartialEq, Eq, Structural)]
pub enum Direction {
    Horizontal,
    HorizontalReverse,
    Vertical,
    VerticalReverse,
    DiagonalDown,
    DiagonalDownReverse,
    DiagonalUp,
    DiagonalUpReverse,
}

impl Direction {
    /// Rows moved by one step in this direction.
    pub open spec fn row_step(self) -> int {
        match self {
            Direction::Horizontal | Direction::HorizontalReverse => 0,
            Direction::Vertical | Direction::DiagonalDown | Direction::DiagonalUpReverse => 1,
            Direction::VerticalReverse | Direction::DiagonalDownReverse | Direction::DiagonalUp => -1,
        }
    }

    /// Columns moved by one step in this direction.
    pub open spec fn col_step(self) -> int {
        match self {
            Direction::Vertical | Direction::VerticalReverse => 0,
            Direction::Horizontal | Direction::DiagonalDown | Direction::DiagonalUp => 1,
            Direction::HorizontalReverse | Direction::DiagonalDownReverse | Direction::DiagonalUpReverse => -1,
        }
    }

    /// The direction that undoes each step of this one.
    pub open spec fn opposite(self) -> Direction {
        match self {
            Direction::Horizontal => Direction::HorizontalReverse,
            Direction::HorizontalReverse => Direction::Horizontal,
            Direction::Vertical => Direction::VerticalReverse,
            Direction::VerticalReverse => Direction::Vertical,
            Direction::DiagonalDown => Direction::DiagonalDownReverse,
            Direction::DiagonalDownReverse => Direction::DiagonalDown,
            Direction::DiagonalUp => Direction::DiagonalUpReverse,
            Direction::DiagonalUpReverse => Direction::DiagonalUp,
        }
    }

    /// Returns the row and column deltas of one step.
    pub fn deltas(&self) -> (d: (i32, i32))
        ensures
            d.0 == self.row_step(),
            d.1 == self.col_step(),
            -1 <= d.0 <= 1,
            -1 <= d.1 <= 1,
            d.0 != 0 || d.1 != 0,
    {
        match self {
            Direction::Horizontal => (0, 1),
            Direction::HorizontalReverse => (0, -1),
            Direction::Vertical => (1, 0),
            Direction::VerticalReverse => (-1, 0),
            Direction::DiagonalDown => (1, 1),
            Direction::DiagonalDownReverse => (-1, -1),
            Direction::DiagonalUp => (-1, 1),
            Direction::DiagonalUpReverse => (1, -1),
        }
    }

    /// Returns the direction that runs the other way along the same line.
    pub fn reversed(&self) -> (r: Direction)
        ensures
            r == self.opposite(),
            r.row_step() == -self.row_step(),
            r.col_step() == -self.col_step(),
            r.opposite() == *self,
    {
        match self {
            Direction::Horizontal => Direction::HorizontalReverse,
            Direction::HorizontalReverse => Direction::Horizontal,
            Direction::Vertical => Direction::VerticalReverse,
            Direction::VerticalReverse => Direction::Vertical,
            Direction::DiagonalDown => Direction::DiagonalDownReverse,
            Direction::DiagonalDownReverse => Direction::DiagonalDown,
            Direction::DiagonalUp => Direction::DiagonalUpReverse,
            Direction::DiagonalUpReverse => Direction::DiagonalUp,
        }
    }

    /// Tells whether a step changes both the row and the column.
    pub fn is_diagonal(&self) -> (b: bool)
        ensures
            b == (self.row_step() != 0 && self.col_step() != 0),
    {
        matches!(
            self,
            Direction::DiagonalDown
                | Direction::DiagonalDownReverse
                | Direction::DiagonalUp
                | Direction::DiagonalUpReverse
        )
    }

    /// Picks one of `directions` at random; `None` only if there is none to
    /// pick from.
    pub fn random_from(directions: &[Direction], rng: &mut StdRng) -> (picked: Option<Direction>)
        ensures
            directions@.len() == 0 ==> picked is None,
            directions@.len() > 0 ==> picked is Some && directions@.contains(picked->0),
    {
        choose_direction(directions, rng)
    }
}

} // verus!
