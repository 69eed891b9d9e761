//! Orthogonal directions between adjacent cells, used when chain
//! segments are oriented toward their neighbors.

use vstd::prelude::*;

use crate::grid::GridPoint;
use crate::paths::orth_adjacent;

verus! {

#[derive(Clone, Copy, PartialEq, Eq, Structural, Debug)]
pub enum Direction {
    Up,
    Down,
    Left,
    Right,
}

/// The direction pointing from `a` toward an orthogonally adjacent `b`,
/// or nothing when the two cells are not orthogonally adjacent.
pub open spec fn spec_adjacent_direction(a: GridPoint, b: GridPoint) -> Option<Direction> {
    if !orth_adjacent(a, b) {
        Option::None
    } else if a.x == b.x {
        if a.y + 1 == b.y {
            Option::Some(Direction::Up)
        } else {
            Option::Some(Direction::Down)
        }
    } else if a.x == b.x + 1 {
        Option::Some(Direction::Left)
    } else {
        Option::Some(Direction::Right)
    }
}

impl Direction {
    /// The reverse direction.
    pub fn opposite(&self) -> (r: Direction)
        ensures
            r == (match self {
                Direction::Up => Direction::Down,
                Direction::Down => Direction::Up,
                Direction::Left => Direction::Right,
                Direction::Right => Direction::Left,
            }),
    {
        match self {
            Direction::Up => Direction::Down,
            Direction::Down => Direction::Up,
            Direction::Left => Direction::Right,
            Direction::Right => Direction::Left,
        }
    }
}

impl GridPoint {
    /// Whether `other` is orthogonally adjacent to this cell.
    pub fn is_adjacent(&self, other: &GridPoint) -> (b: bool)
        ensures
            b == orth_adjacent(*self, *other),
    {
        let dx = if self.x >= other.x {
            self.x - other.x
        } else {
            other.x - self.x
        };
        let dy = if self.y >= other.y {
            self.y - other.y
        } else {
            other.y - self.y
        };
        (dx == 1 && dy == 0) || (dx == 0 && dy == 1)
    }

    /// The direction from this cell toward an orthogonally adjacent
    /// `other`, or `None` when the cells are not adjacent.
    pub fn get_adjacent_tile_direction(&self, other: &GridPoint) -> (r: Option<Direction>)
        ensures
            r == spec_adjacent_direction(*self, *other),
    {
        if !self.is_adjacent(other) {
            return None;
        }
        if self.x == other.x {
            if self.y < other.y {
                Some(Direction::Up)
            } else {
                Some(Direction::Down)
            }
        } else {
            if self.x > other.x {
                Some(Direction::Left)
            } else {
                Some(Direction::Right)
            }
        }
    }
}

} // verus!
