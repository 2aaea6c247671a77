//! The shape that the solution takes in each of its cells, for whoever
//! draws it.

use crate::maze::Cell;
use vstd::prelude::*;

verus! {

/// How the solution passes through a cell: round a corner, straight on, or
/// as the first or last cell of the path with the one neighbour on the
/// given side.
#[derive(Debug, Clone, Copy, PartialEq, Eq, Structural)]
pub enum Direction {
    UpLeft,
    UpRight,
    DownLeft,
    DownRight,
    Horizontal,
    Vertical,
    StartLeft,
    StartDown,
    StartUp,
    StartRight,
    EndLeft,
    EndDown,
    EndUp,
    EndRight,
}

/// The shape of the solution in `current` between the cells `prev` and
/// `next`, both on the path and different from each other.
pub open spec fn bend(current: Cell, prev: Cell, next: Cell) -> Option<Direction> {
    if current.x == next.x && current.x == prev.x {
        Some(Direction::Vertical)
    } else if current.y == next.y && current.y == prev.y {
        Some(Direction::Horizontal)
    } else if (current.y < prev.y && current.y == next.y && current.x == prev.x && current.x
        < next.x) || (current.y == prev.y && current.y < next.y && current.x < prev.x && current.x
        == next.x) {
        Some(Direction::DownRight)
    } else if (current.y < prev.y && current.y == next.y && current.x == prev.x && current.x
        > next.x) || (current.y == prev.y && current.y < next.y && current.x > prev.x && current.x
        == next.x) {
        Some(Direction::DownLeft)
    } else if (current.y > prev.y && current.y == next.y && current.x == prev.x && current.x
        < next.x) || (current.y == prev.y && current.y > next.y && current.x < prev.x && current.x
        == next.x) {
        Some(Direction::UpRight)
    } else if (current.y > prev.y && current.y == next.y && current.x == prev.x && current.x
        > next.x) || (current.y == prev.y && current.y > next.y && current.x > prev.x && current.x
        == next.x) {
        Some(Direction::UpLeft)
    } else {
        None
    }
}

/// The shape of the solution in a cell at one end of the path, whose one
/// neighbour on the path is `other`: a short piece towards that neighbour, to the
/// side first and else up or down. `first` says which end it is, and so
/// whether the shape is named after the start or after the end.
pub open spec fn end_piece(current: Cell, other: Cell, first: bool) -> Option<Direction> {
    if other.x > current.x {
        Some(
            if first {
                Direction::EndRight
            } else {
                Direction::StartRight
            },
        )
    } else if other.x < current.x {
        Some(
            if first {
                Direction::EndLeft
            } else {
                Direction::StartLeft
            },
        )
    } else if other.y > current.y {
        Some(
            if first {
                Direction::EndDown
            } else {
                Direction::StartDown
            },
        )
    } else if other.y < current.y {
        Some(
            if first {
                Direction::EndUp
            } else {
                Direction::StartUp
            },
        )
    } else {
        None
    }
}

/// The shape of the solution in `current`, given the cells before and after
/// it on the path where there are any.
pub open spec fn shape(current: Cell, prev: Option<Cell>, next: Option<Cell>) -> Option<
    Direction,
> {
    match (prev, next) {
        (Some(p), Some(n)) => bend(current, p, n),
        (None, Some(n)) => end_piece(current, n, true),
        (Some(p), None) => end_piece(current, p, false),
        (None, None) => None,
    }
}

/// The cells before and after a cell of the path, as values.
pub open spec fn beside(cell: Option<&Cell>) -> Option<Cell> {
    match cell {
        Some(c) => Some(*c),
        None => None,
    }
}

/// The shape of the solution in `current`, given the cells before and after
/// it on the path where there are any. A cell with both neighbours bends or
/// runs straight; the first cell of the path, which has no cell before it,
/// gets an `End` shape, since the path begins at the end of the maze; the
/// last gets a `Start` shape. The three cells must fit together: a cell with
/// no neighbour at all has no shape, nor has one that lies on its only
/// neighbour or between two cells that are not in line or round a corner.
pub fn direction(current: &Cell, prev: Option<&Cell>, next: Option<&Cell>) -> (found: Direction)
    requires
        shape(*current, beside(prev), beside(next)) is Some,
    ensures
        Some(found) == shape(*current, beside(prev), beside(next)),
{
    match try_direction(current, prev, next) {
        Some(found) => found,
        None => vstd::pervasive::unreached(),
    }
}

/// The shape of the solution in `current` as `direction` gives it, or
/// `None` where the three cells do not fit together: where the cell has no
/// neighbour at all, lies on its only neighbour, or lies between two cells
/// that are neither in line with it nor round a corner from each other.
pub fn try_direction(current: &Cell, prev: Option<&Cell>, next: Option<&Cell>) -> (found: Option<
    Direction,
>)
    ensures
        found == shape(*current, beside(prev), beside(next)),
{
    match (prev, next) {
        (Some(prev), Some(next)) => {
            if current.x == next.x && current.x == prev.x {
                Some(Direction::Vertical)
            } else if current.y == next.y && current.y == prev.y {
                Some(Direction::Horizontal)
            } else if (current.y < prev.y && current.y == next.y && current.x == prev.x
                && current.x < next.x) || (current.y == prev.y && current.y < next.y && current.x
                < prev.x && current.x == next.x) {
                Some(Direction::DownRight)
            } else if (current.y < prev.y && current.y == next.y && current.x == prev.x
                && current.x > next.x) || (current.y == prev.y && current.y < next.y && current.x
                > prev.x && current.x == next.x) {
                Some(Direction::DownLeft)
            } else if (current.y > prev.y && current.y == next.y && current.x == prev.x
                && current.x < next.x) || (current.y == prev.y && current.y > next.y && current.x
                < prev.x && current.x == next.x) {
                Some(Direction::UpRight)
            } else if (current.y > prev.y && current.y == next.y && current.x == prev.x
                && current.x > next.x) || (current.y == prev.y && current.y > next.y && current.x
                > prev.x && current.x == next.x) {
                Some(Direction::UpLeft)
            } else {
                None
            }
        },
        (None, Some(next)) => {
            if next.x > current.x {
                Some(Direction::EndRight)
            } else if next.x < current.x {
                Some(Direction::EndLeft)
            } else if next.y > current.y {
                Some(Direction::EndDown)
            } else if next.y < current.y {
                Some(Direction::EndUp)
            } else {
                None
            }
        },
        (Some(prev), None) => {
            if prev.x > current.x {
                Some(Direction::StartRight)
            } else if prev.x < current.x {
                Some(Direction::StartLeft)
            } else if prev.y > current.y {
                Some(Direction::StartDown)
            } else if prev.y < current.y {
                Some(Direction::StartUp)
            } else {
                None
            }
        },
        (None, None) => None,
    }
}

} // verus!
