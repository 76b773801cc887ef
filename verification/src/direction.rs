use vstd::prelude::*;

verus! {

/// One of the four compass directions in which a cell has a neighbour.
///
/// The grid's origin is its top left corner: `Left` and `Right` change the
/// column, `Up` and `Down` the row, and `Up` leads towards row 0.
#[derive(Copy, Clone, PartialEq, Eq, Debug, Structural)]
pub enum Direction {
    Left,
    Right,
    Up,
    Down,
}

impl Direction {
    /// The place of this direction in the order in which neighbours are
    /// probed: left, right, up, down.
    pub open spec fn rank(self) -> nat {
        match self {
            Direction::Left => 0,
            Direction::Right => 1,
            Direction::Up => 2,
            Direction::Down => 3,
        }
    }
}

/// The cell next to `cell` in direction `d`. It may lie outside every grid.
pub open spec fn step(cell: (int, int), d: Direction) -> (int, int) {
    match d {
        Direction::Left => (cell.0 - 1, cell.1),
        Direction::Right => (cell.0 + 1, cell.1),
        Direction::Up => (cell.0, cell.1 - 1),
        Direction::Down => (cell.0, cell.1 + 1),
    }
}

/// Two cells are adjacent when one step in some direction leads from one to
/// the other.
pub open spec fn adjacent(a: (int, int), b: (int, int)) -> bool {
    exists|d: Direction| step(a, d) == b
}

} // verus!
