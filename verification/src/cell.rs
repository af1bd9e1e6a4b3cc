//! A discovered grid cell: its position, classification and neighbor links.

use vstd::prelude::*;

use crate::geometry::Direction;
use crate::geometry::Pos;

verus! {

/// The semantic classification of a cell.
///
/// Exactly one cell of a maze has kind `Start`, and that kind is never
/// reassigned. Every other kind may be overwritten by a later tagging call
/// (last write wins); `Unknown` marks a frontier cell that has been seen but
/// not yet visited, and `Black` marks a hazardous cell that path search must
/// avoid.
#[derive(Clone, Copy, PartialEq, Eq, Structural, Debug)]
pub enum Kind {
    Start,
    Unknown,
    Empty,
    Checkpoint,
    Blue,
    Victim,
    Ramp,
    Black,
}

/// A single discovered location: a position, a kind, and up to one neighbor
/// link per direction. The first link recorded for a direction wins; later
/// attempts to relink the same direction are no-ops.
#[derive(Clone, Copy, PartialEq, Eq, Structural, Debug)]
pub struct Cell {
    pub pos: Pos,
    pub kind: Kind,
    pub up: Option<Pos>,
    pub down: Option<Pos>,
    pub left: Option<Pos>,
    pub right: Option<Pos>,
}

/// The neighbor link of `c` in direction `d`.
pub open spec fn nbr(c: Cell, d: Direction) -> Option<Pos> {
    match d {
        Direction::Up => c.up,
        Direction::Down => c.down,
        Direction::Left => c.left,
        Direction::Right => c.right,
    }
}

/// `c` with its link in direction `d` set to `q`, whatever it was before.
pub open spec fn with_nbr(c: Cell, d: Direction, q: Pos) -> Cell {
    match d {
        Direction::Up => Cell { up: Some(q), ..c },
        Direction::Down => Cell { down: Some(q), ..c },
        Direction::Left => Cell { left: Some(q), ..c },
        Direction::Right => Cell { right: Some(q), ..c },
    }
}

impl Cell {
    /// A fresh cell at `pos` of kind `kind`, with no neighbor links.
    pub fn new(pos: Pos, kind: Kind) -> (r: Cell)
        ensures
            r == (Cell { pos, kind, up: None, down: None, left: None, right: None }),
    {
        Cell { pos, kind, up: None, down: None, left: None, right: None }
    }

    /// The neighbor link in direction `d`.
    pub fn neighbor(&self, d: Direction) -> (r: Option<Pos>)
        ensures
            r == nbr(*self, d),
    {
        match d {
            Direction::Up => self.up,
            Direction::Down => self.down,
            Direction::Left => self.left,
            Direction::Right => self.right,
        }
    }

    /// Records `neighbor_pos` as the neighbor in direction `direction`,
    /// unless that direction is already linked: the first link wins.
    pub fn add_neighbor(&mut self, direction: Direction, neighbor_pos: Pos)
        ensures
            nbr(*old(self), direction) is Some ==> *final(self) == *old(self),
            nbr(*old(self), direction) is None ==> *final(self) == with_nbr(
                *old(self),
                direction,
                neighbor_pos,
            ),
    {
        match direction {
            Direction::Up => {
                if self.up.is_none() {
                    self.up = Some(neighbor_pos);
                }
            },
            Direction::Down => {
                if self.down.is_none() {
                    self.down = Some(neighbor_pos);
                }
            },
            Direction::Left => {
                if self.left.is_none() {
                    self.left = Some(neighbor_pos);
                }
            },
            Direction::Right => {
                if self.right.is_none() {
                    self.right = Some(neighbor_pos);
                }
            },
        }
    }
}

} // verus!
