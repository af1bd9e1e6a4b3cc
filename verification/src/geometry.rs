//! Grid positions, the four movement directions, and their rotations.

use vstd::prelude::*;

verus! {

/// A cell position: a pair of signed integer grid coordinates.
#[derive(Clone, Copy, PartialEq, Eq, Structural, Debug)]
pub struct Pos {
    pub x: i32,
    pub y: i32,
}

/// One of the four cardinal movement directions.
#[derive(Clone, Copy, PartialEq, Eq, Structural, Debug)]
pub enum Direction {
    Up,
    Down,
    Left,
    Right,
}

impl Direction {
    /// The direction one quarter turn clockwise from `self`.
    pub open spec fn spec_right(&self) -> Direction {
        match *self {
            Direction::Up => Direction::Right,
            Direction::Down => Direction::Left,
            Direction::Left => Direction::Up,
            Direction::Right => Direction::Down,
        }
    }

    /// The direction one quarter turn counter-clockwise from `self`.
    pub open spec fn spec_left(&self) -> Direction {
        match *self {
            Direction::Up => Direction::Left,
            Direction::Down => Direction::Right,
            Direction::Left => Direction::Down,
            Direction::Right => Direction::Up,
        }
    }

    /// The direction opposite to `self`.
    pub open spec fn spec_back(&self) -> Direction {
        match *self {
            Direction::Up => Direction::Down,
            Direction::Down => Direction::Up,
            Direction::Left => Direction::Right,
            Direction::Right => Direction::Left,
        }
    }

    /// 90 degrees clockwise.
    #[verifier::when_used_as_spec(spec_right)]
    pub fn right(&self) -> (r: Direction)
        ensures
            r == self.spec_right(),
    {
        match *self {
            Direction::Up => Direction::Right,
            Direction::Down => Direction::Left,
            Direction::Left => Direction::Up,
            Direction::Right => Direction::Down,
        }
    }

    /// 90 degrees counter-clockwise.
    #[verifier::when_used_as_spec(spec_left)]
    pub fn left(&self) -> (r: Direction)
        ensures
            r == self.spec_left(),
    {
        match *self {
            Direction::Up => Direction::Left,
            Direction::Down => Direction::Right,
            Direction::Left => Direction::Down,
            Direction::Right => Direction::Up,
        }
    }

    /// 180 degrees.
    #[verifier::when_used_as_spec(spec_back)]
    pub fn back(&self) -> (r: Direction)
        ensures
            r == self.spec_back(),
    {
        match *self {
            Direction::Up => Direction::Down,
            Direction::Down => Direction::Up,
            Direction::Left => Direction::Right,
            Direction::Right => Direction::Left,
        }
    }
}

/// The x offset of one step in direction `d`.
pub open spec fn dir_dx(d: Direction) -> int {
    match d {
        Direction::Left => -1,
        Direction::Right => 1,
        _ => 0,
    }
}

/// The y offset of one step in direction `d` (up decreases y, down increases it).
pub open spec fn dir_dy(d: Direction) -> int {
    match d {
        Direction::Up => -1,
        Direction::Down => 1,
        _ => 0,
    }
}

/// `q` is exactly one step from `p` in direction `d`.
pub open spec fn is_step(p: Pos, d: Direction, q: Pos) -> bool {
    q.x == p.x + dir_dx(d) && q.y == p.y + dir_dy(d)
}

/// `p` and `q` are orthogonally adjacent.
pub open spec fn adjacent(p: Pos, q: Pos) -> bool {
    ||| is_step(p, Direction::Up, q)
    ||| is_step(p, Direction::Down, q)
    ||| is_step(p, Direction::Left, q)
    ||| is_step(p, Direction::Right, q)
}

/// The direction that one step from `p` to an adjacent `q` takes.
pub open spec fn direction_between(p: Pos, q: Pos) -> Direction {
    if q.x == p.x && q.y == p.y - 1 {
        Direction::Up
    } else if q.x == p.x && q.y == p.y + 1 {
        Direction::Down
    } else if q.x == p.x - 1 && q.y == p.y {
        Direction::Left
    } else {
        Direction::Right
    }
}

/// For adjacent positions, `direction_between` names the step taken.
pub proof fn lemma_direction_between(p: Pos, q: Pos)
    requires
        adjacent(p, q),
    ensures
        is_step(p, direction_between(p, q), q),
{
}

/// The four rotations form a cyclic group of order four: turning back twice,
/// or right after left, returns to the original heading.
pub proof fn lemma_rotations_compose(d: Direction)
    ensures
        d.spec_back().spec_back() == d,
        d.spec_left().spec_right() == d,
        d.spec_right().spec_left() == d,
        d.spec_right().spec_right() == d.spec_back(),
{
}

} // verus!
