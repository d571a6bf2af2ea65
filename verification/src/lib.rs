//! A maze engine: a rectangular grid of cells with passages between them,
//! generators that carve a perfect maze into it, solvers that find a route
//! from the top-left to the bottom-right cell, and a compact binary format.
use vstd::prelude::*;

pub mod consts;
pub mod files;
pub mod maze;

verus! {

/// One of the four sides of a cell. In a cell's bitmask each direction owns
/// one bit: `UP` is 1, `RIGHT` is 2, `DOWN` is 4 and `LEFT` is 8.
#[allow(non_camel_case_types)]
#[derive(Debug, Clone, Copy, PartialEq, Eq, Structural)]
pub enum Direction {
    UP,
    RIGHT,
    DOWN,
    LEFT,
}

impl Direction {
    /// The bit that stands for this direction in a cell's bitmask.
    pub open spec fn spec_bit(&self) -> u8 {
        match self {
            Direction::UP => 1,
            Direction::RIGHT => 2,
            Direction::DOWN => 4,
            Direction::LEFT => 8,
        }
    }

    /// The direction that points back.
    pub open spec fn spec_opposite(&self) -> Direction {
        match self {
            Direction::UP => Direction::DOWN,
            Direction::DOWN => Direction::UP,
            Direction::LEFT => Direction::RIGHT,
            Direction::RIGHT => Direction::LEFT,
        }
    }

    /// Whether one step from `(x, y)` in this direction stays within the
    /// range of the coordinates: `y` grows downwards, `x` to the right.
    pub open spec fn can_travel(&self, x: usize, y: usize) -> bool {
        match self {
            Direction::UP => y > 0,
            Direction::DOWN => y < usize::MAX,
            Direction::LEFT => x > 0,
            Direction::RIGHT => x < usize::MAX,
        }
    }

    /// The coordinate one step from `(x, y)` in this direction.
    pub open spec fn spec_travel(&self, x: usize, y: usize) -> (usize, usize)
        recommends
            self.can_travel(x, y),
    {
        match self {
            Direction::UP => (x, (y - 1) as usize),
            Direction::DOWN => (x, (y + 1) as usize),
            Direction::LEFT => ((x - 1) as usize, y),
            Direction::RIGHT => ((x + 1) as usize, y),
        }
    }

    /// The bit that stands for this direction in a cell's bitmask.
    #[verifier::when_used_as_spec(spec_bit)]
    pub fn bit(&self) -> (b: u8)
        ensures
            b == self.spec_bit(),
    {
        match self {
            Direction::UP => 0b0001,
            Direction::RIGHT => 0b0010,
            Direction::DOWN => 0b0100,
            Direction::LEFT => 0b1000,
        }
    }

    /// The direction that points back.
    #[verifier::when_used_as_spec(spec_opposite)]
    pub fn opposite(&self) -> (r: Self)
        ensures
            r == self.spec_opposite(),
    {
        match self {
            Direction::UP => Direction::DOWN,
            Direction::DOWN => Direction::UP,
            Direction::LEFT => Direction::RIGHT,
            Direction::RIGHT => Direction::LEFT,
        }
    }

    /// Moves one step. The caller guards the edges: no step up from the top
    /// row, none to the left from the first column.
    #[verifier::when_used_as_spec(spec_travel)]
    pub fn travel(&self, x: usize, y: usize) -> (r: (usize, usize))
        requires
            self.can_travel(x, y),
        ensures
            r == self.spec_travel(x, y),
    {
        match self {
            Direction::UP => (x, y - 1),
            Direction::DOWN => (x, y + 1),
            Direction::LEFT => (x - 1, y),
            Direction::RIGHT => (x + 1, y),
        }
    }
}

/// Going back and forth leads nowhere: the opposite of the opposite is the
/// direction itself, and a step followed by the opposite step returns.
pub proof fn lemma_opposite_undoes(d: Direction, x: usize, y: usize)
    requires
        d.can_travel(x, y),
    ensures
        d.opposite().opposite() == d,
        d.opposite() != d,
        d.opposite().can_travel(d.travel(x, y).0, d.travel(x, y).1),
        d.opposite().travel(d.travel(x, y).0, d.travel(x, y).1) == (x, y),
{
}

} // verus!
