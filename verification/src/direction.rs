use vstd::prelude::*;

verus! {

/// One of the four sides of a tile.
#[derive(Clone, Copy, Debug, PartialEq, Eq, Structural, Hash, PartialOrd, Ord)]
pub enum Direction {
    Up,
    Down,
    Left,
    Right,
}

impl Direction {
    /// The side that faces this one across a shared edge.
    pub open spec fn flipped(self) -> Direction {
        match self {
            Direction::Up => Direction::Down,
            Direction::Down => Direction::Up,
            Direction::Left => Direction::Right,
            Direction::Right => Direction::Left,
        }
    }

    /// The side a tile's opening points to after a clockwise quarter turn.
    pub open spec fn turned(self) -> Direction {
        match self {
            Direction::Up => Direction::Right,
            Direction::Right => Direction::Down,
            Direction::Down => Direction::Left,
            Direction::Left => Direction::Up,
        }
    }

    pub fn opposite(self) -> (r: Direction)
        ensures
            r == self.flipped(),
    {
        match self {
            Direction::Up => Direction::Down,
            Direction::Down => Direction::Up,
            Direction::Left => Direction::Right,
            Direction::Right => Direction::Left,
        }
    }
}

/// Facing the opposite side twice gives back the side one started from,
/// and no side faces itself.
pub proof fn lemma_opposite_involution(d: Direction)
    ensures
        d.flipped().flipped() == d,
        d.flipped() != d,
{
}

/// Four clockwise quarter turns bring every side back to where it was.
pub proof fn lemma_four_turns(d: Direction)
    ensures
        d.turned().turned().turned().turned() == d,
        d.turned().turned() == d.flipped(),
{
}

} // verus!
