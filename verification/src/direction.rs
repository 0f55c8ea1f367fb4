use vstd::prelude::*;

verus! {

/// A direction on the board, from white's perspective.
#[derive(Clone, Copy, Debug, PartialEq, Eq, Structural)]
pub enum Direction {
    North,
    NorthEast,
    East,
    SouthEast,
    South,
    SouthWest,
    West,
    NorthWest,
}

impl Direction {
    /// The change in rank of one step in this direction.
    pub open spec fn spec_dr(self) -> int {
        match self {
            Direction::North | Direction::NorthEast | Direction::NorthWest => 1,
            Direction::East | Direction::West => 0,
            Direction::South | Direction::SouthEast | Direction::SouthWest => -1,
        }
    }

    /// The change in file of one step in this direction.
    pub open spec fn spec_df(self) -> int {
        match self {
            Direction::East | Direction::NorthEast | Direction::SouthEast => 1,
            Direction::North | Direction::South => 0,
            Direction::West | Direction::NorthWest | Direction::SouthWest => -1,
        }
    }

    /// The change in square index of one step in this direction.
    pub open spec fn spec_offset(self) -> int {
        8 * self.spec_dr() + self.spec_df()
    }

    /// The change in square index of one step in this direction.
    pub fn offset(self) -> (r: i8)
        ensures
            r == self.spec_offset(),
    {
        match self {
            Direction::North => 8,
            Direction::NorthEast => 9,
            Direction::East => 1,
            Direction::SouthEast => -7,
            Direction::South => -8,
            Direction::SouthWest => -9,
            Direction::West => -1,
            Direction::NorthWest => 7,
        }
    }

    /// The opposite direction.
    pub fn neg(self) -> (r: Direction)
        ensures
            r.spec_dr() == -self.spec_dr(),
            r.spec_df() == -self.spec_df(),
    {
        match self {
            Direction::North => Direction::South,
            Direction::NorthEast => Direction::SouthWest,
            Direction::East => Direction::West,
            Direction::SouthEast => Direction::NorthWest,
            Direction::South => Direction::North,
            Direction::SouthWest => Direction::NorthEast,
            Direction::West => Direction::East,
            Direction::NorthWest => Direction::SouthEast,
        }
    }
}


impl Direction {
    /// The change in rank of one step in this direction.
    pub fn rank_step(self) -> (r: i8)
        ensures
            r == self.spec_dr(),
    {
        match self {
            Direction::North | Direction::NorthEast | Direction::NorthWest => 1,
            Direction::East | Direction::West => 0,
            Direction::South | Direction::SouthEast | Direction::SouthWest => -1,
        }
    }

    /// The change in file of one step in this direction.
    pub fn file_step(self) -> (r: i8)
        ensures
            r == self.spec_df(),
    {
        match self {
            Direction::East | Direction::NorthEast | Direction::SouthEast => 1,
            Direction::North | Direction::South => 0,
            Direction::West | Direction::NorthWest | Direction::SouthWest => -1,
        }
    }
}

} // verus!
