use vstd::prelude::*;

verus! {

/// A compass direction of a cell boundary, in the fixed ordering
/// {north, east, south, west} that every traversal uses.
#[derive(Clone, Copy, Debug, PartialEq, Eq, Structural)]
pub enum Dir {
    North,
    East,
    South,
    West,
}

impl Dir {
    /// Horizontal offset of the neighboring cell in this direction.
    pub open spec fn dx(self) -> int {
        match self {
            Dir::North => 0,
            Dir::East => 1,
            Dir::South => 0,
            Dir::West => -1,
        }
    }

    /// Vertical offset of the neighboring cell in this direction.
    pub open spec fn dy(self) -> int {
        match self {
            Dir::North => -1,
            Dir::East => 0,
            Dir::South => 1,
            Dir::West => 0,
        }
    }

    /// The same boundary as seen from the neighboring cell.
    pub open spec fn spec_opposite(self) -> Dir {
        match self {
            Dir::North => Dir::South,
            Dir::East => Dir::West,
            Dir::South => Dir::North,
            Dir::West => Dir::East,
        }
    }

    /// The direction at position `i` of the fixed {north, east, south, west}
    /// ordering; positions outside 0..4 fall back to north.
    pub open spec fn spec_from_index(i: int) -> Dir {
        if i == 0 {
            Dir::North
        } else if i == 1 {
            Dir::East
        } else if i == 2 {
            Dir::South
        } else {
            Dir::West
        }
    }

    /// Opposite directions negate each other's offsets and pair up.
    pub proof fn lemma_opposite(self)
        ensures
            self.spec_opposite().spec_opposite() == self,
            self.spec_opposite().dx() == -self.dx(),
            self.spec_opposite().dy() == -self.dy(),
    {
        match self {
            Dir::North => {},
            Dir::East => {},
            Dir::South => {},
            Dir::West => {},
        }
    }

    pub fn opposite(self) -> (r: Dir)
        ensures
            r == self.spec_opposite(),
    {
        match self {
            Dir::North => Dir::South,
            Dir::East => Dir::West,
            Dir::South => Dir::North,
            Dir::West => Dir::East,
        }
    }

    pub fn from_index(i: usize) -> (r: Dir)
        requires
            i < 4,
        ensures
            r == Dir::spec_from_index(i as int),
    {
        if i == 0 {
            Dir::North
        } else if i == 1 {
            Dir::East
        } else if i == 2 {
            Dir::South
        } else {
            Dir::West
        }
    }
}

} // verus!
