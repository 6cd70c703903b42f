use vstd::prelude::*;
use crate::direction::Dir;

verus! {

/// One grid square: four wall flags (`true` means the wall stands and the
/// boundary is impassable) and the generator's transient `visited` flag.
#[derive(Clone, Copy, Debug, PartialEq, Eq, Structural)]
pub struct Cell {
    pub north: bool,
    pub east: bool,
    pub south: bool,
    pub west: bool,
    pub visited: bool,
}

/// Two cells agree on all four wall flags (the visited mark may differ).
pub open spec fn same_walls(a: Cell, b: Cell) -> bool {
    &&& a.north == b.north
    &&& a.east == b.east
    &&& a.south == b.south
    &&& a.west == b.west
}

/// Cells that agree on their wall flags show the same wall in every
/// direction.
pub proof fn lemma_same_walls(a: Cell, b: Cell, d: Dir)
    requires
        same_walls(a, b),
    ensures
        a.spec_wall(d) == b.spec_wall(d),
{
    match d {
        Dir::North => {},
        Dir::East => {},
        Dir::South => {},
        Dir::West => {},
    }
}

impl Cell {
    /// The wall flag toward direction `d`.
    pub open spec fn spec_wall(self, d: Dir) -> bool {
        match d {
            Dir::North => self.north,
            Dir::East => self.east,
            Dir::South => self.south,
            Dir::West => self.west,
        }
    }

    /// All four walls standing.
    pub open spec fn fully_walled(self) -> bool {
        self.north && self.east && self.south && self.west
    }

    /// A fresh cell: all walls standing, not yet visited.
    pub fn walled() -> (c: Cell)
        ensures
            c.fully_walled(),
            !c.visited,
    {
        Cell { north: true, east: true, south: true, west: true, visited: false }
    }

    pub fn wall(self, d: Dir) -> (r: bool)
        ensures
            r == self.spec_wall(d),
    {
        match d {
            Dir::North => self.north,
            Dir::East => self.east,
            Dir::South => self.south,
            Dir::West => self.west,
        }
    }

    /// The same cell with the wall toward `d` set to `v`.
    pub fn with_wall(self, d: Dir, v: bool) -> (c: Cell)
        ensures
            c.spec_wall(d) == v,
            forall|e: Dir| e != d ==> c.spec_wall(e) == self.spec_wall(e),
            c.visited == self.visited,
    {
        match d {
            Dir::North => Cell { north: v, ..self },
            Dir::East => Cell { east: v, ..self },
            Dir::South => Cell { south: v, ..self },
            Dir::West => Cell { west: v, ..self },
        }
    }

    /// The same cell with the `visited` flag set to `v`.
    pub fn with_visited(self, v: bool) -> (c: Cell)
        ensures
            c.visited == v,
            same_walls(c, self),
            forall|e: Dir| c.spec_wall(e) == self.spec_wall(e),
    {
        Cell { visited: v, ..self }
    }
}

} // verus!
