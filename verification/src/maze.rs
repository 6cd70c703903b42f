use vstd::prelude::*;
use crate::cell::Cell;
use crate::direction::Dir;

verus! {

/// The one construction error: a zero width or height would leave the maze
/// without an end point, so it is rejected up front.
#[derive(Clone, Copy, Debug, PartialEq, Eq, Structural)]
pub enum MazeError {
    InvalidDimension,
}

/// The mathematical model of a maze: its dimensions, the two designated
/// corners, and the flat row-major cell sequence.
pub struct MazeView {
    pub width: usize,
    pub height: usize,
    pub start: (usize, usize),
    pub end: (usize, usize),
    pub grid: Seq<Cell>,
}

impl MazeView {
    /// Basic shape: positive dimensions, a full grid, and the two corners.
    pub open spec fn wf(self) -> bool {
        &&& 1 <= self.width
        &&& 1 <= self.height
        &&& self.width * self.height <= usize::MAX
        &&& self.grid.len() == self.width * self.height
        &&& self.start == (0usize, 0usize)
        &&& self.end == (((self.width - 1) as usize, (self.height - 1) as usize))
    }

    pub open spec fn in_bounds(self, x: int, y: int) -> bool {
        0 <= x < self.width && 0 <= y < self.height
    }

    pub open spec fn in_bounds_c(self, c: (usize, usize)) -> bool {
        self.in_bounds(c.0 as int, c.1 as int)
    }

    /// Row-major position of cell (x, y) in the flat sequence.
    pub open spec fn idx(self, x: int, y: int) -> int {
        y * self.width + x
    }

    pub open spec fn idx_c(self, c: (usize, usize)) -> int {
        self.idx(c.0 as int, c.1 as int)
    }

    pub open spec fn cell(self, x: int, y: int) -> Cell {
        self.grid[self.idx(x, y)]
    }

    pub open spec fn cell_c(self, c: (usize, usize)) -> Cell {
        self.cell(c.0 as int, c.1 as int)
    }

    /// The wall flag of cell (x, y) toward direction `d`.
    pub open spec fn wall(self, x: int, y: int, d: Dir) -> bool {
        self.cell(x, y).spec_wall(d)
    }

    /// The boundary from (x, y) toward `d` leads to an in-bounds neighbor
    /// and its wall is absent: a step through it is possible.
    pub open spec fn open_to(self, x: int, y: int, d: Dir) -> bool {
        &&& self.in_bounds(x, y)
        &&& self.in_bounds(x + d.dx(), y + d.dy())
        &&& !self.wall(x, y, d)
    }

    /// A single passable step from cell `a` to adjacent cell `b`.
    pub open spec fn step_open(self, a: (usize, usize), b: (usize, usize)) -> bool {
        exists|d: Dir|
            {
                &&& self.open_to(a.0 as int, a.1 as int, d)
                &&& b.0 as int == a.0 + d.dx()
                &&& b.1 as int == a.1 + d.dy()
            }
    }

    /// Every wall stands, as after construction.
    pub open spec fn fully_walled(self) -> bool {
        forall|i: int| 0 <= i < self.grid.len() ==> (#[trigger] self.grid[i]).fully_walled()
    }

    /// Every cell carries the generator's visited mark.
    pub open spec fn all_visited(self) -> bool {
        forall|i: int| 0 <= i < self.grid.len() ==> (#[trigger] self.grid[i]).visited
    }

    /// Wall symmetry: a boundary between two in-bounds cells shows the same
    /// flag from both sides, so walls are carved only in matched pairs.
    pub open spec fn wall_sym(self) -> bool {
        forall|x: int, y: int, d: Dir|
            self.in_bounds(x, y) && self.in_bounds(x + d.dx(), y + d.dy())
                ==> #[trigger] self.wall(x, y, d) == self.wall(
                x + d.dx(),
                y + d.dy(),
                d.spec_opposite(),
            )
    }

    /// The outer east and south borders are walled. While this holds, every
    /// absent east or south flag marks a carved interior connection.
    pub open spec fn borders_closed(self) -> bool {
        &&& forall|x: int, y: int|
            self.in_bounds(x, y) && x == self.width - 1 ==> #[trigger] self.wall(x, y, Dir::East)
        &&& forall|x: int, y: int|
            self.in_bounds(x, y) && y == self.height - 1 ==> #[trigger] self.wall(x, y, Dir::South)
    }

    /// Number of carved connections, counted once each on the east or south
    /// side of a cell. Exact while `borders_closed` holds.
    pub open spec fn carved_edges(self) -> int {
        crate::counting::count_open_es(self.grid)
    }
}

/// A rectangular maze: a flat row-major grid of cells between a fixed start
/// corner (0, 0) and end corner (width - 1, height - 1).
pub struct Maze {
    pub(crate) start_point: (usize, usize),
    pub(crate) end_point: (usize, usize),
    pub(crate) width: usize,
    pub(crate) height: usize,
    pub(crate) grid: Vec<Cell>,
}

impl View for Maze {
    type V = MazeView;

    closed spec fn view(&self) -> MazeView {
        MazeView {
            width: self.width,
            height: self.height,
            start: self.start_point,
            end: self.end_point,
            grid: self.grid@,
        }
    }
}

/// A row-major position is within the grid.
pub proof fn lemma_idx_bound(w: int, h: int, x: int, y: int)
    requires
        0 <= x < w,
        0 <= y < h,
    ensures
        0 <= y * w + x < w * h,
{
    assert(0 <= y * w + x < w * h) by (nonlinear_arith)
        requires
            0 <= x < w,
            0 <= y < h,
    ;
}

/// Distinct in-bounds coordinates occupy distinct row-major positions.
pub proof fn lemma_idx_injective(m: MazeView, x1: int, y1: int, x2: int, y2: int)
    requires
        m.in_bounds(x1, y1),
        m.in_bounds(x2, y2),
        m.idx(x1, y1) == m.idx(x2, y2),
    ensures
        x1 == x2,
        y1 == y2,
{
    assert(x1 == x2 && y1 == y2) by (nonlinear_arith)
        requires
            0 <= x1 < m.width,
            0 <= x2 < m.width,
            0 <= y1,
            0 <= y2,
            y1 * m.width + x1 == y2 * m.width + x2,
    ;
}

impl Maze {
    /// The view is the struct's fields, one for one; lets the sibling
    /// modules relate field updates to the model.
    pub(crate) proof fn view_parts(&self)
        ensures
            self@.width == self.width,
            self@.height == self.height,
            self@.start == self.start_point,
            self@.end == self.end_point,
            self@.grid == self.grid@,
    {
    }

    /// A fresh maze: every cell fully walled and unvisited, start at (0, 0),
    /// end at the opposite corner. Zero dimensions are rejected.
    pub fn new(width: usize, height: usize) -> (r: Result<Maze, MazeError>)
        requires
            width * height <= usize::MAX,
        ensures
            r is Err <==> (width == 0 || height == 0),
            r is Err ==> r->Err_0 == MazeError::InvalidDimension,
            r is Ok ==> {
                let m = r->Ok_0;
                &&& m@.wf()
                &&& m@.width == width
                &&& m@.height == height
                &&& m@.fully_walled()
                &&& forall|i: int| 0 <= i < m@.grid.len() ==> !(#[trigger] m@.grid[i]).visited
            },
    {
        if width == 0 || height == 0 {
            return Err(MazeError::InvalidDimension);
        }
        let n = width * height;
        let mut grid: Vec<Cell> = Vec::new();
        let mut i: usize = 0;
        while i < n
            invariant
                i <= n,
                grid@.len() == i,
                forall|j: int|
                    0 <= j < i ==> (#[trigger] grid@[j]).fully_walled() && !grid@[j].visited,
            decreases n - i,
        {
            grid.push(Cell::walled());
            i += 1;
        }
        Ok(Maze {
            start_point: (0, 0),
            end_point: (width - 1, height - 1),
            width,
            height,
            grid,
        })
    }

    pub fn width(&self) -> (r: usize)
        ensures
            r == self@.width,
    {
        self.width
    }

    pub fn height(&self) -> (r: usize)
        ensures
            r == self@.height,
    {
        self.height
    }

    pub fn start_point(&self) -> (r: (usize, usize))
        ensures
            r == self@.start,
    {
        self.start_point
    }

    pub fn end_point(&self) -> (r: (usize, usize))
        ensures
            r == self@.end,
    {
        self.end_point
    }

    /// Row-major position of an in-bounds coordinate.
    pub(crate) fn index_of(&self, x: usize, y: usize) -> (i: usize)
        requires
            self@.wf(),
            self@.in_bounds(x as int, y as int),
        ensures
            i == self@.idx(x as int, y as int),
            i < self@.grid.len(),
    {
        proof {
            lemma_idx_bound(self@.width as int, self@.height as int, x as int, y as int);
        }
        y * self.width + x
    }

    /// The wall flag of cell (x, y) toward `d`, read-only.
    pub fn wall(&self, x: usize, y: usize, d: Dir) -> (r: bool)
        requires
            self@.wf(),
            self@.in_bounds(x as int, y as int),
        ensures
            r == self@.wall(x as int, y as int, d),
    {
        let i = self.index_of(x, y);
        self.grid[i].wall(d)
    }

    /// The generator's visited mark of cell (x, y), read-only.
    pub fn is_visited(&self, x: usize, y: usize) -> (r: bool)
        requires
            self@.wf(),
            self@.in_bounds(x as int, y as int),
        ensures
            r == self@.cell(x as int, y as int).visited,
    {
        let i = self.index_of(x, y);
        self.grid[i].visited
    }

    /// The in-bounds neighbor of (x, y) toward `d`, if there is one.
    pub(crate) fn neighbor_if(&self, x: usize, y: usize, d: Dir) -> (r: Option<(usize, usize)>)
        requires
            self@.wf(),
            self@.in_bounds(x as int, y as int),
        ensures
            match r {
                Some(b) => {
                    &&& b.0 as int == x + d.dx()
                    &&& b.1 as int == y + d.dy()
                    &&& self@.in_bounds_c(b)
                },
                None => !self@.in_bounds(x + d.dx(), y + d.dy()),
            },
    {
        match d {
            Dir::North => if y >= 1 {
                Some((x, y - 1))
            } else {
                None
            },
            Dir::East => if x + 1 < self.width {
                Some((x + 1, y))
            } else {
                None
            },
            Dir::South => if y + 1 < self.height {
                Some((x, y + 1))
            } else {
                None
            },
            Dir::West => if x >= 1 {
                Some((x - 1, y))
            } else {
                None
            },
        }
    }
}

/// Every flat grid position is the row-major index of exactly one
/// in-bounds coordinate, recovered by division and remainder.
pub proof fn lemma_flat_coords(m: MazeView, i: int)
    requires
        m.wf(),
        0 <= i < m.grid.len(),
    ensures
        m.in_bounds(i % (m.width as int), i / (m.width as int)),
        m.idx(i % (m.width as int), i / (m.width as int)) == i,
{
    let w = m.width as int;
    let h = m.height as int;
    vstd::arithmetic::div_mod::lemma_fundamental_div_mod(i, w);
    vstd::arithmetic::div_mod::lemma_mod_bound(i, w);
    let x = i % w;
    let y = i / w;
    assert(y < h) by (nonlinear_arith)
        requires
            i == w * y + x,
            0 <= x < w,
            0 <= i < w * h,
    ;
    assert(y >= 0) by (nonlinear_arith)
        requires
            i == w * y + x,
            0 <= x < w,
            0 <= i,
    ;
    assert(y * w + x == i) by (nonlinear_arith)
        requires
            i == w * y + x,
    ;
}

/// A fully walled maze is trivially wall-symmetric.
pub proof fn lemma_fully_walled_sym(m: MazeView)
    requires
        m.wf(),
        m.fully_walled(),
    ensures
        m.wall_sym(),
{
    assert forall|x: int, y: int, d: Dir|
        m.in_bounds(x, y) && m.in_bounds(x + d.dx(), y + d.dy()) implies #[trigger] m.wall(x, y, d)
        == m.wall(x + d.dx(), y + d.dy(), d.spec_opposite()) by {
        lemma_idx_bound(m.width as int, m.height as int, x, y);
        lemma_idx_bound(m.width as int, m.height as int, x + d.dx(), y + d.dy());
    }
}

} // verus!
