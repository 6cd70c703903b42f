use vstd::prelude::*;
use crate::cell::{lemma_same_walls, same_walls};
use crate::counting;
use crate::direction::Dir;
use crate::maze::{
    lemma_flat_coords, lemma_fully_walled_sym, lemma_idx_bound, lemma_idx_injective, Maze,
    MazeView,
};
use crate::rng;

verus! {

/// Every in-bounds neighbor of `c` carries the visited mark.
pub open spec fn all_nbrs_visited(m: MazeView, c: (usize, usize)) -> bool {
    &&& m.in_bounds(c.0 as int, c.1 - 1) ==> m.cell(c.0 as int, c.1 - 1).visited
    &&& m.in_bounds(c.0 + 1, c.1 as int) ==> m.cell(c.0 + 1, c.1 as int).visited
    &&& m.in_bounds(c.0 as int, c.1 + 1) ==> m.cell(c.0 as int, c.1 + 1).visited
    &&& m.in_bounds(c.0 - 1, c.1 as int) ==> m.cell(c.0 - 1, c.1 as int).visited
}

/// If the visited cells include (0, 0) and are closed under adjacency, they
/// cover the whole grid: every cell can be reached from the corner by
/// stepping along x, then along y.
proof fn lemma_visited_spreads(m: MazeView, x: int, y: int)
    requires
        m.wf(),
        m.cell(0, 0).visited,
        forall|c: (usize, usize)|
            m.in_bounds_c(c) && (#[trigger] m.cell_c(c)).visited ==> all_nbrs_visited(m, c),
        m.in_bounds(x, y),
    ensures
        m.cell(x, y).visited,
    decreases x + y,
{
    if x > 0 {
        lemma_visited_spreads(m, x - 1, y);
        let c = (((x - 1) as usize), (y as usize));
        assert(m.cell_c(c).visited);
        assert(all_nbrs_visited(m, c));
        assert(m.cell(c.0 + 1, c.1 as int).visited);
    } else if y > 0 {
        lemma_visited_spreads(m, x, y - 1);
        let c = ((x as usize), ((y - 1) as usize));
        assert(m.cell_c(c).visited);
        assert(all_nbrs_visited(m, c));
        assert(m.cell(c.0 as int, c.1 + 1).visited);
    }
}

/// Carving one matched pair of wall flags keeps the maze wall-symmetric:
/// the two flipped flags are exactly the two sides of the same boundary.
proof fn lemma_carve_sym(m1: MazeView, m2: MazeView, a: (usize, usize), d: Dir)
    requires
        m1.wf(),
        m2.wf(),
        m2.width == m1.width,
        m2.height == m1.height,
        m2.grid.len() == m1.grid.len(),
        m1.in_bounds_c(a),
        m1.in_bounds(a.0 + d.dx(), a.1 + d.dy()),
        m1.wall_sym(),
        !m2.wall(a.0 as int, a.1 as int, d),
        !m2.wall(a.0 + d.dx(), a.1 + d.dy(), d.spec_opposite()),
        forall|i: int, e: Dir|
            0 <= i < m1.grid.len() && !(i == m1.idx_c(a) && e == d) && !(i == m1.idx(
                a.0 + d.dx(),
                a.1 + d.dy(),
            ) && e == d.spec_opposite()) ==> (#[trigger] m2.grid[i].spec_wall(e))
                == m1.grid[i].spec_wall(e),
    ensures
        m2.wall_sym(),
{
    let w = m1.width as int;
    let h = m1.height as int;
    let ax = a.0 as int;
    let ay = a.1 as int;
    let bx = ax + d.dx();
    let by = ay + d.dy();
    assert forall|x: int, y: int, e: Dir|
        m2.in_bounds(x, y) && m2.in_bounds(x + e.dx(), y + e.dy()) implies #[trigger] m2.wall(
        x,
        y,
        e,
    ) == m2.wall(x + e.dx(), y + e.dy(), e.spec_opposite()) by {
        d.lemma_opposite();
        e.lemma_opposite();
        let i = m1.idx(x, y);
        let x2 = x + e.dx();
        let y2 = y + e.dy();
        let j = m1.idx(x2, y2);
        lemma_idx_bound(w, h, x, y);
        lemma_idx_bound(w, h, x2, y2);
        lemma_idx_bound(w, h, ax, ay);
        lemma_idx_bound(w, h, bx, by);
        if i == m1.idx(ax, ay) && e == d {
            lemma_idx_injective(m1, x, y, ax, ay);
            assert(x2 == bx && y2 == by);
            assert(!m2.wall(x, y, e));
            assert(!m2.wall(x2, y2, e.spec_opposite()));
        } else if i == m1.idx(bx, by) && e == d.spec_opposite() {
            lemma_idx_injective(m1, x, y, bx, by);
            assert(x2 == ax && y2 == ay);
            assert(!m2.wall(x, y, e));
            assert(e.spec_opposite() == d);
            assert(!m2.wall(x2, y2, e.spec_opposite()));
        } else {
            assert(m2.wall(x, y, e) == m1.wall(x, y, e));
            if j == m1.idx(ax, ay) && e.spec_opposite() == d {
                lemma_idx_injective(m1, x2, y2, ax, ay);
                assert(e == d.spec_opposite());
                assert(x == ax - e.dx() && y == ay - e.dy());
                assert(x == bx && y == by);
                assert(i == m1.idx(bx, by));
                assert(false);
            }
            if j == m1.idx(bx, by) && e.spec_opposite() == d.spec_opposite() {
                lemma_idx_injective(m1, x2, y2, bx, by);
                assert(e == d);
                assert(x == ax && y == ay);
                assert(false);
            }
            assert(m2.wall(x2, y2, e.spec_opposite()) == m1.wall(x2, y2, e.spec_opposite()));
            assert(m1.wall(x, y, e) == m1.wall(x2, y2, e.spec_opposite()));
        }
    }
}

/// Carving one matched pair whose two flags both stood raises the
/// east/south open count by exactly one and leaves the visited count alone.
proof fn lemma_carve_count(m1: MazeView, m2: MazeView, a: (usize, usize), d: Dir)
    requires
        m1.wf(),
        m2.width == m1.width,
        m2.height == m1.height,
        m2.grid.len() == m1.grid.len(),
        m1.in_bounds_c(a),
        m1.in_bounds(a.0 + d.dx(), a.1 + d.dy()),
        m1.wall(a.0 as int, a.1 as int, d),
        m1.wall(a.0 + d.dx(), a.1 + d.dy(), d.spec_opposite()),
        !m2.wall(a.0 as int, a.1 as int, d),
        !m2.wall(a.0 + d.dx(), a.1 + d.dy(), d.spec_opposite()),
        forall|i: int|
            0 <= i < m1.grid.len() ==> (#[trigger] m2.grid[i]).visited == m1.grid[i].visited,
        forall|i: int, e: Dir|
            0 <= i < m1.grid.len() && !(i == m1.idx_c(a) && e == d) && !(i == m1.idx(
                a.0 + d.dx(),
                a.1 + d.dy(),
            ) && e == d.spec_opposite()) ==> (#[trigger] m2.grid[i].spec_wall(e))
                == m1.grid[i].spec_wall(e),
    ensures
        counting::count_open_es(m2.grid) == counting::count_open_es(m1.grid) + 1,
        counting::count_visited(m2.grid) == counting::count_visited(m1.grid),
{
    let w = m1.width as int;
    let h = m1.height as int;
    let ax = a.0 as int;
    let ay = a.1 as int;
    let bx = ax + d.dx();
    let by = ay + d.dy();
    let ai = m1.idx(ax, ay);
    let ni = m1.idx(bx, by);
    lemma_idx_bound(w, h, ax, ay);
    lemma_idx_bound(w, h, bx, by);
    if ai == ni {
        lemma_idx_injective(m1, ax, ay, bx, by);
        d.lemma_opposite();
        match d {
            Dir::North => {},
            Dir::East => {},
            Dir::South => {},
            Dir::West => {},
        }
    }
    assert(ai != ni);
    let ca2 = m2.grid[ai];
    let cn2 = m2.grid[ni];
    let mid = m1.grid.update(ai, ca2);
    assert forall|k: int| 0 <= k < m1.grid.len() && k != ai && k != ni implies m2.grid[k]
        == m1.grid[k] by {
        assert(m2.grid[k].spec_wall(Dir::North) == m1.grid[k].spec_wall(Dir::North));
        assert(m2.grid[k].spec_wall(Dir::East) == m1.grid[k].spec_wall(Dir::East));
        assert(m2.grid[k].spec_wall(Dir::South) == m1.grid[k].spec_wall(Dir::South));
        assert(m2.grid[k].spec_wall(Dir::West) == m1.grid[k].spec_wall(Dir::West));
    }
    assert(m2.grid =~= mid.update(ni, cn2));
    counting::lemma_count_open_es_update(m1.grid, ai, ca2);
    counting::lemma_count_open_es_update(mid, ni, cn2);
    counting::lemma_count_visited_update(m1.grid, ai, ca2);
    counting::lemma_count_visited_update(mid, ni, cn2);
    assert(mid[ni] == m1.grid[ni]);
    assert(ca2.visited == m1.grid[ai].visited);
    assert(cn2.visited == m1.grid[ni].visited);
    assert(ca2.spec_wall(d) == false);
    assert(cn2.spec_wall(d.spec_opposite()) == false);
    match d {
        Dir::North => {
            assert(ca2.spec_wall(Dir::East) == m1.grid[ai].spec_wall(Dir::East));
            assert(ca2.spec_wall(Dir::South) == m1.grid[ai].spec_wall(Dir::South));
            assert(cn2.spec_wall(Dir::East) == m1.grid[ni].spec_wall(Dir::East));
            assert(m1.grid[ni].spec_wall(Dir::South));
            assert(counting::open_es(ca2) == counting::open_es(m1.grid[ai]));
            assert(counting::open_es(cn2) == counting::open_es(m1.grid[ni]) + 1);
        },
        Dir::East => {
            assert(ca2.spec_wall(Dir::South) == m1.grid[ai].spec_wall(Dir::South));
            assert(m1.grid[ai].spec_wall(Dir::East));
            assert(cn2.spec_wall(Dir::East) == m1.grid[ni].spec_wall(Dir::East));
            assert(cn2.spec_wall(Dir::South) == m1.grid[ni].spec_wall(Dir::South));
            assert(counting::open_es(ca2) == counting::open_es(m1.grid[ai]) + 1);
            assert(counting::open_es(cn2) == counting::open_es(m1.grid[ni]));
        },
        Dir::South => {
            assert(ca2.spec_wall(Dir::East) == m1.grid[ai].spec_wall(Dir::East));
            assert(m1.grid[ai].spec_wall(Dir::South));
            assert(cn2.spec_wall(Dir::East) == m1.grid[ni].spec_wall(Dir::East));
            assert(cn2.spec_wall(Dir::South) == m1.grid[ni].spec_wall(Dir::South));
            assert(counting::open_es(ca2) == counting::open_es(m1.grid[ai]) + 1);
            assert(counting::open_es(cn2) == counting::open_es(m1.grid[ni]));
        },
        Dir::West => {
            assert(ca2.spec_wall(Dir::East) == m1.grid[ai].spec_wall(Dir::East));
            assert(ca2.spec_wall(Dir::South) == m1.grid[ai].spec_wall(Dir::South));
            assert(cn2.spec_wall(Dir::South) == m1.grid[ni].spec_wall(Dir::South));
            assert(m1.grid[ni].spec_wall(Dir::East));
            assert(counting::open_es(ca2) == counting::open_es(m1.grid[ai]));
            assert(counting::open_es(cn2) == counting::open_es(m1.grid[ni]) + 1);
        },
    }
}

/// Carving an east or south pair whose near-side flag stood raises the
/// east/south open count by exactly one, whatever the far side showed.
proof fn lemma_carve_count_es(m1: MazeView, m2: MazeView, a: (usize, usize), d: Dir)
    requires
        m1.wf(),
        m2.width == m1.width,
        m2.height == m1.height,
        m2.grid.len() == m1.grid.len(),
        m1.in_bounds_c(a),
        m1.in_bounds(a.0 + d.dx(), a.1 + d.dy()),
        d == Dir::East || d == Dir::South,
        m1.wall(a.0 as int, a.1 as int, d),
        !m2.wall(a.0 as int, a.1 as int, d),
        !m2.wall(a.0 + d.dx(), a.1 + d.dy(), d.spec_opposite()),
        forall|i: int|
            0 <= i < m1.grid.len() ==> (#[trigger] m2.grid[i]).visited == m1.grid[i].visited,
        forall|i: int, e: Dir|
            0 <= i < m1.grid.len() && !(i == m1.idx_c(a) && e == d) && !(i == m1.idx(
                a.0 + d.dx(),
                a.1 + d.dy(),
            ) && e == d.spec_opposite()) ==> (#[trigger] m2.grid[i].spec_wall(e))
                == m1.grid[i].spec_wall(e),
    ensures
        counting::count_open_es(m2.grid) == counting::count_open_es(m1.grid) + 1,
        counting::count_visited(m2.grid) == counting::count_visited(m1.grid),
{
    let w = m1.width as int;
    let h = m1.height as int;
    let ax = a.0 as int;
    let ay = a.1 as int;
    let bx = ax + d.dx();
    let by = ay + d.dy();
    let ai = m1.idx(ax, ay);
    let ni = m1.idx(bx, by);
    lemma_idx_bound(w, h, ax, ay);
    lemma_idx_bound(w, h, bx, by);
    if ai == ni {
        lemma_idx_injective(m1, ax, ay, bx, by);
    }
    assert(ai != ni);
    let ca2 = m2.grid[ai];
    let cn2 = m2.grid[ni];
    let mid = m1.grid.update(ai, ca2);
    assert forall|k: int| 0 <= k < m1.grid.len() && k != ai && k != ni implies m2.grid[k]
        == m1.grid[k] by {
        assert(m2.grid[k].spec_wall(Dir::North) == m1.grid[k].spec_wall(Dir::North));
        assert(m2.grid[k].spec_wall(Dir::East) == m1.grid[k].spec_wall(Dir::East));
        assert(m2.grid[k].spec_wall(Dir::South) == m1.grid[k].spec_wall(Dir::South));
        assert(m2.grid[k].spec_wall(Dir::West) == m1.grid[k].spec_wall(Dir::West));
    }
    assert(m2.grid =~= mid.update(ni, cn2));
    counting::lemma_count_open_es_update(m1.grid, ai, ca2);
    counting::lemma_count_open_es_update(mid, ni, cn2);
    counting::lemma_count_visited_update(m1.grid, ai, ca2);
    counting::lemma_count_visited_update(mid, ni, cn2);
    assert(mid[ni] == m1.grid[ni]);
    assert(ca2.visited == m1.grid[ai].visited);
    assert(cn2.visited == m1.grid[ni].visited);
    assert(ca2.spec_wall(d) == false);
    assert(cn2.spec_wall(d.spec_opposite()) == false);
    if d == Dir::East {
        assert(ca2.spec_wall(Dir::South) == m1.grid[ai].spec_wall(Dir::South));
        assert(m1.grid[ai].spec_wall(Dir::East));
        assert(cn2.spec_wall(Dir::East) == m1.grid[ni].spec_wall(Dir::East));
        assert(cn2.spec_wall(Dir::South) == m1.grid[ni].spec_wall(Dir::South));
        assert(counting::open_es(ca2) == counting::open_es(m1.grid[ai]) + 1);
        assert(counting::open_es(cn2) == counting::open_es(m1.grid[ni]));
    } else {
        assert(ca2.spec_wall(Dir::East) == m1.grid[ai].spec_wall(Dir::East));
        assert(m1.grid[ai].spec_wall(Dir::South));
        assert(cn2.spec_wall(Dir::East) == m1.grid[ni].spec_wall(Dir::East));
        assert(cn2.spec_wall(Dir::South) == m1.grid[ni].spec_wall(Dir::South));
        assert(counting::open_es(ca2) == counting::open_es(m1.grid[ai]) + 1);
        assert(counting::open_es(cn2) == counting::open_es(m1.grid[ni]));
    }
}

/// A generation candidate: an in-bounds, not yet visited neighbor of `a`,
/// remembered together with the direction that leads to it.
pub open spec fn valid_cand(m: MazeView, a: (usize, usize), e: ((usize, usize), Dir)) -> bool {
    &&& m.in_bounds_c(e.0)
    &&& !m.cell_c(e.0).visited
    &&& e.0.0 as int == a.0 + e.1.dx()
    &&& e.0.1 as int == a.1 + e.1.dy()
}

impl Maze {
    /// Carve the matched pair of wall flags between the in-bounds neighbors
    /// `a` and `b = a + d`, leaving every other flag and every visited mark
    /// in place.
    fn carve_pair(&mut self, a: (usize, usize), d: Dir)
        requires
            old(self)@.wf(),
            old(self)@.in_bounds_c(a),
            old(self)@.in_bounds(a.0 + d.dx(), a.1 + d.dy()),
        ensures
            final(self)@.wf(),
            final(self)@.width == old(self)@.width,
            final(self)@.height == old(self)@.height,
            final(self)@.start == old(self)@.start,
            final(self)@.end == old(self)@.end,
            final(self)@.grid.len() == old(self)@.grid.len(),
            !final(self)@.wall(a.0 as int, a.1 as int, d),
            !final(self)@.wall(a.0 + d.dx(), a.1 + d.dy(), d.spec_opposite()),
            // every other flag, and every visited mark, is untouched
            forall|i: int|
                0 <= i < old(self)@.grid.len() ==> (#[trigger] final(self)@.grid[i]).visited
                    == old(self)@.grid[i].visited,
            forall|i: int, e: Dir|
                0 <= i < old(self)@.grid.len() && !(i == old(self)@.idx_c(a) && e == d) && !(i
                    == old(self)@.idx(a.0 + d.dx(), a.1 + d.dy()) && e == d.spec_opposite())
                    ==> (#[trigger] final(self)@.grid[i].spec_wall(e)) == old(
                    self,
                )@.grid[i].spec_wall(e),
    {
        let nx: usize;
        let ny: usize;
        match d {
            Dir::North => {
                nx = a.0;
                ny = a.1 - 1;
            },
            Dir::East => {
                nx = a.0 + 1;
                ny = a.1;
            },
            Dir::South => {
                nx = a.0;
                ny = a.1 + 1;
            },
            Dir::West => {
                nx = a.0 - 1;
                ny = a.1;
            },
        }
        let ai = self.index_of(a.0, a.1);
        let ni = self.index_of(nx, ny);
        proof {
            self.view_parts();
            if self@.idx_c(a) == self@.idx_c((nx, ny)) {
                lemma_idx_injective(self@, a.0 as int, a.1 as int, nx as int, ny as int);
            }
            assert(ai != ni);
        }
        let ca = self.grid[ai];
        self.grid[ai] = ca.with_wall(d, false);
        proof {
            self.view_parts();
        }
        let cn = self.grid[ni];
        self.grid[ni] = cn.with_wall(d.opposite(), false);
        proof {
            self.view_parts();
        }
    }

    /// Carve a maze by randomized iterative depth-first exploration: reset
    /// the visited marks, then repeatedly open the wall pair toward a
    /// uniformly chosen unvisited neighbor of the stack's top cell,
    /// backtracking from dead ends. Afterwards every cell is visited; walls
    /// are only ever removed, in symmetric pairs; and a fully walled maze
    /// becomes a spanning tree with exactly `width * height - 1` carved
    /// connections: a perfect maze.
    pub fn generate_iterative(&mut self)
        requires
            old(self)@.wf(),
        ensures
            final(self)@.wf(),
            final(self)@.width == old(self)@.width,
            final(self)@.height == old(self)@.height,
            final(self)@.start == old(self)@.start,
            final(self)@.end == old(self)@.end,
            final(self)@.all_visited(),
            old(self)@.wall_sym() ==> final(self)@.wall_sym(),
            forall|x: int, y: int, d: Dir|
                #[trigger] old(self)@.open_to(x, y, d) ==> final(self)@.open_to(x, y, d),
            old(self)@.fully_walled() ==> final(self)@.carved_edges() == old(self)@.width * old(
                self,
            )@.height - 1,
            old(self)@.fully_walled() ==> final(self)@.borders_closed(),
    {
        proof {
            self.view_parts();
        }
        let ghost pre = self@;
        let ghost was_full = pre.fully_walled();
        proof {
            if was_full {
                lemma_fully_walled_sym(pre);
            }
        }
        // reset the visited marks, keeping every wall
        let n = self.grid.len();
        let mut i: usize = 0;
        while i < n
            invariant
                pre.wf(),
                self.width == pre.width,
                self.height == pre.height,
                self.start_point == pre.start,
                self.end_point == pre.end,
                self.grid@.len() == n,
                n == pre.grid.len(),
                i <= n,
                forall|j: int| 0 <= j < n ==> same_walls(#[trigger] self.grid@[j], pre.grid[j]),
                forall|j: int| 0 <= j < i ==> !(#[trigger] self.grid@[j]).visited,
            decreases n - i,
        {
            let c = self.grid[i];
            self.grid[i] = c.with_visited(false);
            i += 1;
        }
        // mark the start cell and seed the stack
        proof {
            lemma_idx_bound(pre.width as int, pre.height as int, 0, 0);
        }
        let ghost g_reset = self.grid@;
        let c0 = self.grid[0];
        self.grid[0] = c0.with_visited(true);
        let mut stack: Vec<(usize, usize)> = Vec::new();
        stack.push((0, 0));
        proof {
            self.view_parts();
            counting::lemma_count_visited_zero(g_reset);
            counting::lemma_count_visited_update(g_reset, 0, self.grid@[0]);
            assert forall|j: int| 0 <= j < n implies same_walls(
                #[trigger] self@.grid[j],
                pre.grid[j],
            ) by {
                assert(same_walls(g_reset[j], pre.grid[j]));
            }
            if was_full {
                assert forall|j: int| 0 <= j < n implies (#[trigger] self@.grid[j]).fully_walled() by {
                    assert(same_walls(self@.grid[j], pre.grid[j]));
                }
                counting::lemma_count_open_es_zero(self@.grid);
            }
            assert(self@.idx(0, 0) == 0);
            assert(self@.cell(0, 0).visited);
            // at the outset the only visited cell, (0, 0), is on the stack
            assert(stack@[0] == (0usize, 0usize));
            assert forall|c: (usize, usize)|
                self@.in_bounds_c(c) && (#[trigger] self@.cell_c(c)).visited && !stack@.contains(
                    c,
                ) implies all_nbrs_visited(self@, c) by {
                lemma_idx_bound(
                    pre.width as int,
                    pre.height as int,
                    c.0 as int,
                    c.1 as int,
                );
                if self@.idx_c(c) == 0 {
                    lemma_idx_injective(self@, c.0 as int, c.1 as int, 0, 0);
                    assert(stack@.contains(c));
                } else {
                    assert(!g_reset[self@.idx_c(c)].visited);
                }
            }
            // the walls are untouched, so symmetry and openness carry over
            if pre.wall_sym() {
                assert forall|x: int, y: int, d: Dir|
                    self@.in_bounds(x, y) && self@.in_bounds(x + d.dx(), y + d.dy())
                        implies #[trigger] self@.wall(x, y, d) == self@.wall(
                        x + d.dx(),
                        y + d.dy(),
                        d.spec_opposite(),
                    ) by {
                    lemma_idx_bound(pre.width as int, pre.height as int, x, y);
                    lemma_idx_bound(pre.width as int, pre.height as int, x + d.dx(), y + d.dy());
                    lemma_same_walls(self@.grid[self@.idx(x, y)], pre.grid[pre.idx(x, y)], d);
                    lemma_same_walls(
                        self@.grid[self@.idx(x + d.dx(), y + d.dy())],
                        pre.grid[pre.idx(x + d.dx(), y + d.dy())],
                        d.spec_opposite(),
                    );
                    assert(pre.wall(x, y, d) == pre.wall(
                        x + d.dx(),
                        y + d.dy(),
                        d.spec_opposite(),
                    ));
                }
            }
            assert forall|x: int, y: int, d: Dir| #[trigger]
                pre.open_to(x, y, d) implies self@.open_to(x, y, d) by {
                lemma_idx_bound(pre.width as int, pre.height as int, x, y);
                lemma_same_walls(self@.grid[self@.idx(x, y)], pre.grid[pre.idx(x, y)], d);
            }
            if was_full {
                assert forall|c: (usize, usize)|
                    self@.in_bounds_c(c) && !(#[trigger] self@.cell_c(c)).visited
                        implies self@.cell_c(c).fully_walled() by {
                    lemma_idx_bound(pre.width as int, pre.height as int, c.0 as int, c.1 as int);
                    assert(same_walls(self@.grid[self@.idx_c(c)], pre.grid[self@.idx_c(c)]));
                }
                assert forall|x: int, y: int|
                    self@.in_bounds(x, y) && x == self@.width - 1 implies #[trigger] self@.wall(
                    x,
                    y,
                    Dir::East,
                ) by {
                    lemma_idx_bound(pre.width as int, pre.height as int, x, y);
                    assert(self@.grid[self@.idx(x, y)].fully_walled());
                }
                assert forall|x: int, y: int|
                    self@.in_bounds(x, y) && y == self@.height - 1 implies #[trigger] self@.wall(
                    x,
                    y,
                    Dir::South,
                ) by {
                    lemma_idx_bound(pre.width as int, pre.height as int, x, y);
                    assert(self@.grid[self@.idx(x, y)].fully_walled());
                }
            }
            counting::lemma_count_visited_bounds(self@.grid);
        }
        while stack.len() > 0
            invariant
                pre.wf(),
                was_full == pre.fully_walled(),
                was_full ==> pre.wall_sym(),
                self@.wf(),
                self@.width == pre.width,
                self@.height == pre.height,
                self@.start == pre.start,
                self@.end == pre.end,
                self@.grid.len() == pre.grid.len(),
                self@.cell(0, 0).visited,
                forall|k: int|
                    0 <= k < stack@.len() ==> self@.in_bounds_c(#[trigger] stack@[k])
                        && self@.cell_c(stack@[k]).visited,
                forall|c: (usize, usize)|
                    self@.in_bounds_c(c) && (#[trigger] self@.cell_c(c)).visited
                        && !stack@.contains(c) ==> all_nbrs_visited(self@, c),
                pre.wall_sym() ==> self@.wall_sym(),
                forall|x: int, y: int, d: Dir|
                    #[trigger] pre.open_to(x, y, d) ==> self@.open_to(x, y, d),
                was_full ==> forall|c: (usize, usize)|
                    self@.in_bounds_c(c) && !(#[trigger] self@.cell_c(c)).visited
                        ==> self@.cell_c(c).fully_walled(),
                was_full ==> counting::count_open_es(self@.grid) == counting::count_visited(
                    self@.grid,
                ) - 1,
                was_full ==> self@.borders_closed(),
                0 <= counting::count_visited(self@.grid) <= self@.grid.len(),
            decreases 2 * (self@.grid.len() - counting::count_visited(self@.grid)) + stack@.len(),
        {
            proof {
                self.view_parts();
            }
            let ghost stack_pre = stack@;
            let top = stack.pop().unwrap();
            let x = top.0;
            let y = top.1;
            // collect the unvisited in-bounds neighbors of the top cell
            let mut cands: Vec<((usize, usize), Dir)> = Vec::new();
            let mut di: usize = 0;
            while di < 4
                invariant
                    di <= 4,
                    self@.wf(),
                    self@.in_bounds(x as int, y as int),
                    forall|k: int|
                        0 <= k < cands@.len() ==> valid_cand(self@, (x, y), #[trigger] cands@[k]),
                    cands@.len() == 0 ==> forall|j: int|
                        0 <= j < di ==> {
                            let d = #[trigger] Dir::spec_from_index(j);
                            self@.in_bounds(x + d.dx(), y + d.dy()) ==> self@.cell(
                                x + d.dx(),
                                y + d.dy(),
                            ).visited
                        },
                decreases 4 - di,
            {
                let d = Dir::from_index(di);
                match self.neighbor_if(x, y, d) {
                    Some(b) => {
                        let bi = self.index_of(b.0, b.1);
                        proof {
                            self.view_parts();
                        }
                        if !self.grid[bi].visited {
                            cands.push((b, d));
                        }
                    },
                    None => {},
                }
                di += 1;
            }
            if cands.len() == 0 {
                // dead end: every neighbor is visited, so the cell retires
                proof {
                    self.view_parts();
                    assert(Dir::spec_from_index(0) == Dir::North);
                    assert(Dir::spec_from_index(1) == Dir::East);
                    assert(Dir::spec_from_index(2) == Dir::South);
                    assert(Dir::spec_from_index(3) == Dir::West);
                    assert(all_nbrs_visited(self@, top));
                    assert forall|c: (usize, usize)|
                        self@.in_bounds_c(c) && (#[trigger] self@.cell_c(c)).visited
                            && !stack@.contains(c) implies all_nbrs_visited(self@, c) by {
                        if stack_pre.contains(c) {
                            let k = choose|k: int| 0 <= k < stack_pre.len() && stack_pre[k] == c;
                            if k < stack_pre.len() - 1 {
                                assert(stack@[k] == c);
                                assert(stack@.contains(c));
                            } else {
                                assert(c == top);
                            }
                        }
                    }
                }
            } else {
                stack.push((x, y));
                let pick = rng::random_below(cands.len());
                let e = cands[pick];
                let b = e.0;
                let d = e.1;
                let ghost m0 = self@;
                let ghost stack_mid = stack@;
                // mark the chosen neighbor visited
                let bi = self.index_of(b.0, b.1);
                let cb = self.grid[bi];
                self.grid[bi] = cb.with_visited(true);
                stack.push(b);
                proof {
                    self.view_parts();
                    assert(bi as int == m0.idx_c(b));
                    assert(valid_cand(m0, (x, y), (b, d)));
                    assert(!m0.grid[bi as int].visited);
                    assert(self.grid@[bi as int].visited);
                    counting::lemma_count_visited_update(m0.grid, bi as int, self.grid@[bi as int]);
                    counting::lemma_count_open_es_update(m0.grid, bi as int, self.grid@[bi as int]);
                }
                let ghost g1 = self@;
                // open the boundary between the two cells, in a matched pair
                self.carve_pair((x, y), d);
                proof {
                    self.view_parts();
                    let m2 = self@;
                    let ai = g1.idx(x as int, y as int);
                    let ni = g1.idx(x + d.dx(), y + d.dy());
                    lemma_idx_bound(g1.width as int, g1.height as int, x as int, y as int);
                    lemma_idx_bound(g1.width as int, g1.height as int, x + d.dx(), y + d.dy());
                    assert(ni == bi as int);
                    // the mark changed no wall, so g1 mirrors m0 wall for wall
                    assert forall|i2: int, e2: Dir|
                        0 <= i2 < g1.grid.len() implies (#[trigger] g1.grid[i2].spec_wall(e2))
                        == m0.grid[i2].spec_wall(e2) by {
                        if i2 == bi as int {
                            assert(same_walls(g1.grid[i2], m0.grid[i2]));
                            lemma_same_walls(g1.grid[i2], m0.grid[i2], e2);
                        }
                    }
                    if pre.wall_sym() {
                        assert forall|px: int, py: int, pd: Dir|
                            g1.in_bounds(px, py) && g1.in_bounds(px + pd.dx(), py + pd.dy())
                                implies #[trigger] g1.wall(px, py, pd) == g1.wall(
                                px + pd.dx(),
                                py + pd.dy(),
                                pd.spec_opposite(),
                            ) by {
                            lemma_idx_bound(g1.width as int, g1.height as int, px, py);
                            lemma_idx_bound(
                                g1.width as int,
                                g1.height as int,
                                px + pd.dx(),
                                py + pd.dy(),
                            );
                            assert(m0.wall(px, py, pd) == m0.wall(
                                px + pd.dx(),
                                py + pd.dy(),
                                pd.spec_opposite(),
                            ));
                        }
                        assert(g1.wall_sym());
                        lemma_carve_sym(g1, m2, (x, y), d);
                    }
                    if was_full {
                        // the carved pair stood beforehand: the neighbor was
                        // unvisited and fully walled, and symmetry mirrors
                        // its flag onto the near side
                        assert(!m0.cell_c(b).visited);
                        assert(m0.cell_c(b).fully_walled());
                        assert(g1.wall(b.0 as int, b.1 as int, d.spec_opposite()));
                        assert(g1.wall(x as int, y as int, d)) by {
                            d.lemma_opposite();
                            assert(g1.wall_sym());
                        }
                        lemma_carve_count(g1, m2, (x, y), d);
                        assert(counting::count_open_es(m2.grid) == counting::count_open_es(m0.grid)
                            + 1);
                    }
                    counting::lemma_count_visited_same(g1.grid, m2.grid);
                    assert(counting::count_visited(m2.grid) == counting::count_visited(m0.grid)
                        + 1);
                    counting::lemma_count_visited_bounds(m2.grid);
                    // the stack only grew
                    assert(stack@ == stack_mid.push(b));
                    assert(stack_mid == stack_pre.subrange(0, stack_pre.len() - 1).push(top));
                    assert forall|c: (usize, usize)| stack_pre.contains(c) implies stack@.contains(
                        c,
                    ) by {
                        let k = choose|k: int| 0 <= k < stack_pre.len() && stack_pre[k] == c;
                        if k < stack_pre.len() - 1 {
                            assert(stack_mid[k] == c);
                            assert(stack@[k] == c);
                        } else {
                            assert(c == top);
                            assert(stack@[stack_mid.len() - 1] == c);
                        }
                    }
                    assert(stack@[stack@.len() - 1] == b);
                    assert(stack@[stack@.len() - 2] == top);
                    // walls were only removed, visits only added
                    assert forall|i2: int, e2: Dir|
                        0 <= i2 < g1.grid.len() && !(#[trigger] m0.grid[i2].spec_wall(e2))
                            implies !m2.grid[i2].spec_wall(e2) by {}
                    assert forall|i2: int|
                        0 <= i2 < g1.grid.len() && (#[trigger] m0.grid[i2]).visited
                            implies m2.grid[i2].visited by {}
                    assert(m2.grid[bi as int].visited);
                    assert forall|u: int, v: int|
                        m0.in_bounds(u, v) && (#[trigger] m0.cell(u, v)).visited
                            implies m2.cell(u, v).visited by {
                        lemma_idx_bound(m0.width as int, m0.height as int, u, v);
                    }
                    // the top cell and the fresh neighbor stay on the stack;
                    // everything else keeps its closure
                    assert forall|c: (usize, usize)|
                        m2.in_bounds_c(c) && (#[trigger] m2.cell_c(c)).visited
                            && !stack@.contains(c) implies all_nbrs_visited(m2, c) by {
                        lemma_idx_bound(m0.width as int, m0.height as int, c.0 as int, c.1 as int);
                        assert(c != b);
                        assert(c != top);
                        if c.0 as int == b.0 as int && c.1 as int == b.1 as int {
                            assert(false);
                        }
                        if m0.idx_c(c) == bi as int {
                            lemma_idx_injective(m0, c.0 as int, c.1 as int, b.0 as int, b.1 as int);
                            assert(false);
                        }
                        assert(m0.cell_c(c).visited);
                        if stack_pre.contains(c) {
                            assert(stack@.contains(c));
                            assert(false);
                        }
                        assert(all_nbrs_visited(m0, c));
                    }
                    // stack entries are visited cells
                    assert forall|k: int| 0 <= k < stack@.len() implies self@.in_bounds_c(
                        #[trigger] stack@[k],
                    ) && self@.cell_c(stack@[k]).visited by {
                        if k < stack_pre.len() - 1 {
                            assert(stack@[k] == stack_pre[k]);
                            lemma_idx_bound(
                                m0.width as int,
                                m0.height as int,
                                stack_pre[k].0 as int,
                                stack_pre[k].1 as int,
                            );
                        } else if k == stack@.len() - 2 {
                            assert(stack@[k] == top);
                            lemma_idx_bound(m0.width as int, m0.height as int, x as int, y as int);
                        } else {
                            assert(stack@[k] == b);
                        }
                    }
                    // unvisited cells keep all their walls
                    if was_full {
                        assert forall|c: (usize, usize)|
                            m2.in_bounds_c(c) && !(#[trigger] m2.cell_c(c)).visited
                                implies m2.cell_c(c).fully_walled() by {
                            let ci = m2.idx_c(c);
                            lemma_idx_bound(
                                m2.width as int,
                                m2.height as int,
                                c.0 as int,
                                c.1 as int,
                            );
                            if ci == ai {
                                lemma_idx_injective(g1, c.0 as int, c.1 as int, x as int, y as int);
                                assert(m0.cell_c(c).visited);
                                assert(false);
                            }
                            if ci == ni {
                                lemma_idx_injective(
                                    g1,
                                    c.0 as int,
                                    c.1 as int,
                                    x + d.dx(),
                                    y + d.dy(),
                                );
                                assert(m2.grid[ci].visited);
                                assert(false);
                            }
                            assert(m2.grid[ci] == m0.grid[ci]) by {
                                assert(m2.grid[ci].spec_wall(Dir::North) == g1.grid[ci].spec_wall(
                                    Dir::North,
                                ));
                                assert(m2.grid[ci].spec_wall(Dir::East) == g1.grid[ci].spec_wall(
                                    Dir::East,
                                ));
                                assert(m2.grid[ci].spec_wall(Dir::South) == g1.grid[ci].spec_wall(
                                    Dir::South,
                                ));
                                assert(m2.grid[ci].spec_wall(Dir::West) == g1.grid[ci].spec_wall(
                                    Dir::West,
                                ));
                                assert(g1.grid[ci] == m0.grid[ci]);
                            }
                            assert(!m0.cell_c(c).visited);
                        }
                    }
                    // borders stay closed: the carved pair is interior
                    if was_full {
                        d.lemma_opposite();
                        assert forall|px: int, py: int|
                            m2.in_bounds(px, py) && px == m2.width - 1 implies #[trigger] m2.wall(
                            px,
                            py,
                            Dir::East,
                        ) by {
                            let pi = m2.idx(px, py);
                            lemma_idx_bound(m2.width as int, m2.height as int, px, py);
                            if pi == ai && d == Dir::East {
                                lemma_idx_injective(g1, px, py, x as int, y as int);
                                assert(false);
                            }
                            if pi == ni && d == Dir::West {
                                lemma_idx_injective(g1, px, py, x + d.dx(), y + d.dy());
                                assert(false);
                            }
                            assert(m2.grid[pi].spec_wall(Dir::East) == m0.grid[pi].spec_wall(
                                Dir::East,
                            ));
                            assert(m0.wall(px, py, Dir::East));
                        }
                        assert forall|px: int, py: int|
                            m2.in_bounds(px, py) && py == m2.height - 1 implies #[trigger] m2.wall(
                            px,
                            py,
                            Dir::South,
                        ) by {
                            let pi = m2.idx(px, py);
                            lemma_idx_bound(m2.width as int, m2.height as int, px, py);
                            if pi == ai && d == Dir::South {
                                lemma_idx_injective(g1, px, py, x as int, y as int);
                                assert(false);
                            }
                            if pi == ni && d == Dir::North {
                                lemma_idx_injective(g1, px, py, x + d.dx(), y + d.dy());
                                assert(false);
                            }
                            assert(m2.grid[pi].spec_wall(Dir::South) == m0.grid[pi].spec_wall(
                                Dir::South,
                            ));
                            assert(m0.wall(px, py, Dir::South));
                        }
                    }
                    // openness is monotone across the whole step
                    assert forall|px: int, py: int, pd: Dir|
                        #[trigger] pre.open_to(px, py, pd) implies m2.open_to(px, py, pd) by {
                        assert(m0.open_to(px, py, pd));
                        lemma_idx_bound(m0.width as int, m0.height as int, px, py);
                        assert(!m0.grid[m0.idx(px, py)].spec_wall(pd));
                        assert(!m2.grid[m0.idx(px, py)].spec_wall(pd));
                    }
                }
            }
            proof {
                counting::lemma_count_visited_bounds(self@.grid);
            }
        }
        // the stack is empty: the visited region is closed under adjacency
        // and contains the corner, so it covers the whole grid
        proof {
            self.view_parts();
            let m = self@;
            assert forall|c: (usize, usize)|
                m.in_bounds_c(c) && (#[trigger] m.cell_c(c)).visited implies all_nbrs_visited(
                m,
                c,
            ) by {
                assert(!stack@.contains(c));
            }
            assert forall|i2: int| 0 <= i2 < m.grid.len() implies (#[trigger] m.grid[i2]).visited by {
                lemma_flat_coords(m, i2);
                lemma_visited_spreads(m, i2 % (m.width as int), i2 / (m.width as int));
            }
            if was_full {
                counting::lemma_count_visited_full(m.grid);
            }
        }
    }

    /// Carve a perfect maze, then attempt to remove a further batch of
    /// interior walls — a fixed fraction, eight in a hundred, of the cell
    /// count — to introduce cycles. Each attempt picks a uniformly random
    /// coordinate below the east and south borders and a fair coin between
    /// its east and south wall; a wall already open is skipped silently, so
    /// the fraction is a ceiling on the removals, not an exact count.
    /// Mazes one cell wide or tall have no such interior wall and keep
    /// their perfect shape.
    pub fn generate_with_loops(&mut self)
        requires
            old(self)@.wf(),
        ensures
            final(self)@.wf(),
            final(self)@.width == old(self)@.width,
            final(self)@.height == old(self)@.height,
            final(self)@.start == old(self)@.start,
            final(self)@.end == old(self)@.end,
            final(self)@.all_visited(),
            old(self)@.wall_sym() ==> final(self)@.wall_sym(),
            forall|x: int, y: int, d: Dir|
                #[trigger] old(self)@.open_to(x, y, d) ==> final(self)@.open_to(x, y, d),
            old(self)@.fully_walled() ==> final(self)@.carved_edges() >= old(self)@.width * old(
                self,
            )@.height - 1,
            old(self)@.fully_walled() ==> final(self)@.borders_closed(),
    {
        proof {
            self.view_parts();
        }
        let ghost pre = self@;
        let ghost was_full = pre.fully_walled();
        self.generate_iterative();
        let ghost mid = self@;
        if self.width >= 2 && self.height >= 2 {
            proof {
                self.view_parts();
            }
            let wh = self.width * self.height;
            proof {
                vstd::arithmetic::div_mod::lemma_fundamental_div_mod(wh as int, 100);
                vstd::arithmetic::div_mod::lemma_mod_bound(wh as int, 100);
            }
            let attempts = wh / 100 * 8 + wh % 100 * 8 / 100;
            let mut t: usize = 0;
            while t < attempts
                invariant
                    t <= attempts,
                    mid.wf(),
                    self@.wf(),
                    self@.width == mid.width,
                    self@.height == mid.height,
                    self@.start == mid.start,
                    self@.end == mid.end,
                    self@.grid.len() == mid.grid.len(),
                    self@.width >= 2,
                    self@.height >= 2,
                    forall|i: int|
                        0 <= i < mid.grid.len() ==> (#[trigger] self@.grid[i]).visited
                            == mid.grid[i].visited,
                    mid.wall_sym() ==> self@.wall_sym(),
                    forall|x: int, y: int, d: Dir|
                        #[trigger] mid.open_to(x, y, d) ==> self@.open_to(x, y, d),
                    counting::count_open_es(self@.grid) >= counting::count_open_es(mid.grid),
                    mid.borders_closed() ==> self@.borders_closed(),
                decreases attempts - t,
            {
                proof {
                    self.view_parts();
                }
                let x = rng::random_below(self.width - 1);
                let y = rng::random_below(self.height - 1);
                let ci = self.index_of(x, y);
                let go_east = rng::random_coin();
                let d = if go_east {
                    Dir::East
                } else {
                    Dir::South
                };
                let standing = if go_east {
                    self.grid[ci].east
                } else {
                    self.grid[ci].south
                };
                if standing {
                    let ghost m0 = self@;
                    self.carve_pair((x, y), d);
                    proof {
                        self.view_parts();
                        let m2 = self@;
                        let ai = m0.idx(x as int, y as int);
                        let ni = m0.idx(x + d.dx(), y + d.dy());
                        lemma_idx_bound(m0.width as int, m0.height as int, x as int, y as int);
                        lemma_idx_bound(m0.width as int, m0.height as int, x + d.dx(), y + d.dy());
                        if mid.wall_sym() {
                            lemma_carve_sym(m0, m2, (x, y), d);
                        }
                        lemma_carve_count_es(m0, m2, (x, y), d);
                        // visited marks are untouched
                        assert forall|i: int|
                            0 <= i < mid.grid.len() implies (#[trigger] m2.grid[i]).visited
                            == mid.grid[i].visited by {
                            assert(m2.grid[i].visited == m0.grid[i].visited);
                        }
                        // openness is monotone
                        assert forall|px: int, py: int, pd: Dir|
                            #[trigger] mid.open_to(px, py, pd) implies m2.open_to(px, py, pd) by {
                            assert(m0.open_to(px, py, pd));
                            lemma_idx_bound(m0.width as int, m0.height as int, px, py);
                            assert(!m0.grid[m0.idx(px, py)].spec_wall(pd));
                            assert(!m2.grid[m0.idx(px, py)].spec_wall(pd));
                        }
                        // the carved pair is interior, so the borders hold
                        if mid.borders_closed() {
                            d.lemma_opposite();
                            assert forall|px: int, py: int|
                                m2.in_bounds(px, py) && px == m2.width - 1
                                    implies #[trigger] m2.wall(px, py, Dir::East) by {
                                let pi = m2.idx(px, py);
                                lemma_idx_bound(m2.width as int, m2.height as int, px, py);
                                if pi == ai && d == Dir::East {
                                    lemma_idx_injective(m0, px, py, x as int, y as int);
                                    assert(false);
                                }
                                if pi == ni && d == Dir::West {
                                    assert(false);
                                }
                                assert(m2.grid[pi].spec_wall(Dir::East) == m0.grid[pi].spec_wall(
                                    Dir::East,
                                ));
                                assert(m0.wall(px, py, Dir::East));
                            }
                            assert forall|px: int, py: int|
                                m2.in_bounds(px, py) && py == m2.height - 1
                                    implies #[trigger] m2.wall(px, py, Dir::South) by {
                                let pi = m2.idx(px, py);
                                lemma_idx_bound(m2.width as int, m2.height as int, px, py);
                                if pi == ai && d == Dir::South {
                                    lemma_idx_injective(m0, px, py, x as int, y as int);
                                    assert(false);
                                }
                                if pi == ni && d == Dir::North {
                                    assert(false);
                                }
                                assert(m2.grid[pi].spec_wall(Dir::South) == m0.grid[pi].spec_wall(
                                    Dir::South,
                                ));
                                assert(m0.wall(px, py, Dir::South));
                            }
                        }
                    }
                }
                t += 1;
            }
        }
        proof {
            self.view_parts();
            // chain the two phases together for the caller
            assert forall|x: int, y: int, d: Dir| #[trigger]
                pre.open_to(x, y, d) implies self@.open_to(x, y, d) by {
                assert(mid.open_to(x, y, d));
            }
            assert forall|i: int|
                0 <= i < self@.grid.len() implies (#[trigger] self@.grid[i]).visited by {
                assert(mid.grid[i].visited);
            }
        }
    }
}

} // verus!
