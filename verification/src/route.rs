use vstd::prelude::*;
use crate::direction::Dir;
use crate::maze::MazeView;

verus! {

/// A walk through the maze: at least one cell, every cell in bounds, and
/// every consecutive pair joined by a step through an absent wall.
pub open spec fn is_path(m: MazeView, p: Seq<(usize, usize)>) -> bool {
    &&& p.len() >= 1
    &&& forall|i: int| 0 <= i < p.len() ==> m.in_bounds_c(#[trigger] p[i])
    &&& forall|i: int| 0 <= i < p.len() - 1 ==> m.step_open(#[trigger] p[i], p[i + 1])
}

/// A walk that starts at `a` and ends at `b`.
pub open spec fn connects(m: MazeView, p: Seq<(usize, usize)>, a: (usize, usize), b: (
    usize,
    usize,
)) -> bool {
    &&& is_path(m, p)
    &&& p.first() == a
    &&& p.last() == b
}

/// Some walk joins `a` to `b`.
pub open spec fn reachable(m: MazeView, a: (usize, usize), b: (usize, usize)) -> bool {
    exists|p: Seq<(usize, usize)>| connects(m, p, a, b)
}

/// A route from start to end that no other route undercuts in cell count.
pub open spec fn shortest_route(m: MazeView, p: Seq<(usize, usize)>) -> bool {
    &&& connects(m, p, m.start, m.end)
    &&& forall|q: Seq<(usize, usize)>| connects(m, q, m.start, m.end) ==> p.len() <= q.len()
}

} // verus!
