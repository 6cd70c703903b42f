use vstd::prelude::*;
use vstd::seq_lib::*;
use vstd::set_lib::*;
use crate::direction::Dir;
use crate::maze::{lemma_idx_bound, lemma_idx_injective, Maze, MazeView};
use crate::route::{connects, is_path, reachable, shortest_route};

verus! {

/// The identifier of a pathfinding strategy.
#[derive(Clone, Copy, Debug, PartialEq, Eq, Structural)]
pub enum Algorithm {
    Bfs,
    Dfs,
}

/// What one pathfinding run reports: how many cells were expanded, the
/// reconstructed route, and every coordinate in discovery order.
pub struct SearchResult {
    pub steps: usize,
    pub path: Vec<(usize, usize)>,
    pub entire_path: Vec<(usize, usize)>,
}

/// Cell `c` has been discovered: its parent-pointer slot is filled.
pub open spec fn disc(m: MazeView, cf: Seq<Option<(usize, usize)>>, c: (usize, usize)) -> bool {
    cf[m.idx_c(c)] is Some
}

/// One discovered cell is sound: it has a recorded depth, and — unless it
/// is the start — a discovered parent one step away through an open wall,
/// one depth lower.
#[verifier::opaque]
pub open spec fn cf_node_ok(
    m: MazeView,
    cf: Seq<Option<(usize, usize)>>,
    depth: Map<int, int>,
    c: (usize, usize),
) -> bool {
    &&& depth.contains_key(m.idx_c(c))
    &&& depth[m.idx_c(c)] >= 0
    &&& (c != m.start ==> {
        let p = cf[m.idx_c(c)]->Some_0;
        &&& m.in_bounds_c(p)
        &&& disc(m, cf, p)
        &&& m.step_open(p, c)
        &&& depth.contains_key(m.idx_c(p))
        &&& depth[m.idx_c(p)] == depth[m.idx_c(c)] - 1
    })
}

/// The parent-pointer table invariant of both pathfinders: the start is its
/// own parent at depth zero, and every discovered cell is sound.
#[verifier::opaque]
pub open spec fn cf_inv(m: MazeView, cf: Seq<Option<(usize, usize)>>, depth: Map<int, int>) -> bool {
    &&& cf.len() == m.width * m.height
    &&& m.in_bounds_c(m.start)
    &&& cf[m.idx_c(m.start)] == Some(m.start)
    &&& depth.contains_key(m.idx_c(m.start))
    &&& depth[m.idx_c(m.start)] == 0
    &&& forall|c: (usize, usize)|
        m.in_bounds_c(c) && #[trigger] disc(m, cf, c) ==> cf_node_ok(m, cf, depth, c)
}

/// Every discovered cell's open-wall neighbors are discovered too; holds
/// when a search has exhausted its frontier.
pub open spec fn cf_closed(m: MazeView, cf: Seq<Option<(usize, usize)>>) -> bool {
    forall|a: (usize, usize), b: (usize, usize)|
        m.in_bounds_c(a) && disc(m, cf, a) && #[trigger] m.step_open(a, b) ==> disc(m, cf, b)
}

/// A walk from a discovered cell through a closed discovery region never
/// leaves it: its last cell is discovered as well.
pub proof fn lemma_closed_reachable(
    m: MazeView,
    cf: Seq<Option<(usize, usize)>>,
    q: Seq<(usize, usize)>,
)
    requires
        m.wf(),
        cf_closed(m, cf),
        is_path(m, q),
        disc(m, cf, q.first()),
    ensures
        disc(m, cf, q.last()),
    decreases q.len(),
{
    if q.len() > 1 {
        assert(m.step_open(q[0], q[1]));
        assert(disc(m, cf, q[1]));
        let q2 = q.drop_first();
        assert(is_path(m, q2)) by {
            assert forall|i: int| 0 <= i < q2.len() implies m.in_bounds_c(#[trigger] q2[i]) by {
                assert(q2[i] == q[i + 1]);
            }
            assert forall|i: int| 0 <= i < q2.len() - 1 implies m.step_open(
                #[trigger] q2[i],
                q2[i + 1],
            ) by {
                assert(q2[i] == q[i + 1]);
                assert(q2[i + 1] == q[i + 2]);
            }
        }
        lemma_closed_reachable(m, cf, q2);
        assert(q2.last() == q.last());
    }
}

/// A route to `b` extends by one open step into a route to `c`.
pub proof fn lemma_path_extend(
    m: MazeView,
    q: Seq<(usize, usize)>,
    a: (usize, usize),
    b: (usize, usize),
    c: (usize, usize),
)
    requires
        connects(m, q, a, b),
        m.step_open(b, c),
        m.in_bounds_c(c),
    ensures
        connects(m, q.push(c), a, c),
{
    let q2 = q.push(c);
    assert forall|i: int| 0 <= i < q2.len() implies m.in_bounds_c(#[trigger] q2[i]) by {
        if i < q.len() {
            assert(q2[i] == q[i]);
        }
    }
    assert forall|i: int| 0 <= i < q2.len() - 1 implies m.step_open(#[trigger] q2[i], q2[i + 1]) by {
        if i < q.len() - 1 {
            assert(q2[i] == q[i]);
            assert(q2[i + 1] == q[i + 1]);
        } else {
            assert(q2[i] == q.last());
            assert(q2[i + 1] == c);
        }
    }
    assert(q2.last() == c);
    assert(q2.first() == q.first());
}

/// Every discovered cell is reachable from the start: walking the parent
/// chain upward yields a route.
pub proof fn lemma_cf_reachable(
    m: MazeView,
    cf: Seq<Option<(usize, usize)>>,
    depth: Map<int, int>,
    c: (usize, usize),
)
    requires
        m.wf(),
        cf_inv(m, cf, depth),
        m.in_bounds_c(c),
        disc(m, cf, c),
    ensures
        reachable(m, m.start, c),
    decreases depth[m.idx_c(c)],
{
    reveal(cf_inv);
    reveal(cf_node_ok);
    assert(cf_node_ok(m, cf, depth, c));
    if c == m.start {
        let p = seq![c];
        assert(is_path(m, p));
        assert(connects(m, p, m.start, c));
    } else {
        let par = cf[m.idx_c(c)]->Some_0;
        assert(cf_node_ok(m, cf, depth, par));
        lemma_cf_reachable(m, cf, depth, par);
        let q = choose|q: Seq<(usize, usize)>| connects(m, q, m.start, par);
        lemma_path_extend(m, q, m.start, par, c);
        assert(connects(m, q.push(c), m.start, c));
    }
}

/// A duplicate-free sequence of in-bounds coordinates has no more entries
/// than the grid has cells.
pub proof fn lemma_distinct_coords(m: MazeView, s: Seq<(usize, usize)>)
    requires
        m.wf(),
        s.no_duplicates(),
        forall|i: int| 0 <= i < s.len() ==> m.in_bounds_c(#[trigger] s[i]),
    ensures
        s.len() <= m.width * m.height,
{
    let wh = m.width * m.height;
    let f = |c: (usize, usize)| m.idx_c(c);
    let t = s.map_values(f);
    assert(t.no_duplicates()) by {
        assert forall|i: int, j: int|
            0 <= i < t.len() && 0 <= j < t.len() && i != j implies t[i] != t[j] by {
            if t[i] == t[j] {
                lemma_idx_injective(
                    m,
                    s[i].0 as int,
                    s[i].1 as int,
                    s[j].0 as int,
                    s[j].1 as int,
                );
            }
        }
    }
    t.unique_seq_to_set();
    assert(t.to_set().subset_of(set_int_range(0, wh as int))) by {
        assert forall|e: int| t.to_set().contains(e) implies set_int_range(0, wh as int).contains(
            e,
        ) by {
            let i = choose|i: int| 0 <= i < t.len() && t[i] == e;
            lemma_idx_bound(m.width as int, m.height as int, s[i].0 as int, s[i].1 as int);
        }
    }
    lemma_int_range(0, wh as int);
    lemma_len_subset(t.to_set(), set_int_range(0, wh as int));
}

/// The coordinate one step from `c` toward `d`; meaningful when that
/// neighbor is in bounds.
pub open spec fn nbr_of(c: (usize, usize), d: Dir) -> (usize, usize) {
    (((c.0 + d.dx()) as usize), ((c.1 + d.dy()) as usize))
}

/// What both pathfinders promise: a route from start to end exactly when
/// one exists — and the bare end cell when none does — together with a
/// sound exploration trace and the number of cells expanded.
pub open spec fn search_post(m: MazeView, r: SearchResult) -> bool {
    &&& 1 <= r.steps <= m.width * m.height
    &&& (reachable(m, m.start, m.end) ==> connects(m, r.path@, m.start, m.end))
    &&& (!reachable(m, m.start, m.end) ==> r.path@ == seq![m.end])
    &&& r.entire_path@.len() >= 1
    &&& r.entire_path@[0] == m.start
    &&& r.entire_path@.no_duplicates()
    &&& r.entire_path@.len() <= m.width * m.height
    &&& forall|i: int|
        0 <= i < r.entire_path@.len() ==> m.in_bounds_c(#[trigger] r.entire_path@[i]) && reachable(
            m,
            m.start,
            r.entire_path@[i],
        )
    &&& (reachable(m, m.start, m.end) ==> r.entire_path@.contains(m.end))
}

/// The breadth-first pathfinder promises in addition that no other route
/// is shorter.
pub open spec fn search_post_shortest(m: MazeView, r: SearchResult) -> bool {
    &&& search_post(m, r)
    &&& (reachable(m, m.start, m.end) ==> shortest_route(m, r.path@))
}

/// The discovery order of the breadth-first search never steps down in
/// distance: cells are found level by level.
pub open spec fn dist_sorted(m: MazeView, dist: Map<int, int>, order: Seq<(usize, usize)>) -> bool {
    forall|i: int, j: int|
        0 <= i <= j < order.len() ==> dist[m.idx_c(#[trigger] order[i])] <= dist[m.idx_c(
            #[trigger] order[j],
        )]
}

/// Cell `c` is among the first `s` entries of the discovery order: it has
/// been dequeued and fully expanded.
pub open spec fn settled(order: Seq<(usize, usize)>, s: int, c: (usize, usize)) -> bool {
    exists|k: int| 0 <= k < s && #[trigger] order[k] == c
}

/// The first `s` discovered cells are fully expanded: each open direction
/// leads to a discovered neighbor at most one level further out.
pub open spec fn expanded_upto(
    m: MazeView,
    cf: Seq<Option<(usize, usize)>>,
    dist: Map<int, int>,
    order: Seq<(usize, usize)>,
    s: int,
) -> bool {
    forall|k: int, d: Dir|
        0 <= k < s && #[trigger] m.open_to(order[k].0 as int, order[k].1 as int, d) ==> disc(
            m,
            cf,
            nbr_of(order[k], d),
        ) && dist[m.idx_c(nbr_of(order[k], d))] <= dist[m.idx_c(order[k])] + 1
}

/// Bookkeeping shared by both searches: the discovery order lists exactly
/// the discovered cells, each once, starting with the start cell.
#[verifier::opaque]
pub open spec fn order_inv(
    m: MazeView,
    cf: Seq<Option<(usize, usize)>>,
    order: Seq<(usize, usize)>,
) -> bool {
    &&& order.len() >= 1
    &&& order[0] == m.start
    &&& order.no_duplicates()
    &&& order.len() <= m.width * m.height
    &&& forall|i: int|
        0 <= i < order.len() ==> m.in_bounds_c(#[trigger] order[i]) && disc(m, cf, order[i])
    &&& forall|c: (usize, usize)|
        m.in_bounds_c(c) && #[trigger] disc(m, cf, c) ==> order.contains(c)
}

/// Recording a fresh discovery — parent `cur`, one step away — keeps the
/// parent table sound.
pub proof fn lemma_discover(
    m: MazeView,
    cf1: Seq<Option<(usize, usize)>>,
    cf2: Seq<Option<(usize, usize)>>,
    depth1: Map<int, int>,
    depth2: Map<int, int>,
    cur: (usize, usize),
    b: (usize, usize),
)
    requires
        m.wf(),
        cf_inv(m, cf1, depth1),
        m.in_bounds_c(cur),
        disc(m, cf1, cur),
        m.in_bounds_c(b),
        !disc(m, cf1, b),
        m.step_open(cur, b),
        cf2 == cf1.update(m.idx_c(b), Some(cur)),
        depth2 == depth1.insert(m.idx_c(b), depth1[m.idx_c(cur)] + 1),
    ensures
        cf_inv(m, cf2, depth2),
        disc(m, cf2, b),
        b != m.start,
        depth2[m.idx_c(b)] == depth1[m.idx_c(cur)] + 1,
        forall|c: (usize, usize)|
            m.in_bounds_c(c) ==> (#[trigger] disc(m, cf2, c) <==> (disc(m, cf1, c) || c == b)),
        forall|i: int| i != m.idx_c(b) && depth1.contains_key(i) ==> depth2[i] == depth1[i],
{
    reveal(cf_inv);
    reveal(cf_node_ok);
    let bi = m.idx_c(b);
    lemma_idx_bound(m.width as int, m.height as int, b.0 as int, b.1 as int);
    lemma_idx_bound(m.width as int, m.height as int, cur.0 as int, cur.1 as int);
    assert(cur != b);
    if m.idx_c(cur) == bi {
        lemma_idx_injective(m, cur.0 as int, cur.1 as int, b.0 as int, b.1 as int);
    }
    assert(m.idx_c(cur) != bi);
    assert(b != m.start);
    if m.idx_c(m.start) == bi {
        lemma_idx_injective(m, m.start.0 as int, m.start.1 as int, b.0 as int, b.1 as int);
    }
    assert(m.idx_c(m.start) != bi);
    assert forall|c: (usize, usize)|
        m.in_bounds_c(c) implies (#[trigger] disc(m, cf2, c) <==> (disc(m, cf1, c) || c == b)) by {
        if c != b {
            lemma_idx_bound(m.width as int, m.height as int, c.0 as int, c.1 as int);
            if m.idx_c(c) == bi {
                lemma_idx_injective(m, c.0 as int, c.1 as int, b.0 as int, b.1 as int);
            }
            assert(cf2[m.idx_c(c)] == cf1[m.idx_c(c)]);
        }
    }
    assert(cf_node_ok(m, cf1, depth1, cur));
    assert forall|c: (usize, usize)|
        m.in_bounds_c(c) && #[trigger] disc(m, cf2, c) implies cf_node_ok(m, cf2, depth2, c) by {
        lemma_idx_bound(m.width as int, m.height as int, c.0 as int, c.1 as int);
        if c == b {
            assert(cf2[bi] == Some(cur));
            assert(disc(m, cf2, cur));
            assert(depth2[m.idx_c(cur)] == depth1[m.idx_c(cur)]);
            assert(depth2[bi] == depth1[m.idx_c(cur)] + 1);
            assert(depth2[bi] >= 0);
        } else {
            if m.idx_c(c) == bi {
                lemma_idx_injective(m, c.0 as int, c.1 as int, b.0 as int, b.1 as int);
            }
            assert(disc(m, cf1, c));
            assert(cf_node_ok(m, cf1, depth1, c));
            assert(depth2[m.idx_c(c)] == depth1[m.idx_c(c)]);
            if c != m.start {
                let p = cf1[m.idx_c(c)]->Some_0;
                assert(p != b);
                lemma_idx_bound(m.width as int, m.height as int, p.0 as int, p.1 as int);
                if m.idx_c(p) == bi {
                    lemma_idx_injective(m, p.0 as int, p.1 as int, b.0 as int, b.1 as int);
                }
                assert(cf2[m.idx_c(p)] == cf1[m.idx_c(p)]);
                assert(depth2[m.idx_c(p)] == depth1[m.idx_c(p)]);
                assert(cf2[m.idx_c(c)] == cf1[m.idx_c(c)]);
            }
        }
    }
}

/// Appending the fresh discovery to the discovery order keeps that order
/// sound: the newcomer was in no earlier slot.
pub proof fn lemma_discover_order(
    m: MazeView,
    cf1: Seq<Option<(usize, usize)>>,
    cf2: Seq<Option<(usize, usize)>>,
    order1: Seq<(usize, usize)>,
    order2: Seq<(usize, usize)>,
    b: (usize, usize),
)
    requires
        m.wf(),
        order_inv(m, cf1, order1),
        m.in_bounds_c(b),
        !disc(m, cf1, b),
        disc(m, cf2, b),
        b != m.start,
        forall|c: (usize, usize)|
            m.in_bounds_c(c) ==> (#[trigger] disc(m, cf2, c) <==> (disc(m, cf1, c) || c == b)),
        order2 == order1.push(b),
    ensures
        order_inv(m, cf2, order2),
        order2.len() <= m.width * m.height,
{
    reveal(order_inv);
    assert(order2[0] == order1[0]);
    assert(order2.no_duplicates()) by {
        assert forall|i: int, j: int|
            0 <= i < order2.len() && 0 <= j < order2.len() && i != j implies order2[i]
            != order2[j] by {
            if i < order1.len() && j < order1.len() {
                assert(order2[i] == order1[i]);
                assert(order2[j] == order1[j]);
            } else if i < order1.len() {
                assert(order2[j] == b);
                assert(disc(m, cf1, order1[i]));
            } else {
                assert(order2[i] == b);
                assert(disc(m, cf1, order1[j]));
            }
        }
    }
    lemma_distinct_coords(m, order2);
    assert forall|i: int|
        0 <= i < order2.len() implies m.in_bounds_c(#[trigger] order2[i]) && disc(
        m,
        cf2,
        order2[i],
    ) by {
        if i < order1.len() {
            assert(order2[i] == order1[i]);
            assert(disc(m, cf1, order1[i]));
        } else {
            assert(order2[i] == b);
        }
    }
    assert forall|c: (usize, usize)|
        m.in_bounds_c(c) && #[trigger] disc(m, cf2, c) implies order2.contains(c) by {
        if c == b {
            assert(order2[order2.len() - 1] == b);
        } else {
            assert(disc(m, cf1, c));
            let k = choose|k: int| 0 <= k < order1.len() && order1[k] == c;
            assert(order2[k] == c);
        }
    }
}

/// The freshly seeded tables — only the start discovered, as its own
/// parent at depth zero — are sound.
pub proof fn lemma_seed(
    m: MazeView,
    cf: Seq<Option<(usize, usize)>>,
    depth: Map<int, int>,
    order: Seq<(usize, usize)>,
)
    requires
        m.wf(),
        m.in_bounds_c(m.start),
        cf.len() == m.width * m.height,
        forall|j: int| 0 <= j < cf.len() && j != m.idx_c(m.start) ==> cf[j] is None,
        cf[m.idx_c(m.start)] == Some(m.start),
        depth == Map::<int, int>::empty().insert(m.idx_c(m.start), 0),
        order == seq![m.start],
    ensures
        cf_inv(m, cf, depth),
        order_inv(m, cf, order),
{
    reveal(cf_inv);
    reveal(cf_node_ok);
    reveal(order_inv);
    lemma_idx_bound(m.width as int, m.height as int, m.start.0 as int, m.start.1 as int);
    assert forall|c: (usize, usize)|
        m.in_bounds_c(c) && #[trigger] disc(m, cf, c) implies cf_node_ok(m, cf, depth, c) by {
        lemma_idx_bound(m.width as int, m.height as int, c.0 as int, c.1 as int);
        if m.idx_c(c) != m.idx_c(m.start) {
            assert(cf[m.idx_c(c)] is None);
        } else {
            lemma_idx_injective(
                m,
                c.0 as int,
                c.1 as int,
                m.start.0 as int,
                m.start.1 as int,
            );
        }
    }
    assert forall|c: (usize, usize)|
        m.in_bounds_c(c) && #[trigger] disc(m, cf, c) implies order.contains(c) by {
        lemma_idx_bound(m.width as int, m.height as int, c.0 as int, c.1 as int);
        if m.idx_c(c) != m.idx_c(m.start) {
            assert(cf[m.idx_c(c)] is None);
        } else {
            lemma_idx_injective(
                m,
                c.0 as int,
                c.1 as int,
                m.start.0 as int,
                m.start.1 as int,
            );
            assert(order[0] == c);
        }
    }
}

/// The discovery order's promises, unfolded for a caller.
pub proof fn lemma_order_facts(
    m: MazeView,
    cf: Seq<Option<(usize, usize)>>,
    order: Seq<(usize, usize)>,
)
    requires
        order_inv(m, cf, order),
    ensures
        order.len() >= 1,
        order[0] == m.start,
        order.no_duplicates(),
        order.len() <= m.width * m.height,
        forall|i: int|
            0 <= i < order.len() ==> m.in_bounds_c(#[trigger] order[i]) && disc(m, cf, order[i]),
        forall|c: (usize, usize)|
            m.in_bounds_c(c) && #[trigger] disc(m, cf, c) ==> order.contains(c),
{
    reveal(order_inv);
}

/// Along any walk from the start, either every cell so far is expanded —
/// carrying the distance bound forward — or some cell on the walk is still
/// in the frontier at a distance not beyond its position.
pub proof fn lemma_bfs_reach(
    m: MazeView,
    cf: Seq<Option<(usize, usize)>>,
    dist: Map<int, int>,
    order: Seq<(usize, usize)>,
    s: int,
    q: Seq<(usize, usize)>,
)
    requires
        m.wf(),
        order_inv(m, cf, order),
        m.in_bounds_c(m.start),
        disc(m, cf, m.start),
        dist[m.idx_c(m.start)] == 0,
        0 <= s <= order.len(),
        expanded_upto(m, cf, dist, order, s),
        is_path(m, q),
        q.first() == m.start,
    ensures
        exists|i: int|
            0 <= i < q.len() && m.in_bounds_c(#[trigger] q[i]) && disc(m, cf, q[i])
                && dist[m.idx_c(q[i])] <= i && (i == q.len() - 1 || !settled(order, s, q[i])),
    decreases q.len(),
{
    if q.len() == 1 {
        assert(q[0] == m.start);
        assert(0 == q.len() - 1);
    } else {
        let qp = q.drop_last();
        assert(is_path(m, qp)) by {
            assert forall|i: int| 0 <= i < qp.len() implies m.in_bounds_c(#[trigger] qp[i]) by {
                assert(qp[i] == q[i]);
            }
            assert forall|i: int| 0 <= i < qp.len() - 1 implies m.step_open(
                #[trigger] qp[i],
                qp[i + 1],
            ) by {
                assert(qp[i] == q[i]);
                assert(qp[i + 1] == q[i + 1]);
            }
        }
        assert(qp.first() == q.first());
        lemma_bfs_reach(m, cf, dist, order, s, qp);
        let i = choose|i: int|
            0 <= i < qp.len() && m.in_bounds_c(#[trigger] qp[i]) && disc(m, cf, qp[i])
                && dist[m.idx_c(qp[i])] <= i && (i == qp.len() - 1 || !settled(order, s, qp[i]));
        assert(qp[i] == q[i]);
        if i == qp.len() - 1 {
            let c = q[i];
            if settled(order, s, c) {
                let k = choose|k: int| 0 <= k < s && #[trigger] order[k] == c;
                assert(m.step_open(q[i], q[i + 1]));
                let dd = choose|dd: Dir|
                    m.open_to(q[i].0 as int, q[i].1 as int, dd) && q[i + 1].0 as int == q[i].0
                        + dd.dx() && q[i + 1].1 as int == q[i].1 + dd.dy();
                assert(m.open_to(order[k].0 as int, order[k].1 as int, dd));
                assert(nbr_of(order[k], dd) == q[i + 1]);
                assert(disc(m, cf, q[i + 1]));
                assert(dist[m.idx_c(q[i + 1])] <= dist[m.idx_c(c)] + 1);
                assert(m.in_bounds_c(q[i + 1])) by {
                    assert(m.in_bounds(q[i].0 + dd.dx(), q[i].1 + dd.dy()));
                }
                assert(i + 1 == q.len() - 1);
            } else {
                assert(i == q.len() - 2 < q.len() - 1);
                assert(!settled(order, s, q[i]));
            }
        } else {
            assert(!settled(order, s, q[i]));
        }
    }
}

/// When the end cell comes up for expansion at position `s` of the
/// discovery order, its recorded distance undercuts every walk from start
/// to end: breadth-first search is optimal.
pub proof fn lemma_bfs_min(
    m: MazeView,
    cf: Seq<Option<(usize, usize)>>,
    dist: Map<int, int>,
    order: Seq<(usize, usize)>,
    s: int,
    q: Seq<(usize, usize)>,
)
    requires
        m.wf(),
        order_inv(m, cf, order),
        m.in_bounds_c(m.start),
        disc(m, cf, m.start),
        dist[m.idx_c(m.start)] == 0,
        0 <= s < order.len(),
        order[s] == m.end,
        expanded_upto(m, cf, dist, order, s),
        dist_sorted(m, dist, order),
        connects(m, q, m.start, m.end),
    ensures
        dist[m.idx_c(m.end)] <= q.len() - 1,
{
    lemma_bfs_reach(m, cf, dist, order, s, q);
    let i = choose|i: int|
        0 <= i < q.len() && m.in_bounds_c(#[trigger] q[i]) && disc(m, cf, q[i])
            && dist[m.idx_c(q[i])] <= i && (i == q.len() - 1 || !settled(order, s, q[i]));
    if i == q.len() - 1 {
        assert(q[i] == m.end);
    } else {
        assert(!settled(order, s, q[i]));
        lemma_order_facts(m, cf, order);
        assert(order.contains(q[i]));
        let k = choose|k: int| 0 <= k < order.len() && order[k] == q[i];
        assert(k >= s);
        assert(dist[m.idx_c(order[s])] <= dist[m.idx_c(order[k])]);
        assert(dist[m.idx_c(m.end)] <= dist[m.idx_c(q[i])]);
    }
}

impl Maze {
    /// Walk the parent pointers back from the end corner and return the
    /// route from start to end in forward order. Shared by both
    /// pathfinders; callable only once the end has been discovered.
    #[verifier::rlimit(100)]
    #[verifier::spinoff_prover]
    fn reconstruct(
        &self,
        cf: &Vec<Option<(usize, usize)>>,
        Ghost(depth): Ghost<Map<int, int>>,
    ) -> (p: Vec<(usize, usize)>)
        requires
            self@.wf(),
            cf_inv(self@, cf@, depth),
            self@.in_bounds_c(self@.end),
            disc(self@, cf@, self@.end),
        ensures
            connects(self@, p@, self@.start, self@.end),
            p@.len() == depth[self@.idx_c(self@.end)] + 1,
    {
        proof {
            self.view_parts();
        }
        let ghost m = self@;
        let mut rev: Vec<(usize, usize)> = Vec::new();
        let mut current: (usize, usize) = self.end_point;
        proof {
            reveal(cf_inv);
            reveal(cf_node_ok);
            assert(cf_node_ok(m, cf@, depth, current));
            assert(depth.contains_key(m.idx_c(current)));
            assert(depth[m.idx_c(current)] >= 0);
            assert(depth[m.idx_c(m.start)] == 0);
        }
        while current.0 != self.start_point.0 || current.1 != self.start_point.1
            invariant
                m == self@,
                m.wf(),
                cf_inv(m, cf@, depth),
                self.start_point == m.start,
                self.end_point == m.end,
                m.in_bounds_c(current),
                disc(m, cf@, current),
                depth.contains_key(m.idx_c(current)),
                depth[m.idx_c(current)] >= 0,
                depth[m.idx_c(m.start)] == 0,
                rev@.len() == depth[m.idx_c(m.end)] - depth[m.idx_c(current)],
                rev@.len() >= 1 ==> rev@[0] == m.end && m.step_open(current, rev@.last()),
                rev@.len() == 0 ==> current == m.end,
                forall|i: int| 0 <= i < rev@.len() ==> m.in_bounds_c(#[trigger] rev@[i]),
                forall|i: int| 0 <= i < rev@.len() - 1 ==> m.step_open(rev@[i + 1], #[trigger] rev@[i]),
            decreases depth[m.idx_c(current)],
        {
            proof {
                self.view_parts();
                reveal(cf_inv);
                reveal(cf_node_ok);
                assert(current != m.start);
                assert(cf_node_ok(m, cf@, depth, current));
            }
            rev.push(current);
            let i = self.index_of(current.0, current.1);
            let slot = cf[i];
            let prev = match slot {
                Some(prev) => prev,
                None => vstd::pervasive::unreached(),
            };
            proof {
                reveal(cf_inv);
                reveal(cf_node_ok);
                assert(prev == cf@[m.idx_c(current)]->Some_0);
                assert(m.in_bounds_c(prev));
                assert(disc(m, cf@, prev));
                assert(m.step_open(prev, current));
                assert(depth.contains_key(m.idx_c(prev)));
                assert(depth[m.idx_c(prev)] == depth[m.idx_c(current)] - 1);
                assert(cf_node_ok(m, cf@, depth, prev));
                assert(depth[m.idx_c(prev)] >= 0);
            }
            current = prev;
        }
        proof {
            assert(current == m.start);
        }
        let ghost rev_walk = rev@;
        rev.push(self.start_point);
        proof {
            assert(rev@ == rev_walk.push(m.start));
            assert(rev@.len() == depth[m.idx_c(m.end)] + 1);
            assert(rev@[0] == m.end || (rev_walk.len() == 0 && m.start == m.end));
            assert forall|i: int| 0 <= i < rev@.len() - 1 implies m.step_open(
                rev@[i + 1],
                #[trigger] rev@[i],
            ) by {
                if i < rev_walk.len() - 1 {
                    assert(rev@[i] == rev_walk[i]);
                    assert(rev@[i + 1] == rev_walk[i + 1]);
                } else {
                    assert(rev@[i] == rev_walk.last());
                    assert(rev@[i + 1] == m.start);
                    assert(m.step_open(current, rev_walk.last()));
                }
            }
        }
        // reverse into forward order
        let mut path: Vec<(usize, usize)> = Vec::new();
        let mut k = rev.len();
        while k > 0
            invariant
                k <= rev@.len(),
                path@.len() == rev@.len() - k,
                forall|j: int|
                    0 <= j < path@.len() ==> #[trigger] path@[j] == rev@[rev@.len() - 1 - j],
            decreases k,
        {
            k = k - 1;
            let c = rev[k];
            path.push(c);
        }
        proof {
            let n = rev@.len();
            assert(path@.len() == n);
            assert(path@[0] == rev@[n - 1]);
            assert(rev@[n - 1] == m.start);
            assert(path@[n - 1] == rev@[0]);
            if n == 1 {
                assert(current == m.end);
                assert(rev@[0] == m.start);
            }
            assert(path@[n - 1] == m.end);
            assert forall|i: int| 0 <= i < n implies m.in_bounds_c(#[trigger] path@[i]) by {
                assert(path@[i] == rev@[n - 1 - i]);
            }
            assert forall|i: int| 0 <= i < n - 1 implies m.step_open(
                #[trigger] path@[i],
                path@[i + 1],
            ) by {
                assert(path@[i] == rev@[n - 1 - i]);
                assert(path@[i + 1] == rev@[n - 2 - i]);
                assert(m.step_open(rev@[(n - 2 - i) + 1], rev@[n - 2 - i]));
            }
            assert(is_path(m, path@));
            assert(connects(m, path@, m.start, m.end));
        }
        path
    }

    /// Probe one direction from the expanded cell `cur`: if an open wall
    /// leads to an undiscovered neighbor, record it with parent `cur`.
    #[verifier::rlimit(100)]
    fn search_try(
        &self,
        cf: &mut Vec<Option<(usize, usize)>>,
        order: &mut Vec<(usize, usize)>,
        stack: &mut Vec<(usize, usize)>,
        Ghost(depth0): Ghost<Map<int, int>>,
        cur: (usize, usize),
        d: Dir,
    ) -> (depth_out: Ghost<Map<int, int>>)
        requires
            self@.wf(),
            old(cf)@.len() == self@.width * self@.height,
            cf_inv(self@, old(cf)@, depth0),
            order_inv(self@, old(cf)@, old(order)@),
            old(stack)@.no_duplicates(),
            forall|j: int|
                0 <= j < old(stack)@.len() ==> self@.in_bounds_c(#[trigger] old(stack)@[j]) && disc(
                    self@,
                    old(cf)@,
                    old(stack)@[j],
                ),
            self@.in_bounds_c(cur),
            disc(self@, old(cf)@, cur),
            !old(stack)@.contains(cur),
        ensures
            final(cf)@.len() == self@.width * self@.height,
            cf_inv(self@, final(cf)@, depth_out@),
            order_inv(self@, final(cf)@, final(order)@),
            final(stack)@.no_duplicates(),
            forall|j: int|
                0 <= j < final(stack)@.len() ==> self@.in_bounds_c(#[trigger] final(stack)@[j])
                    && disc(self@, final(cf)@, final(stack)@[j]),
            !final(stack)@.contains(cur),
            final(order)@.len() - final(stack)@.len() == old(order)@.len() - old(stack)@.len(),
            final(order)@.len() >= old(order)@.len(),
            forall|c: (usize, usize)|
                self@.in_bounds_c(c) && disc(self@, old(cf)@, c) ==> disc(self@, final(cf)@, c),
            forall|c: (usize, usize)| old(stack)@.contains(c) ==> final(stack)@.contains(c),
            forall|c: (usize, usize)|
                self@.in_bounds_c(c) && disc(self@, final(cf)@, c) && !disc(self@, old(cf)@, c)
                    ==> final(stack)@.contains(c) && c == nbr_of(cur, d),
            self@.open_to(cur.0 as int, cur.1 as int, d) ==> disc(
                self@,
                final(cf)@,
                nbr_of(cur, d),
            ),
            forall|i: int| 0 <= i < old(order)@.len() ==> final(order)@[i] == old(order)@[i],
    {
        proof {
            self.view_parts();
        }
        let ghost m = self@;
        match self.neighbor_if(cur.0, cur.1, d) {
            Some(b) => {
                let ci = self.index_of(cur.0, cur.1);
                proof {
                    self.view_parts();
                }
                if !self.grid[ci].wall(d) {
                    let bi = self.index_of(b.0, b.1);
                    if cf[bi].is_none() {
                        let ghost cf1 = cf@;
                        let ghost order1 = order@;
                        let ghost stack1 = stack@;
                        cf[bi] = Some(cur);
                        let ghost depth1 = depth0.insert(bi as int, depth0[ci as int] + 1);
                        order.push(b);
                        stack.push(b);
                        proof {
                            assert(m.step_open(cur, b)) by {
                                assert(m.open_to(cur.0 as int, cur.1 as int, d));
                            }
                            assert(!disc(m, cf1, b));
                            lemma_discover(m, cf1, cf@, depth0, depth1, cur, b);
                            lemma_discover_order(m, cf1, cf@, order1, order@, b);
                            assert(nbr_of(cur, d) == b);
                            assert(stack@.no_duplicates()) by {
                                assert forall|i: int, j: int|
                                    0 <= i < stack@.len() && 0 <= j < stack@.len() && i != j
                                        implies stack@[i] != stack@[j] by {
                                    if i < stack1.len() && j < stack1.len() {
                                        assert(stack@[i] == stack1[i]);
                                        assert(stack@[j] == stack1[j]);
                                    } else if i < stack1.len() {
                                        assert(stack@[j] == b);
                                        assert(disc(m, cf1, stack1[i]));
                                    } else {
                                        assert(stack@[i] == b);
                                        assert(disc(m, cf1, stack1[j]));
                                    }
                                }
                            }
                            assert(stack@[stack@.len() - 1] == b);
                            assert(cur != b);
                            assert(!stack@.contains(cur)) by {
                                if stack@.contains(cur) {
                                    let j = choose|j: int|
                                        0 <= j < stack@.len() && stack@[j] == cur;
                                    assert(stack1[j] == cur);
                                }
                            }
                            assert forall|c: (usize, usize)|
                                m.in_bounds_c(c) && disc(m, cf@, c) && !disc(m, cf1, c)
                                    implies stack@.contains(c) && c == nbr_of(cur, d) by {
                                assert(c == b);
                            }
                            assert forall|c: (usize, usize)| stack1.contains(c)
                                implies stack@.contains(c) by {
                                let j = choose|j: int| 0 <= j < stack1.len() && stack1[j] == c;
                                assert(stack@[j] == c);
                            }
                        }
                        Ghost(depth1)
                    } else {
                        proof {
                            assert(disc(m, cf@, b));
                            assert(nbr_of(cur, d) == b);
                        }
                        Ghost(depth0)
                    }
                } else {
                    proof {
                        assert(!m.open_to(cur.0 as int, cur.1 as int, d));
                    }
                    Ghost(depth0)
                }
            },
            None => {
                proof {
                    assert(!m.in_bounds(cur.0 + d.dx(), cur.1 + d.dy()));
                }
                Ghost(depth0)
            },
        }
    }

    /// Depth-first pathfinding: pop the most recently discovered cell,
    /// stop when the end comes up, otherwise discover its unvisited
    /// open-wall neighbors in the fixed {north, east, south, west} order
    /// and push them. The route found is a valid route but not always a
    /// shortest one. An unreachable end is not an error: the reported
    /// route is then the bare end cell, told apart from a found route by
    /// its first element not being the start.
    #[verifier::rlimit(100)]
    pub fn path_finding_dfs(&self) -> (r: SearchResult)
        requires
            self@.wf(),
        ensures
            search_post(self@, r),
    {
        proof {
            self.view_parts();
        }
        let ghost m = self@;
        let n = self.width * self.height;
        let mut cf: Vec<Option<(usize, usize)>> = Vec::new();
        let mut k: usize = 0;
        while k < n
            invariant
                k <= n,
                cf@.len() == k,
                forall|j: int| 0 <= j < k ==> cf@[j] is None,
            decreases n - k,
        {
            cf.push(None);
            k += 1;
        }
        let start = self.start_point;
        proof {
            lemma_idx_bound(m.width as int, m.height as int, 0, 0);
            assert(m.in_bounds_c(m.start));
        }
        let si = self.index_of(start.0, start.1);
        cf[si] = Some(start);
        let mut order: Vec<(usize, usize)> = Vec::new();
        order.push(start);
        let mut stack: Vec<(usize, usize)> = Vec::new();
        stack.push(start);
        let mut depth: Ghost<Map<int, int>> = Ghost(
            Map::<int, int>::empty().insert(m.idx_c(m.start), 0),
        );
        let mut steps: usize = 0;
        let mut found = false;
        proof {
            lemma_seed(m, cf@, depth@, order@);
            assert(stack@[0] == m.start);
            assert forall|a: (usize, usize), d: Dir|
                m.in_bounds_c(a) && disc(m, cf@, a) && !stack@.contains(a)
                    && #[trigger] m.open_to(a.0 as int, a.1 as int, d) implies disc(
                m,
                cf@,
                nbr_of(a, d),
            ) by {
                lemma_idx_bound(m.width as int, m.height as int, a.0 as int, a.1 as int);
                if m.idx_c(a) == si as int {
                    lemma_idx_injective(
                        m,
                        a.0 as int,
                        a.1 as int,
                        m.start.0 as int,
                        m.start.1 as int,
                    );
                    assert(stack@.contains(a));
                } else {
                    assert(cf@[m.idx_c(a)] is None);
                }
            }
            if disc(m, cf@, m.end) {
                lemma_idx_bound(m.width as int, m.height as int, m.end.0 as int, m.end.1 as int);
                if m.idx_c(m.end) == si as int {
                    lemma_idx_injective(
                        m,
                        m.end.0 as int,
                        m.end.1 as int,
                        m.start.0 as int,
                        m.start.1 as int,
                    );
                    assert(stack@.contains(m.end));
                } else {
                    assert(cf@[m.idx_c(m.end)] is None);
                }
            }
        }
        while stack.len() > 0
            invariant_except_break
                !found,
                forall|a: (usize, usize), d: Dir|
                    m.in_bounds_c(a) && disc(m, cf@, a) && !stack@.contains(a)
                        && #[trigger] m.open_to(a.0 as int, a.1 as int, d) ==> disc(
                        m,
                        cf@,
                        nbr_of(a, d),
                    ),
                disc(m, cf@, m.end) ==> stack@.contains(m.end),
            invariant
                m == self@,
                m.wf(),
                self.end_point == m.end,
                n as int == m.width * m.height,
                cf@.len() == n as int,
                cf_inv(m, cf@, depth@),
                order_inv(m, cf@, order@),
                stack@.no_duplicates(),
                forall|j: int|
                    0 <= j < stack@.len() ==> m.in_bounds_c(#[trigger] stack@[j]) && disc(
                        m,
                        cf@,
                        stack@[j],
                    ),
                steps as int == order@.len() - stack@.len(),
                1 <= order@.len() <= n as int,
            ensures
                1 <= steps <= m.width * m.height,
                found ==> disc(m, cf@, m.end),
                !found ==> stack@.len() == 0 && !disc(m, cf@, m.end),
                !found ==> forall|a: (usize, usize), d: Dir|
                    m.in_bounds_c(a) && disc(m, cf@, a) && #[trigger] m.open_to(
                        a.0 as int,
                        a.1 as int,
                        d,
                    ) ==> disc(m, cf@, nbr_of(a, d)),
                cf_inv(m, cf@, depth@),
                order_inv(m, cf@, order@),
            decreases 2 * (n - order@.len()) + stack@.len(),
        {
            proof {
                self.view_parts();
            }
            let ghost stack_at = stack@;
            let ghost order_at = order@;
            let cur = stack.pop().unwrap();
            steps += 1;
            proof {
                assert(cur == stack_at[stack_at.len() - 1]);
                assert(1 <= steps);
                lemma_order_facts(m, cf@, order@);
                assert(steps <= order@.len());
            }
            if cur.0 == self.end_point.0 && cur.1 == self.end_point.1 {
                found = true;
                proof {
                    assert(cur == m.end);
                }
                break;
            }
            proof {
                // the popped cell left the stack for good: no duplicates
                assert(!stack@.contains(cur)) by {
                    if stack@.contains(cur) {
                        let j = choose|j: int| 0 <= j < stack@.len() && stack@[j] == cur;
                        assert(stack_at[j] == cur);
                        assert(stack_at[stack_at.len() - 1] == cur);
                    }
                }
                assert forall|c: (usize, usize)| stack_at.contains(c) && c != cur
                    implies stack@.contains(c) by {
                    let j = choose|j: int| 0 <= j < stack_at.len() && stack_at[j] == c;
                    assert(j < stack_at.len() - 1);
                    assert(stack@[j] == c);
                }
            }
            let ghost cf0 = cf@;
            let ghost stack0 = stack@;
            depth = self.search_try(&mut cf, &mut order, &mut stack, depth, cur, Dir::North);
            let ghost cf1 = cf@;
            let ghost st1 = stack@;
            depth = self.search_try(&mut cf, &mut order, &mut stack, depth, cur, Dir::East);
            let ghost cf2 = cf@;
            let ghost st2 = stack@;
            depth = self.search_try(&mut cf, &mut order, &mut stack, depth, cur, Dir::South);
            let ghost cf3 = cf@;
            let ghost st3 = stack@;
            depth = self.search_try(&mut cf, &mut order, &mut stack, depth, cur, Dir::West);
            proof {
                // the expanded cell is settled: each open direction leads to
                // a discovered neighbor
                assert forall|dd: Dir|
                    #[trigger] m.open_to(cur.0 as int, cur.1 as int, dd) implies disc(
                    m,
                    cf@,
                    nbr_of(cur, dd),
                ) by {
                    lemma_idx_bound(
                        m.width as int,
                        m.height as int,
                        cur.0 + dd.dx(),
                        cur.1 + dd.dy(),
                    );
                    assert(m.in_bounds_c(nbr_of(cur, dd)));
                    match dd {
                        Dir::North => {
                            assert(disc(m, cf1, nbr_of(cur, dd)));
                            assert(disc(m, cf2, nbr_of(cur, dd)));
                            assert(disc(m, cf3, nbr_of(cur, dd)));
                            assert(disc(m, cf@, nbr_of(cur, dd)));
                        },
                        Dir::East => {
                            assert(disc(m, cf2, nbr_of(cur, dd)));
                            assert(disc(m, cf3, nbr_of(cur, dd)));
                            assert(disc(m, cf@, nbr_of(cur, dd)));
                        },
                        Dir::South => {
                            assert(disc(m, cf3, nbr_of(cur, dd)));
                            assert(disc(m, cf@, nbr_of(cur, dd)));
                        },
                        Dir::West => {
                            assert(disc(m, cf@, nbr_of(cur, dd)));
                        },
                    }
                }
                // closure is restored for every settled cell
                assert forall|a: (usize, usize), d: Dir|
                    m.in_bounds_c(a) && disc(m, cf@, a) && !stack@.contains(a)
                        && #[trigger] m.open_to(a.0 as int, a.1 as int, d) implies disc(
                    m,
                    cf@,
                    nbr_of(a, d),
                ) by {
                    lemma_idx_bound(m.width as int, m.height as int, a.0 + d.dx(), a.1 + d.dy());
                    if a != cur {
                        assert(disc(m, cf0, a)) by {
                            if !disc(m, cf2, a) {
                                assert(stack@.contains(a));
                            } else if !disc(m, cf1, a) {
                                assert(stack@.contains(a));
                            } else if !disc(m, cf0, a) {
                                assert(stack@.contains(a));
                            }
                        }
                        assert(!stack0.contains(a));
                        assert(disc(m, cf0, nbr_of(a, d)));
                    }
                }
                // a newly discovered end went onto the stack; a previously
                // discovered one stayed there
                assert(m.in_bounds_c(m.end));
                if disc(m, cf@, m.end) {
                    if disc(m, cf0, m.end) {
                        assert(stack_at.contains(m.end));
                        assert(m.end != cur);
                        assert(stack0.contains(m.end));
                        assert(st1.contains(m.end));
                        assert(st2.contains(m.end));
                        assert(st3.contains(m.end));
                        assert(stack@.contains(m.end));
                    } else if disc(m, cf1, m.end) {
                        assert(st1.contains(m.end));
                        assert(st2.contains(m.end));
                        assert(st3.contains(m.end));
                        assert(stack@.contains(m.end));
                    } else if disc(m, cf2, m.end) {
                        assert(st2.contains(m.end));
                        assert(st3.contains(m.end));
                        assert(stack@.contains(m.end));
                    } else if disc(m, cf3, m.end) {
                        assert(st3.contains(m.end));
                        assert(stack@.contains(m.end));
                    }
                }
                lemma_order_facts(m, cf@, order@);
            }
        }
        // assemble the result
        proof {
            assert(m.in_bounds_c(m.end));
            if !found {
                assert forall|a: (usize, usize), b2: (usize, usize)|
                    m.in_bounds_c(a) && disc(m, cf@, a) && #[trigger] m.step_open(a, b2)
                        implies disc(m, cf@, b2) by {
                    let dd = choose|dd: Dir|
                        m.open_to(a.0 as int, a.1 as int, dd) && b2.0 as int == a.0 + dd.dx()
                            && b2.1 as int == a.1 + dd.dy();
                    assert(nbr_of(a, dd) == b2);
                    assert(disc(m, cf@, nbr_of(a, dd)));
                }
            }
        }
        let path: Vec<(usize, usize)>;
        if found {
            path = self.reconstruct(&cf, depth);
            proof {
                assert(connects(m, path@, m.start, m.end));
                assert(reachable(m, m.start, m.end));
            }
        } else {
            proof {
                reveal(cf_inv);
                assert(disc(m, cf@, m.start));
                if reachable(m, m.start, m.end) {
                    let q = choose|q: Seq<(usize, usize)>| connects(m, q, m.start, m.end);
                    lemma_closed_reachable(m, cf@, q);
                    assert(false);
                }
            }
            let mut unfound: Vec<(usize, usize)> = Vec::new();
            unfound.push(self.end_point);
            proof {
                assert(unfound@ =~= seq![m.end]);
            }
            path = unfound;
        }
        let r = SearchResult { steps, path, entire_path: order };
        proof {
            lemma_order_facts(m, cf@, r.entire_path@);
            assert forall|i: int|
                0 <= i < r.entire_path@.len() implies m.in_bounds_c(#[trigger] r.entire_path@[i])
                && reachable(m, m.start, r.entire_path@[i]) by {
                lemma_cf_reachable(m, cf@, depth@, r.entire_path@[i]);
            }
            if reachable(m, m.start, m.end) {
                assert(disc(m, cf@, m.end));
                assert(r.entire_path@.contains(m.end));
            }
        }
        r
    }

    /// Probe one direction from the dequeued cell `cur` of the
    /// breadth-first search, recording a fresh neighbor at the next
    /// distance and keeping the discovery order sorted by distance.
    #[verifier::rlimit(100)]
    fn bfs_try(
        &self,
        cf: &mut Vec<Option<(usize, usize)>>,
        order: &mut Vec<(usize, usize)>,
        Ghost(dist0): Ghost<Map<int, int>>,
        Ghost(head): Ghost<int>,
        cur: (usize, usize),
        d: Dir,
    ) -> (dist_out: Ghost<Map<int, int>>)
        requires
            self@.wf(),
            old(cf)@.len() == self@.width * self@.height,
            cf_inv(self@, old(cf)@, dist0),
            order_inv(self@, old(cf)@, old(order)@),
            self@.in_bounds_c(cur),
            disc(self@, old(cf)@, cur),
            1 <= head <= old(order)@.len(),
            old(order)@[head - 1] == cur,
            dist_sorted(self@, dist0, old(order)@),
            forall|j: int|
                head <= j < old(order)@.len() ==> dist0[self@.idx_c(#[trigger] old(order)@[j])]
                    <= dist0[self@.idx_c(cur)] + 1,
        ensures
            final(cf)@.len() == self@.width * self@.height,
            cf_inv(self@, final(cf)@, dist_out@),
            order_inv(self@, final(cf)@, final(order)@),
            final(order)@.len() >= old(order)@.len(),
            forall|i: int| 0 <= i < old(order)@.len() ==> final(order)@[i] == old(order)@[i],
            forall|c: (usize, usize)|
                self@.in_bounds_c(c) && disc(self@, old(cf)@, c) ==> disc(self@, final(cf)@, c),
            forall|c: (usize, usize)|
                self@.in_bounds_c(c) && disc(self@, final(cf)@, c) && !disc(self@, old(cf)@, c)
                    ==> c == nbr_of(cur, d) && final(order)@[final(order)@.len() - 1] == c,
            self@.open_to(cur.0 as int, cur.1 as int, d) ==> disc(
                self@,
                final(cf)@,
                nbr_of(cur, d),
            ) && dist_out@[self@.idx_c(nbr_of(cur, d))] <= dist_out@[self@.idx_c(cur)] + 1,
            forall|c: (usize, usize)|
                self@.in_bounds_c(c) && disc(self@, old(cf)@, c) ==> dist_out@.contains_key(
                    self@.idx_c(c),
                ) && dist_out@[self@.idx_c(c)] == dist0[self@.idx_c(c)],
            dist_sorted(self@, dist_out@, final(order)@),
            forall|j: int|
                head <= j < final(order)@.len() ==> dist_out@[self@.idx_c(
                    #[trigger] final(order)@[j],
                )] <= dist_out@[self@.idx_c(cur)] + 1,
    {
        proof {
            self.view_parts();
        }
        let ghost m = self@;
        proof {
            assert forall|c: (usize, usize)|
                m.in_bounds_c(c) && disc(m, cf@, c) implies dist0.contains_key(m.idx_c(c)) by {
                reveal(cf_inv);
                reveal(cf_node_ok);
                assert(cf_node_ok(m, cf@, dist0, c));
            }
        }
        match self.neighbor_if(cur.0, cur.1, d) {
            Some(b) => {
                let ci = self.index_of(cur.0, cur.1);
                proof {
                    self.view_parts();
                }
                if !self.grid[ci].wall(d) {
                    let bi = self.index_of(b.0, b.1);
                    if cf[bi].is_none() {
                        let ghost cf1 = cf@;
                        let ghost order1 = order@;
                        cf[bi] = Some(cur);
                        let ghost dist1 = dist0.insert(bi as int, dist0[ci as int] + 1);
                        order.push(b);
                        proof {
                            reveal(cf_inv);
                            assert(m.step_open(cur, b)) by {
                                assert(m.open_to(cur.0 as int, cur.1 as int, d));
                            }
                            assert(!disc(m, cf1, b));
                            lemma_discover(m, cf1, cf@, dist0, dist1, cur, b);
                            lemma_discover_order(m, cf1, cf@, order1, order@, b);
                            assert(nbr_of(cur, d) == b);
                            assert(order@[order@.len() - 1] == b);
                            // distances of previously discovered cells stand
                            assert forall|c: (usize, usize)|
                                m.in_bounds_c(c) && disc(m, cf1, c) implies dist1.contains_key(
                                m.idx_c(c),
                            ) && dist1[m.idx_c(c)] == dist0[m.idx_c(c)] by {
                                assert(cf_node_ok(m, cf1, dist0, c)) by {
                                    reveal(cf_node_ok);
                                    assert(cf_inv(m, cf1, dist0));
                                }
                                assert(c != b);
                                if m.idx_c(c) == bi as int {
                                    lemma_idx_injective(
                                        m,
                                        c.0 as int,
                                        c.1 as int,
                                        b.0 as int,
                                        b.1 as int,
                                    );
                                }
                                reveal(cf_node_ok);
                            }
                            // the new entry keeps the order sorted: everyone
                            // before it is at most one level below
                            assert(dist1[m.idx_c(b)] == dist0[m.idx_c(cur)] + 1);
                            assert forall|i: int, j: int|
                                0 <= i <= j < order@.len() implies dist1[m.idx_c(
                                #[trigger] order@[i],
                            )] <= dist1[m.idx_c(#[trigger] order@[j])] by {
                                lemma_order_facts(m, cf1, order1);
                                if j < order1.len() {
                                    assert(order@[i] == order1[i]);
                                    assert(order@[j] == order1[j]);
                                } else {
                                    assert(order@[j] == b);
                                    if i < order1.len() {
                                        assert(order@[i] == order1[i]);
                                        assert(disc(m, cf1, order1[i]));
                                        if i <= head - 1 {
                                            assert(dist0[m.idx_c(order1[i])] <= dist0[m.idx_c(
                                                cur,
                                            )]);
                                        } else {
                                            assert(dist0[m.idx_c(order1[i])] <= dist0[m.idx_c(
                                                cur,
                                            )] + 1);
                                        }
                                    }
                                }
                            }
                            assert forall|j: int|
                                head <= j < order@.len() implies dist1[m.idx_c(
                                #[trigger] order@[j],
                            )] <= dist1[m.idx_c(cur)] + 1 by {
                                lemma_order_facts(m, cf1, order1);
                                if j < order1.len() {
                                    assert(order@[j] == order1[j]);
                                    assert(disc(m, cf1, order1[j]));
                                } else {
                                    assert(order@[j] == b);
                                }
                            }
                        }
                        Ghost(dist1)
                    } else {
                        proof {
                            assert(disc(m, cf@, b));
                            assert(nbr_of(cur, d) == b);
                            // an already discovered neighbor sits in the
                            // order somewhere, bounded like everyone else
                            lemma_order_facts(m, cf@, order@);
                            let k = choose|k: int| 0 <= k < order@.len() && order@[k] == b;
                            reveal(cf_inv);
                            reveal(cf_node_ok);
                            assert(dist0.contains_key(m.idx_c(b)));
                            if k <= head - 1 {
                                assert(dist0[m.idx_c(order@[k])] <= dist0[m.idx_c(
                                    order@[head - 1],
                                )]);
                            } else {
                                assert(dist0[m.idx_c(order@[k])] <= dist0[m.idx_c(cur)] + 1);
                            }
                            assert(dist0[m.idx_c(b)] <= dist0[m.idx_c(cur)] + 1);
                        }
                        Ghost(dist0)
                    }
                } else {
                    proof {
                        assert(!m.open_to(cur.0 as int, cur.1 as int, d));
                    }
                    Ghost(dist0)
                }
            },
            None => {
                proof {
                    assert(!m.in_bounds(cur.0 + d.dx(), cur.1 + d.dy()));
                }
                Ghost(dist0)
            },
        }
    }

    /// Breadth-first pathfinding: dequeue cells in discovery order, stop
    /// when the end comes up, otherwise discover the unvisited open-wall
    /// neighbors in the fixed {north, east, south, west} order. Cells are
    /// found level by level, so the route reconstructed from the parent
    /// pointers is a shortest route. An unreachable end is not an error:
    /// the reported route is then the bare end cell, told apart from a
    /// found route by its first element not being the start.
    #[verifier::rlimit(100)]
    pub fn path_finding_bfs(&self) -> (r: SearchResult)
        requires
            self@.wf(),
        ensures
            search_post_shortest(self@, r),
    {
        proof {
            self.view_parts();
        }
        let ghost m = self@;
        let n = self.width * self.height;
        let mut cf: Vec<Option<(usize, usize)>> = Vec::new();
        let mut k: usize = 0;
        while k < n
            invariant
                k <= n,
                cf@.len() == k,
                forall|j: int| 0 <= j < k ==> cf@[j] is None,
            decreases n - k,
        {
            cf.push(None);
            k += 1;
        }
        let start = self.start_point;
        proof {
            lemma_idx_bound(m.width as int, m.height as int, 0, 0);
            assert(m.in_bounds_c(m.start));
        }
        let si = self.index_of(start.0, start.1);
        cf[si] = Some(start);
        let mut order: Vec<(usize, usize)> = Vec::new();
        order.push(start);
        let mut dist: Ghost<Map<int, int>> = Ghost(
            Map::<int, int>::empty().insert(m.idx_c(m.start), 0),
        );
        let mut head: usize = 0;
        let mut steps: usize = 0;
        let mut found = false;
        let ghost mut s_end: int = 0;
        proof {
            lemma_seed(m, cf@, dist@, order@);
            if disc(m, cf@, m.end) {
                lemma_idx_bound(m.width as int, m.height as int, m.end.0 as int, m.end.1 as int);
                if m.idx_c(m.end) == si as int {
                    lemma_idx_injective(
                        m,
                        m.end.0 as int,
                        m.end.1 as int,
                        m.start.0 as int,
                        m.start.1 as int,
                    );
                    assert(order@[0] == m.end);
                } else {
                    assert(cf@[m.idx_c(m.end)] is None);
                }
            }
        }
        while head < order.len()
            invariant_except_break
                !found,
                expanded_upto(m, cf@, dist@, order@, head as int),
                disc(m, cf@, m.end) ==> exists|j: int|
                    head <= j < order@.len() && #[trigger] order@[j] == m.end,
            invariant
                m == self@,
                m.wf(),
                self.end_point == m.end,
                n as int == m.width * m.height,
                cf@.len() == n as int,
                cf_inv(m, cf@, dist@),
                order_inv(m, cf@, order@),
                1 <= order@.len() <= n as int,
                head <= order@.len(),
                steps == head,
                dist_sorted(m, dist@, order@),
                forall|j: int|
                    (head as int) < order@.len() && head <= j < order@.len() ==> dist@[m.idx_c(
                        #[trigger] order@[j],
                    )] <= dist@[m.idx_c(order@[head as int])] + 1,
                found ==> {
                    &&& 0 <= s_end < order@.len()
                    &&& order@[s_end] == m.end
                    &&& disc(m, cf@, m.end)
                    &&& expanded_upto(m, cf@, dist@, order@, s_end)
                    &&& steps >= 1
                },
            ensures
                1 <= steps <= m.width * m.height,
                found ==> 0 <= s_end < order@.len() && order@[s_end] == m.end && disc(m, cf@, m.end)
                    && expanded_upto(m, cf@, dist@, order@, s_end),
                !found ==> head as int == order@.len() && !disc(m, cf@, m.end) && expanded_upto(
                    m,
                    cf@,
                    dist@,
                    order@,
                    order@.len() as int,
                ),
                cf_inv(m, cf@, dist@),
                order_inv(m, cf@, order@),
                dist_sorted(m, dist@, order@),
            decreases 2 * (n - order@.len()) + (order@.len() - head),
        {
            proof {
                self.view_parts();
            }
            let cur = order[head];
            head += 1;
            steps += 1;
            proof {
                lemma_order_facts(m, cf@, order@);
                assert(m.in_bounds_c(cur));
                assert(disc(m, cf@, cur));
            }
            if cur.0 == self.end_point.0 && cur.1 == self.end_point.1 {
                found = true;
                proof {
                    s_end = head - 1;
                    assert(order@[s_end] == m.end);
                }
                break;
            }
            let ghost cf0 = cf@;
            let ghost o0 = order@;
            let ghost d0 = dist@;
            let ghost hh = head as int;
            proof {
                // the frontier ahead stays within one level of the cell
                // being expanded
                assert forall|j: int|
                    hh <= j < o0.len() implies d0[m.idx_c(#[trigger] o0[j])] <= d0[m.idx_c(cur)]
                    + 1 by {
                    assert(d0[m.idx_c(o0[(hh - 1) as int])] <= d0[m.idx_c(o0[j])]);
                }
            }
            dist = self.bfs_try(&mut cf, &mut order, dist, Ghost(hh), cur, Dir::North);
            let ghost cf1 = cf@;
            let ghost o1 = order@;
            let ghost d1 = dist@;
            dist = self.bfs_try(&mut cf, &mut order, dist, Ghost(hh), cur, Dir::East);
            let ghost cf2 = cf@;
            let ghost o2 = order@;
            let ghost d2 = dist@;
            dist = self.bfs_try(&mut cf, &mut order, dist, Ghost(hh), cur, Dir::South);
            let ghost cf3 = cf@;
            let ghost o3 = order@;
            let ghost d3 = dist@;
            dist = self.bfs_try(&mut cf, &mut order, dist, Ghost(hh), cur, Dir::West);
            proof {
                lemma_idx_bound(m.width as int, m.height as int, cur.0 as int, cur.1 as int);
                // distances recorded earlier never change
                assert forall|c: (usize, usize)|
                    m.in_bounds_c(c) && disc(m, cf0, c) implies disc(m, cf@, c) && dist@[m.idx_c(
                    c,
                )] == d0[m.idx_c(c)] by {
                    assert(disc(m, cf1, c) && d1[m.idx_c(c)] == d0[m.idx_c(c)]);
                    assert(disc(m, cf2, c) && d2[m.idx_c(c)] == d1[m.idx_c(c)]);
                    assert(disc(m, cf3, c) && d3[m.idx_c(c)] == d2[m.idx_c(c)]);
                }
                // the expanded cell is now settled: each open direction
                // leads to a discovered neighbor one level out at most
                assert forall|dd: Dir|
                    #[trigger] m.open_to(cur.0 as int, cur.1 as int, dd) implies disc(
                    m,
                    cf@,
                    nbr_of(cur, dd),
                ) && dist@[m.idx_c(nbr_of(cur, dd))] <= dist@[m.idx_c(cur)] + 1 by {
                    lemma_idx_bound(
                        m.width as int,
                        m.height as int,
                        cur.0 + dd.dx(),
                        cur.1 + dd.dy(),
                    );
                    assert(m.in_bounds_c(nbr_of(cur, dd)));
                    match dd {
                        Dir::North => {
                            assert(disc(m, cf1, nbr_of(cur, dd)));
                            assert(d1[m.idx_c(nbr_of(cur, dd))] <= d1[m.idx_c(cur)] + 1);
                            assert(disc(m, cf2, nbr_of(cur, dd)) && d2[m.idx_c(nbr_of(cur, dd))]
                                == d1[m.idx_c(nbr_of(cur, dd))]);
                            assert(disc(m, cf3, nbr_of(cur, dd)) && d3[m.idx_c(nbr_of(cur, dd))]
                                == d2[m.idx_c(nbr_of(cur, dd))]);
                            assert(disc(m, cf@, nbr_of(cur, dd)) && dist@[m.idx_c(nbr_of(cur, dd))]
                                == d3[m.idx_c(nbr_of(cur, dd))]);
                            assert(d1[m.idx_c(cur)] == d0[m.idx_c(cur)]);
                        },
                        Dir::East => {
                            assert(disc(m, cf2, nbr_of(cur, dd)));
                            assert(d2[m.idx_c(nbr_of(cur, dd))] <= d2[m.idx_c(cur)] + 1);
                            assert(disc(m, cf3, nbr_of(cur, dd)) && d3[m.idx_c(nbr_of(cur, dd))]
                                == d2[m.idx_c(nbr_of(cur, dd))]);
                            assert(disc(m, cf@, nbr_of(cur, dd)) && dist@[m.idx_c(nbr_of(cur, dd))]
                                == d3[m.idx_c(nbr_of(cur, dd))]);
                        },
                        Dir::South => {
                            assert(disc(m, cf3, nbr_of(cur, dd)));
                            assert(d3[m.idx_c(nbr_of(cur, dd))] <= d3[m.idx_c(cur)] + 1);
                            assert(disc(m, cf@, nbr_of(cur, dd)) && dist@[m.idx_c(nbr_of(cur, dd))]
                                == d3[m.idx_c(nbr_of(cur, dd))]);
                        },
                        Dir::West => {
                            assert(dist@[m.idx_c(nbr_of(cur, dd))] <= dist@[m.idx_c(cur)] + 1);
                        },
                    }
                }
                // every earlier settled cell keeps its expansion facts
                assert forall|k2: int, dd: Dir|
                    0 <= k2 < head as int && #[trigger] m.open_to(
                        order@[k2].0 as int,
                        order@[k2].1 as int,
                        dd,
                    ) implies disc(m, cf@, nbr_of(order@[k2], dd)) && dist@[m.idx_c(
                    nbr_of(order@[k2], dd),
                )] <= dist@[m.idx_c(order@[k2])] + 1 by {
                    assert(order@[k2] == o0[k2]);
                    if k2 < hh - 1 {
                        lemma_order_facts(m, cf0, o0);
                        assert(m.in_bounds_c(o0[k2]));
                        assert(disc(m, cf0, nbr_of(o0[k2], dd)));
                        assert(d0[m.idx_c(nbr_of(o0[k2], dd))] <= d0[m.idx_c(o0[k2])] + 1);
                        assert(m.in_bounds_c(nbr_of(o0[k2], dd))) by {
                            assert(m.in_bounds(o0[k2].0 + dd.dx(), o0[k2].1 + dd.dy()));
                        }
                    } else {
                        assert(order@[k2] == cur);
                    }
                }
                // a discovered end sits in the frontier
                assert(m.in_bounds_c(m.end));
                if disc(m, cf@, m.end) {
                    if disc(m, cf0, m.end) {
                        let j = choose|j: int|
                            hh - 1 <= j < o0.len() && #[trigger] o0[j] == m.end;
                        assert(j >= hh);
                        assert(order@[j] == m.end);
                    } else if disc(m, cf1, m.end) {
                        assert(o1[o1.len() - 1] == m.end);
                        assert(order@[o1.len() - 1] == m.end);
                        assert(o1.len() - 1 >= hh);
                    } else if disc(m, cf2, m.end) {
                        assert(o2[o2.len() - 1] == m.end);
                        assert(order@[o2.len() - 1] == m.end);
                        assert(o2.len() - 1 >= hh);
                    } else if disc(m, cf3, m.end) {
                        assert(o3[o3.len() - 1] == m.end);
                        assert(order@[o3.len() - 1] == m.end);
                        assert(o3.len() - 1 >= hh);
                    } else {
                        assert(order@[order@.len() - 1] == m.end);
                        assert(order@.len() - 1 >= hh);
                    }
                }
                // the frontier span carries over to the next head
                lemma_order_facts(m, cf@, order@);
                if (head as int) < order@.len() {
                    assert(d0[m.idx_c(cur)] <= dist@[m.idx_c(order@[head as int])]) by {
                        assert(order@[hh - 1] == cur);
                    }
                }
            }
        }
        // assemble the result
        proof {
            assert(m.in_bounds_c(m.end));
            if !found {
                assert forall|a: (usize, usize), b2: (usize, usize)|
                    m.in_bounds_c(a) && disc(m, cf@, a) && #[trigger] m.step_open(a, b2)
                        implies disc(m, cf@, b2) by {
                    lemma_order_facts(m, cf@, order@);
                    let kk = choose|kk: int| 0 <= kk < order@.len() && order@[kk] == a;
                    let dd = choose|dd: Dir|
                        m.open_to(a.0 as int, a.1 as int, dd) && b2.0 as int == a.0 + dd.dx()
                            && b2.1 as int == a.1 + dd.dy();
                    assert(m.open_to(order@[kk].0 as int, order@[kk].1 as int, dd));
                    assert(nbr_of(order@[kk], dd) == b2);
                    assert(disc(m, cf@, nbr_of(order@[kk], dd)));
                }
            }
        }
        let path: Vec<(usize, usize)>;
        if found {
            path = self.reconstruct(&cf, dist);
            proof {
                assert(connects(m, path@, m.start, m.end));
                assert(reachable(m, m.start, m.end));
                // no other route is shorter
                reveal(cf_inv);
                assert(disc(m, cf@, m.start));
                assert forall|q: Seq<(usize, usize)>|
                    connects(m, q, m.start, m.end) implies path@.len() <= q.len() by {
                    lemma_bfs_min(m, cf@, dist@, order@, s_end, q);
                }
                assert(shortest_route(m, path@));
            }
        } else {
            proof {
                reveal(cf_inv);
                assert(disc(m, cf@, m.start));
                if reachable(m, m.start, m.end) {
                    let q = choose|q: Seq<(usize, usize)>| connects(m, q, m.start, m.end);
                    lemma_closed_reachable(m, cf@, q);
                    assert(false);
                }
            }
            let mut unfound: Vec<(usize, usize)> = Vec::new();
            unfound.push(self.end_point);
            proof {
                assert(unfound@ =~= seq![m.end]);
            }
            path = unfound;
        }
        let r = SearchResult { steps, path, entire_path: order };
        proof {
            lemma_order_facts(m, cf@, r.entire_path@);
            assert forall|i: int|
                0 <= i < r.entire_path@.len() implies m.in_bounds_c(#[trigger] r.entire_path@[i])
                && reachable(m, m.start, r.entire_path@[i]) by {
                lemma_cf_reachable(m, cf@, dist@, r.entire_path@[i]);
            }
            if reachable(m, m.start, m.end) {
                assert(disc(m, cf@, m.end));
                assert(r.entire_path@.contains(m.end));
            }
        }
        r
    }

    /// Run the chosen pathfinding strategy on this maze. Both strategies
    /// make the same promises; the breadth-first one also promises a
    /// shortest route.
    pub fn solve(&self, algo: Algorithm) -> (r: SearchResult)
        requires
            self@.wf(),
        ensures
            search_post(self@, r),
            algo == Algorithm::Bfs ==> search_post_shortest(self@, r),
    {
        match algo {
            Algorithm::Bfs => self.path_finding_bfs(),
            Algorithm::Dfs => self.path_finding_dfs(),
        }
    }
}

/// A breadth-first result's route is never longer than a depth-first
/// result's route through the same maze, whenever both reach the end: the
/// breadth-first route undercuts every other route, the depth-first one
/// among them.
pub proof fn lemma_bfs_route_not_longer(m: MazeView, bfs: SearchResult, dfs: SearchResult)
    requires
        search_post_shortest(m, bfs),
        search_post(m, dfs),
        reachable(m, m.start, m.end),
    ensures
        bfs.path@.len() <= dfs.path@.len(),
{
    assert(connects(m, dfs.path@, m.start, m.end));
}

/// Repeated reads agree on the route when the end is unreachable: the
/// contract pins that route to the bare end cell.
pub proof fn lemma_unreachable_route_agrees(m: MazeView, r1: SearchResult, r2: SearchResult)
    requires
        search_post(m, r1),
        search_post(m, r2),
        !reachable(m, m.start, m.end),
    ensures
        r1.path@ == r2.path@,
{
}

/// Two breadth-first reads of the same maze report routes of the same
/// length: each undercuts the other.
pub proof fn lemma_bfs_route_length_agrees(m: MazeView, r1: SearchResult, r2: SearchResult)
    requires
        search_post_shortest(m, r1),
        search_post_shortest(m, r2),
        reachable(m, m.start, m.end),
    ensures
        r1.path@.len() == r2.path@.len(),
{
}

} // verus!
