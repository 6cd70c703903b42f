use vstd::prelude::*;
use crate::cell::Cell;

verus! {

/// How many of a cell's east and south boundaries are open. Summed over the
/// grid this counts each carved interior connection exactly once, as long as
/// the outer east and south borders stay walled.
pub open spec fn open_es(c: Cell) -> int {
    (if !c.east {
        1int
    } else {
        0int
    }) + (if !c.south {
        1int
    } else {
        0int
    })
}

/// Total number of open east or south boundaries over a cell sequence.
pub open spec fn count_open_es(s: Seq<Cell>) -> int
    decreases s.len(),
{
    if s.len() == 0 {
        0
    } else {
        count_open_es(s.drop_last()) + open_es(s.last())
    }
}

/// Number of cells carrying the visited mark.
pub open spec fn count_visited(s: Seq<Cell>) -> int
    decreases s.len(),
{
    if s.len() == 0 {
        0
    } else {
        count_visited(s.drop_last()) + (if s.last().visited {
            1int
        } else {
            0int
        })
    }
}

pub proof fn lemma_count_visited_bounds(s: Seq<Cell>)
    ensures
        0 <= count_visited(s) <= s.len(),
    decreases s.len(),
{
    if s.len() > 0 {
        lemma_count_visited_bounds(s.drop_last());
    }
}

/// An all-unvisited sequence counts zero visited cells.
pub proof fn lemma_count_visited_zero(s: Seq<Cell>)
    requires
        forall|i: int| 0 <= i < s.len() ==> !(#[trigger] s[i]).visited,
    ensures
        count_visited(s) == 0,
    decreases s.len(),
{
    if s.len() > 0 {
        lemma_count_visited_zero(s.drop_last());
    }
}

/// A fully walled sequence counts zero open boundaries.
pub proof fn lemma_count_open_es_zero(s: Seq<Cell>)
    requires
        forall|i: int| 0 <= i < s.len() ==> (#[trigger] s[i]).fully_walled(),
    ensures
        count_open_es(s) == 0,
    decreases s.len(),
{
    if s.len() > 0 {
        lemma_count_open_es_zero(s.drop_last());
    }
}

/// An all-visited sequence counts every cell.
pub proof fn lemma_count_visited_full(s: Seq<Cell>)
    requires
        forall|i: int| 0 <= i < s.len() ==> (#[trigger] s[i]).visited,
    ensures
        count_visited(s) == s.len(),
    decreases s.len(),
{
    if s.len() > 0 {
        lemma_count_visited_full(s.drop_last());
    }
}

/// Sequences that agree on every visited mark count the same.
pub proof fn lemma_count_visited_same(s1: Seq<Cell>, s2: Seq<Cell>)
    requires
        s1.len() == s2.len(),
        forall|i: int| 0 <= i < s1.len() ==> (#[trigger] s2[i]).visited == s1[i].visited,
    ensures
        count_visited(s2) == count_visited(s1),
    decreases s1.len(),
{
    if s1.len() > 0 {
        lemma_count_visited_same(s1.drop_last(), s2.drop_last());
        assert(s2.last().visited == s1.last().visited);
    }
}

/// Replacing one cell shifts the visited count by the difference at that
/// position alone.
pub proof fn lemma_count_visited_update(s: Seq<Cell>, i: int, c: Cell)
    requires
        0 <= i < s.len(),
    ensures
        count_visited(s.update(i, c)) == count_visited(s) - (if s[i].visited {
            1int
        } else {
            0int
        }) + (if c.visited {
            1int
        } else {
            0int
        }),
    decreases s.len(),
{
    let t = s.update(i, c);
    if i == s.len() - 1 {
        assert(t.drop_last() =~= s.drop_last());
    } else {
        assert(t.drop_last() =~= s.drop_last().update(i, c));
        lemma_count_visited_update(s.drop_last(), i, c);
    }
}

/// Replacing one cell shifts the open-boundary count by the difference at
/// that position alone.
pub proof fn lemma_count_open_es_update(s: Seq<Cell>, i: int, c: Cell)
    requires
        0 <= i < s.len(),
    ensures
        count_open_es(s.update(i, c)) == count_open_es(s) - open_es(s[i]) + open_es(c),
    decreases s.len(),
{
    let t = s.update(i, c);
    if i == s.len() - 1 {
        assert(t.drop_last() =~= s.drop_last());
    } else {
        assert(t.drop_last() =~= s.drop_last().update(i, c));
        lemma_count_open_es_update(s.drop_last(), i, c);
    }
}

} // verus!
