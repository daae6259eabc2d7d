//! Nearest-cell search over the whole grid, through the `pathfinding` crate.

use vstd::prelude::*;
use crate::grid::NodeMap;
use crate::walk::{is_grid_walk, manhattan, Pos};
use pathfinding::prelude::{bfs, Grid};

verus! {

/// Some cell of `g` holds a value of `needles`.
pub open spec fn holds_any(g: NodeMap<i32>, needles: Seq<i32>) -> bool {
    exists|p: Pos| #[trigger] g.contains(p) && needles.contains(g.at(p))
}

/// Whether cell `p` of `haystack` holds one of `needles`; false off the grid.
pub fn holds_one_of(haystack: &NodeMap<i32>, p: &Pos, needles: &Vec<i32>) -> (r: bool)
    requires
        haystack.wf(),
    ensures
        r == (haystack.contains(*p) && needles@.contains(haystack.at(*p))),
{
    if p.0 >= haystack.width || p.1 >= haystack.height {
        return false;
    }
    let v = haystack.get(p);
    let mut i: usize = 0;
    while i < needles.len()
        invariant
            i <= needles@.len(),
            v == haystack.at(*p),
            haystack.contains(*p),
            forall|j: int| 0 <= j < i ==> needles@[j] != v,
        decreases needles@.len() - i,
    {
        if needles[i] == v {
            assert(needles@[i as int] == v);
            return true;
        }
        i = i + 1;
    }
    false
}

/// Relies on pathfinding's `bfs` over a filled `Grid` of the same size, whose
/// neighbours are the up to four cells one step away: the result is a shortest
/// walk over the grid from `start` to a cell that holds one of `needles`, or
/// `None` when no cell does.
#[verifier::external_body]
pub(crate) fn search_closest_value(haystack: &NodeMap<i32>, start: &Pos, needles: &Vec<i32>) -> (r:
    Option<Vec<Pos>>)
    requires
        haystack.wf(),
        haystack.contains(*start),
    ensures
        r.is_none() <==> !holds_any(*haystack, needles@),
        r matches Some(path) ==> {
            &&& is_grid_walk(*haystack, path@)
            &&& path@[0] == *start
            &&& needles@.contains(haystack.at(path@.last()))
            &&& forall|q: Pos| #[trigger]
                haystack.contains(q) && needles@.contains(haystack.at(q)) ==> path@.len() - 1
                    <= manhattan(*start, q)
        },
{
    let mut grid = Grid::new(haystack.width, haystack.height);
    grid.fill();
    bfs(start, |p| grid.neighbours(*p), |p| holds_one_of(haystack, p, needles))
}

} // verus!
