//! Seeding a grid with random walls and smoothing it with a cellular automaton.

use vstd::prelude::*;
use crate::grid::NodeMap;
use crate::mapgen::{FLOOR, WALL};
use crate::rng::roll_percent;
use crate::walk::Pos;

verus! {

/// A wall with fewer wall neighbours than this crumbles into floor.
pub const DEATH_LIMIT: i32 = 3;

/// A floor cell with more wall neighbours than this fills in with wall.
pub const BIRTH_LIMIT: i32 = 4;

/// Every cell is wall or unlabelled floor.
pub open spec fn is_binary(g: NodeMap<i32>) -> bool {
    forall|p: (usize, usize)| #[trigger] g.contains(p) ==> g.at(p) == WALL || g.at(p) == FLOOR
}

/// `p` lies on the outer ring of `g`.
pub open spec fn on_border<C>(g: NodeMap<C>, p: (usize, usize)) -> bool {
    p.0 == 0 || p.0 == g.width - 1 || p.1 == 0 || p.1 == g.height - 1
}

/// 1 where `(x, y)` is outside `g` or a wall, 0 elsewhere.
pub open spec fn wall_weight(g: NodeMap<i32>, x: int, y: int) -> int {
    if 0 <= x < g.width && 0 <= y < g.height {
        if g.at((x as usize, y as usize)) == WALL {
            1
        } else {
            0
        }
    } else {
        1
    }
}

/// How many of the eight cells around `(x, y)` are wall, counting those off the grid as wall.
pub open spec fn alive_count(g: NodeMap<i32>, x: int, y: int) -> int {
    wall_weight(g, x - 1, y - 1) + wall_weight(g, x - 1, y) + wall_weight(g, x - 1, y + 1)
        + wall_weight(g, x, y - 1) + wall_weight(g, x, y + 1) + wall_weight(g, x + 1, y - 1)
        + wall_weight(g, x + 1, y) + wall_weight(g, x + 1, y + 1)
}

/// The value of a cell after one smoothing step, from its value and its wall count.
pub open spec fn next_state(cell: i32, alive: int) -> i32 {
    if cell == WALL {
        if alive < DEATH_LIMIT {
            FLOOR
        } else {
            WALL
        }
    } else if alive > BIRTH_LIMIT {
        WALL
    } else {
        FLOOR
    }
}

/// `r` is one smoothing step applied to `g`.
pub open spec fn is_automaton_step(g: NodeMap<i32>, r: NodeMap<i32>) -> bool {
    &&& r.wf()
    &&& r.width == g.width
    &&& r.height == g.height
    &&& forall|p: (usize, usize)| #[trigger]
        r.contains(p) ==> r.at(p) == next_state(g.at(p), alive_count(g, p.0 as int, p.1 as int))
}

/// The weight of the neighbour at `(x + dx - 1, y + dy - 1)`.
fn wall_or_outside(nm: &NodeMap<i32>, x: usize, y: usize, dx: usize, dy: usize) -> (r: i32)
    requires
        nm.wf(),
        nm.contains((x, y)),
        dx < 3,
        dy < 3,
    ensures
        r == wall_weight(*nm, x + dx - 1, y + dy - 1),
{
    if (dx == 0 && x == 0) || (dy == 0 && y == 0) {
        return 1;
    }
    if (dx == 2 && x + 1 >= nm.width) || (dy == 2 && y + 1 >= nm.height) {
        return 1;
    }
    let nx: usize = x + dx - 1;
    let ny: usize = y + dy - 1;
    if nm.get(&(nx, ny)) == WALL {
        1
    } else {
        0
    }
}

/// The wall count around an in-grid cell.
fn walls_around(nm: &NodeMap<i32>, x: usize, y: usize) -> (r: i32)
    requires
        nm.wf(),
        nm.contains((x, y)),
    ensures
        r == alive_count(*nm, x as int, y as int),
        0 <= r <= 8,
{
    wall_or_outside(nm, x, y, 0, 0) + wall_or_outside(nm, x, y, 0, 1) + wall_or_outside(
        nm,
        x,
        y,
        0,
        2,
    ) + wall_or_outside(nm, x, y, 1, 0) + wall_or_outside(nm, x, y, 1, 2) + wall_or_outside(
        nm,
        x,
        y,
        2,
        0,
    ) + wall_or_outside(nm, x, y, 2, 1) + wall_or_outside(nm, x, y, 2, 2)
}

/// Counts the walls among the eight neighbours of `p`, treating cells off the grid as wall.
pub fn count_alive_neighbours(nm: &NodeMap<i32>, p: &(i32, i32)) -> (r: i32)
    requires
        nm.wf(),
        0 <= p.0 < nm.width,
        0 <= p.1 < nm.height,
    ensures
        r == alive_count(*nm, p.0 as int, p.1 as int),
{
    walls_around(nm, p.0 as usize, p.1 as usize)
}

/// One smoothing step. Every cell is decided from the input grid alone, so the
/// order of the scan does not matter.
pub fn automaton(original: &NodeMap<i32>) -> (r: NodeMap<i32>)
    requires
        original.wf(),
    ensures
        is_automaton_step(*original, r),
{
    let mut nm = original.clone();
    let height = original.height;
    let width = original.width;
    let mut y: usize = 0;
    while y < height
        invariant
            nm.wf(),
            nm.width == width,
            nm.height == height,
            original.wf(),
            width == original.width,
            height == original.height,
            forall|p: (usize, usize)| #[trigger]
                nm.contains(p) && p.1 < y ==> nm.at(p) == next_state(
                    original.at(p),
                    alive_count(*original, p.0 as int, p.1 as int),
                ),
        decreases height - y,
    {
        let mut x: usize = 0;
        while x < width
            invariant
                nm.wf(),
                nm.width == width,
                nm.height == height,
                original.wf(),
                width == original.width,
                height == original.height,
                y < height,
                forall|p: (usize, usize)| #[trigger]
                    nm.contains(p) && (p.1 < y || (p.1 == y && p.0 < x)) ==> nm.at(p)
                        == next_state(
                        original.at(p),
                        alive_count(*original, p.0 as int, p.1 as int),
                    ),
            decreases width - x,
        {
            let alive = walls_around(original, x, y);
            let v = if original.get(&(x, y)) == WALL {
                if alive < DEATH_LIMIT {
                    FLOOR
                } else {
                    WALL
                }
            } else if alive > BIRTH_LIMIT {
                WALL
            } else {
                FLOOR
            };
            let ghost before = nm;
            nm.set(&(x, y), v);
            proof {
                assert forall|p: (usize, usize)| #[trigger]
                    nm.contains(p) && (p.1 < y || (p.1 == y && p.0 < x + 1)) implies nm.at(p)
                        == next_state(original.at(p), alive_count(*original, p.0 as int, p.1 as int)) by {
                    if p.0 == x && p.1 == y {
                        assert(p == (x, y));
                    } else {
                        assert(before.contains(p));
                    }
                }
            }
            x = x + 1;
        }
        y = y + 1;
    }
    nm
}

/// Overwrites every cell on the outer ring with a clone of `c`.
pub fn fill_edges_with<C: Clone>(nm: &mut NodeMap<C>, c: C)
    requires
        old(nm).wf(),
    ensures
        final(nm).wf(),
        final(nm).width == old(nm).width,
        final(nm).height == old(nm).height,
        forall|p: (usize, usize)| #[trigger]
            final(nm).contains(p) ==> if on_border(*old(nm), p) {
                cloned(c, final(nm).at(p))
            } else {
                final(nm).at(p) == old(nm).at(p)
            },
{
    let height = nm.height;
    let width = nm.width;
    let ghost start = *nm;
    let mut y: usize = 0;
    while y < height
        invariant
            nm.wf(),
            nm.width == width,
            nm.height == height,
            start.width == width,
            start.height == height,
            forall|p: (usize, usize)| #[trigger]
                nm.contains(p) ==> if on_border(start, p) && p.1 < y {
                    cloned(c, nm.at(p))
                } else {
                    nm.at(p) == start.at(p)
                },
        decreases height - y,
    {
        let mut x: usize = 0;
        while x < width
            invariant
                nm.wf(),
                nm.width == width,
                nm.height == height,
                start.width == width,
                start.height == height,
                y < height,
                forall|p: (usize, usize)| #[trigger]
                    nm.contains(p) ==> if on_border(start, p) && (p.1 < y || (p.1 == y && p.0
                        < x)) {
                        cloned(c, nm.at(p))
                    } else {
                        nm.at(p) == start.at(p)
                    },
            decreases width - x,
        {
            let ghost before = *nm;
            if x == 0 || x == width - 1 || y == 0 || y == height - 1 {
                let cc = c.clone();
                assert(cloned(c, cc));
                nm.set(&(x, y), cc);
            }
            proof {
                assert forall|p: (usize, usize)| #[trigger] nm.contains(p) implies if on_border(start, p)
                    && (p.1 < y || (p.1 == y && p.0 < x + 1)) {
                    cloned(c, nm.at(p))
                } else {
                    nm.at(p) == start.at(p)
                } by {
                    assert(before.contains(p));
                    if p.0 == x && p.1 == y {
                        assert(p == (x, y));
                    }
                }
            }
            x = x + 1;
        }
        y = y + 1;
    }
}

/// Turns one draw per cell, in row-major order, into wall (a draw below
/// `probability`) or floor (any other draw).
pub fn binary_from_rolls(width: usize, height: usize, rolls: &Vec<usize>, probability: usize) -> (r:
    NodeMap<i32>)
    requires
        rolls@.len() == width * height,
    ensures
        r.wf(),
        r.width == width,
        r.height == height,
        forall|i: int|
            0 <= i < rolls@.len() ==> #[trigger] r.cells()[i] == if rolls@[i] < probability {
                WALL
            } else {
                FLOOR
            },
{
    let mut v: Vec<i32> = Vec::new();
    let mut i: usize = 0;
    while i < rolls.len()
        invariant
            v@.len() == i,
            i <= rolls@.len(),
            forall|j: int|
                0 <= j < i ==> #[trigger] v@[j] == if rolls@[j] < probability {
                    WALL
                } else {
                    FLOOR
                },
        decreases rolls@.len() - i,
    {
        if rolls[i] < probability {
            v.push(WALL);
        } else {
            v.push(FLOOR);
        }
        i = i + 1;
    }
    NodeMap::from_vec(width, height, v)
}

/// A grid of random walls and floor: each cell independently is wall with
/// `probability` percent chance.
pub fn new_binary_nodemap(width: usize, height: usize, probability: usize) -> (r: NodeMap<i32>)
    requires
        width * height <= usize::MAX,
    ensures
        r.wf(),
        r.width == width,
        r.height == height,
        is_binary(r),
        probability == 0 ==> forall|p: (usize, usize)| #[trigger] r.contains(p) ==> r.at(p) == FLOOR,
        probability >= 100 ==> forall|p: (usize, usize)| #[trigger] r.contains(p) ==> r.at(p) == WALL,
{
    let n: usize = width * height;
    let mut rolls: Vec<usize> = Vec::new();
    let mut i: usize = 0;
    while i < n
        invariant
            rolls@.len() == i,
            i <= n,
            forall|j: int| 0 <= j < i ==> #[trigger] rolls@[j] < 100,
        decreases n - i,
    {
        rolls.push(roll_percent());
        i = i + 1;
    }
    let r = binary_from_rolls(width, height, &rolls, probability);
    assert forall|p: (usize, usize)| #[trigger] r.contains(p) implies (r.at(p) == WALL || r.at(p) == FLOOR)
        && (probability == 0 ==> r.at(p) == FLOOR) && (probability >= 100 ==> r.at(p) == WALL) by {
        crate::grid::lemma_index_bounds(width as int, height as int, p.0 as int, p.1 as int);
        assert(rolls@[p.1 * width + p.0] < 100);
    }
    r
}

/// A freshly seeded cave: random walls at `fill_percent` percent, then a solid border.
pub fn seed(width: usize, height: usize, fill_percent: usize) -> (r: NodeMap<i32>)
    requires
        width * height <= usize::MAX,
    ensures
        r.wf(),
        r.width == width,
        r.height == height,
        is_binary(r),
        forall|p: (usize, usize)| #[trigger] r.contains(p) && on_border(r, p) ==> r.at(p) == WALL,
        fill_percent == 0 ==> forall|p: (usize, usize)| #[trigger]
            r.contains(p) && !on_border(r, p) ==> r.at(p) == FLOOR,
        fill_percent >= 100 ==> forall|p: (usize, usize)| #[trigger] r.contains(p) ==> r.at(p) == WALL,
{
    let mut nm = new_binary_nodemap(width, height, fill_percent);
    let ghost before = nm;
    fill_edges_with(&mut nm, WALL);
    assert forall|p: (usize, usize)| #[trigger] nm.contains(p) implies (nm.at(p) == WALL || nm.at(p)
        == FLOOR) && (on_border(nm, p) ==> nm.at(p) == WALL) && (!on_border(nm, p) ==> nm.at(p)
        == before.at(p)) && (fill_percent == 0 && !on_border(nm, p) ==> nm.at(p) == FLOOR) && (
    fill_percent >= 100 ==> nm.at(p) == WALL) by {
        assert(before.contains(p));
    }
    nm
}

/// A grid of walls only stays so under smoothing.
pub(crate) proof fn lemma_all_wall_step(g: NodeMap<i32>, r: NodeMap<i32>)
    requires
        is_automaton_step(g, r),
        forall|p: Pos| #[trigger] g.contains(p) ==> g.at(p) == WALL,
    ensures
        forall|p: Pos| #[trigger] r.contains(p) ==> r.at(p) == WALL,
{
    assert forall|p: Pos| #[trigger] r.contains(p) implies r.at(p) == WALL by {
        assert forall|x: int, y: int| #[trigger] wall_weight(g, x, y) == 1 by {
            if 0 <= x < g.width && 0 <= y < g.height {
                assert(g.contains((x as usize, y as usize)));
            }
        }
        assert(g.contains(p));
        assert(alive_count(g, p.0 as int, p.1 as int) == 8);
    }
}

/// Smoothing is deterministic: two results of one smoothing step on the same
/// grid hold the same cells.
pub proof fn lemma_automaton_deterministic(g: NodeMap<i32>, r1: NodeMap<i32>, r2: NodeMap<i32>)
    requires
        is_automaton_step(g, r1),
        is_automaton_step(g, r2),
    ensures
        r1.width == r2.width,
        r1.height == r2.height,
        r1.cells() == r2.cells(),
{
    assert forall|p: Pos| #[trigger] r1.contains(p) implies r1.at(p) == r2.at(p) by {
        assert(r2.contains(p));
    }
    r1.lemma_same_cells(&r2);
}

} // verus!
