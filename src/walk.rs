//! Walks over a grid between 4-adjacent cells, and the connectivity they define.

use vstd::prelude::*;
use crate::grid::NodeMap;
use crate::mapgen::{FLOOR, WALL};

verus! {

/// A cell coordinate `(x, y)`.
pub type Pos = (usize, usize);

/// `a` and `b` differ by one step up, down, left or right.
pub open spec fn adjacent(a: Pos, b: Pos) -> bool {
    ||| (a.0 == b.0 && (a.1 + 1 == b.1 || b.1 + 1 == a.1))
    ||| (a.1 == b.1 && (a.0 + 1 == b.0 || b.0 + 1 == a.0))
}

/// Whether a walk may step on a cell holding `v`: when `unlabelled_only`, only
/// on unlabelled floor; otherwise on anything but wall.
pub open spec fn passable(v: i32, unlabelled_only: bool) -> bool {
    if unlabelled_only {
        v == FLOOR
    } else {
        v != WALL
    }
}

/// `path` is a non-empty sequence of passable cells of `g`, each adjacent to the next.
pub open spec fn is_walk(g: NodeMap<i32>, path: Seq<Pos>, unlabelled_only: bool) -> bool {
    &&& path.len() > 0
    &&& forall|i: int|
        0 <= i < path.len() ==> g.contains(#[trigger] path[i]) && passable(
            g.at(path[i]),
            unlabelled_only,
        )
    &&& forall|i: int| 0 <= i < path.len() - 1 ==> adjacent(#[trigger] path[i], path[i + 1])
}

/// `path` is a non-empty sequence of cells of `g`, each adjacent to the next,
/// whatever the cells hold.
pub open spec fn is_grid_walk<C>(g: NodeMap<C>, path: Seq<Pos>) -> bool {
    &&& path.len() > 0
    &&& forall|i: int| 0 <= i < path.len() ==> g.contains(#[trigger] path[i])
    &&& forall|i: int| 0 <= i < path.len() - 1 ==> adjacent(#[trigger] path[i], path[i + 1])
}

/// The number of single steps between `a` and `b` on a grid with nothing in the way.
pub open spec fn manhattan(a: Pos, b: Pos) -> int {
    (if a.0 >= b.0 {
        a.0 - b.0
    } else {
        b.0 - a.0
    }) + (if a.1 >= b.1 {
        a.1 - b.1
    } else {
        b.1 - a.1
    })
}

/// A walk over passable cells of `g` leads from `a` to `b`.
pub open spec fn linked(g: NodeMap<i32>, a: Pos, b: Pos, unlabelled_only: bool) -> bool {
    exists|path: Seq<Pos>|
        #[trigger] is_walk(g, path, unlabelled_only) && path[0] == a && path.last() == b
}

pub proof fn lemma_linked_ends(g: NodeMap<i32>, a: Pos, b: Pos, u: bool)
    requires
        linked(g, a, b, u),
    ensures
        g.contains(a),
        g.contains(b),
        passable(g.at(a), u),
        passable(g.at(b), u),
{
    let path = choose|path: Seq<Pos>| #[trigger] is_walk(g, path, u) && path[0] == a && path.last() == b;
    assert(g.contains(path[0]));
    assert(g.contains(path[path.len() - 1]));
}

pub proof fn lemma_linked_refl(g: NodeMap<i32>, a: Pos, u: bool)
    requires
        g.contains(a),
        passable(g.at(a), u),
    ensures
        linked(g, a, a, u),
{
    let path = seq![a];
    assert(is_walk(g, path, u));
}

/// A walk extends by one adjacent passable cell.
pub proof fn lemma_linked_step(g: NodeMap<i32>, a: Pos, b: Pos, c: Pos, u: bool)
    requires
        linked(g, a, b, u),
        adjacent(b, c),
        g.contains(c),
        passable(g.at(c), u),
    ensures
        linked(g, a, c, u),
{
    let path = choose|path: Seq<Pos>| #[trigger] is_walk(g, path, u) && path[0] == a && path.last() == b;
    let p2 = path.push(c);
    assert forall|i: int| 0 <= i < p2.len() - 1 implies adjacent(#[trigger] p2[i], p2[i + 1]) by {
        if i < path.len() - 1 {
            assert(adjacent(path[i], path[i + 1]));
        }
    }
    assert(is_walk(g, p2, u));
}

pub proof fn lemma_linked_symm(g: NodeMap<i32>, a: Pos, b: Pos, u: bool)
    requires
        linked(g, a, b, u),
    ensures
        linked(g, b, a, u),
{
    let path = choose|path: Seq<Pos>| #[trigger] is_walk(g, path, u) && path[0] == a && path.last() == b;
    let n = path.len();
    let rev = Seq::new(n, |i: int| path[n - 1 - i]);
    assert forall|i: int| 0 <= i < rev.len() - 1 implies adjacent(#[trigger] rev[i], rev[i + 1]) by {
        assert(adjacent(path[n - 2 - i], path[n - 2 - i + 1]));
    }
    assert forall|i: int| 0 <= i < rev.len() implies g.contains(#[trigger] rev[i]) && passable(
        g.at(rev[i]),
        u,
    ) by {
        assert(g.contains(path[n - 1 - i]));
    }
    assert(is_walk(g, rev, u));
}

pub proof fn lemma_linked_trans(g: NodeMap<i32>, a: Pos, b: Pos, c: Pos, u: bool)
    requires
        linked(g, a, b, u),
        linked(g, b, c, u),
    ensures
        linked(g, a, c, u),
{
    let p1 = choose|path: Seq<Pos>| #[trigger] is_walk(g, path, u) && path[0] == a && path.last() == b;
    let p2 = choose|path: Seq<Pos>| #[trigger] is_walk(g, path, u) && path[0] == b && path.last() == c;
    let tail = p2.subrange(1, p2.len() as int);
    let p = p1 + tail;
    assert forall|i: int| 0 <= i < p.len() implies g.contains(#[trigger] p[i]) && passable(
        g.at(p[i]),
        u,
    ) by {
        if i < p1.len() {
            assert(g.contains(p1[i]));
        } else {
            assert(g.contains(p2[i - p1.len() + 1]));
        }
    }
    assert forall|i: int| 0 <= i < p.len() - 1 implies adjacent(#[trigger] p[i], p[i + 1]) by {
        if i < p1.len() - 1 {
            assert(adjacent(p1[i], p1[i + 1]));
        } else if i == p1.len() - 1 {
            assert(adjacent(p2[0], p2[1]));
        } else {
            assert(adjacent(p2[i - p1.len() + 1], p2[i - p1.len() + 2]));
        }
    }
    assert(is_walk(g, p, u));
    if tail.len() == 0 {
        assert(p =~= p1);
    } else {
        assert(p.last() == tail.last());
    }
}

/// Every cell of a walk is linked to the walk's first cell.
pub proof fn lemma_walk_prefix(g: NodeMap<i32>, path: Seq<Pos>, k: int, u: bool)
    requires
        is_walk(g, path, u),
        0 <= k < path.len(),
    ensures
        linked(g, path[0], path[k], u),
{
    let pre = path.subrange(0, k + 1);
    assert forall|i: int| 0 <= i < pre.len() - 1 implies adjacent(#[trigger] pre[i], pre[i + 1]) by {
        assert(adjacent(path[i], path[i + 1]));
    }
    assert forall|i: int| 0 <= i < pre.len() implies g.contains(#[trigger] pre[i]) && passable(
        g.at(pre[i]),
        u,
    ) by {
        assert(g.contains(path[i]));
    }
    assert(is_walk(g, pre, u));
}

/// Links survive when every passable cell of `g` is still passable in `h`.
pub proof fn lemma_linked_mono(g: NodeMap<i32>, h: NodeMap<i32>, a: Pos, b: Pos, u: bool, v: bool)
    requires
        linked(g, a, b, u),
        g.width == h.width,
        g.height == h.height,
        forall|p: Pos| #[trigger] g.contains(p) && passable(g.at(p), u) ==> passable(h.at(p), v),
    ensures
        linked(h, a, b, v),
{
    let path = choose|path: Seq<Pos>| #[trigger] is_walk(g, path, u) && path[0] == a && path.last() == b;
    assert forall|i: int| 0 <= i < path.len() implies h.contains(#[trigger] path[i]) && passable(
        h.at(path[i]),
        v,
    ) by {
        assert(g.contains(path[i]));
    }
    assert(is_walk(h, path, v));
}

} // verus!
