//! Region labelling: flood fill of unlabelled floor, and the sizes of regions.

use vstd::prelude::*;
use crate::grid::NodeMap;
use crate::mapgen::{FLOOR, WALL};
use crate::smoothing::is_binary;
use crate::walk::{
    adjacent, is_walk, lemma_linked_ends, lemma_linked_mono, lemma_linked_refl, lemma_linked_step,
    lemma_linked_symm, lemma_linked_trans, lemma_walk_prefix, linked, passable, Pos,
};
use std::collections::VecDeque;

verus! {

/// How many items of `s` equal `v`.
pub open spec fn count_value(s: Seq<i32>, v: i32) -> nat
    decreases s.len(),
{
    if s.len() == 0 {
        0
    } else {
        count_value(s.drop_last(), v) + if s.last() == v {
            1nat
        } else {
            0nat
        }
    }
}

proof fn lemma_count_value_update(s: Seq<i32>, i: int, v: i32, w: i32)
    requires
        0 <= i < s.len(),
        s[i] == v,
        w != v,
    ensures
        count_value(s.update(i, w), v) + 1 == count_value(s, v),
    decreases s.len(),
{
    if i == s.len() - 1 {
        assert(s.update(i, w).drop_last() =~= s.drop_last());
    } else {
        lemma_count_value_update(s.drop_last(), i, v, w);
        assert(s.update(i, w).drop_last() =~= s.drop_last().update(i, w));
    }
}

proof fn lemma_count_value_bound(s: Seq<i32>, v: i32)
    ensures
        count_value(s, v) <= s.len(),
    decreases s.len(),
{
    if s.len() > 0 {
        lemma_count_value_bound(s.drop_last(), v);
    }
}

/// Unlabelled floor cell `p` of `m` that the fill from `s` reaches.
pub open spec fn floods(m: NodeMap<i32>, s: Pos, p: Pos) -> bool {
    linked(m, s, p, true)
}

/// The flood-fill relation between input `m`, start `s`, colour `color` and current grid `cur`.
spec fn fill_progress(m: NodeMap<i32>, cur: NodeMap<i32>, s: Pos, color: i32) -> bool {
    &&& cur.wf()
    &&& cur.width == m.width
    &&& cur.height == m.height
    &&& forall|p: Pos| #[trigger]
        cur.contains(p) ==> (cur.at(p) == m.at(p) || (m.at(p) == FLOOR && cur.at(p) == color))
    &&& forall|p: Pos| #[trigger]
        cur.contains(p) && m.at(p) == FLOOR && cur.at(p) != FLOOR ==> floods(m, s, p)
}

/// Along a walk of unlabelled floor of `m` from a coloured cell, every cell is
/// coloured when no coloured cell has an unlabelled neighbour.
proof fn lemma_cover_walk(m: NodeMap<i32>, cur: NodeMap<i32>, path: Seq<Pos>, k: int)
    requires
        cur.width == m.width,
        cur.height == m.height,
        is_walk(m, path, true),
        0 <= k < path.len(),
        cur.at(path[0]) != FLOOR,
        forall|a: Pos, n: Pos|
            #![trigger cur.at(a), adjacent(a, n)]
            cur.contains(a) && cur.contains(n) && m.at(a) == FLOOR && cur.at(a) != FLOOR
                && adjacent(a, n) ==> cur.at(n) != FLOOR,
    ensures
        cur.at(path[k]) != FLOOR,
    decreases k,
{
    if k > 0 {
        lemma_cover_walk(m, cur, path, k - 1);
        assert(m.contains(path[k - 1]));
        assert(m.contains(path[k]));
        assert(adjacent(path[k - 1], path[k]));
    }
}

/// Pushes `n` when it is unlabelled floor.
fn enqueue_floor(g: &NodeMap<i32>, queue: &mut VecDeque<Pos>, n: Pos)
    requires
        g.wf(),
        g.contains(n),
    ensures
        final(queue)@ == if g.at(n) == FLOOR {
            old(queue)@.push(n)
        } else {
            old(queue)@
        },
        g.at(n) == FLOOR ==> final(queue)@.contains(n),
        forall|a: Pos| old(queue)@.contains(a) ==> #[trigger] final(queue)@.contains(a),
{
    let ghost q0 = queue@;
    if g.get(&n) == FLOOR {
        queue.push_back(n);
        assert(queue@[q0.len() as int] == n);
        assert forall|a: Pos| q0.contains(a) implies #[trigger] queue@.contains(a) by {
            let j = choose|j: int| 0 <= j < q0.len() && q0[j] == a;
            assert(queue@[j] == a);
        }
    }
}

/// Pushes each in-grid neighbour of `x` that is unlabelled floor.
fn enqueue_neighbours(g: &NodeMap<i32>, queue: &mut VecDeque<Pos>, x: Pos)
    requires
        g.wf(),
        g.contains(x),
    ensures
        final(queue)@.subrange(0, old(queue)@.len() as int) == old(queue)@,
        old(queue)@.len() <= final(queue)@.len() <= old(queue)@.len() + 4,
        forall|i: int|
            old(queue)@.len() <= i < final(queue)@.len() ==> g.contains(#[trigger] final(queue)@[i])
                && adjacent(x, final(queue)@[i]) && g.at(final(queue)@[i]) == FLOOR,
        forall|n: Pos|
            g.contains(n) && adjacent(x, n) && g.at(n) == FLOOR ==> #[trigger] final(queue)@.contains(
                n,
            ),
{
    let ghost q0 = queue@;
    let ghost up: Pos = (x.0, (x.1 - 1) as usize);
    let ghost down: Pos = (x.0, (x.1 + 1) as usize);
    let ghost left: Pos = ((x.0 - 1) as usize, x.1);
    let ghost right: Pos = ((x.0 + 1) as usize, x.1);
    if x.1 > 0 {
        enqueue_floor(g, queue, (x.0, x.1 - 1));
    }
    assert(x.1 > 0 && g.at(up) == FLOOR ==> queue@.contains(up));
    if x.1 + 1 < g.height {
        enqueue_floor(g, queue, (x.0, x.1 + 1));
    }
    assert(x.1 > 0 && g.at(up) == FLOOR ==> queue@.contains(up));
    assert(x.1 + 1 < g.height && g.at(down) == FLOOR ==> queue@.contains(down));
    if x.0 > 0 {
        enqueue_floor(g, queue, (x.0 - 1, x.1));
    }
    assert(x.1 > 0 && g.at(up) == FLOOR ==> queue@.contains(up));
    assert(x.1 + 1 < g.height && g.at(down) == FLOOR ==> queue@.contains(down));
    assert(x.0 > 0 && g.at(left) == FLOOR ==> queue@.contains(left));
    if x.0 + 1 < g.width {
        enqueue_floor(g, queue, (x.0 + 1, x.1));
    }
    assert(x.1 > 0 && g.at(up) == FLOOR ==> queue@.contains(up));
    assert(x.1 + 1 < g.height && g.at(down) == FLOOR ==> queue@.contains(down));
    assert(x.0 > 0 && g.at(left) == FLOOR ==> queue@.contains(left));
    assert(x.0 + 1 < g.width && g.at(right) == FLOOR ==> queue@.contains(right));
    assert forall|n: Pos| g.contains(n) && adjacent(x, n) && g.at(n) == FLOOR implies #[trigger] queue@.contains(
        n,
    ) by {
        if n.0 == x.0 && n.1 + 1 == x.1 {
            assert(n == up);
        } else if n.0 == x.0 && x.1 + 1 == n.1 {
            assert(n == down);
        } else if n.1 == x.1 && n.0 + 1 == x.0 {
            assert(n == left);
        } else {
            assert(n == right);
        }
    }
}

/// Colours with `color` the 4-connected patch of unlabelled floor around `start`;
/// every other cell keeps its value.
pub fn flood_fill(start: (i32, i32), m: &NodeMap<i32>, color: i32) -> (r: NodeMap<i32>)
    requires
        m.wf(),
        0 <= start.0 < m.width,
        0 <= start.1 < m.height,
        m.at((start.0 as usize, start.1 as usize)) == FLOOR,
        color != FLOOR,
    ensures
        r.wf(),
        r.width == m.width,
        r.height == m.height,
        forall|p: Pos| #[trigger]
            r.contains(p) ==> r.at(p) == if floods(*m, (start.0 as usize, start.1 as usize), p) {
                color
            } else {
                m.at(p)
            },
{
    let s: Pos = (start.0 as usize, start.1 as usize);
    let width = m.width;
    let height = m.height;
    let mut m2 = m.clone();
    proof {
        assert(m2.cells() =~= m.cells());
        lemma_linked_refl(*m, s, true);
    }
    let mut queue: VecDeque<Pos> = VecDeque::new();
    queue.push_back(s);
    assert(queue@[0] == s);
    while queue.len() > 0
        invariant
            m.wf(),
            width == m.width,
            height == m.height,
            m.at(s) == FLOOR,
            m.contains(s),
            color != FLOOR,
            fill_progress(*m, m2, s, color),
            forall|i: int|
                0 <= i < queue@.len() ==> m2.contains(#[trigger] queue@[i]) && floods(
                    *m,
                    s,
                    queue@[i],
                ),
            m2.at(s) != FLOOR || queue@.contains(s),
            forall|a: Pos, n: Pos|
                #![trigger m2.at(a), adjacent(a, n)]
                m2.contains(a) && m2.contains(n) && m.at(a) == FLOOR && m2.at(a) != FLOOR
                    && adjacent(a, n) && m2.at(n) == FLOOR ==> queue@.contains(n),
        decreases 5 * count_value(m2.cells(), FLOOR) + queue@.len(),
    {
        let ghost q0 = queue@;
        let ghost g0 = m2;
        let x = queue.pop_front().unwrap();
        assert(queue@ =~= q0.subrange(1, q0.len() as int));
        assert(x == q0[0]);
        assert(m2.contains(x) && floods(*m, s, x));
        if m2.get(&x) != FLOOR {
            proof {
                assert forall|a: Pos, n: Pos|
                    #![trigger m2.at(a), adjacent(a, n)]
                    m2.contains(a) && m2.contains(n) && m.at(a) == FLOOR && m2.at(a) != FLOOR
                        && adjacent(a, n) && m2.at(n) == FLOOR implies queue@.contains(n) by {
                    assert(q0.contains(n));
                    let j = choose|j: int| 0 <= j < q0.len() && q0[j] == n;
                    assert(j != 0);
                    assert(queue@[j - 1] == n);
                }
                if m2.at(s) == FLOOR {
                    let j = choose|j: int| 0 <= j < q0.len() && q0[j] == s;
                    assert(j != 0);
                    assert(queue@[j - 1] == s);
                }
            }
            continue;
        }
        proof {
            crate::grid::lemma_index_bounds(width as int, height as int, x.0 as int, x.1 as int);
            lemma_count_value_update(m2.cells(), x.1 * width + x.0, FLOOR, color);
        }
        m2.set(&x, color);
        let ghost q1 = queue@;
        enqueue_neighbours(&m2, &mut queue, x);
        proof {
            if x != s && m2.at(s) == FLOOR {
                assert(m2.contains(s));
                assert(g0.at(s) == FLOOR);
                let j = choose|j: int| 0 <= j < q0.len() && q0[j] == s;
                assert(j != 0);
                assert(q1[j - 1] == s);
                assert(queue@[j - 1] == queue@.subrange(0, q1.len() as int)[j - 1]);
            }
            assert forall|p: Pos| #[trigger] m2.contains(p) implies (m2.at(p) == m.at(p) || (m.at(p)
                == FLOOR && m2.at(p) == color)) && (m.at(p) == FLOOR && m2.at(p) != FLOOR ==> floods(
                *m,
                s,
                p,
            )) by {
                assert(g0.contains(p));
            }
            assert forall|i: int|
                0 <= i < queue@.len() implies m2.contains(#[trigger] queue@[i]) && floods(
                *m,
                s,
                queue@[i],
            ) by {
                if i < q1.len() {
                    assert(queue@[i] == queue@.subrange(0, q1.len() as int)[i]);
                } else {
                    let n = queue@[i];
                    assert(adjacent(x, n));
                    assert(g0.contains(n));
                    lemma_linked_step(*m, s, x, n, true);
                }
            }
            assert forall|a: Pos, n: Pos|
                #![trigger m2.at(a), adjacent(a, n)]
                m2.contains(a) && m2.contains(n) && m.at(a) == FLOOR && m2.at(a) != FLOOR && adjacent(
                    a,
                    n,
                ) && m2.at(n) == FLOOR implies queue@.contains(n) by {
                assert(g0.contains(n));
                assert(g0.contains(a));
                if a != x {
                    assert(g0.at(a) != FLOOR);
                    assert(q0.contains(n));
                    let j = choose|j: int| 0 <= j < q0.len() && q0[j] == n;
                    assert(j != 0);
                    assert(q1[j - 1] == n);
                    assert(queue@[j - 1] == queue@.subrange(0, q1.len() as int)[j - 1]);
                }
            }
        }
    }
    proof {
        assert forall|p: Pos| #[trigger] m2.contains(p) implies m2.at(p) == if floods(*m, s, p) {
            color
        } else {
            m.at(p)
        } by {
            if floods(*m, s, p) {
                let path = choose|path: Seq<Pos>| #[trigger]
                    is_walk(*m, path, true) && path[0] == s && path.last() == p;
                lemma_cover_walk(*m, m2, path, path.len() - 1);
                lemma_linked_ends(*m, s, p, true);
            }
        }
    }
    m2
}

/// Some cell of `g` holds `k`.
pub open spec fn has_label(g: NodeMap<i32>, k: int) -> bool {
    exists|p: Pos| #[trigger] g.contains(p) && g.at(p) == k
}

/// Scan order of the labeller: column by column, each column top to bottom.
pub open spec fn scanned_before(p: Pos, x: int, y: int) -> bool {
    p.0 < x || (p.0 == x && p.1 < y)
}

/// Some cell scanned before `p` holds id `j`.
pub open spec fn labelled_before(g: NodeMap<i32>, p: Pos, j: int) -> bool {
    exists|q: Pos| #[trigger] g.contains(q) && scanned_before(q, p.0 as int, p.1 as int) && g.at(q) == j
}

/// The labelling relation between the input `nm` and a partly labelled `cur`
/// holding `count` regions, seeded at `seeds`.
spec fn labelling_progress(nm: NodeMap<i32>, cur: NodeMap<i32>, count: int, seeds: Seq<Pos>) -> bool {
    &&& cur.wf()
    &&& cur.width == nm.width
    &&& cur.height == nm.height
    &&& forall|p: Pos| #[trigger] cur.contains(p) && nm.at(p) != FLOOR ==> cur.at(p) == nm.at(p)
    &&& forall|p: Pos| #[trigger]
        cur.contains(p) && nm.at(p) == FLOOR ==> cur.at(p) == FLOOR || (2 <= cur.at(p) < 2 + count)
    &&& seeds.len() == count
    &&& forall|i: int| 0 <= i < count ==> cur.contains(#[trigger] seeds[i]) && cur.at(seeds[i]) == 2 + i
    &&& forall|p: Pos, q: Pos|
        #![trigger cur.at(p), cur.at(q)]
        cur.contains(p) && cur.contains(q) && nm.at(p) == FLOOR && nm.at(q) == FLOOR && cur.at(p)
            != FLOOR && cur.at(p) == cur.at(q) ==> linked(nm, p, q, true)
    &&& forall|p: Pos, q: Pos|
        #![trigger linked(nm, p, q, true), cur.at(p)]
        linked(nm, p, q, true) && cur.at(p) != FLOOR ==> cur.at(q) == cur.at(p)
    &&& forall|p: Pos, j: int|
        cur.contains(p) && nm.at(p) == FLOOR && 2 <= j < cur.at(p) ==> #[trigger] labelled_before(
            cur,
            p,
            j,
        )
}

/// From an unlabelled cell of `cur`, the fill reaches exactly what a fill of the input reaches.
proof fn lemma_fill_matches_input(nm: NodeMap<i32>, cur: NodeMap<i32>, count: int, seeds: Seq<Pos>, s: Pos, p: Pos)
    requires
        labelling_progress(nm, cur, count, seeds),
        cur.contains(s),
        cur.at(s) == FLOOR,
    ensures
        floods(cur, s, p) <==> linked(nm, s, p, true),
{
    if floods(cur, s, p) {
        lemma_linked_mono(cur, nm, s, p, true, true);
    }
    if linked(nm, s, p, true) {
        let path = choose|path: Seq<Pos>| #[trigger]
            is_walk(nm, path, true) && path[0] == s && path.last() == p;
        assert forall|i: int| 0 <= i < path.len() implies cur.contains(#[trigger] path[i])
            && passable(cur.at(path[i]), true) by {
            lemma_walk_prefix(nm, path, i, true);
            lemma_linked_symm(nm, s, path[i], true);
            assert(nm.contains(path[i]));
        }
        assert(is_walk(cur, path, true));
    }
}

/// One flood fill from an unlabelled cell, with the next id, keeps the labelling relation.
proof fn lemma_label_step(nm: NodeMap<i32>, cur: NodeMap<i32>, next: NodeMap<i32>, count: int, seeds: Seq<Pos>, s: Pos)
    requires
        labelling_progress(nm, cur, count, seeds),
        cur.contains(s),
        cur.at(s) == FLOOR,
        2 + count <= i32::MAX,
        next.wf(),
        next.width == cur.width,
        next.height == cur.height,
        forall|p: Pos| #[trigger]
            next.contains(p) ==> next.at(p) == if floods(cur, s, p) {
                (2 + count) as i32
            } else {
                cur.at(p)
            },
        forall|i: int| 0 <= i < count ==> scanned_before(#[trigger] seeds[i], s.0 as int, s.1 as int),
        forall|p: Pos| #[trigger]
            cur.contains(p) && scanned_before(p, s.0 as int, s.1 as int) ==> cur.at(p) != FLOOR,
    ensures
        labelling_progress(nm, next, count + 1, seeds.push(s)),
        next.at(s) != FLOOR,
        forall|p: Pos| #[trigger] next.contains(p) && cur.at(p) != FLOOR ==> next.at(p) == cur.at(p),
{
    let c = (2 + count) as i32;
    let seeds2 = seeds.push(s);
    assert forall|p: Pos| #[trigger] next.contains(p) implies next.at(p) == if linked(nm, s, p, true) {
        c
    } else {
        cur.at(p)
    } by {
        lemma_fill_matches_input(nm, cur, count, seeds, s, p);
    }
    lemma_linked_refl(cur, s, true);
    assert(next.contains(s));
    assert(linked(nm, s, s, true)) by {
        lemma_fill_matches_input(nm, cur, count, seeds, s, s);
    }
    assert forall|p: Pos| #[trigger] next.contains(p) && cur.at(p) != FLOOR implies next.at(p) == cur.at(p) by {
        if floods(cur, s, p) {
            lemma_linked_ends(cur, s, p, true);
        }
    }
    assert forall|p: Pos| #[trigger] next.contains(p) && nm.at(p) != FLOOR implies next.at(p) == nm.at(p) by {
        assert(cur.contains(p));
        if linked(nm, s, p, true) {
            lemma_linked_ends(nm, s, p, true);
        }
    }
    assert forall|p: Pos| #[trigger]
        next.contains(p) && nm.at(p) == FLOOR implies next.at(p) == FLOOR || (2 <= next.at(p) < 2 + count + 1) by {
        assert(cur.contains(p));
    }
    assert forall|i: int| 0 <= i < count + 1 implies next.contains(#[trigger] seeds2[i]) && next.at(seeds2[i]) == 2 + i by {
        if i < count {
            assert(seeds2[i] == seeds[i]);
            assert(cur.contains(seeds[i]));
            assert(cur.at(seeds[i]) == 2 + i);
        }
    }
    assert forall|p: Pos, q: Pos|
        #![trigger next.at(p), next.at(q)]
        next.contains(p) && next.contains(q) && nm.at(p) == FLOOR && nm.at(q) == FLOOR && next.at(p)
            != FLOOR && next.at(p) == next.at(q) implies linked(nm, p, q, true) by {
        assert(cur.contains(p));
        assert(cur.contains(q));
        if linked(nm, s, p, true) && linked(nm, s, q, true) {
            lemma_linked_symm(nm, s, p, true);
            lemma_linked_trans(nm, p, s, q, true);
        }
    }
    assert forall|p: Pos, j: int|
        next.contains(p) && nm.at(p) == FLOOR && 2 <= j < next.at(p) implies #[trigger] labelled_before(
        next,
        p,
        j,
    ) by {
        assert(cur.contains(p));
        if floods(cur, s, p) {
            lemma_linked_ends(cur, s, p, true);
            let q = seeds2[j - 2];
            assert(cur.contains(q));
            assert(next.contains(q));
            assert(scanned_before(q, p.0 as int, p.1 as int));
        } else {
            assert(labelled_before(cur, p, j));
            let q = choose|q: Pos| #[trigger]
                cur.contains(q) && scanned_before(q, p.0 as int, p.1 as int) && cur.at(q) == j;
            assert(next.contains(q));
        }
    }
    assert forall|p: Pos, q: Pos|
        #![trigger linked(nm, p, q, true), next.at(p)]
        linked(nm, p, q, true) && next.at(p) != FLOOR implies next.at(q) == next.at(p) by {
        lemma_linked_ends(nm, p, q, true);
        assert(cur.contains(p));
        assert(cur.contains(q));
        if linked(nm, s, p, true) {
            lemma_linked_trans(nm, s, p, q, true);
        } else if linked(nm, s, q, true) {
            lemma_linked_symm(nm, p, q, true);
            assert(cur.at(q) == FLOOR) by {
                lemma_fill_matches_input(nm, cur, count, seeds, s, q);
                lemma_linked_ends(cur, s, q, true);
            }
        }
    }
}

/// Labels each 4-connected patch of floor with its own id, counting up from 2 in
/// scan order; walls keep their value. Returns the grid and the number of patches.
pub fn fill_map(nm: &NodeMap<i32>) -> (r: (NodeMap<i32>, usize))
    requires
        nm.wf(),
        is_binary(*nm),
        nm.width * nm.height + 2 <= i32::MAX,
    ensures
        r.0.wf(),
        r.0.width == nm.width,
        r.0.height == nm.height,
        r.1 <= nm.width * nm.height,
        forall|p: Pos| #[trigger] r.0.contains(p) ==> r.0.at(p) == WALL || r.0.at(p) >= 2,
        forall|p: Pos| #[trigger] r.0.contains(p) && nm.at(p) == WALL ==> r.0.at(p) == WALL,
        forall|p: Pos| #[trigger]
            r.0.contains(p) && nm.at(p) == FLOOR ==> 2 <= r.0.at(p) < 2 + r.1,
        forall|k: int| 2 <= k < 2 + r.1 ==> #[trigger] has_label(r.0, k),
        forall|p: Pos, q: Pos|
            #![trigger r.0.at(p), r.0.at(q)]
            r.0.contains(p) && r.0.contains(q) && nm.at(p) == FLOOR && nm.at(q) == FLOOR ==> (r.0.at(p)
                == r.0.at(q) <==> linked(*nm, p, q, true)),
        forall|p: Pos, j: int|
            r.0.contains(p) && nm.at(p) == FLOOR && 2 <= j < r.0.at(p) ==> #[trigger] labelled_before(
                r.0,
                p,
                j,
            ),
{
    let height = nm.height;
    let width = nm.width;
    let mut m2 = nm.clone();
    let mut count: usize = 0;
    let ghost mut seeds: Seq<Pos> = Seq::empty();
    proof {
        assert(m2.cells() =~= nm.cells());
        assert forall|p: Pos, q: Pos|
            #![trigger linked(*nm, p, q, true), m2.at(p)]
            linked(*nm, p, q, true) && m2.at(p) != FLOOR implies m2.at(q) == m2.at(p) by {
            lemma_linked_ends(*nm, p, q, true);
        }
    }
    let mut x: usize = 0;
    while x < width
        invariant
            nm.wf(),
            is_binary(*nm),
            width == nm.width,
            height == nm.height,
            width * height + 2 <= i32::MAX,
            x <= width,
            count <= x * height,
            labelling_progress(*nm, m2, count as int, seeds),
            forall|p: Pos| #[trigger] m2.contains(p) && scanned_before(p, x as int, 0) ==> m2.at(p) != FLOOR,
            forall|i: int| 0 <= i < count ==> scanned_before(#[trigger] seeds[i], x as int, 0),
        decreases width - x,
    {
        let mut y: usize = 0;
        while y < height
            invariant
                nm.wf(),
                is_binary(*nm),
                width == nm.width,
                height == nm.height,
                width * height + 2 <= i32::MAX,
                x < width,
                y <= height,
                count <= x * height + y,
                labelling_progress(*nm, m2, count as int, seeds),
                forall|p: Pos| #[trigger]
                    m2.contains(p) && scanned_before(p, x as int, y as int) ==> m2.at(p) != FLOOR,
                forall|i: int| 0 <= i < count ==> scanned_before(#[trigger] seeds[i], x as int, y as int),
            decreases height - y,
        {
            assert(x * height + y < width * height) by (nonlinear_arith)
                requires
                    x < width,
                    y < height,
            ;
            assert(x <= x * height + y) by (nonlinear_arith)
                requires
                    y < height,
            ;
            if m2.get(&(x, y)) == FLOOR {
                let ghost cur = m2;
                let ghost s: Pos = (x, y);
                let c: i32 = (count + 2) as i32;
                m2 = flood_fill((x as i32, y as i32), &m2, c);
                proof {
                    lemma_label_step(*nm, cur, m2, count as int, seeds, s);
                    seeds = seeds.push(s);
                    assert forall|p: Pos| #[trigger]
                        m2.contains(p) && scanned_before(p, x as int, y as int + 1) implies m2.at(p) != FLOOR by {
                        assert(cur.contains(p));
                        if p.0 == x && p.1 == y {
                            assert(p == s);
                        }
                    }
                }
                count = count + 1;
            }
            y = y + 1;
        }
        assert((x + 1) * height == x * height + height) by (nonlinear_arith);
        x = x + 1;
    }
    assert forall|k: int| 2 <= k < 2 + count implies #[trigger] has_label(m2, k) by {
        assert(m2.contains(seeds[k - 2]));
    }
    assert forall|p: Pos| #[trigger] m2.contains(p) implies m2.at(p) != FLOOR && (m2.at(p) == WALL
        || m2.at(p) >= 2) by {
        assert(scanned_before(p, x as int, 0));
        assert(nm.contains(p));
    }
    (m2, count)
}

/// Whether `v` holds `x`.
pub(crate) fn has(v: &Vec<i32>, x: i32) -> (r: bool)
    ensures
        r == v@.contains(x),
{
    let mut i: usize = 0;
    while i < v.len()
        invariant
            i <= v@.len(),
            forall|j: int| 0 <= j < i ==> v@[j] != x,
        decreases v@.len() - i,
    {
        if v[i] == x {
            assert(v@[i as int] == x);
            return true;
        }
        i = i + 1;
    }
    false
}

/// `sizes` lists each value of `g` outside `exclude` once, with the number of
/// cells that hold it, smallest count first.
pub open spec fn is_size_table(g: NodeMap<i32>, exclude: Seq<i32>, sizes: Seq<(i32, usize)>) -> bool {
    &&& forall|i: int|
        0 <= i < sizes.len() ==> !exclude.contains((#[trigger] sizes[i]).0) && sizes[i].1 as nat
            == count_value(g.cells(), sizes[i].0) && sizes[i].1 > 0
    &&& forall|i: int, j: int|
        0 <= i < sizes.len() && 0 <= j < sizes.len() && i != j ==> (#[trigger] sizes[i]).0 != (
        #[trigger] sizes[j]).0
    &&& forall|v: i32|
        !exclude.contains(v) && count_value(g.cells(), v) > 0 ==> exists|i: int|
            0 <= i < sizes.len() && (#[trigger] sizes[i]).0 == v
    &&& forall|i: int, j: int|
        0 <= i < j < sizes.len() ==> (#[trigger] sizes[i]).1 <= (#[trigger] sizes[j]).1
}

/// The size of every region, that is of every value outside `exclude`, in
/// cells, smallest first.
pub fn room_sizes(m: &NodeMap<i32>, exclude: &Vec<i32>) -> (r: Vec<(i32, usize)>)
    ensures
        is_size_table(*m, exclude@, r@),
{
    let cells = &m.grid;
    let mut sizes: Vec<(i32, usize)> = Vec::new();
    let mut i: usize = 0;
    while i < cells.len()
        invariant
            i <= cells@.len(),
            cells@ == m.cells(),
            forall|k: int|
                0 <= k < sizes@.len() ==> !exclude@.contains((#[trigger] sizes@[k]).0) && sizes@[k].1 as nat
                    == count_value(cells@.subrange(0, i as int), sizes@[k].0) && sizes@[k].1 > 0,
            forall|a: int, b: int|
                0 <= a < sizes@.len() && 0 <= b < sizes@.len() && a != b ==> (#[trigger] sizes@[a]).0
                    != (#[trigger] sizes@[b]).0,
            forall|v: i32|
                !exclude@.contains(v) && count_value(cells@.subrange(0, i as int), v) > 0 ==> exists|k: int|
                    0 <= k < sizes@.len() && (#[trigger] sizes@[k]).0 == v,
        decreases cells@.len() - i,
    {
        let ghost pre = cells@.subrange(0, i as int);
        let ghost next = cells@.subrange(0, i + 1);
        let tile = cells[i];
        assert(next.drop_last() =~= pre);
        assert(next.last() == tile);
        assert(forall|v: i32| #[trigger] count_value(next, v) == count_value(pre, v) + if tile == v { 1nat } else { 0nat });
        proof {
            lemma_count_value_bound(pre, tile);
        }
        let excluded = has(exclude, tile);
        if !excluded {
            let mut k: usize = 0;
            while k < sizes.len() && sizes[k].0 != tile
                invariant
                    k <= sizes@.len(),
                    forall|j: int| 0 <= j < k ==> (#[trigger] sizes@[j]).0 != tile,
                decreases sizes@.len() - k,
            {
                k = k + 1;
            }
            let ghost s0 = sizes@;
            if k < sizes.len() {
                let n = sizes[k].1;
                assert(sizes@[k as int].1 as nat == count_value(pre, tile));
                assert(n <= pre.len());
                sizes.set(k, (tile, n + 1));
                assert forall|v: i32|
                    !exclude@.contains(v) && count_value(next, v) > 0 implies exists|j: int|
                        0 <= j < sizes@.len() && (#[trigger] sizes@[j]).0 == v by {
                    if v == tile {
                        assert(sizes@[k as int].0 == v);
                    } else {
                        assert(count_value(pre, v) > 0);
                        let j = choose|j: int| 0 <= j < s0.len() && (#[trigger] s0[j]).0 == v;
                        assert(j != k);
                        assert(sizes@[j] == s0[j]);
                    }
                }
            } else {
                proof {
                    if count_value(pre, tile) > 0 {
                        let j = choose|j: int| 0 <= j < s0.len() && (#[trigger] s0[j]).0 == tile;
                    }
                }
                sizes.push((tile, 1));
                assert forall|v: i32|
                    !exclude@.contains(v) && count_value(next, v) > 0 implies exists|j: int|
                        0 <= j < sizes@.len() && (#[trigger] sizes@[j]).0 == v by {
                    if v == tile {
                        assert(sizes@[s0.len() as int].0 == v);
                    } else {
                        let j = choose|j: int| 0 <= j < s0.len() && (#[trigger] s0[j]).0 == v;
                        assert(sizes@[j].0 == v);
                    }
                }
            }
        } else {
            assert forall|v: i32|
                !exclude@.contains(v) && count_value(next, v) > 0 implies exists|j: int|
                    0 <= j < sizes@.len() && (#[trigger] sizes@[j]).0 == v by {
                assert(count_value(pre, v) > 0);
            }
        }
        i = i + 1;
    }
    assert(cells@.subrange(0, cells@.len() as int) =~= cells@);
    let ghost unsorted = sizes@;
    sort_by_size(&mut sizes);
    proof {
        assert forall|i: int| 0 <= i < sizes@.len() implies !exclude@.contains((#[trigger] sizes@[i]).0)
            && sizes@[i].1 as nat == count_value(m.cells(), sizes@[i].0) && sizes@[i].1 > 0 by {
            assert(unsorted.contains(sizes@[i]));
            let k = choose|k: int| 0 <= k < unsorted.len() && unsorted[k] == sizes@[i];
            assert(unsorted[k] == sizes@[i]);
        }
        assert forall|v: i32|
            !exclude@.contains(v) && count_value(m.cells(), v) > 0 implies exists|i: int|
                0 <= i < sizes@.len() && (#[trigger] sizes@[i]).0 == v by {
            let k = choose|k: int| 0 <= k < unsorted.len() && (#[trigger] unsorted[k]).0 == v;
            assert(sizes@.contains(unsorted[k]));
            let i = choose|i: int| 0 <= i < sizes@.len() && sizes@[i] == unsorted[k];
            assert(sizes@[i].0 == v);
        }
    }
    sizes
}

/// Orders the pairs by their second item, smallest first, as a permutation.
fn sort_by_size(v: &mut Vec<(i32, usize)>)
    requires
        forall|a: int, b: int|
            0 <= a < old(v)@.len() && 0 <= b < old(v)@.len() && a != b ==> (#[trigger] old(v)@[a]).0
                != (#[trigger] old(v)@[b]).0,
    ensures
        final(v)@.len() == old(v)@.len(),
        forall|i: int| 0 <= i < final(v)@.len() ==> old(v)@.contains(#[trigger] final(v)@[i]),
        forall|i: int| 0 <= i < old(v)@.len() ==> final(v)@.contains(#[trigger] old(v)@[i]),
        forall|a: int, b: int|
            0 <= a < final(v)@.len() && 0 <= b < final(v)@.len() && a != b ==> (
            #[trigger] final(v)@[a]).0 != (#[trigger] final(v)@[b]).0,
        forall|i: int, j: int| 0 <= i < j < final(v)@.len() ==> (#[trigger] final(v)@[i]).1 <= (#[trigger] final(v)@[j]).1,
{
    let ghost orig = v@;
    let n = v.len();
    let mut i: usize = 0;
    while i < n
        invariant
            n == v@.len(),
            n == orig.len(),
            i <= n,
            forall|k: int| 0 <= k < n ==> orig.contains(#[trigger] v@[k]),
            forall|k: int| 0 <= k < n ==> v@.contains(#[trigger] orig[k]),
            forall|a: int, b: int|
                0 <= a < n && 0 <= b < n && a != b ==> (#[trigger] v@[a]).0 != (#[trigger] v@[b]).0,
            forall|a: int, b: int| 0 <= a < b < i ==> (#[trigger] v@[a]).1 <= (#[trigger] v@[b]).1,
            forall|a: int, b: int| 0 <= a < i && i <= b < n ==> (#[trigger] v@[a]).1 <= (#[trigger] v@[b]).1,
        decreases n - i,
    {
        let mut m: usize = i;
        let mut j: usize = i + 1;
        while j < n
            invariant
                n == v@.len(),
                i < n,
                i <= m < n,
                i < j <= n,
                forall|k: int| i <= k < j ==> v@[m as int].1 <= (#[trigger] v@[k]).1,
            decreases n - j,
        {
            if v[j].1 < v[m].1 {
                m = j;
            }
            j = j + 1;
        }
        let ghost s0 = v@;
        let a = v[i];
        let b = v[m];
        v.set(i, b);
        v.set(m, a);
        proof {
            assert forall|k: int| 0 <= k < n implies v@[k] == if k == i {
                s0[m as int]
            } else if k == m {
                s0[i as int]
            } else {
                s0[k]
            } by {}
            assert forall|k: int| 0 <= k < n implies orig.contains(#[trigger] v@[k]) by {
                if k == i {
                    assert(orig.contains(s0[m as int]));
                } else if k == m {
                    assert(orig.contains(s0[i as int]));
                } else {
                    assert(orig.contains(s0[k]));
                }
            }
            assert forall|k: int| 0 <= k < n implies v@.contains(#[trigger] orig[k]) by {
                assert(s0.contains(orig[k]));
                let t = choose|t: int| 0 <= t < n && s0[t] == orig[k];
                if t == i {
                    assert(v@[m as int] == orig[k]);
                } else if t == m {
                    assert(v@[i as int] == orig[k]);
                } else {
                    assert(v@[t] == orig[k]);
                }
            }
            assert forall|a: int, b: int|
                0 <= a < n && 0 <= b < n && a != b implies (#[trigger] v@[a]).0 != (#[trigger] v@[b]).0 by {
                let sa = if a == i { m as int } else if a == m { i as int } else { a };
                let sb = if b == i { m as int } else if b == m { i as int } else { b };
                assert(s0[sa].0 != s0[sb].0);
            }
            assert forall|a: int, b: int| 0 <= a < b < i + 1 implies (#[trigger] v@[a]).1 <= (#[trigger] v@[b]).1 by {
                if b == i {
                    assert(s0[a].1 <= s0[m as int].1);
                }
            }
            assert forall|a: int, b: int| 0 <= a < i + 1 && i + 1 <= b < n implies (#[trigger] v@[a]).1 <= (#[trigger] v@[b]).1 by {
                if a == i {
                    if b == m {
                        assert(s0[m as int].1 <= s0[i as int].1);
                    } else {
                        assert(s0[m as int].1 <= s0[b].1);
                    }
                } else if b == m {
                    assert(s0[a].1 <= s0[i as int].1);
                } else {
                    assert(s0[a].1 <= s0[b].1);
                }
            }
        }
        i = i + 1;
    }
}

} // verus!
