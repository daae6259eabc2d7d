//! Connectivity repair: joining labelled regions into one by carving tunnels.

use vstd::prelude::*;
use crate::grid::NodeMap;
use crate::mapgen::{randomize_points, WALL};
use crate::regions::{has, has_label, scanned_before};
use crate::search::search_closest_value;
use crate::walk::{
    is_grid_walk, is_walk, lemma_linked_mono, lemma_linked_symm, lemma_linked_trans,
    lemma_walk_prefix, linked, passable, Pos,
};

verus! {

/// All non-wall cells of `g` hold one id.
pub open spec fn one_region(g: NodeMap<i32>) -> bool {
    forall|p: Pos, q: Pos|
        #![trigger g.at(p), g.at(q)]
        g.contains(p) && g.contains(q) && g.at(p) != WALL && g.at(q) != WALL ==> g.at(p) == g.at(q)
}

/// Any two non-wall cells of `g` with the same id are joined by a walk over non-wall cells.
pub open spec fn regions_connected(g: NodeMap<i32>) -> bool {
    forall|p: Pos, q: Pos|
        #![trigger g.at(p), g.at(q)]
        g.contains(p) && g.contains(q) && g.at(p) != WALL && g.at(p) == g.at(q) ==> linked(
            g,
            p,
            q,
            false,
        )
}

/// Every cell of `g` is wall or holds one of the `n` region ids `2 .. 2 + n`.
pub open spec fn ids_within(g: NodeMap<i32>, n: int) -> bool {
    forall|p: Pos| #[trigger] g.contains(p) ==> g.at(p) == WALL || (2 <= g.at(p) < 2 + n)
}

/// The items of `v` other than `x`, in order.
fn without(v: &Vec<i32>, x: i32) -> (r: Vec<i32>)
    ensures
        forall|y: i32| #[trigger] r@.contains(y) <==> (v@.contains(y) && y != x),
        r@.len() <= v@.len(),
        v@.contains(x) ==> r@.len() < v@.len(),
{
    let mut r: Vec<i32> = Vec::new();
    let mut skipped = false;
    let mut i: usize = 0;
    while i < v.len()
        invariant
            i <= v@.len(),
            r@.len() + (if skipped {
                1int
            } else {
                0int
            }) <= i,
            v@.subrange(0, i as int).contains(x) ==> skipped,
            forall|y: i32| #[trigger]
                r@.contains(y) <==> (v@.subrange(0, i as int).contains(y) && y != x),
        decreases v@.len() - i,
    {
        let ghost r0 = r@;
        let ghost pre = v@.subrange(0, i as int);
        assert(v@.subrange(0, i + 1) =~= pre.push(v@[i as int]));
        if v[i] != x {
            r.push(v[i]);
            assert forall|y: i32| #[trigger] r@.contains(y) <==> (pre.push(v@[i as int]).contains(y)
                && y != x) by {
                if r@.contains(y) {
                    let j = choose|j: int| 0 <= j < r@.len() && r@[j] == y;
                    if j < r0.len() {
                        assert(r0[j] == y);
                        assert(r0.contains(y));
                        let k = choose|k: int| 0 <= k < pre.len() && pre[k] == y;
                        assert(pre.push(v@[i as int])[k] == y);
                    } else {
                        assert(pre.push(v@[i as int])[pre.len() as int] == y);
                    }
                }
                if pre.push(v@[i as int]).contains(y) && y != x {
                    let k = choose|k: int| 0 <= k < pre.len() + 1 && pre.push(v@[i as int])[k] == y;
                    if k < pre.len() {
                        assert(pre[k] == y);
                        assert(pre.contains(y));
                        assert(r0.contains(y));
                        let j = choose|j: int| 0 <= j < r0.len() && r0[j] == y;
                        assert(r@[j] == y);
                    } else {
                        assert(r@[r0.len() as int] == y);
                    }
                }
            }
        } else {
            skipped = true;
            assert forall|y: i32| #[trigger] r@.contains(y) <==> (pre.push(v@[i as int]).contains(y)
                && y != x) by {
                if pre.push(v@[i as int]).contains(y) && y != x {
                    let k = choose|k: int| 0 <= k < pre.len() + 1 && pre.push(v@[i as int])[k] == y;
                    assert(k < pre.len());
                    assert(pre[k] == y);
                }
                if r@.contains(y) {
                    let k = choose|k: int| 0 <= k < pre.len() && pre[k] == y;
                    assert(pre.push(v@[i as int])[k] == y);
                }
            }
        }
        proof {
            if pre.push(v@[i as int]).contains(x) && !pre.contains(x) {
                let k = choose|k: int| 0 <= k < pre.len() + 1 && pre.push(v@[i as int])[k] == x;
                if k < pre.len() {
                    assert(pre[k] == x);
                }
            }
        }
        i = i + 1;
    }
    assert(v@.subrange(0, v@.len() as int) =~= v@);
    r
}

/// Replaces every `from` with `to`; every other cell keeps its value.
pub fn change_nodes(nm: &mut NodeMap<i32>, from: i32, to: i32)
    requires
        old(nm).wf(),
    ensures
        final(nm).wf(),
        final(nm).width == old(nm).width,
        final(nm).height == old(nm).height,
        forall|p: Pos| #[trigger]
            final(nm).contains(p) ==> final(nm).at(p) == if old(nm).at(p) == from {
                to
            } else {
                old(nm).at(p)
            },
{
    let ghost start = *nm;
    let width = nm.width;
    let height = nm.height;
    let mut x: usize = 0;
    while x < width
        invariant
            nm.wf(),
            nm.width == width,
            nm.height == height,
            start.width == width,
            start.height == height,
            forall|p: Pos| #[trigger]
                nm.contains(p) ==> nm.at(p) == if p.0 < x && start.at(p) == from {
                    to
                } else {
                    start.at(p)
                },
        decreases width - x,
    {
        let mut y: usize = 0;
        while y < height
            invariant
                nm.wf(),
                nm.width == width,
                nm.height == height,
                start.width == width,
                start.height == height,
                x < width,
                forall|p: Pos| #[trigger]
                    nm.contains(p) ==> nm.at(p) == if scanned_before(p, x as int, y as int) && start.at(p)
                        == from {
                        to
                    } else {
                        start.at(p)
                    },
            decreases height - y,
        {
            let ghost before = *nm;
            if nm.get(&(x, y)) == from {
                nm.set(&(x, y), to);
            }
            assert forall|p: Pos| #[trigger] nm.contains(p) implies nm.at(p) == if scanned_before(
                p,
                x as int,
                y as int + 1,
            ) && start.at(p) == from {
                to
            } else {
                start.at(p)
            } by {
                assert(before.contains(p));
                if p.0 == x && p.1 == y {
                    assert(p == (x, y));
                }
            }
            y = y + 1;
        }
        x = x + 1;
    }
}

/// Overwrites every cell of `edge` with `room`, then hands every cell of
/// `old_room` to `room`.
fn merge_into(cur: &mut NodeMap<i32>, edge: &Vec<Pos>, old_room: i32, room: i32)
    requires
        old(cur).wf(),
        forall|i: int| 0 <= i < edge@.len() ==> old(cur).contains(#[trigger] edge@[i]),
    ensures
        final(cur).wf(),
        final(cur).width == old(cur).width,
        final(cur).height == old(cur).height,
        forall|p: Pos| #[trigger]
            final(cur).contains(p) ==> final(cur).at(p) == if edge@.contains(p) || old(cur).at(p)
                == old_room {
                room
            } else {
                old(cur).at(p)
            },
{
    let ghost start = *cur;
    let mut i: usize = 0;
    while i < edge.len()
        invariant
            cur.wf(),
            cur.width == start.width,
            cur.height == start.height,
            i <= edge@.len(),
            forall|k: int| 0 <= k < edge@.len() ==> start.contains(#[trigger] edge@[k]),
            forall|p: Pos| #[trigger]
                cur.contains(p) ==> cur.at(p) == if edge@.subrange(0, i as int).contains(p) {
                    room
                } else {
                    start.at(p)
                },
        decreases edge@.len() - i,
    {
        let ghost before = *cur;
        let ghost pre = edge@.subrange(0, i as int);
        let p = edge[i];
        assert(start.contains(edge@[i as int]));
        cur.set(&p, room);
        assert(edge@.subrange(0, i + 1) =~= pre.push(p));
        assert forall|q: Pos| #[trigger] cur.contains(q) implies cur.at(q) == if pre.push(p).contains(q) {
            room
        } else {
            start.at(q)
        } by {
            assert(before.contains(q));
            if pre.push(p).contains(q) && q != p {
                let k = choose|k: int| 0 <= k < pre.len() + 1 && pre.push(p)[k] == q;
                assert(pre[k] == q);
            }
            if pre.contains(q) {
                let k = choose|k: int| 0 <= k < pre.len() && pre[k] == q;
                assert(pre.push(p)[k] == q);
            }
            if q == p {
                assert(pre.push(p)[pre.len() as int] == q);
            }
        }
        i = i + 1;
    }
    assert(edge@.subrange(0, edge@.len() as int) =~= edge@);
    let ghost carved = *cur;
    change_nodes(cur, old_room, room);
    assert forall|p: Pos| #[trigger] cur.contains(p) implies cur.at(p) == if edge@.contains(p)
        || start.at(p) == old_room {
        room
    } else {
        start.at(p)
    } by {
        assert(carved.contains(p));
    }
}

/// Carving a walk from a cell of `old_room` to a cell of `room`, then handing
/// `old_room` to `room`, keeps every region connected.
proof fn lemma_merge_connected(
    g0: NodeMap<i32>,
    g2: NodeMap<i32>,
    edge: Seq<Pos>,
    old_room: i32,
    room: i32,
)
    requires
        g0.wf(),
        g2.width == g0.width,
        g2.height == g0.height,
        regions_connected(g0),
        is_grid_walk(g0, edge),
        g0.at(edge[0]) == old_room,
        g0.at(edge.last()) == room,
        room != WALL,
        old_room != WALL,
        forall|p: Pos| #[trigger]
            g2.contains(p) ==> g2.at(p) == if edge.contains(p) || g0.at(p) == old_room {
                room
            } else {
                g0.at(p)
            },
    ensures
        regions_connected(g2),
{
    let target = edge[0];
    let e = edge.last();
    assert forall|p: Pos| #[trigger] g0.contains(p) && passable(g0.at(p), false) implies passable(
        g2.at(p),
        false,
    ) by {
        assert(g2.contains(p));
    }
    assert forall|i: int| 0 <= i < edge.len() implies g2.contains(#[trigger] edge[i]) && passable(
        g2.at(edge[i]),
        false,
    ) by {
        assert(g0.contains(edge[i]));
        assert(edge.contains(edge[i]));
    }
    assert(is_walk(g2, edge, false));
    lemma_walk_prefix(g2, edge, edge.len() - 1, false);
    lemma_linked_symm(g2, target, e, false);
    assert(g0.contains(target));
    assert(g0.contains(e));
    assert forall|p: Pos| #[trigger] g2.contains(p) && g2.at(p) == room implies linked(g2, p, target, false) by {
        if edge.contains(p) {
            let k = choose|k: int| 0 <= k < edge.len() && edge[k] == p;
            lemma_walk_prefix(g2, edge, k, false);
            lemma_linked_symm(g2, target, p, false);
        } else if g0.at(p) == old_room {
            lemma_linked_mono(g0, g2, p, target, false, false);
        } else {
            lemma_linked_mono(g0, g2, p, e, false, false);
            lemma_linked_trans(g2, p, e, target, false);
        }
    }
    assert forall|p: Pos, q: Pos|
        #![trigger g2.at(p), g2.at(q)]
        g2.contains(p) && g2.contains(q) && g2.at(p) != WALL && g2.at(p) == g2.at(q) implies linked(
        g2,
        p,
        q,
        false,
    ) by {
        if g2.at(p) == room {
            lemma_linked_symm(g2, q, target, false);
            lemma_linked_trans(g2, p, target, q, false);
        } else {
            assert(g0.at(p) == g0.at(q));
            lemma_linked_mono(g0, g2, p, q, false, false);
        }
    }
}

/// Merges the regions `2 .. 2 + number_rooms` of a labelled grid into one by
/// carving tunnels: a region picked at random is joined to the nearest cell of
/// another region by a shortest walk over the whole grid, which may cut through
/// wall, and that region's id is then handed over. Floor is never turned into
/// wall, and when every region was connected the floor ends up connected.
pub fn connect_rooms(nm: &NodeMap<i32>, number_rooms: usize) -> (r: NodeMap<i32>)
    requires
        nm.wf(),
        ids_within(*nm, number_rooms as int),
        number_rooms + 2 <= i32::MAX,
    ensures
        r.wf(),
        r.width == nm.width,
        r.height == nm.height,
        ids_within(r, number_rooms as int),
        forall|p: Pos| #[trigger] r.contains(p) && nm.at(p) != WALL ==> r.at(p) != WALL,
        one_region(r),
        regions_connected(*nm) ==> regions_connected(r),
        number_rooms <= 1 ==> r.cells() == nm.cells(),
{
    let mut rooms: Vec<i32> = Vec::new();
    let mut k: usize = 0;
    while k < number_rooms
        invariant
            k <= number_rooms,
            number_rooms + 2 <= i32::MAX,
            rooms@.len() == k,
            forall|v: i32| #[trigger] rooms@.contains(v) <==> 2 <= v < 2 + k,
        decreases number_rooms - k,
    {
        let ghost r0 = rooms@;
        rooms.push((k + 2) as i32);
        proof {
            assert forall|v: i32| #[trigger] rooms@.contains(v) <==> 2 <= v < 2 + k + 1 by {
                if rooms@.contains(v) {
                    let j = choose|j: int| 0 <= j < rooms@.len() && rooms@[j] == v;
                    if j < r0.len() {
                        assert(r0[j] == v);
                        assert(r0.contains(v));
                    }
                }
                if 2 <= v < 2 + k + 1 {
                    if v == 2 + k {
                        assert(rooms@[k as int] == v);
                    } else {
                        assert(r0.contains(v));
                        let j = choose|j: int| 0 <= j < r0.len() && r0[j] == v;
                        assert(rooms@[j] == v);
                    }
                }
            }
        }
        k = k + 1;
    }
    let width = nm.width;
    let height = nm.height;
    let mut cur = nm.clone();
    assert(cur.cells() =~= nm.cells());
    let ghost connected_in = regions_connected(*nm);
    proof {
        assert forall|p: Pos| #[trigger] cur.contains(p) implies cur.at(p) == WALL || rooms@.contains(cur.at(p)) by {
            assert(nm.contains(p));
        }
        if connected_in {
            assert forall|p: Pos, q: Pos|
                #![trigger cur.at(p), cur.at(q)]
                cur.contains(p) && cur.contains(q) && cur.at(p) != WALL && cur.at(p) == cur.at(q) implies linked(
                cur,
                p,
                q,
                false,
            ) by {
                assert(nm.at(p) == nm.at(q));
                lemma_linked_mono(*nm, cur, p, q, false, false);
            }
        }
    }
    let mut done = false;
    while rooms.len() > 1 && !done
        invariant
            nm.wf(),
            cur.wf(),
            cur.width == width,
            cur.height == height,
            width == nm.width,
            height == nm.height,
            rooms@.len() <= number_rooms,
            forall|v: i32| #[trigger] rooms@.contains(v) ==> 2 <= v < 2 + number_rooms,
            forall|p: Pos| #[trigger] cur.contains(p) ==> cur.at(p) == WALL || rooms@.contains(cur.at(p)),
            forall|p: Pos| #[trigger] cur.contains(p) && nm.at(p) != WALL ==> cur.at(p) != WALL,
            connected_in == regions_connected(*nm),
            connected_in ==> regions_connected(cur),
            done ==> one_region(cur),
            number_rooms <= 1 ==> cur.cells() == nm.cells(),
        decreases rooms@.len() + if done {
            0int
        } else {
            1int
        },
    {
        let points = randomize_points(width, height);
        let mut found: Option<Pos> = None;
        let mut i: usize = 0;
        while i < points.len() && found.is_none()
            invariant
                cur.wf(),
                cur.width == width,
                cur.height == height,
                i <= points@.len(),
                forall|q: Pos| #[trigger] points@.contains(q) <==> (q.0 < width && q.1 < height),
                found is None ==> forall|j: int|
                    0 <= j < i ==> cur.at(#[trigger] points@[j]) == WALL || !rooms@.contains(
                        cur.at(points@[j]),
                    ),
                found matches Some(q) ==> cur.contains(q) && cur.at(q) != WALL && rooms@.contains(
                    cur.at(q),
                ),
            decreases points@.len() - i,
        {
            let q = points[i];
            assert(points@.contains(q));
            let v = cur.get(&q);
            if v != WALL && has(&rooms, v) {
                found = Some(q);
            }
            i = i + 1;
        }
        match found {
            None => {
                proof {
                    assert forall|p: Pos| #[trigger] cur.contains(p) implies cur.at(p) == WALL by {
                        assert(points@.contains(p));
                    }
                }
                done = true;
            },
            Some(point) => {
                let room = cur.get(&point);
                let goal = without(&rooms, room);
                match search_closest_value(&cur, &point, &goal) {
                    None => {
                        proof {
                            assert forall|p: Pos| #[trigger] cur.contains(p) && cur.at(p) != WALL implies cur.at(p)
                                == room by {
                                if cur.at(p) != room {
                                    assert(goal@.contains(cur.at(p)));
                                }
                            }
                        }
                        done = true;
                    },
                    Some(path) => {
                        let target = path[path.len() - 1];
                        assert(cur.contains(path@[path@.len() - 1]));
                        let old_room = cur.get(&target);
                        let mut room_only: Vec<i32> = Vec::new();
                        room_only.push(room);
                        assert(room_only@[0] == room);
                        let edge = search_closest_value(&cur, &target, &room_only).unwrap();
                        let ghost g0 = cur;
                        proof {
                            let e = edge@.last();
                            assert(room_only@.contains(cur.at(e)));
                        }
                        merge_into(&mut cur, &edge, old_room, room);
                        proof {
                            if connected_in {
                                lemma_merge_connected(g0, cur, edge@, old_room, room);
                            }
                            assert forall|p: Pos| #[trigger] cur.contains(p) implies cur.at(p) == WALL
                                || (rooms@.contains(cur.at(p)) && cur.at(p) != old_room) by {
                                assert(g0.contains(p));
                            }
                            assert forall|p: Pos| #[trigger] cur.contains(p) && nm.at(p) != WALL implies cur.at(p) != WALL by {
                                assert(g0.contains(p));
                            }
                        }
                        rooms = without(&rooms, old_room);
                    },
                }
            },
        }
    }
    proof {
        if !done {
            assert forall|p: Pos, q: Pos|
                #![trigger cur.at(p), cur.at(q)]
                cur.contains(p) && cur.contains(q) && cur.at(p) != WALL && cur.at(q) != WALL implies cur.at(p) == cur.at(q) by {
                let a = choose|a: int| 0 <= a < rooms@.len() && rooms@[a] == cur.at(p);
                let b = choose|b: int| 0 <= b < rooms@.len() && rooms@[b] == cur.at(q);
            }
        }
        assert forall|p: Pos| #[trigger] cur.contains(p) implies cur.at(p) == WALL || (2 <= cur.at(p) < 2 + number_rooms) by {
            if cur.at(p) != WALL {
                assert(rooms@.contains(cur.at(p)));
            }
        }
    }
    cur
}

/// The ids held by non-wall cells of `g`.
pub open spec fn region_ids(g: NodeMap<i32>) -> Set<i32> {
    Set::new(|v: i32| v != WALL && has_label(g, v as int))
}

/// After repair, a grid that had a floor cell holds exactly one non-wall id:
/// repair never walls over floor and leaves a single region.
pub proof fn lemma_repair_leaves_one_id(before: NodeMap<i32>, after: NodeMap<i32>, p: Pos)
    requires
        after.width == before.width,
        after.height == before.height,
        forall|q: Pos| #[trigger] after.contains(q) && before.at(q) != WALL ==> after.at(q) != WALL,
        one_region(after),
        before.contains(p),
        before.at(p) != WALL,
    ensures
        region_ids(after) == set![after.at(p)],
        region_ids(after).len() == 1,
{
    assert(after.contains(p));
    assert forall|v: i32| #[trigger] region_ids(after).contains(v) <==> v == after.at(p) by {
        if region_ids(after).contains(v) {
            let q = choose|q: Pos| #[trigger] after.contains(q) && after.at(q) == v as int;
            assert(after.at(q) == after.at(p));
        }
        if v == after.at(p) {
            assert(has_label(after, v as int));
        }
    }
    assert(region_ids(after) =~= set![after.at(p)]);
    assert(set![after.at(p)].len() == 1);
}

} // verus!
