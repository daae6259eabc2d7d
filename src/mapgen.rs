//! The cave generator: from a random seed to a connected cave with a start and an end.

use vstd::prelude::*;
use crate::error::GenError;
use crate::grid::NodeMap;
use crate::regions::{fill_map, has_label, scanned_before};
use crate::smoothing::{automaton, is_binary, lemma_all_wall_step, on_border, seed};
use crate::tunnels::{connect_rooms, one_region, regions_connected};
use crate::walk::{lemma_linked_mono, linked, passable, Pos};

verus! {

/// A cell that is solid rock.
pub const WALL: i32 = 1;

/// A floor cell that no region has claimed yet.
pub const FLOOR: i32 = 0;

/// Every coordinate of a `x` by `y` grid once, in random order.
pub fn randomize_points(x: usize, y: usize) -> (r: Vec<Pos>)
    ensures
        r@.no_duplicates(),
        forall|p: Pos| #[trigger] r@.contains(p) <==> (p.0 < x && p.1 < y),
{
    let mut points: Vec<Pos> = Vec::new();
    let mut i: usize = 0;
    while i < x
        invariant
            i <= x,
            points@.no_duplicates(),
            forall|k: int|
                0 <= k < points@.len() ==> (#[trigger] points@[k]).0 < x && points@[k].1 < y
                    && scanned_before(points@[k], i as int, 0),
            forall|p: Pos| #[trigger]
                points@.contains(p) <==> (p.0 < x && p.1 < y && scanned_before(p, i as int, 0)),
        decreases x - i,
    {
        let mut j: usize = 0;
        while j < y
            invariant
                i < x,
                j <= y,
                points@.no_duplicates(),
                forall|k: int|
                    0 <= k < points@.len() ==> (#[trigger] points@[k]).0 < x && points@[k].1 < y
                        && scanned_before(points@[k], i as int, j as int),
                forall|p: Pos| #[trigger]
                    points@.contains(p) <==> (p.0 < x && p.1 < y && scanned_before(
                        p,
                        i as int,
                        j as int,
                    )),
            decreases y - j,
        {
            let ghost old_points = points@;
            points.push((i, j));
            proof {
                assert(points@[old_points.len() as int] == (i, j));
                assert forall|p: Pos| #[trigger]
                    points@.contains(p) <==> (p.0 < x && p.1 < y && scanned_before(
                        p,
                        i as int,
                        j as int + 1,
                    )) by {
                    if points@.contains(p) {
                        let k = choose|k: int| 0 <= k < points@.len() && points@[k] == p;
                        if k < old_points.len() {
                            assert(old_points[k] == p);
                        }
                    }
                    if p.0 < x && p.1 < y && scanned_before(p, i as int, j as int + 1) {
                        if p.0 == i && p.1 == j {
                            assert(p == (i, j));
                        } else {
                            assert(old_points.contains(p));
                            let k = choose|k: int| 0 <= k < old_points.len() && old_points[k] == p;
                            assert(points@[k] == p);
                        }
                    }
                }
                assert forall|a: int, b: int|
                    0 <= a < points@.len() && 0 <= b < points@.len() && a != b implies points@[a]
                    != points@[b] by {
                    if a < old_points.len() && b < old_points.len() {
                        assert(old_points[a] != old_points[b]);
                    } else if a < old_points.len() {
                        assert(scanned_before(old_points[a], i as int, j as int));
                    } else if b < old_points.len() {
                        assert(scanned_before(old_points[b], i as int, j as int));
                    }
                }
            }
            j = j + 1;
        }
        i = i + 1;
    }
    let ghost before = points@;
    crate::rng::shuffle_points(&mut points);
    proof {
        broadcast use vstd::seq_lib::group_to_multiset_ensures;

        before.lemma_multiset_has_no_duplicates();
        points@.lemma_multiset_has_no_duplicates_conv();
        assert forall|p: Pos| #[trigger] points@.contains(p) <==> before.contains(p) by {
            assert(points@.to_multiset().count(p) == before.to_multiset().count(p));
        }
    }
    points
}

/// `g` has two different non-wall cells.
pub open spec fn has_two_floor_cells(g: NodeMap<i32>) -> bool {
    exists|p: Pos, q: Pos|
        #![trigger g.at(p), g.at(q)]
        g.contains(p) && g.contains(q) && p != q && g.at(p) != WALL && g.at(q) != WALL
}

/// Two different non-wall cells picked at random, as start and end; or
/// `InsufficientFloorCells` when the grid has fewer than two.
pub fn find_start_and_exit(nm: &NodeMap<i32>) -> (r: Result<(Pos, Pos), GenError>)
    requires
        nm.wf(),
    ensures
        r is Ok <==> has_two_floor_cells(*nm),
        r matches Ok((s, e)) ==> nm.contains(s) && nm.contains(e) && s != e && nm.at(s) != WALL
            && nm.at(e) != WALL,
        r matches Err(err) ==> err == GenError::InsufficientFloorCells,
{
    let points = randomize_points(nm.width, nm.height);
    let mut open: Vec<Pos> = Vec::new();
    let mut i: usize = 0;
    while i < points.len()
        invariant
            nm.wf(),
            i <= points@.len(),
            points@.no_duplicates(),
            forall|q: Pos| #[trigger] points@.contains(q) <==> nm.contains(q),
            open@.no_duplicates(),
            forall|k: int|
                0 <= k < open@.len() ==> points@.subrange(0, i as int).contains(#[trigger] open@[k])
                    && nm.at(open@[k]) != WALL,
            forall|j: int|
                0 <= j < i && nm.at(#[trigger] points@[j]) != WALL ==> open@.contains(points@[j]),
        decreases points@.len() - i,
    {
        let q = points[i];
        assert(points@.contains(q));
        let ghost o0 = open@;
        if nm.get(&q) != WALL {
            open.push(q);
            proof {
                assert(open@[o0.len() as int] == q);
                assert forall|a: int, b: int|
                    0 <= a < open@.len() && 0 <= b < open@.len() && a != b implies open@[a] != open@[b] by {
                    if a < o0.len() && b < o0.len() {
                        assert(o0[a] != o0[b]);
                    } else if a < o0.len() || b < o0.len() {
                        let c = if a < o0.len() { a } else { b };
                        assert(points@.subrange(0, i as int).contains(o0[c]));
                        let j = choose|j: int| 0 <= j < i && points@.subrange(0, i as int)[j] == o0[c];
                        assert(points@[j] == o0[c]);
                    }
                }
                assert forall|j: int|
                    0 <= j < i + 1 && nm.at(#[trigger] points@[j]) != WALL implies open@.contains(points@[j]) by {
                    if j < i {
                        assert(o0.contains(points@[j]));
                        let k = choose|k: int| 0 <= k < o0.len() && o0[k] == points@[j];
                        assert(open@[k] == points@[j]);
                    }
                }
            }
        }
        proof {
            assert forall|k: int|
                0 <= k < open@.len() implies points@.subrange(0, i + 1).contains(#[trigger] open@[k]) && nm.at(open@[k]) != WALL by {
                if k < o0.len() {
                    assert(open@[k] == o0[k]);
                    let j = choose|j: int| 0 <= j < i && points@.subrange(0, i as int)[j] == o0[k];
                    assert(points@.subrange(0, i + 1)[j] == o0[k]);
                } else {
                    assert(points@.subrange(0, i + 1)[i as int] == q);
                }
            }
        }
        i = i + 1;
    }
    if open.len() < 2 {
        proof {
            if has_two_floor_cells(*nm) {
                let (p, q) = choose|p: Pos, q: Pos|
                    #![trigger nm.at(p), nm.at(q)]
                    nm.contains(p) && nm.contains(q) && p != q && nm.at(p) != WALL && nm.at(q) != WALL;
                assert(points@.contains(p));
                assert(points@.contains(q));
                assert(open@.contains(p));
                assert(open@.contains(q));
                let ka = choose|ka: int| 0 <= ka < open@.len() && open@[ka] == p;
                let kb = choose|kb: int| 0 <= kb < open@.len() && open@[kb] == q;
            }
        }
        return Err(GenError::InsufficientFloorCells);
    }
    let ghost o = open@;
    let start = open.pop().unwrap();
    let end = open.pop().unwrap();
    proof {
        assert(start == o[o.len() - 1]);
        assert(end == o[o.len() - 2]);
        assert(nm.at(o[o.len() - 1]) != WALL);
        assert(nm.at(o[o.len() - 2]) != WALL);
        assert(points@.subrange(0, i as int).contains(o[o.len() - 1]));
        assert(points@.subrange(0, i as int).contains(o[o.len() - 2]));
        let j1 = choose|j: int| 0 <= j < i && points@.subrange(0, i as int)[j] == o[o.len() - 1];
        let j2 = choose|j: int| 0 <= j < i && points@.subrange(0, i as int)[j] == o[o.len() - 2];
        assert(points@[j1] == start);
        assert(points@[j2] == end);
        assert(points@.contains(start));
        assert(points@.contains(end));
        assert(nm.contains(start));
        assert(nm.contains(end));
        assert(has_two_floor_cells(*nm));
    }
    Ok((start, end))
}

/// What the generator hands to the rendering and game layers.
pub struct MapInfo {
    /// `'#'` for wall and `'.'` for floor.
    pub walls: NodeMap<char>,
    /// The region ids as labelled before any tunnel was carved; walls hold 1.
    pub regions: NodeMap<i32>,
    /// The final grid: wall is 1, and every floor cell holds the one remaining id.
    pub cave: NodeMap<i32>,
    /// Occupancy for the game layer, all clear at first.
    pub blocked: NodeMap<bool>,
    /// Visibility for the game layer, all visible at first.
    pub visible: NodeMap<bool>,
    pub start: Pos,
    pub end: Pos,
}

/// The glyph drawn for a cell holding `v`.
pub open spec fn glyph(v: i32) -> char {
    if v == WALL {
        '#'
    } else {
        '.'
    }
}

/// `info` describes a connected cave of the given size.
pub open spec fn valid_map(info: MapInfo, width: usize, height: usize) -> bool {
    &&& info.cave.wf() && info.cave.width == width && info.cave.height == height
    &&& info.regions.wf() && info.regions.width == width && info.regions.height == height
    &&& info.walls.wf() && info.walls.width == width && info.walls.height == height
    &&& info.blocked.wf() && info.blocked.width == width && info.blocked.height == height
    &&& info.visible.wf() && info.visible.width == width && info.visible.height == height
    &&& forall|p: Pos| #[trigger]
        info.cave.contains(p) ==> info.walls.at(p) == glyph(info.cave.at(p)) && !info.blocked.at(p)
            && info.visible.at(p)
    &&& forall|p: Pos| #[trigger]
        info.cave.contains(p) && info.regions.at(p) != WALL ==> info.cave.at(p) != WALL
    &&& one_region(info.cave)
    &&& regions_connected(info.cave)
    &&& info.cave.contains(info.start) && info.cave.contains(info.end)
    &&& info.start != info.end
    &&& info.cave.at(info.start) != WALL && info.cave.at(info.end) != WALL
    &&& linked(info.cave, info.start, info.end, false)
}

/// The glyph grid of `g`.
pub fn render_walls(g: &NodeMap<i32>) -> (r: NodeMap<char>)
    requires
        g.wf(),
    ensures
        r.wf(),
        r.width == g.width,
        r.height == g.height,
        forall|p: Pos| #[trigger] r.contains(p) ==> r.at(p) == glyph(g.at(p)),
{
    let mut v: Vec<char> = Vec::new();
    let mut i: usize = 0;
    while i < g.grid.len()
        invariant
            i <= g.cells().len(),
            v@.len() == i,
            forall|j: int| 0 <= j < i ==> #[trigger] v@[j] == glyph(g.cells()[j]),
        decreases g.cells().len() - i,
    {
        if g.grid[i] == WALL {
            v.push('#');
        } else {
            v.push('.');
        }
        i = i + 1;
    }
    let r = NodeMap::from_vec(g.width, g.height, v);
    assert forall|p: Pos| #[trigger] r.contains(p) implies r.at(p) == glyph(g.at(p)) by {
        crate::grid::lemma_index_bounds(g.width as int, g.height as int, p.0 as int, p.1 as int);
    }
    r
}

/// Some cell of `g` is unlabelled floor.
pub open spec fn has_floor(g: NodeMap<i32>) -> bool {
    exists|p: Pos| #[trigger] g.contains(p) && g.at(p) == FLOOR
}

/// Two different cells of `g` are unlabelled floor.
pub open spec fn has_two_floor(g: NodeMap<i32>) -> bool {
    exists|p: Pos, q: Pos|
        #![trigger g.at(p), g.at(q)]
        g.contains(p) && g.contains(q) && p != q && g.at(p) == FLOOR && g.at(q) == FLOOR
}

/// Turns a smoothed grid of walls and floor into a cave: labels its regions,
/// joins them by tunnels and picks a start and an end. Reports
/// `EmptyRegionSet` when the grid has no floor, and `InsufficientFloorCells`
/// when it has a single floor cell.
pub fn carve_cave(nm: &NodeMap<i32>) -> (r: Result<MapInfo, GenError>)
    requires
        nm.wf(),
        is_binary(*nm),
        nm.width * nm.height + 2 <= i32::MAX,
    ensures
        r is Ok <==> has_two_floor(*nm),
        r == Err::<MapInfo, GenError>(GenError::EmptyRegionSet) <==> !has_floor(*nm),
        r matches Err(e) ==> e == GenError::EmptyRegionSet || e == GenError::InsufficientFloorCells,
        r matches Ok(info) ==> valid_map(info, nm.width, nm.height) && (forall|p: Pos| #[trigger]
            nm.contains(p) ==> (info.regions.at(p) == WALL <==> nm.at(p) == WALL)),
{
    let width = nm.width;
    let height = nm.height;
    let (labelled, rooms) = fill_map(nm);
    if rooms == 0 {
        proof {
            if has_floor(*nm) {
                let p = choose|p: Pos| #[trigger] nm.contains(p) && nm.at(p) == FLOOR;
                assert(labelled.contains(p));
            }
            if has_two_floor(*nm) {
                let (p, q) = choose|p: Pos, q: Pos|
                    #![trigger nm.at(p), nm.at(q)]
                    nm.contains(p) && nm.contains(q) && p != q && nm.at(p) == FLOOR && nm.at(q) == FLOOR;
                assert(labelled.contains(p));
            }
        }
        return Err(GenError::EmptyRegionSet);
    }
    proof {
        assert(has_label(labelled, 2));
        let p = choose|p: Pos| #[trigger] labelled.contains(p) && labelled.at(p) == 2;
        assert(nm.contains(p));
        assert(has_floor(*nm));
        assert forall|p: Pos, q: Pos|
            #![trigger labelled.at(p), labelled.at(q)]
            labelled.contains(p) && labelled.contains(q) && labelled.at(p) != WALL && labelled.at(p)
                == labelled.at(q) implies linked(labelled, p, q, false) by {
            assert(nm.contains(p));
            assert(nm.contains(q));
            assert forall|c: Pos| #[trigger] nm.contains(c) && passable(nm.at(c), true) implies passable(
                labelled.at(c),
                false,
            ) by {
                assert(labelled.contains(c));
            }
            lemma_linked_mono(*nm, labelled, p, q, true, false);
        }
        assert forall|p: Pos| #[trigger] labelled.contains(p) implies labelled.at(p) == WALL || (2
            <= labelled.at(p) < 2 + rooms) by {
            assert(nm.contains(p));
        }
    }
    let cave = connect_rooms(&labelled, rooms);
    proof {
        if has_two_floor(*nm) {
            let (p, q) = choose|p: Pos, q: Pos|
                #![trigger nm.at(p), nm.at(q)]
                nm.contains(p) && nm.contains(q) && p != q && nm.at(p) == FLOOR && nm.at(q) == FLOOR;
            assert(cave.contains(p) && cave.contains(q));
            assert(labelled.contains(p) && labelled.contains(q));
            assert(cave.at(p) != WALL && cave.at(q) != WALL);
            assert(has_two_floor_cells(cave));
        }
        if has_two_floor_cells(cave) {
            let (p, q) = choose|p: Pos, q: Pos|
                #![trigger cave.at(p), cave.at(q)]
                cave.contains(p) && cave.contains(q) && p != q && cave.at(p) != WALL && cave.at(q) != WALL;
            assert(nm.contains(p) && nm.contains(q));
            assert(labelled.contains(p) && labelled.contains(q));
            if rooms >= 2 {
                assert(has_label(labelled, 2));
                assert(has_label(labelled, 3));
                let a = choose|a: Pos| #[trigger] labelled.contains(a) && labelled.at(a) == 2;
                let b = choose|b: Pos| #[trigger] labelled.contains(b) && labelled.at(b) == 3;
                assert(nm.contains(a) && nm.contains(b));
                assert(nm.at(a) == FLOOR && nm.at(b) == FLOOR);
                assert(has_two_floor(*nm));
            } else {
                assert(cave.cells() == labelled.cells());
                assert(nm.at(p) == FLOOR && nm.at(q) == FLOOR);
                assert(has_two_floor(*nm));
            }
        }
    }
    let (start, end) = match find_start_and_exit(&cave) {
        Ok(pair) => pair,
        Err(e) => {
            return Err(e);
        },
    };
    proof {
        assert(cave.at(start) == cave.at(end));
    }
    let walls = render_walls(&cave);
    let blocked = NodeMap::new(width, height, false);
    let visible = NodeMap::new(width, height, true);
    let info = MapInfo { walls, regions: labelled, cave, blocked, visible, start, end };
    proof {
        assert forall|p: Pos| #[trigger] info.cave.contains(p) implies info.walls.at(p) == glyph(
            info.cave.at(p),
        ) && !info.blocked.at(p) && info.visible.at(p) by {
            assert(info.walls.contains(p));
            assert(info.blocked.contains(p));
            assert(info.visible.contains(p));
        }
        assert forall|p: Pos| #[trigger]
            info.cave.contains(p) && info.regions.at(p) != WALL implies info.cave.at(p) != WALL by {
            assert(labelled.contains(p));
            assert(nm.contains(p));
        }
        assert forall|p: Pos| #[trigger] nm.contains(p) implies (info.regions.at(p) == WALL <==> nm.at(p)
            == WALL) by {
            assert(labelled.contains(p));
        }
    }
    Ok(info)
}

/// Generates a connected cave: seeds `width` by `height` cells with walls at
/// `fill_percentage` percent and a solid border, smooths it `generations`
/// times, then carves it (see `carve_cave`). An open seed that is not smoothed
/// always succeeds once the grid has two interior cells; a full seed always
/// reports `EmptyRegionSet`.
pub fn generate_cave(width: usize, height: usize, generations: usize, fill_percentage: usize) -> (r:
    Result<MapInfo, GenError>)
    requires
        width * height + 2 <= i32::MAX,
    ensures
        r matches Ok(info) ==> valid_map(info, width, height),
        r matches Err(e) ==> e == GenError::EmptyRegionSet || e == GenError::InsufficientFloorCells,
        fill_percentage >= 100 ==> r == Err::<MapInfo, GenError>(GenError::EmptyRegionSet),
        fill_percentage == 0 && generations == 0 && width >= 4 && height >= 3 ==> r is Ok,
{
    let mut nm = seed(width, height, fill_percentage);
    let ghost seeded = nm;
    let mut k: usize = 0;
    while k < generations
        invariant
            nm.wf(),
            nm.width == width,
            nm.height == height,
            is_binary(nm),
            fill_percentage >= 100 ==> forall|p: Pos| #[trigger] nm.contains(p) ==> nm.at(p) == WALL,
            k == 0 ==> nm == seeded,
            k <= generations,
        decreases generations - k,
    {
        let next = automaton(&nm);
        proof {
            if fill_percentage >= 100 {
                lemma_all_wall_step(nm, next);
            }
            assert forall|p: Pos| #[trigger] next.contains(p) implies next.at(p) == WALL || next.at(p)
                == FLOOR by {}
        }
        nm = next;
        k = k + 1;
    }
    proof {
        if fill_percentage >= 100 && has_floor(nm) {
            let p = choose|p: Pos| #[trigger] nm.contains(p) && nm.at(p) == FLOOR;
        }
        if fill_percentage == 0 && generations == 0 && width >= 4 && height >= 3 {
            let p: Pos = (1, 1);
            let q: Pos = (2, 1);
            assert(nm.contains(p) && !on_border(nm, p));
            assert(nm.contains(q) && !on_border(nm, q));
            assert(nm.at(p) == FLOOR && nm.at(q) == FLOOR);
            assert(has_two_floor(nm));
        }
    }
    carve_cave(&nm)
}

} // verus!
