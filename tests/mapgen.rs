use cavegen::error::GenError;
use cavegen::grid::NodeMap;
use cavegen::mapgen::{carve_cave, find_start_and_exit, generate_cave, randomize_points, render_walls};
use cavegen::regions::{fill_map, flood_fill, room_sizes};
use cavegen::smoothing::{
    automaton, binary_from_rolls, count_alive_neighbours, fill_edges_with, new_binary_nodemap, seed,
};
use cavegen::tunnels::{change_nodes, connect_rooms};
use std::collections::{HashSet, VecDeque};

fn show<C: std::fmt::Debug + Clone>(nm: &NodeMap<C>) {
    for j in 0..nm.height {
        let mut line = String::new();
        for i in 0..nm.width {
            line.push_str(&format!("{:?}", nm.get(&(i, j))));
        }
        println!("{}", line);
    }
}

/// Cells reachable from `start` by 4-steps over cells that are not wall.
fn reachable(g: &NodeMap<i32>, start: (usize, usize)) -> HashSet<(usize, usize)> {
    let mut seen = HashSet::new();
    let mut queue = VecDeque::new();
    if g.get(&start) == 1 {
        return seen;
    }
    seen.insert(start);
    queue.push_back(start);
    while let Some((x, y)) = queue.pop_front() {
        let mut next = vec![];
        if x > 0 {
            next.push((x - 1, y));
        }
        if y > 0 {
            next.push((x, y - 1));
        }
        if x + 1 < g.width {
            next.push((x + 1, y));
        }
        if y + 1 < g.height {
            next.push((x, y + 1));
        }
        for n in next {
            if g.get(&n) != 1 && seen.insert(n) {
                queue.push_back(n);
            }
        }
    }
    seen
}

fn distinct_floor_ids(g: &NodeMap<i32>) -> HashSet<i32> {
    let mut ids = HashSet::new();
    for y in 0..g.height {
        for x in 0..g.width {
            let v = g.get(&(x, y));
            if v != 1 {
                ids.insert(v);
            }
        }
    }
    ids
}

#[test]
fn test_count_alive() {
    let m = NodeMap::from_vec(3, 3, vec![1, 0, 1, 1, 0, 1, 1, 0, 1]);

    assert_eq!(count_alive_neighbours(&m, &(1, 1)), 6);
}

#[test]
fn count_alive_counts_off_grid_as_wall() {
    let m = NodeMap::new(3, 3, 0);
    assert_eq!(count_alive_neighbours(&m, &(0, 0)), 5);
    assert_eq!(count_alive_neighbours(&m, &(1, 0)), 3);
    assert_eq!(count_alive_neighbours(&m, &(1, 1)), 0);
}

#[test]
fn test_fill_dungeon() {
    let mut m2 = new_binary_nodemap(60, 35, 40);
    fill_edges_with(&mut m2, 1);

    show(&m2);
    let mut m3 = automaton(&m2);
    m3 = automaton(&m3);
    m3 = automaton(&m3);

    show(&m3);

    let rooms: usize;
    let res = fill_map(&m3);
    m3 = res.0;
    rooms = res.1;

    println!();
    show(&m3);
    assert_eq!(distinct_floor_ids(&m3).len(), rooms);
}

#[derive(Clone, Debug)]
pub struct CharMap {
    map: Vec<char>,
    height: usize,
    width: usize,
}

impl CharMap {
    fn get(&self, x: i32, y: i32) -> Option<char> {
        if x >= self.width as i32 || x < 0 || y >= self.height as i32 || y < 0 {
            return None;
        }
        Some(self.map[(y as usize * self.height) + x as usize])
    }

    fn set(&mut self, x: i32, y: i32, c: char) -> Result<(), ()> {
        if x >= self.width as i32 || x < 0 || y >= self.height as i32 || y < 0 {
            return Err(());
        }
        self.map[(y as usize * self.height) + x as usize] = c;
        Ok(())
    }

    fn new(c: char, width: usize, height: usize) -> CharMap {
        CharMap { map: vec![c; width * height], height, width }
    }

    fn in_map(&self, x: i32, y: i32) -> bool {
        if x >= self.width as i32 || x < 0 || y >= self.height as i32 || y < 0 {
            return false;
        }
        true
    }
}

#[derive(Clone, Debug, Eq, Hash, Ord, PartialEq, PartialOrd)]
struct Pos(i32, i32);

impl Pos {
    fn neighbours(&self, map: &CharMap) -> Vec<(Pos, usize)> {
        let &Pos(x, y) = self;
        vec![Pos(x + 1, y), Pos(x, y - 1), Pos(x - 1, y), Pos(x, y + 1)]
            .into_iter()
            .filter(|p| map.in_map(p.0, p.1))
            .filter(|p| map.get(p.0, p.1).unwrap() != '0')
            .map(|p| (p, 1))
            .collect()
    }
}

#[test]
fn test_pos() {
    let p = Pos(0, 0);
    let mut map = CharMap::new('1', 10, 10);

    for i in 0..6 {
        map.set(i, 1, '0').unwrap();
    }

    let mut line = String::new();
    for i in 0..100 {
        line.push(map.get(i % 10, i / 10).unwrap());
        if i % 10 == 9 {
            println!("{}", line);
            line.clear();
        }
    }

    println!("Pos: {:?}", p.neighbours(&map));
}

#[test]
fn test_binary_nodemap() {
    let nm = new_binary_nodemap(20, 20, 40);
    show(&nm);
}

#[test]
fn test_fill_edges_with() {
    let mut nm = new_binary_nodemap(5, 7, 0);
    fill_edges_with(&mut nm, 1);
    show(&nm);
    for y in 0..7 {
        for x in 0..5 {
            let border = x == 0 || x == 4 || y == 0 || y == 6;
            assert_eq!(nm.get(&(x, y)), if border { 1 } else { 0 });
        }
    }
}

#[test]
fn test_connect_rooms() {
    let mut nm = NodeMap::new(10, 10, 1);
    let room1 = &[(1, 1), (1, 2), (2, 2), (2, 1)];
    let room2 = &[(8, 8), (9, 9), (8, 9), (9, 8)];
    let room3 = &[(3, 5), (3, 6), (4, 5), (4, 6)];

    for point in room1 {
        nm.set(&point, 2);
    }

    for point in room2 {
        nm.set(&point, 3);
    }

    for point in room3 {
        nm.set(&point, 4);
    }

    let connected = connect_rooms(&nm, 3);
    show(&connected);
}

#[test]
fn three_rooms_merge_into_one() {
    let mut nm = NodeMap::new(10, 10, 1);
    let rooms = [
        [(1, 1), (1, 2), (2, 2), (2, 1)],
        [(7, 7), (7, 8), (8, 8), (8, 7)],
        [(3, 5), (3, 6), (4, 5), (4, 6)],
    ];
    for (i, room) in rooms.iter().enumerate() {
        for p in room {
            nm.set(p, 2 + i as i32);
        }
    }
    let connected = connect_rooms(&nm, 3);
    assert_eq!(distinct_floor_ids(&connected).len(), 1);
    let from = reachable(&connected, (1, 1));
    for room in rooms.iter() {
        for p in room {
            assert!(from.contains(p));
            assert_ne!(connected.get(p), 1);
        }
    }
}

#[test]
fn connect_rooms_with_one_room_changes_nothing() {
    let mut nm = NodeMap::new(5, 5, 1);
    nm.set(&(2, 2), 2);
    let out = connect_rooms(&nm, 1);
    assert_eq!(out.grid, nm.grid);
}

#[test]
fn flood_fill_colours_one_patch() {
    // Two floor patches split by a wall column.
    let m = NodeMap::from_vec(
        5,
        3,
        vec![1, 0, 1, 0, 1, 1, 0, 1, 0, 1, 1, 1, 1, 0, 1],
    );
    let r = flood_fill((1, 0), &m, 7);
    assert_eq!(r.grid, vec![1, 7, 1, 0, 1, 1, 7, 1, 0, 1, 1, 1, 1, 0, 1]);
}

#[test]
fn flood_fill_stops_at_grid_edge() {
    let m = NodeMap::new(3, 2, 0);
    let r = flood_fill((0, 0), &m, 2);
    assert_eq!(r.grid, vec![2; 6]);
}

#[test]
fn fill_map_labels_every_patch() {
    let m = NodeMap::from_vec(
        5,
        3,
        vec![1, 0, 1, 0, 1, 1, 0, 1, 0, 1, 1, 1, 1, 0, 1],
    );
    let (r, count) = fill_map(&m);
    assert_eq!(count, 2);
    // Scan is column by column, so the patch at x == 1 is labelled first.
    assert_eq!(r.grid, vec![1, 2, 1, 3, 1, 1, 2, 1, 3, 1, 1, 1, 1, 3, 1]);
}

#[test]
fn fill_map_leaves_no_unlabelled_cell() {
    let mut nm = seed(30, 20, 45);
    nm = automaton(&nm);
    let (r, _) = fill_map(&nm);
    for y in 0..20 {
        for x in 0..30 {
            let v = r.get(&(x, y));
            assert!(v == 1 || v >= 2);
        }
    }
}

#[test]
fn automaton_applies_limits() {
    // A lone wall surrounded by floor crumbles; a floor cell amid walls fills in.
    let lone = NodeMap::from_vec(3, 3, vec![0, 0, 0, 0, 1, 0, 0, 0, 0]);
    let r = automaton(&lone);
    assert_eq!(r.get(&(1, 1)), 0);
    // Corners see five off-grid walls, so they turn to wall.
    assert_eq!(r.get(&(0, 0)), 1);
    assert_eq!(r.get(&(1, 0)), 0);
    let hole = NodeMap::from_vec(3, 3, vec![1, 1, 1, 1, 0, 1, 1, 1, 1]);
    let r = automaton(&hole);
    assert_eq!(r.grid, vec![1; 9]);
}

#[test]
fn automaton_is_deterministic() {
    let nm = seed(25, 15, 45);
    let a = automaton(&nm);
    let b = automaton(&nm);
    assert_eq!(a.grid, b.grid);
}

#[test]
fn seed_has_solid_border() {
    let nm = seed(12, 9, 40);
    for y in 0..9 {
        for x in 0..12 {
            let v = nm.get(&(x, y));
            assert!(v == 0 || v == 1);
            if x == 0 || x == 11 || y == 0 || y == 8 {
                assert_eq!(v, 1);
            }
        }
    }
}

#[test]
fn seed_extremes() {
    let open = seed(10, 10, 0);
    let full = seed(10, 10, 100);
    for y in 0..10 {
        for x in 0..10 {
            let border = x == 0 || x == 9 || y == 0 || y == 9;
            assert_eq!(open.get(&(x, y)), if border { 1 } else { 0 });
            assert_eq!(full.get(&(x, y)), 1);
        }
    }
}

#[test]
fn binary_from_rolls_uses_threshold() {
    let g = binary_from_rolls(2, 2, &vec![10, 39, 40, 99], 40);
    assert_eq!(g.grid, vec![1, 1, 0, 0]);
}

#[test]
fn change_nodes_relabels() {
    let mut g = NodeMap::from_vec(3, 1, vec![2, 3, 2]);
    change_nodes(&mut g, 2, 5);
    assert_eq!(g.grid, vec![5, 3, 5]);
}

#[test]
fn randomize_points_is_a_permutation() {
    let pts = randomize_points(4, 3);
    assert_eq!(pts.len(), 12);
    let set: HashSet<(usize, usize)> = pts.iter().cloned().collect();
    assert_eq!(set.len(), 12);
    for p in pts {
        assert!(p.0 < 4 && p.1 < 3);
    }
}

#[test]
fn find_start_and_exit_picks_two_floor_cells() {
    let g = NodeMap::from_vec(3, 1, vec![2, 1, 2]);
    let (s, e) = find_start_and_exit(&g).unwrap();
    assert_ne!(s, e);
    assert_ne!(g.get(&s), 1);
    assert_ne!(g.get(&e), 1);
}

#[test]
fn find_start_and_exit_needs_two_floor_cells() {
    let g = NodeMap::from_vec(3, 1, vec![1, 2, 1]);
    assert_eq!(find_start_and_exit(&g), Err(GenError::InsufficientFloorCells));
}

#[test]
fn render_walls_draws_glyphs() {
    let g = NodeMap::from_vec(3, 1, vec![1, 0, 4]);
    assert_eq!(render_walls(&g).grid, vec!['#', '.', '.']);
}

#[test]
fn open_cave_is_one_region() {
    let info = generate_cave(10, 10, 0, 0).unwrap();
    assert_eq!(distinct_floor_ids(&info.regions), [2].into_iter().collect());
    assert_eq!(distinct_floor_ids(&info.cave), [2].into_iter().collect());
    assert_eq!(info.regions.grid, info.cave.grid);
    for p in [info.start, info.end] {
        assert!(p.0 >= 1 && p.0 <= 8 && p.1 >= 1 && p.1 <= 8);
    }
    assert_ne!(info.start, info.end);
    assert!(reachable(&info.cave, info.start).contains(&info.end));
}

#[test]
fn full_cave_reports_empty_region_set() {
    assert_eq!(generate_cave(10, 10, 0, 100).err(), Some(GenError::EmptyRegionSet));
    assert_eq!(generate_cave(10, 10, 3, 100).err(), Some(GenError::EmptyRegionSet));
}

#[test]
fn generated_cave_is_connected() {
    for _ in 0..5 {
        match generate_cave(40, 25, 3, 40) {
            Ok(info) => {
                assert_eq!(distinct_floor_ids(&info.cave).len(), 1);
                let from = reachable(&info.cave, info.start);
                assert!(from.contains(&info.end));
                for y in 0..25 {
                    for x in 0..40 {
                        let floor = info.cave.get(&(x, y)) != 1;
                        assert_eq!(floor, from.contains(&(x, y)));
                        assert_eq!(info.walls.get(&(x, y)), if floor { '.' } else { '#' });
                        assert!(!info.blocked.get(&(x, y)));
                        assert!(info.visible.get(&(x, y)));
                    }
                }
            },
            Err(e) => assert!(e == GenError::EmptyRegionSet || e == GenError::InsufficientFloorCells),
        }
    }
}

#[test]
fn carve_cave_outcomes_follow_floor_count() {
    let walls = NodeMap::new(4, 4, 1);
    assert_eq!(carve_cave(&walls).err(), Some(GenError::EmptyRegionSet));
    let mut one = NodeMap::new(4, 4, 1);
    one.set(&(1, 1), 0);
    assert_eq!(carve_cave(&one).err(), Some(GenError::InsufficientFloorCells));
    let mut two = one.clone();
    two.set(&(2, 2), 0);
    let info = carve_cave(&two).unwrap();
    assert_eq!(distinct_floor_ids(&info.regions).len(), 2);
    assert_eq!(distinct_floor_ids(&info.cave).len(), 1);
    assert!(reachable(&info.cave, info.start).contains(&info.end));
    assert_ne!(info.start, info.end);
}

#[test]
fn room_sizes_counts_and_orders() {
    let g = NodeMap::from_vec(3, 3, vec![1, 2, 2, 1, 3, 2, 1, 1, 1]);
    assert_eq!(room_sizes(&g, &vec![1]), vec![(3, 1), (2, 3)]);
    assert_eq!(room_sizes(&g, &vec![1, 2, 3]), vec![]);
    let all = room_sizes(&g, &vec![]);
    assert_eq!(all, vec![(3, 1), (2, 3), (1, 5)]);
}
