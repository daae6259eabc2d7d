use cavegen::error::GenError;
use cavegen::grid::NodeMap;

fn show<C: std::fmt::Debug + Clone>(nm: &NodeMap<C>) {
    for j in 0..nm.height {
        let mut line = String::new();
        for i in 0..nm.width {
            line.push_str(&format!("{:?}", nm.get(&(i, j))));
        }
        println!("{}", line);
    }
}

#[test]
fn test_grid_new() {
    let new = NodeMap::new(3, 5, 0);
    println!("{:?}", new);
}

#[test]
fn test_set_get() {
    let mut new = NodeMap::new(3, 2, 0);
    new.set(&(1, 0), 2);
    println!("{:?}", new.get(&(0, 1)));
    println!("{:?}", new);
    show(&new);
}

#[test]
fn test_from_vec() {
    let new = NodeMap::from_vec(3, 3, vec![0, 0, 1, 0, 0, 0, 0, 0, 0]);
    show(&new);
    assert_eq!(new.get(&(2, 0)), 1);
}

#[test]
fn new_grid_holds_fill_everywhere() {
    let g = NodeMap::new(4, 3, 7);
    assert_eq!(g.width, 4);
    assert_eq!(g.height, 3);
    for y in 0..3 {
        for x in 0..4 {
            assert_eq!(g.get(&(x, y)), 7);
        }
    }
}

#[test]
fn set_changes_one_cell_only() {
    let mut g = NodeMap::new(3, 2, 0);
    g.set(&(1, 0), 2);
    assert_eq!(g.get(&(1, 0)), 2);
    assert_eq!(g.get(&(0, 1)), 0);
    assert_eq!(g.get(&(1, 1)), 0);
    assert_eq!(g.grid, vec![0, 2, 0, 0, 0, 0]);
}

#[test]
fn from_vec_is_row_major() {
    let g = NodeMap::from_vec(2, 3, vec![1, 2, 3, 4, 5, 6]);
    assert_eq!(g.get(&(0, 0)), 1);
    assert_eq!(g.get(&(1, 0)), 2);
    assert_eq!(g.get(&(0, 1)), 3);
    assert_eq!(g.get(&(1, 2)), 6);
}

#[test]
fn try_from_vec_rejects_wrong_length() {
    let r = NodeMap::try_from_vec(3, 3, vec![0, 1, 0]);
    assert_eq!(r.err(), Some(GenError::DimensionMismatch));
    let r = NodeMap::try_from_vec(usize::MAX, 2, vec![0, 1, 0]);
    assert_eq!(r.err(), Some(GenError::DimensionMismatch));
}

#[test]
fn try_from_vec_accepts_right_length() {
    let g = NodeMap::try_from_vec(2, 2, vec![1, 0, 0, 1]).unwrap();
    assert_eq!(g.get(&(1, 1)), 1);
    assert_eq!(g.get(&(1, 0)), 0);
}

#[test]
fn clone_is_independent() {
    let a = NodeMap::new(2, 2, 0);
    let mut b = a.clone();
    b.set(&(0, 0), 5);
    assert_eq!(a.get(&(0, 0)), 0);
    assert_eq!(b.get(&(0, 0)), 5);
}
