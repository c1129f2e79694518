use prism::spatial::{is_adjacent, key_of, PointGrid};

fn sorted(mut v: Vec<u32>) -> Vec<u32> {
    v.sort();
    v
}

#[test]
fn neighbours_are_the_adjacent_cells() {
    let mut g = PointGrid::<2>::new();
    g.update(vec![[0, 0], [1, 1], [2, 0], [0, 0], [-1, 0], [5, 5], [1, -1]]);
    assert_eq!(g.len(), 7);
    assert_eq!(sorted(g.neighbors(0)), vec![1, 3, 4, 6]);
    assert_eq!(sorted(g.neighbors(1)), vec![0, 2, 3]);
    assert_eq!(sorted(g.neighbors(5)), Vec::<u32>::new());
    assert_eq!(sorted(g.neighbors(2)), vec![1, 6]);
}

#[test]
fn neighbours_in_three_dimensions() {
    let mut g = PointGrid::<3>::new();
    g.update(vec![[0, 0, 0], [1, 1, 1], [-1, 1, -1], [2, 0, 0], [0, 0, 2]]);
    assert_eq!(sorted(g.neighbors(0)), vec![1, 2]);
    assert_eq!(sorted(g.neighbors(3)), vec![1]);
    assert_eq!(sorted(g.neighbors(4)), vec![1]);
}

#[test]
fn many_points_in_one_cell() {
    let mut g = PointGrid::<2>::new();
    g.update(vec![[3, 3]; 10]);
    let n = g.neighbors(4);
    assert_eq!(n.len(), 9);
    assert_eq!(sorted(n), vec![0, 1, 2, 3, 5, 6, 7, 8, 9]);
}

#[test]
fn update_replaces_the_points() {
    let mut g = PointGrid::<2>::new();
    g.update(vec![[0, 0], [1, 0]]);
    assert_eq!(g.neighbors(0), vec![1]);
    g.update(vec![[0, 0], [4, 0], [0, 1]]);
    assert_eq!(g.len(), 3);
    assert_eq!(g.cell(1), [4, 0]);
    assert_eq!(sorted(g.neighbors(0)), vec![2]);
}

#[test]
fn neighbours_at_the_edge_of_the_integer_range() {
    let mut g = PointGrid::<2>::new();
    g.update(vec![[i32::MAX, i32::MIN], [i32::MAX - 1, i32::MIN], [0, 0]]);
    assert_eq!(g.neighbors(0), vec![1]);
    assert_eq!(g.neighbors(1), vec![0]);
}

#[test]
fn adjacency_is_per_axis() {
    assert!(is_adjacent(&[0, 0], &[1, -1]));
    assert!(!is_adjacent(&[0, 0], &[2, 0]));
    assert!(is_adjacent(&[3, 3, 3], &[3, 3, 3]));
}

#[test]
fn keys_depend_on_the_cell() {
    assert_eq!(key_of([1, 2]), key_of([1, 2]));
    assert_ne!(key_of([1, 2]), key_of([2, 1]));
    assert_eq!(key_of::<0>([]), 0);
}

#[test]
fn map_neighborhoods_gives_one_result_per_point() {
    let mut g = PointGrid::<2>::new();
    g.update(vec![[0, 0], [1, 0], [3, 0], [0, 0]]);
    let counts = g.map_neighborhoods(|i: usize, nb: Vec<u32>| (i, sorted(nb)));
    assert_eq!(
        counts,
        vec![
            (0, vec![1, 3]),
            (1, vec![0, 3]),
            (2, Vec::new()),
            (3, vec![0, 1]),
        ]
    );
}

#[test]
fn map_neighborhoods_on_no_points() {
    let g = PointGrid::<3>::new();
    let out = g.map_neighborhoods(|_i: usize, nb: Vec<u32>| nb.len());
    assert!(out.is_empty());
}
