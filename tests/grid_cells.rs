use prism::grid::{Cell, CellGrid};
use prism::sampler::Sampler;
use rand::SeedableRng;
use rand_pcg::Pcg64Mcg;

/// Band of each cell of size `cell_size` against a ball of `radius` at the
/// origin, by the distance at the cell's centre.
fn ball_band(radius: f32, cell_size: f32) -> impl Fn([i32; 2]) -> Cell {
    move |p: [i32; 2]| {
        let cx = (p[0] as f32 + 0.5) * cell_size;
        let cy = (p[1] as f32 + 0.5) * cell_size;
        let dist = ((cx * cx + cy * cy).sqrt() - radius) * std::f32::consts::SQRT_2 / cell_size;
        if dist < -1.0 {
            Cell::Inside
        } else if dist <= 1.0 {
            Cell::Border
        } else {
            Cell::Outside
        }
    }
}

fn ball_grid() -> CellGrid<2> {
    // A ball of radius 5 with cells of size 1: its box runs from -5 to 5.
    CellGrid::build([-5, -5], [5, 5], ball_band(5.0, 1.0))
}

#[test]
fn build_lists_inside_and_border_in_linear_order() {
    let g = CellGrid::build([0, 0], [3, 2], |p: [i32; 2]| {
        if p == [1, 0] || p == [2, 1] {
            Cell::Inside
        } else if p[0] == 0 {
            Cell::Border
        } else {
            Cell::Outside
        }
    });
    assert_eq!(g.offset, [0, 0]);
    assert_eq!(g.inside_cells, vec![[1, 0], [2, 1]]);
    assert_eq!(g.border_cells, vec![[0, 0], [0, 1]]);
    assert_eq!(g.class_at([1, 1]), Cell::Outside);
    assert_eq!(g.class_at([2, 1]), Cell::Inside);
    assert_eq!(g.allowed_count(), 4);
}

#[test]
fn build_with_negative_offset() {
    let g = CellGrid::build([-2, 3], [0, 4], |p: [i32; 2]| {
        if p[0] == -2 {
            Cell::Inside
        } else {
            Cell::Border
        }
    });
    assert_eq!(g.inside_cells, vec![[-2, 3]]);
    assert_eq!(g.border_cells, vec![[-1, 3]]);
    assert!(g.in_box([-1, 3]));
    assert!(!g.in_box([0, 3]));
    assert!(!g.in_box([-3, 3]));
    assert!(!g.in_box([-1, 4]));
    assert_eq!(g.class_at([-2, 3]), Cell::Inside);
}

#[test]
fn ball_grid_lists_match_classes() {
    let g = ball_grid();
    assert!(!g.inside_cells.is_empty());
    assert!(!g.border_cells.is_empty());
    for c in &g.inside_cells {
        assert_eq!(g.class_at(*c), Cell::Inside);
    }
    for c in &g.border_cells {
        assert_eq!(g.class_at(*c), Cell::Border);
    }
    // The corner cells lie outside the ball.
    assert_eq!(g.class_at([-5, -5]), Cell::Outside);
    assert_eq!(g.class_at([4, 4]), Cell::Outside);
    // Cells at the centre are inside.
    assert_eq!(g.class_at([0, 0]), Cell::Inside);
    assert_eq!(g.class_at([-1, -1]), Cell::Inside);
}

#[test]
fn pick_walks_inside_then_border() {
    let g = ball_grid();
    let n_in = g.inside_cells.len();
    assert_eq!(g.pick(0), (g.inside_cells[0], true));
    assert_eq!(g.pick(n_in - 1), (g.inside_cells[n_in - 1], true));
    assert_eq!(g.pick(n_in), (g.border_cells[0], false));
    let last = g.allowed_count() - 1;
    assert_eq!(g.pick(last), (*g.border_cells.last().unwrap(), false));
}

#[test]
fn drawn_cells_are_inside_or_border() {
    let g = ball_grid();
    let mut s = Sampler::with_rng(g.clone(), Pcg64Mcg::seed_from_u64(7));
    let mut seen_inside = false;
    let mut seen_border = false;
    for _ in 0..10_000 {
        let (cell, inside) = s.draw_cell();
        if inside {
            assert!(g.inside_cells.contains(&cell));
            seen_inside = true;
        } else {
            assert!(g.border_cells.contains(&cell));
            seen_border = true;
        }
        assert_ne!(s.volume.class_at(cell), Cell::Outside);
    }
    assert!(seen_inside && seen_border);
}

#[test]
fn draws_repeat_with_the_same_seed() {
    let mut a = Sampler::with_rng(ball_grid(), Pcg64Mcg::seed_from_u64(42));
    let mut b = Sampler::with_rng(ball_grid(), Pcg64Mcg::seed_from_u64(42));
    for _ in 0..1000 {
        assert_eq!(a.draw_cell(), b.draw_cell());
    }
}

#[test]
fn sampler_contains_by_band() {
    let s = Sampler::with_rng(ball_grid(), Pcg64Mcg::seed_from_u64(1));
    assert!(s.contains([0, 0], || false));
    assert!(!s.contains([-5, -5], || true));
    let border = s.volume.border_cells[0];
    assert!(s.contains(border, || true));
    assert!(!s.contains(border, || false));
}

#[test]
fn sampler_with_os_seed_keeps_the_grid() {
    let s = Sampler::with_rng(ball_grid(), Pcg64Mcg::from_entropy());
    assert_eq!(s.volume.inside_cells, ball_grid().inside_cells);
}

#[test]
fn single_cell_grid() {
    let g = CellGrid::build([7], [8], |_p: [i32; 1]| Cell::Border);
    assert!(g.inside_cells.is_empty());
    assert_eq!(g.border_cells, vec![[7]]);
    assert_eq!(g.allowed_count(), 1);
    assert_eq!(g.pick(0), ([7], false));
}

#[test]
fn all_outside_grid_lists_nothing() {
    let g = CellGrid::build([0, 0, 0], [2, 2, 2], |_p: [i32; 3]| Cell::Outside);
    assert_eq!(g.allowed_count(), 0);
    assert_eq!(g.class_at([1, 1, 1]), Cell::Outside);
}
