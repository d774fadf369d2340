use minefield::grid::{Coords, Grid};

#[test]
fn new_fill_dimensions_and_values() {
    let g: Grid<u8> = Grid::new_fill(4, 3, 7);
    assert_eq!(g.width(), 4);
    assert_eq!(g.height(), 3);
    assert_eq!(g.len(), 12);
    let cells = g.iter();
    assert_eq!(cells.len(), 12);
    for v in cells {
        assert_eq!(v, 7);
    }
}

#[test]
fn new_generate_evaluates_at_each_coordinate() {
    let g: Grid<i32> = Grid::new_generate(3, 2, |c: Coords| c.x + 10 * c.y);
    assert_eq!(g.width(), 3);
    assert_eq!(g.height(), 2);
    for y in 0..2 {
        for x in 0..3 {
            assert_eq!(g.get(Coords::new(x, y)), x + 10 * y);
        }
    }
}

#[test]
fn new_uses_default_shape() {
    let g: Grid<usize> = Grid::new(5, 2);
    assert_eq!(g.width(), 5);
    assert_eq!(g.height(), 2);
    assert_eq!(g.len(), 10);
}

#[test]
fn in_bounds_edges() {
    let g: Grid<u8> = Grid::new_fill(3, 2, 0);
    assert!(g.in_bounds(Coords::new(0, 0)));
    assert!(g.in_bounds(Coords::new(2, 1)));
    assert!(!g.in_bounds(Coords::new(3, 0)));
    assert!(!g.in_bounds(Coords::new(0, 2)));
    assert!(!g.in_bounds(Coords::new(-1, 0)));
    assert!(!g.in_bounds(Coords::new(0, -1)));
}

#[test]
fn get_and_set_row_major() {
    let mut g: Grid<u8> = Grid::new_fill(3, 2, 0);
    g.set(Coords::new(2, 0), 5);
    g.set(Coords::new(0, 1), 9);
    assert_eq!(g.get(Coords::new(2, 0)), 5);
    assert_eq!(g.get(Coords::new(0, 1)), 9);
    assert_eq!(g.get(Coords::new(1, 0)), 0);
    // Row-major storage: index 2 is (2, 0), index 3 is (0, 1).
    let cells = g.iter();
    assert_eq!(cells[2], 5);
    assert_eq!(cells[3], 9);
}

#[test]
fn indices_row_major_order() {
    let g: Grid<u8> = Grid::new_fill(3, 2, 0);
    let idxs = g.indices();
    assert_eq!(idxs.len(), 6);
    let expected = [(0, 0), (1, 0), (2, 0), (0, 1), (1, 1), (2, 1)];
    for (k, c) in idxs.iter().enumerate() {
        assert_eq!((c.x, c.y), expected[k]);
    }
}

#[test]
fn enumerate_pairs_coords_with_cells() {
    let mut g: Grid<u8> = Grid::new_fill(2, 2, 0);
    g.set(Coords::new(1, 1), 3);
    let pairs = g.enumerate();
    assert_eq!(pairs.len(), 4);
    assert_eq!((pairs[3].0.x, pairs[3].0.y), (1, 1));
    assert_eq!(pairs[3].1, 3);
    assert_eq!(pairs[0].1, 0);
}
