use game_of_life::grid::Grid;

fn set_cells(grid: &mut Grid, cells: &[(usize, usize)]) {
    for &(x, y) in cells {
        grid.set(x, y, true);
    }
}

#[test]
fn new_grid_is_all_dead() {
    let g = Grid::new(4, 3);
    assert_eq!(g.data.len(), 3);
    for row in &g.data {
        assert_eq!(row.len(), 4);
    }
    assert!(g.is_empty());
}

#[test]
fn degenerate_grids_are_empty() {
    assert!(Grid::new(0, 0).is_empty());
    assert!(Grid::new(0, 5).is_empty());
    assert!(Grid::new(5, 0).is_empty());
}

#[test]
fn set_and_get_round_trip() {
    let mut g = Grid::new(3, 3);
    g.set(1, 2, true);
    assert!(g.get(1, 2));
    assert!(!g.get(2, 1));
    assert!(!g.is_empty());
    g.set(1, 2, false);
    assert!(g.is_empty());
}

#[test]
fn compute_index_wraps_backward_from_zero() {
    assert_eq!(Grid::compute_index(0, -1, 10), Some(9));
}

#[test]
fn compute_index_wraps_forward_from_last() {
    assert_eq!(Grid::compute_index(9, 1, 10), Some(0));
}

#[test]
fn compute_index_zero_offset_stays_put() {
    assert_eq!(Grid::compute_index(5, 0, 10), Some(5));
    assert_eq!(Grid::compute_index(0, 0, 1), Some(0));
}

#[test]
fn compute_index_interior_moves_by_one() {
    assert_eq!(Grid::compute_index(4, -1, 10), Some(3));
    assert_eq!(Grid::compute_index(4, 1, 10), Some(5));
}

#[test]
fn neighbor_count_sees_cell_across_both_edges() {
    // A single live cell at (0, 0) on a 4-row, 5-column torus is a neighbor
    // of the opposite corner (3, 4) through the wraparound.
    let mut g = Grid::new(5, 4);
    g.set(0, 0, true);
    assert_eq!(g.count_alive_neighbors(3, 4), 1);
    // ... and of every other position adjacent to it through a wrapped edge.
    assert_eq!(g.count_alive_neighbors(3, 0), 1);
    assert_eq!(g.count_alive_neighbors(3, 1), 1);
    assert_eq!(g.count_alive_neighbors(0, 4), 1);
    assert_eq!(g.count_alive_neighbors(0, 1), 1);
    assert_eq!(g.count_alive_neighbors(1, 4), 1);
    assert_eq!(g.count_alive_neighbors(1, 0), 1);
    assert_eq!(g.count_alive_neighbors(1, 1), 1);
    // A position not adjacent to it sees nothing.
    assert_eq!(g.count_alive_neighbors(2, 2), 0);
}

#[test]
fn neighbor_count_on_single_cell_torus() {
    // On a 1x1 torus every one of the eight offsets wraps back to the cell
    // itself.
    let mut g = Grid::new(1, 1);
    g.set(0, 0, true);
    assert_eq!(g.count_alive_neighbors(0, 0), 8);
}

#[test]
fn neighbor_count_full_block() {
    let mut g = Grid::new(3, 3);
    set_cells(
        &mut g,
        &[(0, 0), (0, 1), (0, 2), (1, 0), (1, 2), (2, 0), (2, 1), (2, 2)],
    );
    assert_eq!(g.count_alive_neighbors(1, 1), 8);
}

#[test]
fn equals_is_structural() {
    let mut a = Grid::new(3, 2);
    let mut b = Grid::new(3, 2);
    assert!(a.equals(&b));
    a.set(1, 2, true);
    assert!(!a.equals(&b));
    b.set(1, 2, true);
    assert!(a.equals(&b));
    let c = Grid::new(2, 3);
    assert!(!a.equals(&c));
}

#[test]
fn clone_copies_every_cell() {
    let mut a = Grid::new(4, 4);
    set_cells(&mut a, &[(0, 3), (2, 1), (3, 0)]);
    let b = a.clone();
    assert!(a.equals(&b));
    // The copy is independent of the original.
    let mut b = b;
    b.set(0, 3, false);
    assert!(!a.equals(&b));
    assert!(a.get(0, 3));
}

#[test]
fn randomize_keeps_dimensions() {
    let mut g = Grid::new(7, 5);
    g.randomize();
    assert_eq!(g.data.len(), 5);
    for row in &g.data {
        assert_eq!(row.len(), 7);
    }
}
