use boids::grid::{clamp_index, Cell, Grid};

fn at(col: i32, row: i32) -> Cell {
    Cell { col, row, layer: 0 }
}

#[test]
fn clamp_keeps_a_value_on_the_grid() {
    assert_eq!(clamp_index(0, 8), 0);
    assert_eq!(clamp_index(3, 8), 3);
    assert_eq!(clamp_index(7, 8), 7);
}

#[test]
fn clamp_folds_a_negative_value_onto_the_first_cell() {
    assert_eq!(clamp_index(-1, 8), 0);
    assert_eq!(clamp_index(i32::MIN, 8), 0);
}

#[test]
fn clamp_folds_a_large_value_onto_the_last_cell() {
    assert_eq!(clamp_index(8, 8), 7);
    assert_eq!(clamp_index(i32::MAX, 8), 7);
}

#[test]
fn clamp_on_a_single_cell_is_always_zero() {
    assert_eq!(clamp_index(-5, 1), 0);
    assert_eq!(clamp_index(0, 1), 0);
    assert_eq!(clamp_index(5, 1), 0);
}

#[test]
fn flat_grid_has_one_layer() {
    let grid = Grid::new(3, 4);
    assert_eq!(grid.rows(), 3);
    assert_eq!(grid.cols(), 4);
    assert_eq!(grid.depth(), 1);
    assert_eq!(grid.cell_count(), 12);
}

#[test]
fn deep_grid_counts_every_layer() {
    let grid = Grid::with_depth(2, 3, 4);
    assert_eq!(grid.rows(), 2);
    assert_eq!(grid.cols(), 3);
    assert_eq!(grid.depth(), 4);
    assert_eq!(grid.cell_count(), 24);
}

#[test]
fn largest_grid_still_counts_its_cells() {
    let grid = Grid::new(1, i32::MAX);
    assert_eq!(grid.cell_count(), i32::MAX as usize);
    assert_eq!(grid.index_of(at(i32::MAX, 0)), i32::MAX as usize - 1);
}

#[test]
fn index_is_row_times_cols_plus_col() {
    let grid = Grid::new(3, 4);
    assert_eq!(grid.index_of(at(0, 0)), 0);
    assert_eq!(grid.index_of(at(3, 0)), 3);
    assert_eq!(grid.index_of(at(0, 1)), 4);
    assert_eq!(grid.index_of(at(2, 1)), 6);
    assert_eq!(grid.index_of(at(3, 2)), 11);
}

#[test]
fn index_lays_layers_out_one_after_the_other() {
    let grid = Grid::with_depth(2, 3, 4);
    assert_eq!(grid.index_of(Cell { col: 0, row: 0, layer: 1 }), 6);
    assert_eq!(grid.index_of(Cell { col: 2, row: 1, layer: 0 }), 5);
    assert_eq!(grid.index_of(Cell { col: 1, row: 1, layer: 2 }), 16);
    assert_eq!(grid.index_of(Cell { col: 2, row: 1, layer: 3 }), 23);
}

#[test]
fn index_ignores_the_layer_on_a_flat_grid() {
    let grid = Grid::new(3, 4);
    assert_eq!(grid.index_of(Cell { col: 2, row: 1, layer: 9 }), 6);
    assert_eq!(grid.index_of(Cell { col: 2, row: 1, layer: -9 }), 6);
}

#[test]
fn index_folds_outside_positions_onto_the_nearest_boundary_cell() {
    let grid = Grid::new(3, 4);
    assert_eq!(grid.index_of(at(-1, -1)), 0);
    assert_eq!(grid.index_of(at(4, 0)), 3);
    assert_eq!(grid.index_of(at(100, 100)), 11);
    assert_eq!(grid.index_of(at(1, 3)), 9);
    assert_eq!(grid.index_of(at(-7, 1)), 4);
    assert_eq!(grid.index_of(at(i32::MIN, i32::MAX)), 8);
}

#[test]
fn index_names_every_cell_once() {
    let grid = Grid::with_depth(3, 4, 2);
    let mut seen = vec![false; grid.cell_count()];
    for layer in 0..2 {
        for row in 0..3 {
            for col in 0..4 {
                let index = grid.index_of(Cell { col, row, layer });
                assert!(index < grid.cell_count());
                assert!(!seen[index]);
                seen[index] = true;
            }
        }
    }
    assert!(seen.iter().all(|&s| s));
}

#[test]
fn index_gives_the_coordinates_back() {
    let grid = Grid::with_depth(3, 4, 2);
    let index = grid.index_of(Cell { col: 3, row: 2, layer: 1 });
    assert_eq!(index % 4, 3);
    assert_eq!((index / 4) % 3, 2);
    assert_eq!((index / 4) / 3, 1);
}

#[test]
fn checked_grid_is_the_grid_asked_for() {
    let grid = Grid::checked(2, 3, 4).unwrap();
    assert_eq!((grid.rows(), grid.cols(), grid.depth()), (2, 3, 4));
    assert_eq!(grid.cell_count(), 24);
    assert_eq!(Grid::checked(1, 1, 1).unwrap().cell_count(), 1);
}

#[test]
fn checked_grid_needs_every_resolution_to_be_positive() {
    assert!(Grid::checked(0, 3, 4).is_none());
    assert!(Grid::checked(2, 0, 4).is_none());
    assert!(Grid::checked(2, 3, 0).is_none());
    assert!(Grid::checked(-2, 3, 4).is_none());
    assert!(Grid::checked(2, -3, 4).is_none());
    assert!(Grid::checked(2, 3, -4).is_none());
    assert!(Grid::checked(i32::MIN, i32::MIN, 1).is_none());
}

#[test]
fn checked_grid_needs_a_number_of_cells_that_can_be_counted() {
    assert!(Grid::checked(i32::MAX, 1, 1).is_some());
    assert!(Grid::checked(1, 1, i32::MAX).is_some());
    assert!(Grid::checked(i32::MAX, 2, 1).is_none());
    assert!(Grid::checked(65_536, 32_768, 1).is_none());
    assert!(Grid::checked(65_536, 32_767, 1).is_some());
    assert!(Grid::checked(1_024, 1_024, 2_048).is_none());
    assert!(Grid::checked(1_024, 1_024, 2_047).is_some());
    assert!(Grid::checked(i32::MAX, i32::MAX, i32::MAX).is_none());
}
