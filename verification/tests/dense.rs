use game_of_life::cell::CellState;
use game_of_life::dense::{DenseGrid, GridError};

fn grid_of(rows: usize, cols: usize, live: &[(usize, usize)]) -> DenseGrid {
    let mut grid = DenseGrid::new(rows, cols);
    for &(row, col) in live {
        assert_eq!(grid.set(row, col, CellState::Alive), Ok(()));
    }
    grid
}

#[test]
fn new_grid_is_all_dead() {
    let grid = DenseGrid::new(4, 6);
    assert_eq!(grid.rows(), 4);
    assert_eq!(grid.cols(), 6);
    for row in 0..4 {
        for col in 0..6 {
            assert_eq!(grid.get(row, col), Ok(CellState::Dead));
        }
    }
    assert!(grid.live_cells().is_empty());
}

#[test]
fn grid_without_cells() {
    let mut grid = DenseGrid::new(0, 0);
    assert_eq!(grid.get(0, 0), Err(GridError::OutOfBounds));
    assert_eq!(grid.set(0, 0, CellState::Alive), Err(GridError::OutOfBounds));
    grid.step();
    assert!(grid.live_cells().is_empty());

    let mut flat = DenseGrid::new(0, 5);
    assert_eq!(flat.rows(), 0);
    assert_eq!(flat.cols(), 5);
    assert_eq!(flat.set(0, 0, CellState::Alive), Err(GridError::OutOfBounds));
    flat.step();
    assert!(flat.live_cells().is_empty());

    let mut thin = DenseGrid::new(5, 0);
    assert_eq!(thin.set(0, 0, CellState::Alive), Err(GridError::OutOfBounds));
    thin.step();
    assert!(thin.live_cells().is_empty());
}

#[test]
fn set_writes_one_cell() {
    let mut grid = DenseGrid::new(3, 4);
    assert_eq!(grid.set(1, 2, CellState::Alive), Ok(()));
    assert_eq!(grid.get(1, 2), Ok(CellState::Alive));
    assert_eq!(grid.get(2, 1), Ok(CellState::Dead));
    assert_eq!(grid.live_cells(), vec![(1, 2)]);
    assert_eq!(grid.set(1, 2, CellState::Dead), Ok(()));
    assert_eq!(grid.get(1, 2), Ok(CellState::Dead));
    assert!(grid.live_cells().is_empty());
}

#[test]
fn set_outside_the_grid_is_out_of_bounds() {
    let mut grid = grid_of(3, 4, &[(0, 0), (2, 3)]);
    let before = grid.live_cells();
    assert_eq!(grid.set(3, 0, CellState::Alive), Err(GridError::OutOfBounds));
    assert_eq!(grid.set(0, 4, CellState::Alive), Err(GridError::OutOfBounds));
    assert_eq!(grid.set(3, 4, CellState::Alive), Err(GridError::OutOfBounds));
    assert_eq!(grid.set(usize::MAX, 0, CellState::Alive), Err(GridError::OutOfBounds));
    assert_eq!(grid.set(0, usize::MAX, CellState::Dead), Err(GridError::OutOfBounds));
    assert_eq!(grid.live_cells(), before);
    assert_eq!(grid.rows(), 3);
    assert_eq!(grid.cols(), 4);
}

#[test]
fn clear_outside_the_grid_is_out_of_bounds() {
    let mut grid = grid_of(3, 4, &[(0, 0), (2, 3)]);
    let before = grid.live_cells();
    assert_eq!(grid.clear(3, 0), Err(GridError::OutOfBounds));
    assert_eq!(grid.clear(0, 4), Err(GridError::OutOfBounds));
    assert_eq!(grid.clear(usize::MAX, usize::MAX), Err(GridError::OutOfBounds));
    assert_eq!(grid.live_cells(), before);
}

#[test]
fn get_outside_the_grid_is_out_of_bounds() {
    let grid = grid_of(3, 4, &[(2, 3)]);
    assert_eq!(grid.get(2, 3), Ok(CellState::Alive));
    assert_eq!(grid.get(3, 3), Err(GridError::OutOfBounds));
    assert_eq!(grid.get(2, 4), Err(GridError::OutOfBounds));
}

#[test]
fn clear_makes_a_cell_dead() {
    let mut grid = grid_of(3, 3, &[(1, 1), (2, 2)]);
    assert_eq!(grid.clear(1, 1), Ok(()));
    assert_eq!(grid.live_cells(), vec![(2, 2)]);
    assert_eq!(grid.clear(1, 1), Ok(()));
    assert_eq!(grid.live_cells(), vec![(2, 2)]);
}

#[test]
fn set_then_clear_restores_the_grid() {
    let mut grid = grid_of(4, 4, &[(0, 1), (3, 3)]);
    let before = grid.live_cells();
    assert_eq!(grid.set(2, 2, CellState::Alive), Ok(()));
    assert_eq!(grid.clear(2, 2), Ok(()));
    assert_eq!(grid.live_cells(), before);
}

#[test]
fn live_cells_are_listed_row_by_row() {
    let grid = grid_of(3, 3, &[(2, 0), (0, 2), (1, 1), (0, 0), (2, 2)]);
    assert_eq!(grid.live_cells(), vec![(0, 0), (0, 2), (1, 1), (2, 0), (2, 2)]);
}

#[test]
fn neighbors_inside_the_grid() {
    let grid = DenseGrid::new(5, 5);
    assert_eq!(
        grid.neighbors(2, 3),
        vec![(1, 3), (1, 2), (3, 3), (3, 4), (2, 2), (2, 4), (3, 2), (1, 4)]
    );
}

#[test]
fn neighbors_are_clipped_at_the_border() {
    let grid = DenseGrid::new(3, 4);
    assert_eq!(grid.neighbors(0, 0), vec![(1, 0), (1, 1), (0, 1)]);
    assert_eq!(grid.neighbors(2, 3), vec![(1, 3), (1, 2), (2, 2)]);
    assert_eq!(grid.neighbors(0, 2), vec![(1, 2), (1, 3), (0, 1), (0, 3), (1, 1)]);
    assert_eq!(grid.neighbors(3, 0), vec![(2, 0), (2, 1)]);
    assert!(grid.neighbors(7, 7).is_empty());
    assert!(grid.neighbors(usize::MAX, usize::MAX).is_empty());
    let single = DenseGrid::new(1, 1);
    assert!(single.neighbors(0, 0).is_empty());
}

#[test]
fn live_neighbors_counts_inside_the_grid_only() {
    let mut grid = DenseGrid::new(3, 3);
    for row in 0..3 {
        for col in 0..3 {
            assert_eq!(grid.set(row, col, CellState::Alive), Ok(()));
        }
    }
    assert_eq!(grid.live_neighbors(1, 1), 8);
    assert_eq!(grid.live_neighbors(0, 0), 3);
    assert_eq!(grid.live_neighbors(0, 1), 5);
    assert_eq!(grid.live_neighbors(2, 2), 3);
    assert_eq!(grid.live_neighbors(3, 1), 3);
    assert_eq!(grid.live_neighbors(5, 5), 0);
}

#[test]
fn step_of_a_dead_grid_is_dead() {
    let mut grid = DenseGrid::new(5, 7);
    grid.step();
    assert!(grid.live_cells().is_empty());
    assert_eq!(grid.rows(), 5);
    assert_eq!(grid.cols(), 7);
}

#[test]
fn dense_blinker_oscillates_with_period_two() {
    let mut grid = grid_of(5, 5, &[(2, 1), (2, 2), (2, 3)]);
    grid.step();
    assert_eq!(grid.live_cells(), vec![(1, 2), (2, 2), (3, 2)]);
    grid.step();
    assert_eq!(grid.live_cells(), vec![(2, 1), (2, 2), (2, 3)]);
}

#[test]
fn dense_block_is_a_still_life() {
    let block = vec![(1, 1), (1, 2), (2, 1), (2, 2)];
    let mut grid = grid_of(4, 4, &block);
    for _ in 0..10 {
        grid.step();
        assert_eq!(grid.live_cells(), block);
    }
}

#[test]
fn block_in_the_corner_is_a_still_life() {
    let block = vec![(0, 0), (0, 1), (1, 0), (1, 1)];
    let mut grid = grid_of(2, 2, &block);
    grid.step();
    assert_eq!(grid.live_cells(), block);
}

#[test]
fn dense_birth_needs_exactly_three_neighbours() {
    let ring = [(0, 0), (0, 1), (0, 2), (1, 0), (1, 2), (2, 0), (2, 1), (2, 2)];
    for n in 0..=8 {
        let mut grid = grid_of(3, 3, &ring[..n]);
        assert_eq!(grid.live_neighbors(1, 1), n as u32);
        grid.step();
        let expected = if n == 3 { CellState::Alive } else { CellState::Dead };
        assert_eq!(grid.get(1, 1), Ok(expected), "{} neighbours", n);
    }
}

#[test]
fn dense_survival_needs_two_or_three_neighbours() {
    let ring = [(0, 0), (0, 1), (0, 2), (1, 0), (1, 2), (2, 0), (2, 1), (2, 2)];
    for n in 0..=8 {
        let mut grid = grid_of(3, 3, &ring[..n]);
        assert_eq!(grid.set(1, 1, CellState::Alive), Ok(()));
        grid.step();
        let expected = if n == 2 || n == 3 { CellState::Alive } else { CellState::Dead };
        assert_eq!(grid.get(1, 1), Ok(expected), "{} neighbours", n);
    }
}

#[test]
fn update_is_simultaneous() {
    let mut grid = grid_of(3, 3, &[(0, 0), (0, 1), (1, 0)]);
    grid.step();
    assert_eq!(grid.live_cells(), vec![(0, 0), (0, 1), (1, 0), (1, 1)]);
}

#[test]
fn blinker_on_the_border_is_cut_off() {
    let mut grid = grid_of(3, 3, &[(0, 0), (0, 1), (0, 2)]);
    grid.step();
    assert_eq!(grid.live_cells(), vec![(0, 1), (1, 1)]);
    grid.step();
    assert!(grid.live_cells().is_empty());
}

#[test]
fn nothing_wraps_around_the_grid() {
    let mut grid = grid_of(4, 4, &[(0, 0), (1, 0), (2, 0)]);
    assert_eq!(grid.live_neighbors(1, 3), 0);
    grid.step();
    assert_eq!(grid.live_cells(), vec![(1, 0), (1, 1)]);
}

#[test]
fn dense_tick_advances_only_when_told_to() {
    let mut grid = grid_of(5, 5, &[(2, 1), (2, 2), (2, 3)]);
    grid.tick(false);
    assert_eq!(grid.live_cells(), vec![(2, 1), (2, 2), (2, 3)]);
    grid.tick(true);
    assert_eq!(grid.live_cells(), vec![(1, 2), (2, 2), (3, 2)]);
}

#[test]
fn out_of_bounds_is_reported_as_such() {
    let error = GridError::OutOfBounds;
    assert_eq!(error, GridError::OutOfBounds);
    assert_eq!(format!("{:?}", error), "OutOfBounds");
}
