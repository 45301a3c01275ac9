use game_2048::grid::Grid;
use game_2048::moves::Direction;

const ALTERNATING: [u32; 16] = [2, 4, 2, 4, 4, 2, 4, 2, 2, 4, 2, 4, 4, 2, 4, 2];

#[test]
fn grid_with_an_empty_cell_is_never_terminal() {
    assert!(!Grid::new().is_terminal());
    for hole in 0..16 {
        let mut grid = Grid::from_cells(ALTERNATING);
        grid.set(hole, 0);
        assert!(grid.has_empty_cell());
        assert!(!grid.is_terminal());
    }
}

#[test]
fn full_grid_with_an_equal_pair_is_never_terminal() {
    for cell in 0..16 {
        if cell % 4 < 3 {
            let mut grid = Grid::from_cells(ALTERNATING);
            grid.set(cell, 8);
            grid.set(cell + 1, 8);
            assert!(!grid.has_empty_cell());
            assert!(!grid.is_terminal());
        }
        if cell / 4 < 3 {
            let mut grid = Grid::from_cells(ALTERNATING);
            grid.set(cell, 8);
            grid.set(cell + 4, 8);
            assert!(!grid.has_empty_cell());
            assert!(!grid.is_terminal());
        }
    }
}

#[test]
fn full_grid_without_equal_pairs_is_terminal() {
    let grid = Grid::from_cells(ALTERNATING);
    assert!(!grid.has_empty_cell());
    assert!(grid.is_terminal());
    let other = Grid::from_cells([2, 4, 8, 16, 32, 64, 128, 256, 2, 4, 8, 16, 32, 64, 128, 256]);
    assert!(other.is_terminal());
}

#[test]
fn end_of_one_row_and_start_of_the_next_are_no_neighbours() {
    let grid = Grid::from_cells([2, 4, 8, 16, 16, 32, 64, 128, 128, 2, 4, 8, 8, 16, 32, 64]);
    assert!(grid.is_terminal());
}

#[test]
fn equal_cells_on_a_diagonal_are_no_neighbours() {
    let grid = Grid::from_cells([2, 4, 8, 16, 4, 2, 16, 8, 2, 4, 8, 16, 4, 2, 16, 8]);
    assert!(grid.is_terminal());
}

#[test]
fn no_move_changes_a_terminal_grid() {
    let grid = Grid::from_cells(ALTERNATING);
    for direction in [Direction::Up, Direction::Down, Direction::Left, Direction::Right] {
        let result = grid.apply_move(direction);
        assert!(!result.moved);
        assert_eq!(result.grid, grid);
        assert_eq!(result.score_delta, 0);
    }
}
