use game_2048::grid::{is_tile_value, Grid};

fn sample() -> Grid {
    Grid::from_cells([2, 4, 8, 16, 32, 64, 128, 256, 512, 1024, 2048, 4096, 0, 0, 2, 4])
}

#[test]
fn test_swap() {
    for _ in 0..5 {
        let data = rand::random_iter().take(16).collect::<Vec<i32>>();

        let tran = (0..16)
            .map(|i| data[(i % 4) * 4 + i / 4])
            .collect::<Vec<_>>();

        let mut cells = [0u32; 16];
        for i in 0..16 {
            cells[i] = data[i] as u32;
        }
        let mut grid = Grid::from_cells(cells);
        grid.transpose();
        let swapped = grid.cells().iter().map(|&v| v as i32).collect::<Vec<_>>();

        assert_eq!(swapped, tran);
    }
}

#[test]
fn new_grid_is_blank() {
    let grid = Grid::new();
    assert_eq!(grid.cells(), [0u32; 16]);
    assert!(grid.is_well_formed());
    assert_eq!(grid.total(), 0);
}

#[test]
fn get_and_set_reach_one_cell() {
    let mut grid = Grid::new();
    grid.set(5, 8);
    assert_eq!(grid.get(5), 8);
    for i in 0..16 {
        if i != 5 {
            assert_eq!(grid.get(i), 0);
        }
    }
    grid.set(5, 0);
    assert_eq!(grid, Grid::new());
}

#[test]
fn transpose_exchanges_rows_and_columns() {
    let mut grid = sample();
    grid.transpose();
    assert_eq!(
        grid.cells(),
        [2, 32, 512, 0, 4, 64, 1024, 0, 8, 128, 2048, 2, 16, 256, 4096, 4]
    );
}

#[test]
fn transpose_twice_is_identity() {
    let mut grid = sample();
    grid.transpose();
    assert_ne!(grid, sample());
    grid.transpose();
    assert_eq!(grid, sample());
}

#[test]
fn mirror_reverses_rows() {
    let mut grid = sample();
    grid.mirror();
    assert_eq!(
        grid.cells(),
        [16, 8, 4, 2, 256, 128, 64, 32, 4096, 2048, 1024, 512, 4, 2, 0, 0]
    );
    grid.mirror();
    assert_eq!(grid, sample());
}

#[test]
fn same_compares_every_cell() {
    let a = sample();
    let mut b = sample();
    assert!(a.same(&b));
    b.set(15, 8);
    assert!(!a.same(&b));
}

#[test]
fn total_adds_all_cells() {
    assert_eq!(sample().total(), 8196);
    let large = Grid::from_cells([u32::MAX; 16]);
    assert_eq!(large.total(), 16 * (u32::MAX as u64));
}

#[test]
fn tiles_are_powers_of_two_from_two() {
    assert!(!is_tile_value(0));
    assert!(!is_tile_value(1));
    assert!(is_tile_value(2));
    assert!(!is_tile_value(3));
    assert!(is_tile_value(4));
    assert!(!is_tile_value(6));
    assert!(is_tile_value(131072));
    assert!(is_tile_value(0x8000_0000));
    assert!(!is_tile_value(u32::MAX));
}

#[test]
fn well_formed_boards_hold_empty_cells_and_tiles_only() {
    assert!(sample().is_well_formed());
    let mut grid = sample();
    grid.set(12, 3);
    assert!(!grid.is_well_formed());
    grid.set(12, 1);
    assert!(!grid.is_well_formed());
    grid.set(12, 0x8000_0000);
    assert!(grid.is_well_formed());
}

#[test]
fn occupied_cells_are_listed_with_their_values() {
    assert_eq!(Grid::new().occupied_cells(), Vec::<(usize, u32)>::new());
    let grid = Grid::from_cells([0, 2, 0, 0, 0, 0, 4, 0, 0, 0, 0, 0, 8, 0, 0, 2]);
    assert_eq!(grid.occupied_cells(), vec![(1, 2), (6, 4), (12, 8), (15, 2)]);
    assert_eq!(sample().occupied_cells().len(), 14);
}
