use game_2048::grid::Grid;
use game_2048::line::{merge_line, shift_line, slide_line};
use game_2048::moves::{Direction, MoveResult};

const ALL: [Direction; 4] = [Direction::Up, Direction::Down, Direction::Left, Direction::Right];

fn top_row(row: [u32; 4]) -> Grid {
    let mut cells = [0u32; 16];
    cells[..4].copy_from_slice(&row);
    Grid::from_cells(cells)
}

fn row_of(grid: &Grid, row: usize) -> [u32; 4] {
    let cells = grid.cells();
    [cells[4 * row], cells[4 * row + 1], cells[4 * row + 2], cells[4 * row + 3]]
}

fn column_of(grid: &Grid, column: usize) -> [u32; 4] {
    let cells = grid.cells();
    [cells[column], cells[4 + column], cells[8 + column], cells[12 + column]]
}

fn tiles_of(line: [u32; 4]) -> Vec<u32> {
    line.iter().copied().filter(|&v| v != 0).collect()
}

/// Whether `out` arises from `tiles` with every tile kept or fused with one equal neighbour.
fn fused_once(tiles: &[u32], out: &[u32]) -> bool {
    if tiles.is_empty() {
        return out.is_empty();
    }
    if out.is_empty() {
        return false;
    }
    (out[0] == tiles[0] && fused_once(&tiles[1..], &out[1..]))
        || (tiles.len() >= 2
            && tiles[0] == tiles[1]
            && out[0] as u64 == 2 * tiles[0] as u64
            && fused_once(&tiles[2..], &out[1..]))
}

#[test]
fn slide_without_merge() {
    let result = top_row([2, 0, 0, 4]).apply_move(Direction::Left);
    assert_eq!(row_of(&result.grid, 0), [2, 4, 0, 0]);
    assert_eq!(result.grid, top_row([2, 4, 0, 0]));
    assert!(result.moved);
    assert_eq!(result.score_delta, 0);
}

#[test]
fn simple_merge() {
    let result = top_row([2, 2, 0, 0]).apply_move(Direction::Left);
    assert_eq!(result.grid, top_row([4, 0, 0, 0]));
    assert!(result.moved);
    assert_eq!(result.score_delta, 4);
}

#[test]
fn merge_then_compact_without_chain_merge() {
    let result = top_row([2, 2, 2, 0]).apply_move(Direction::Left);
    assert_eq!(result.grid, top_row([4, 2, 0, 0]));
    assert!(result.moved);
    assert_eq!(result.score_delta, 4);
}

#[test]
fn full_row_merge() {
    let result = top_row([2, 2, 4, 4]).apply_move(Direction::Left);
    assert_eq!(result.grid, top_row([4, 8, 0, 0]));
    assert!(result.moved);
    assert_eq!(result.score_delta, 12);
}

#[test]
fn merged_tile_does_not_merge_again() {
    let result = top_row([4, 4, 8, 0]).apply_move(Direction::Left);
    assert_eq!(result.grid, top_row([8, 8, 0, 0]));
    assert_eq!(result.score_delta, 8);
    let result = top_row([2, 2, 2, 2]).apply_move(Direction::Left);
    assert_eq!(result.grid, top_row([4, 4, 0, 0]));
    assert_eq!(result.score_delta, 8);
}

#[test]
fn tiles_merge_at_the_edge_they_move_to() {
    let result = top_row([2, 2, 2, 0]).apply_move(Direction::Right);
    assert_eq!(result.grid, top_row([0, 0, 2, 4]));
    assert_eq!(result.score_delta, 4);
}

#[test]
fn tiles_do_not_merge_across_another_tile() {
    let result = top_row([2, 4, 2, 0]).apply_move(Direction::Left);
    assert_eq!(result.grid, top_row([2, 4, 2, 0]));
    assert!(!result.moved);
    assert_eq!(result.score_delta, 0);
}

#[test]
fn tiles_merge_across_a_gap_once_they_have_slid() {
    let result = top_row([2, 0, 0, 2]).apply_move(Direction::Left);
    assert_eq!(result.grid, top_row([4, 0, 0, 0]));
    assert_eq!(result.score_delta, 4);
}

#[test]
fn every_direction_moves_its_own_way() {
    let grid = Grid::from_cells([2, 0, 0, 2, 0, 4, 0, 0, 0, 4, 8, 0, 2, 0, 0, 8]);
    let up = grid.apply_move(Direction::Up);
    assert_eq!(up.grid.cells(), [4, 8, 8, 2, 0, 0, 0, 8, 0, 0, 0, 0, 0, 0, 0, 0]);
    assert_eq!(up.score_delta, 12);
    let down = grid.apply_move(Direction::Down);
    assert_eq!(down.grid.cells(), [0, 0, 0, 0, 0, 0, 0, 0, 0, 0, 0, 2, 4, 8, 8, 8]);
    assert_eq!(down.score_delta, 12);
    let left = grid.apply_move(Direction::Left);
    assert_eq!(left.grid.cells(), [4, 0, 0, 0, 4, 0, 0, 0, 4, 8, 0, 0, 2, 8, 0, 0]);
    assert_eq!(left.score_delta, 4);
    let right = grid.apply_move(Direction::Right);
    assert_eq!(right.grid.cells(), [0, 0, 0, 4, 0, 0, 0, 4, 0, 0, 4, 8, 0, 0, 2, 8]);
    assert_eq!(right.score_delta, 4);
    assert!(up.moved && down.moved && left.moved && right.moved);
}

#[test]
fn move_leaves_its_input_alone() {
    let grid = top_row([2, 2, 0, 0]);
    let _ = grid.apply_move(Direction::Left);
    assert_eq!(grid, top_row([2, 2, 0, 0]));
}

#[test]
fn move_that_changes_nothing_gives_the_same_grid() {
    let grid = Grid::from_cells([2, 4, 8, 16, 4, 0, 0, 0, 8, 16, 0, 0, 2, 0, 0, 0]);
    let result = grid.apply_move(Direction::Left);
    assert_eq!(
        result,
        MoveResult { grid, score_delta: 0, moved: false }
    );
    let blank = Grid::new();
    for direction in ALL {
        let result = blank.apply_move(direction);
        assert!(!result.moved);
        assert_eq!(result.grid, blank);
        assert_eq!(result.score_delta, 0);
    }
}

#[test]
fn moved_says_whether_the_grid_changed() {
    let grids = [
        Grid::from_cells([2, 0, 0, 2, 0, 4, 0, 0, 0, 4, 8, 0, 2, 0, 0, 8]),
        Grid::from_cells([2, 4, 2, 4, 4, 2, 4, 2, 2, 4, 2, 4, 4, 2, 4, 2]),
        Grid::from_cells([2, 2, 4, 8, 0, 0, 0, 0, 0, 0, 0, 0, 0, 0, 0, 0]),
        Grid::from_cells([0, 0, 0, 0, 0, 0, 0, 0, 0, 0, 0, 0, 2, 4, 8, 16]),
    ];
    for grid in grids {
        for direction in ALL {
            let result = grid.apply_move(direction);
            assert_eq!(result.moved, result.grid != grid);
        }
    }
}

#[test]
fn move_keeps_the_sum_of_all_tiles() {
    let grids = [
        Grid::from_cells([2, 0, 0, 2, 0, 4, 0, 0, 0, 4, 8, 0, 2, 0, 0, 8]),
        Grid::from_cells([2, 2, 2, 2, 4, 4, 4, 4, 8, 8, 8, 8, 16, 16, 16, 16]),
        Grid::from_cells([2, 2, 4, 8, 0, 2, 0, 2, 1024, 1024, 2048, 0, 64, 0, 64, 64]),
    ];
    for grid in grids {
        for direction in ALL {
            let result = grid.apply_move(direction);
            assert_eq!(result.grid.total(), grid.total());
            assert!(result.score_delta as u64 <= grid.total());
            assert!(result.grid.is_well_formed());
        }
    }
    let pure_slide = top_row([2, 0, 4, 0]).apply_move(Direction::Right);
    assert_eq!(pure_slide.score_delta, 0);
    assert_eq!(pure_slide.grid.total(), 6);
}

#[test]
fn no_tile_is_made_of_more_than_two() {
    let grids = [
        Grid::from_cells([2, 2, 2, 2, 4, 4, 4, 4, 8, 8, 8, 8, 16, 16, 16, 16]),
        Grid::from_cells([2, 2, 4, 8, 4, 4, 8, 16, 2, 2, 2, 0, 0, 2, 2, 4]),
        Grid::from_cells([2, 4, 8, 16, 2, 4, 8, 16, 4, 8, 16, 32, 4, 8, 16, 32]),
    ];
    for grid in grids {
        for direction in [Direction::Left, Direction::Right] {
            let result = grid.apply_move(direction);
            for row in 0..4 {
                let mut before = row_of(&grid, row);
                let mut after = row_of(&result.grid, row);
                if direction == Direction::Right {
                    before.reverse();
                    after.reverse();
                }
                assert!(fused_once(&tiles_of(before), &tiles_of(after)));
            }
        }
        for direction in [Direction::Up, Direction::Down] {
            let result = grid.apply_move(direction);
            for column in 0..4 {
                let mut before = column_of(&grid, column);
                let mut after = column_of(&result.grid, column);
                if direction == Direction::Down {
                    before.reverse();
                    after.reverse();
                }
                assert!(fused_once(&tiles_of(before), &tiles_of(after)));
            }
        }
    }
    assert!(!fused_once(&[2, 2, 4], &[8]));
    assert!(!fused_once(&[2, 2, 2, 2], &[8]));
}

#[test]
fn score_delta_stops_at_the_largest_value() {
    let grid = Grid::from_cells([0x4000_0000; 16]);
    let result = grid.apply_move(Direction::Left);
    assert_eq!(result.score_delta, u32::MAX);
    assert_eq!(row_of(&result.grid, 0), [0x8000_0000, 0x8000_0000, 0, 0]);
    let one_row = top_row([0x4000_0000, 0x4000_0000, 0x4000_0000, 0x4000_0000]);
    assert_eq!(one_row.apply_move(Direction::Left).score_delta, u32::MAX);
    let one_pair = top_row([0x4000_0000, 0x4000_0000, 0, 0]);
    assert_eq!(one_pair.apply_move(Direction::Left).score_delta, 0x8000_0000);
}

#[test]
fn largest_tiles_double_to_nothing() {
    let result = top_row([0x8000_0000, 0x8000_0000, 4, 0]).apply_move(Direction::Left);
    assert_eq!(result.grid, top_row([4, 0, 0, 0]));
    assert_eq!(result.score_delta, 0);
    assert!(result.moved);
}

#[test]
fn normalize_turns_every_move_into_a_move_left() {
    let grid = Grid::from_cells([2, 0, 0, 2, 0, 4, 0, 0, 0, 4, 8, 0, 2, 0, 0, 8]);
    for direction in ALL {
        let mut turned = grid;
        turned.normalize(direction);
        let mut moved = turned.apply_move(Direction::Left).grid;
        moved.denormalize(direction);
        assert_eq!(moved, grid.apply_move(direction).grid);
        turned.denormalize(direction);
        assert_eq!(turned, grid);
    }
    let mut up = grid;
    up.normalize(Direction::Up);
    assert_eq!(up.cells(), [2, 0, 0, 2, 0, 4, 4, 0, 0, 0, 8, 0, 2, 0, 0, 8]);
    let mut down = grid;
    down.normalize(Direction::Down);
    assert_eq!(down.cells(), [2, 0, 0, 2, 0, 4, 4, 0, 0, 8, 0, 0, 8, 0, 0, 2]);
    let mut right = grid;
    right.normalize(Direction::Right);
    assert_eq!(right.cells(), [2, 0, 0, 2, 0, 0, 4, 0, 0, 8, 4, 0, 8, 0, 0, 2]);
}

#[test]
fn directions_know_their_axis_and_their_end() {
    assert!(Direction::Up.vertical() && Direction::Down.vertical());
    assert!(!Direction::Left.vertical() && !Direction::Right.vertical());
    assert!(Direction::Down.toward_end() && Direction::Right.toward_end());
    assert!(!Direction::Up.toward_end() && !Direction::Left.toward_end());
}

#[test]
fn lines_slide_merge_and_shift() {
    assert_eq!(slide_line([0, 2, 0, 4]), [2, 4, 0, 0]);
    assert_eq!(slide_line([0, 0, 0, 0]), [0, 0, 0, 0]);
    assert_eq!(slide_line([2, 4, 8, 16]), [2, 4, 8, 16]);
    assert_eq!(merge_line([2, 2, 2, 2]), ([4, 0, 4, 0], 8));
    assert_eq!(merge_line([2, 0, 2, 0]), ([2, 0, 2, 0], 0));
    assert_eq!(merge_line([4, 2, 2, 2]), ([4, 4, 0, 2], 4));
    assert_eq!(merge_line([0, 0, 0, 0]), ([0, 0, 0, 0], 0));
    assert_eq!(shift_line([2, 0, 2, 4]), ([4, 4, 0, 0], 4));
    assert_eq!(shift_line([0, 8, 8, 8]), ([16, 8, 0, 0], 16));
}

#[test]
fn some_move_changes_a_board_that_is_not_terminal() {
    let grids = [
        Grid::from_cells([2, 0, 0, 0, 0, 0, 0, 0, 0, 0, 0, 0, 0, 0, 0, 0]),
        Grid::from_cells([2, 4, 8, 16, 0, 0, 0, 0, 0, 0, 0, 0, 0, 0, 0, 0]),
        Grid::from_cells([2, 0, 0, 0, 4, 0, 0, 0, 8, 0, 0, 0, 16, 0, 0, 0]),
        Grid::from_cells([2, 4, 2, 4, 4, 2, 4, 2, 2, 4, 2, 4, 4, 2, 4, 0]),
        Grid::from_cells([2, 4, 2, 4, 4, 2, 4, 2, 2, 4, 2, 4, 4, 2, 8, 8]),
        Grid::from_cells([2, 4, 2, 4, 4, 2, 4, 2, 2, 4, 2, 8, 4, 2, 4, 8]),
    ];
    for grid in grids {
        assert!(!grid.is_terminal());
        assert!(ALL.iter().any(|&direction| grid.apply_move(direction).moved));
    }
}
