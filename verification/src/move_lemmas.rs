//! What holds of every board after a move.

use crate::grid::{blank, is_cell, is_full, total, well_formed};
use crate::line::{capped, lemma_lengths, shift_gain, shift_overflows, shifted, tiles};
use crate::line_lemmas::{
    all_small, fused_once, lemma_cells_kept, lemma_shifted_closes_gap, lemma_shifted_full,
    lemma_shifted_fuses_once, lemma_shifted_merges_pair, lemma_shifted_stuck,
    lemma_small_never_overflows, lemma_total_concat, lemma_total_overflow,
    lemma_total_shifted,
};
use crate::moves::{
    cell_at, gain_of_lines, line_cells, line_of, move_gain, move_overflows, moved_cells, step_of,
    Direction,
};
use crate::terminal::{equals_neighbour, terminal};
use vstd::prelude::*;

verus! {

/// Every cell lies at its step of its line, and nowhere else.
pub proof fn lemma_coordinates(direction: Direction, cell: int)
    requires
        0 <= cell < 16,
    ensures
        0 <= line_of(direction, cell) < 4,
        0 <= step_of(direction, cell) < 4,
        cell_at(direction, line_of(direction, cell), step_of(direction, cell)) == cell,
{
}

/// Every step of every line is a cell of the board, and of that line.
pub proof fn lemma_cell_at(direction: Direction, line: int, step: int)
    requires
        0 <= line < 4,
        0 <= step < 4,
    ensures
        0 <= cell_at(direction, line, step) < 16,
        line_of(direction, cell_at(direction, line, step)) == line,
        step_of(direction, cell_at(direction, line, step)) == step,
{
}

/// The lines of the board after a move are the shifted lines of the board
/// before it.
pub proof fn lemma_moved_lines(cells: Seq<u32>, direction: Direction, line: int)
    requires
        cells.len() == 16,
        0 <= line < 4,
    ensures
        line_cells(moved_cells(cells, direction), direction, line) == shifted(
            line_cells(cells, direction, line),
        ),
{
    let before = line_cells(cells, direction, line);
    let after = line_cells(moved_cells(cells, direction), direction, line);
    lemma_lengths(before);
    assert forall|step: int| 0 <= step < 4 implies after[step] == shifted(before)[step] by {
        lemma_cell_at(direction, line, step);
    }
    assert(after =~= shifted(before));
}

/// A move that changes the board leaves at least one cell empty.
pub proof fn lemma_moved_leaves_room(cells: Seq<u32>, direction: Direction)
    requires
        cells.len() == 16,
        moved_cells(cells, direction) != cells,
    ensures
        !is_full(moved_cells(cells, direction)),
{
    let after = moved_cells(cells, direction);
    if is_full(after) {
        assert forall|cell: int| 0 <= cell < 16 implies after[cell] == cells[cell] by {
            lemma_coordinates(direction, cell);
            let line = line_of(direction, cell);
            let before = line_cells(cells, direction, line);
            lemma_moved_lines(cells, direction, line);
            assert forall|step: int| 0 <= step < shifted(before).len() implies #[trigger] shifted(
                before,
            )[step] != 0 by {
                lemma_lengths(before);
                lemma_cell_at(direction, line, step);
                assert(shifted(before)[step] == line_cells(after, direction, line)[step]);
                assert(after[cell_at(direction, line, step)] != 0);
            }
            lemma_shifted_full(before);
        }
        assert(after =~= cells);
    }
}

/// On a board on which the game is over no move changes anything, and none
/// brings points.
pub proof fn lemma_terminal_blocks_moves(cells: Seq<u32>, direction: Direction)
    requires
        cells.len() == 16,
        terminal(cells),
    ensures
        moved_cells(cells, direction) == cells,
        move_gain(cells, direction) == 0,
{
    assert forall|line: int| 0 <= line < 4 implies shifted(
        #[trigger] line_cells(cells, direction, line),
    ) == line_cells(cells, direction, line) && shift_gain(line_cells(cells, direction, line))
        == 0 by {
        let cut = line_cells(cells, direction, line);
        assert forall|step: int| 0 <= step < cut.len() implies #[trigger] cut[step] != 0 by {
            lemma_cell_at(direction, line, step);
            assert(cells[cell_at(direction, line, step)] != 0);
        }
        assert forall|step: int| 0 <= step < cut.len() - 1 implies #[trigger] cut[step] != cut[step
            + 1] by {
            lemma_cell_at(direction, line, step);
            lemma_cell_at(direction, line, step + 1);
            let here = cell_at(direction, line, step);
            let there = cell_at(direction, line, step + 1);
            let lower = if here < there {
                here
            } else {
                there
            };
            assert(!equals_neighbour(cells, lower));
        }
        lemma_shifted_stuck(cut);
    }
    let after = moved_cells(cells, direction);
    assert forall|cell: int| 0 <= cell < 16 implies after[cell] == cells[cell] by {
        lemma_coordinates(direction, cell);
        let line = line_of(direction, cell);
        assert(shifted(line_cells(cells, direction, line)) == line_cells(cells, direction, line));
    }
    assert(after =~= cells);
    reveal_with_fuel(gain_of_lines, 5);
    assert(shift_gain(line_cells(cells, direction, 0)) == 0);
    assert(shift_gain(line_cells(cells, direction, 1)) == 0);
    assert(shift_gain(line_cells(cells, direction, 2)) == 0);
    assert(shift_gain(line_cells(cells, direction, 3)) == 0);
}

/// A move changes the board where it changes one of its lines.
pub proof fn lemma_line_changes_board(cells: Seq<u32>, direction: Direction, line: int)
    requires
        cells.len() == 16,
        0 <= line < 4,
        shifted(line_cells(cells, direction, line)) != line_cells(cells, direction, line),
    ensures
        moved_cells(cells, direction) != cells,
{
    lemma_moved_lines(cells, direction, line);
}

/// A tile behind an empty cell of its line lets the move change the board.
proof fn lemma_gap_changes_board(cells: Seq<u32>, direction: Direction, gap: int, tile: int)
    requires
        cells.len() == 16,
        0 <= gap < 16,
        0 <= tile < 16,
        cells[gap] == 0,
        cells[tile] != 0,
        line_of(direction, gap) == line_of(direction, tile),
        step_of(direction, gap) < step_of(direction, tile),
    ensures
        moved_cells(cells, direction) != cells,
{
    lemma_coordinates(direction, gap);
    lemma_coordinates(direction, tile);
    let line = line_of(direction, gap);
    lemma_shifted_closes_gap(
        line_cells(cells, direction, line),
        step_of(direction, gap),
        step_of(direction, tile),
    );
    lemma_line_changes_board(cells, direction, line);
}

/// Two equal neighbours in a line of a board without an empty cell let the
/// move change the board.
proof fn lemma_pair_changes_board(cells: Seq<u32>, direction: Direction, line: int, step: int)
    requires
        cells.len() == 16,
        is_full(cells),
        0 <= line < 4,
        0 <= step < 3,
        cells[cell_at(direction, line, step)] == cells[cell_at(direction, line, step + 1)],
    ensures
        moved_cells(cells, direction) != cells,
{
    let cut = line_cells(cells, direction, line);
    assert forall|at: int| 0 <= at < cut.len() implies #[trigger] cut[at] != 0 by {
        lemma_cell_at(direction, line, at);
        assert(cells[cell_at(direction, line, at)] != 0);
    }
    lemma_shifted_merges_pair(cut, step);
    lemma_line_changes_board(cells, direction, line);
}

/// Whether row `row` of the board holds a tile.
pub open spec fn row_has_tile(cells: Seq<u32>, row: int) -> bool {
    exists|cell: int| 0 <= cell < 16 && cell / 4 == row && #[trigger] cells[cell] != 0
}

/// As long as the game is not over, something can be done: on a board that
/// holds a tile and is not terminal, the move in the direction returned
/// changes the board.
pub proof fn lemma_open_board_moves(cells: Seq<u32>) -> (direction: Direction)
    requires
        cells.len() == 16,
        cells != blank(),
        !terminal(cells),
    ensures
        moved_cells(cells, direction) != cells,
{
    if !is_full(cells) {
        let gap = choose|gap: int| 0 <= gap < 16 && cells[gap] == 0;
        if forall|cell: int| 0 <= cell < 16 ==> cells[cell] == 0 {
            assert(cells =~= blank());
        }
        let tile = choose|tile: int| 0 <= tile < 16 && cells[tile] != 0;
        let row = gap / 4;
        if row_has_tile(cells, row) {
            let beside = choose|beside: int|
                0 <= beside < 16 && beside / 4 == row && #[trigger] cells[beside] != 0;
            if gap % 4 < beside % 4 {
                lemma_gap_changes_board(cells, Direction::Left, gap, beside);
                Direction::Left
            } else {
                lemma_gap_changes_board(cells, Direction::Right, gap, beside);
                Direction::Right
            }
        } else {
            let above = 4 * row + tile % 4;
            assert(cells[above] == 0);
            if row < tile / 4 {
                lemma_gap_changes_board(cells, Direction::Up, above, tile);
                Direction::Up
            } else {
                lemma_gap_changes_board(cells, Direction::Down, above, tile);
                Direction::Down
            }
        }
    } else {
        let cell = choose|cell: int| 0 <= cell < 16 && #[trigger] equals_neighbour(cells, cell);
        if cell % 4 < 3 && cells[cell] == cells[cell + 1] {
            lemma_pair_changes_board(cells, Direction::Left, cell / 4, cell % 4);
            Direction::Left
        } else {
            lemma_pair_changes_board(cells, Direction::Up, cell % 4, cell / 4);
            Direction::Up
        }
    }
}

/// A move takes a board of empty cells and tiles to another one.
pub proof fn lemma_move_keeps_well_formed(cells: Seq<u32>, direction: Direction)
    requires
        well_formed(cells),
    ensures
        well_formed(moved_cells(cells, direction)),
{
    let after = moved_cells(cells, direction);
    assert forall|cell: int| 0 <= cell < 16 implies is_cell(#[trigger] after[cell]) by {
        lemma_coordinates(direction, cell);
        let line = line_of(direction, cell);
        let before = line_cells(cells, direction, line);
        assert forall|step: int| 0 <= step < before.len() implies is_cell(
            #[trigger] before[step],
        ) by {
            lemma_cell_at(direction, line, step);
            assert(is_cell(cells[cell_at(direction, line, step)]));
        }
        lemma_cells_kept(before);
        lemma_lengths(before);
        assert(is_cell(shifted(before)[step_of(direction, cell)]));
    }
}

/// A move does not overflow on a board of which every value is small enough
/// for 32 bits to hold twice as much.
pub proof fn lemma_small_board_never_overflows(cells: Seq<u32>, direction: Direction)
    requires
        cells.len() == 16,
        all_small(cells),
    ensures
        !move_overflows(cells, direction),
{
    assert forall|line: int| 0 <= line < 4 implies !shift_overflows(
        #[trigger] line_cells(cells, direction, line),
    ) by {
        let cut = line_cells(cells, direction, line);
        assert forall|step: int| 0 <= step < cut.len() implies #[trigger] cut[step]
            < 0x8000_0000 by {
            lemma_cell_at(direction, line, step);
            assert(cells[cell_at(direction, line, step)] < 0x8000_0000);
        }
        lemma_small_never_overflows(cut);
    }
}

/// Sum of a line of four cells.
proof fn lemma_total_four(line: Seq<u32>)
    requires
        line.len() == 4,
    ensures
        total(line) == line[0] + line[1] + line[2] + line[3],
{
    reveal_with_fuel(total, 5);
    assert(line.drop_last().drop_last().drop_last().drop_last() =~= Seq::<u32>::empty());
}

/// The cells of a board add up to what its four lines add up to, whichever
/// way the board is cut into lines.
pub proof fn lemma_total_by_lines(cells: Seq<u32>, direction: Direction)
    requires
        cells.len() == 16,
    ensures
        total(cells) == total(line_cells(cells, direction, 0)) + total(
            line_cells(cells, direction, 1),
        ) + total(line_cells(cells, direction, 2)) + total(line_cells(cells, direction, 3)),
{
    let first = cells.subrange(0, 4);
    let second = cells.subrange(4, 8);
    let third = cells.subrange(8, 12);
    let fourth = cells.subrange(12, 16);
    assert(cells =~= ((first + second) + third) + fourth);
    lemma_total_concat((first + second) + third, fourth);
    lemma_total_concat(first + second, third);
    lemma_total_concat(first, second);
    lemma_total_four(first);
    lemma_total_four(second);
    lemma_total_four(third);
    lemma_total_four(fourth);
    lemma_total_four(line_cells(cells, direction, 0));
    lemma_total_four(line_cells(cells, direction, 1));
    lemma_total_four(line_cells(cells, direction, 2));
    lemma_total_four(line_cells(cells, direction, 3));
}

/// A move keeps the sum of all tiles: tiles that slide keep their values, and
/// a merge puts one tile of twice the value in the place of two. The values
/// that the merges create are made of the tiles that were there, so they add
/// up to no more than the sum of all tiles, and the points of the move are
/// their exact sum unless the board holds more than a `u32` can. This holds
/// of every move that does not overflow.
pub proof fn lemma_move_keeps_total(cells: Seq<u32>, direction: Direction)
    requires
        cells.len() == 16,
        !move_overflows(cells, direction),
    ensures
        total(moved_cells(cells, direction)) == total(cells),
        0 <= move_gain(cells, direction) <= total(cells),
        total(cells) <= u32::MAX ==> capped(move_gain(cells, direction)) == move_gain(
            cells,
            direction,
        ),
{
    let after = moved_cells(cells, direction);
    lemma_total_by_lines(cells, direction);
    lemma_total_by_lines(after, direction);
    reveal_with_fuel(gain_of_lines, 5);
    assert forall|line: int| 0 <= line < 4 implies total(
        #[trigger] line_cells(after, direction, line),
    ) == total(line_cells(cells, direction, line)) && 0 <= shift_gain(
        line_cells(cells, direction, line),
    ) <= total(line_cells(cells, direction, line)) by {
        let before = line_cells(cells, direction, line);
        assert(!shift_overflows(before));
        lemma_moved_lines(cells, direction, line);
        lemma_total_shifted(before);
    }
    assert(total(line_cells(after, direction, 0)) == total(line_cells(cells, direction, 0)));
    assert(total(line_cells(after, direction, 1)) == total(line_cells(cells, direction, 1)));
    assert(total(line_cells(after, direction, 2)) == total(line_cells(cells, direction, 2)));
    assert(total(line_cells(after, direction, 3)) == total(line_cells(cells, direction, 3)));
}

/// A move that overflows loses from the sum of all tiles.
pub proof fn lemma_overflow_loses_total(cells: Seq<u32>, direction: Direction)
    requires
        cells.len() == 16,
        move_overflows(cells, direction),
    ensures
        total(moved_cells(cells, direction)) < total(cells),
{
    let after = moved_cells(cells, direction);
    lemma_total_by_lines(cells, direction);
    lemma_total_by_lines(after, direction);
    assert forall|line: int| 0 <= line < 4 implies total(
        #[trigger] line_cells(after, direction, line),
    ) <= total(line_cells(cells, direction, line)) && (shift_overflows(
        line_cells(cells, direction, line),
    ) ==> total(line_cells(after, direction, line)) < total(
        line_cells(cells, direction, line),
    )) by {
        lemma_moved_lines(cells, direction, line);
        lemma_total_overflow(line_cells(cells, direction, line));
    }
    assert(total(line_cells(after, direction, 0)) <= total(line_cells(cells, direction, 0)));
    assert(total(line_cells(after, direction, 1)) <= total(line_cells(cells, direction, 1)));
    assert(total(line_cells(after, direction, 2)) <= total(line_cells(cells, direction, 2)));
    assert(total(line_cells(after, direction, 3)) <= total(line_cells(cells, direction, 3)));
}

/// In a move no tile merges twice: in every line each tile stays as it is or
/// is fused with one equal neighbour, so no tile of the outcome is made of
/// more than two tiles. This holds of every move that does not overflow.
pub proof fn lemma_no_double_merge(cells: Seq<u32>, direction: Direction, line: int)
    requires
        cells.len() == 16,
        !move_overflows(cells, direction),
        0 <= line < 4,
    ensures
        fused_once(
            tiles(line_cells(cells, direction, line)),
            tiles(line_cells(moved_cells(cells, direction), direction, line)),
        ),
{
    let before = line_cells(cells, direction, line);
    assert(!shift_overflows(before));
    lemma_moved_lines(cells, direction, line);
    lemma_shifted_fuses_once(before);
}

} // verus!
