//! Moves of the whole board in one of four directions.
//!
//! Every direction cuts the board into four lines of four cells. A line is
//! read from the edge toward which the tiles move: step 0 is the cell at that
//! edge, step 3 the cell farthest from it. A move shifts each line on its own.

use crate::grid::{
    lemma_mirror_involution, lemma_transpose_involution, mirrored, transposed, Grid,
};
use crate::line::{
    capped, lemma_gain_bounds, lemma_lengths, shift_gain, shift_line, shift_overflows, shifted,
    slid,
};
use vstd::prelude::*;

verus! {

/// The four directions in which the tiles can be moved.
#[derive(Clone, Copy, Debug, PartialEq, Eq, Structural)]
pub enum Direction {
    Up,
    Down,
    Left,
    Right,
}

impl Direction {
    /// Whether the lines of this direction are columns.
    pub open spec fn is_vertical(self) -> bool {
        self == Direction::Up || self == Direction::Down
    }

    /// Whether the tiles move toward the last row or column.
    pub open spec fn is_toward_end(self) -> bool {
        self == Direction::Down || self == Direction::Right
    }

    /// Whether the lines of this direction are columns.
    pub fn vertical(self) -> (r: bool)
        ensures
            r == self.is_vertical(),
    {
        match self {
            Direction::Up | Direction::Down => true,
            Direction::Left | Direction::Right => false,
        }
    }

    /// Whether the tiles move toward the last row or column.
    pub fn toward_end(self) -> (r: bool)
        ensures
            r == self.is_toward_end(),
    {
        match self {
            Direction::Down | Direction::Right => true,
            Direction::Up | Direction::Left => false,
        }
    }
}

/// Index of the cell at `step` of line `line`.
pub open spec fn cell_at(direction: Direction, line: int, step: int) -> int {
    match direction {
        Direction::Left => 4 * line + step,
        Direction::Right => 4 * line + (3 - step),
        Direction::Up => 4 * step + line,
        Direction::Down => 4 * (3 - step) + line,
    }
}

/// The line in which cell `cell` lies.
pub open spec fn line_of(direction: Direction, cell: int) -> int {
    if direction.is_vertical() {
        cell % 4
    } else {
        cell / 4
    }
}

/// The step at which cell `cell` lies in its line.
pub open spec fn step_of(direction: Direction, cell: int) -> int {
    match direction {
        Direction::Left => cell % 4,
        Direction::Right => 3 - cell % 4,
        Direction::Up => cell / 4,
        Direction::Down => 3 - cell / 4,
    }
}

/// The four cells of line `line`, from the edge toward which the tiles move.
pub open spec fn line_cells(cells: Seq<u32>, direction: Direction, line: int) -> Seq<u32> {
    Seq::new(4, |step: int| cells[cell_at(direction, line, step)])
}

/// The board after a move: every line shifted on its own.
pub open spec fn moved_cells(cells: Seq<u32>, direction: Direction) -> Seq<u32> {
    Seq::new(
        16,
        |cell: int|
            shifted(line_cells(cells, direction, line_of(direction, cell)))[step_of(
                direction,
                cell,
            )],
    )
}

/// Sum of the values that the merges create in the first `lines` lines.
pub open spec fn gain_of_lines(cells: Seq<u32>, direction: Direction, lines: int) -> int
    decreases lines,
{
    if lines <= 0 {
        0
    } else {
        gain_of_lines(cells, direction, lines - 1) + shift_gain(
            line_cells(cells, direction, lines - 1),
        )
    }
}

/// Sum of the values that the merges of a move create on the whole board.
pub open spec fn move_gain(cells: Seq<u32>, direction: Direction) -> int {
    gain_of_lines(cells, direction, 4)
}

/// Whether the move doubles, in some line, a value of which 32 bits cannot
/// hold twice as much.
pub open spec fn move_overflows(cells: Seq<u32>, direction: Direction) -> bool {
    exists|line: int|
        0 <= line < 4 && shift_overflows(#[trigger] line_cells(cells, direction, line))
}

/// The board turned so that a move in `direction` becomes a move to the left:
/// columns become rows for a vertical move, and rows are reversed for a move
/// toward the last row or column.
pub open spec fn normalized(cells: Seq<u32>, direction: Direction) -> Seq<u32> {
    let turned = if direction.is_vertical() {
        transposed(cells)
    } else {
        cells
    };
    if direction.is_toward_end() {
        mirrored(turned)
    } else {
        turned
    }
}

/// The inverse of `normalized`.
pub open spec fn denormalized(cells: Seq<u32>, direction: Direction) -> Seq<u32> {
    let turned = if direction.is_toward_end() {
        mirrored(cells)
    } else {
        cells
    };
    if direction.is_vertical() {
        transposed(turned)
    } else {
        turned
    }
}

/// What a move yields.
#[derive(Clone, Copy, Debug, PartialEq, Eq)]
pub struct MoveResult {
    /// The board after the move.
    pub grid: Grid,
    /// Sum of the values of the tiles that merges created, capped at the
    /// largest `u32`.
    pub score_delta: u32,
    /// Whether the move changed any cell.
    pub moved: bool,
}

/// Turning the board back undoes turning it.
pub proof fn lemma_denormalize_normalize(cells: Seq<u32>, direction: Direction)
    requires
        cells.len() == 16,
    ensures
        denormalized(normalized(cells, direction), direction) == cells,
        normalized(denormalized(cells, direction), direction) == cells,
{
    lemma_transpose_involution(cells);
    lemma_mirror_involution(cells);
    lemma_mirror_involution(transposed(cells));
    lemma_transpose_involution(mirrored(cells));
}

/// The rows of the turned board are the lines of the board.
pub proof fn lemma_normalized_lines(cells: Seq<u32>, direction: Direction, line: int)
    requires
        cells.len() == 16,
        0 <= line < 4,
    ensures
        line_cells(normalized(cells, direction), Direction::Left, line) == line_cells(
            cells,
            direction,
            line,
        ),
{
    assert(line_cells(normalized(cells, direction), Direction::Left, line) =~= line_cells(
        cells,
        direction,
        line,
    ));
}

/// A move in any direction is a move to the left on the turned board, turned
/// back.
pub proof fn lemma_move_by_normalizing(cells: Seq<u32>, direction: Direction)
    requires
        cells.len() == 16,
    ensures
        moved_cells(cells, direction) == denormalized(
            moved_cells(normalized(cells, direction), Direction::Left),
            direction,
        ),
        move_gain(cells, direction) == move_gain(normalized(cells, direction), Direction::Left),
{
    let turned = normalized(cells, direction);
    lemma_normalized_lines(cells, direction, 0);
    lemma_normalized_lines(cells, direction, 1);
    lemma_normalized_lines(cells, direction, 2);
    lemma_normalized_lines(cells, direction, 3);
    reveal_with_fuel(gain_of_lines, 5);
    assert(moved_cells(cells, direction) =~= denormalized(
        moved_cells(turned, Direction::Left),
        direction,
    ));
}

/// The merges of a move create no negative values.
pub proof fn lemma_move_gain_bounds(cells: Seq<u32>, direction: Direction)
    ensures
        0 <= move_gain(cells, direction),
{
    reveal_with_fuel(gain_of_lines, 5);
    lemma_gain_bounds(slid(line_cells(cells, direction, 0)));
    lemma_gain_bounds(slid(line_cells(cells, direction, 1)));
    lemma_gain_bounds(slid(line_cells(cells, direction, 2)));
    lemma_gain_bounds(slid(line_cells(cells, direction, 3)));
}

impl Grid {
    /// Turns the board so that a move in `direction` becomes a move to the
    /// left.
    pub fn normalize(&mut self, direction: Direction)
        ensures
            final(self)@ == normalized(old(self)@, direction),
    {
        if direction.vertical() {
            self.transpose();
        }
        if direction.toward_end() {
            self.mirror();
        }
    }

    /// Turns the board back: the inverse of `normalize`.
    pub fn denormalize(&mut self, direction: Direction)
        ensures
            final(self)@ == denormalized(old(self)@, direction),
    {
        if direction.toward_end() {
            self.mirror();
        }
        if direction.vertical() {
            self.transpose();
        }
    }

    /// Shifts every row to the left.
    fn shift_rows(&self) -> (out: (Grid, u32))
        ensures
            out.0@ == moved_cells(self@, Direction::Left),
            out.1 == capped(move_gain(self@, Direction::Left)),
    {
        let mut grid = *self;
        let mut points: u32 = 0;
        let mut row: usize = 0;
        proof {
            self.lemma_len();
        }
        while row < 4
            invariant
                row <= 4,
                self@.len() == 16,
                grid@.len() == 16,
                forall|i: int|
                    0 <= i < 4 * row ==> grid@[i] == moved_cells(self@, Direction::Left)[i],
                forall|i: int| 4 * row <= i < 16 ==> grid@[i] == self@[i],
                0 <= gain_of_lines(self@, Direction::Left, row as int),
                points == capped(gain_of_lines(self@, Direction::Left, row as int)),
            decreases 4 - row,
        {
            let start = 4 * row;
            let line = [
                self.get(start),
                self.get(start + 1),
                self.get(start + 2),
                self.get(start + 3),
            ];
            assert(line@ =~= line_cells(self@, Direction::Left, row as int));
            let (out, gained) = shift_line(line);
            proof {
                lemma_lengths(line@);
                lemma_gain_bounds(slid(line@));
            }
            grid.set(start, out[0]);
            grid.set(start + 1, out[1]);
            grid.set(start + 2, out[2]);
            grid.set(start + 3, out[3]);
            points = points.saturating_add(gained);
            row += 1;
        }
        assert(grid@ =~= moved_cells(self@, Direction::Left));
        (grid, points)
    }

    /// Moves the tiles in `direction`: in every line the tiles slide as far as
    /// they can, equal neighbours merge once, and the gaps close. The board
    /// itself is left as it is; the result holds the new one.
    pub fn apply_move(&self, direction: Direction) -> (result: MoveResult)
        ensures
            result.grid@ == moved_cells(self@, direction),
            result.score_delta == capped(move_gain(self@, direction)),
            result.moved == (result.grid@ != self@),
    {
        proof {
            self.lemma_len();
            lemma_move_by_normalizing(self@, direction);
        }
        let mut turned = *self;
        turned.normalize(direction);
        let (mut grid, score_delta) = turned.shift_rows();
        grid.denormalize(direction);
        let moved = !grid.same(self);
        MoveResult { grid, score_delta, moved }
    }
}

} // verus!
