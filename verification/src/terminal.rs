//! The end of a game: a full board on which no two neighbours are equal.

use crate::grid::{is_full, Grid};
use vstd::prelude::*;

verus! {

/// Whether cell `cell` holds the same value as its right neighbour, where it
/// is not in the last column, or as its lower neighbour, where it is not in
/// the last row.
pub open spec fn equals_neighbour(cells: Seq<u32>, cell: int) -> bool {
    ||| cell % 4 < 3 && cells[cell] == cells[cell + 1]
    ||| cell / 4 < 3 && cells[cell] == cells[cell + 4]
}

/// Whether two cells next to each other, in a row or in a column, hold the
/// same value.
pub open spec fn has_equal_neighbours(cells: Seq<u32>) -> bool {
    exists|cell: int| 0 <= cell < 16 && #[trigger] equals_neighbour(cells, cell)
}

/// Nothing is left to do: no cell is empty and no two neighbours are equal.
pub open spec fn terminal(cells: Seq<u32>) -> bool {
    is_full(cells) && !has_equal_neighbours(cells)
}

impl Grid {
    /// Whether any cell is empty.
    pub fn has_empty_cell(&self) -> (found: bool)
        ensures
            found == !is_full(self@),
    {
        proof {
            self.lemma_len();
        }
        let mut cell: usize = 0;
        while cell < 16
            invariant
                cell <= 16,
                self@.len() == 16,
                forall|i: int| 0 <= i < cell ==> self@[i] != 0,
            decreases 16 - cell,
        {
            if self.get(cell) == 0 {
                return true;
            }
            cell += 1;
        }
        false
    }

    /// Whether the game is over on this board: no cell is empty and no two
    /// neighbours are equal.
    pub fn is_terminal(&self) -> (over: bool)
        ensures
            over == terminal(self@),
            !is_full(self@) ==> !over,
            is_full(self@) && has_equal_neighbours(self@) ==> !over,
            is_full(self@) && !has_equal_neighbours(self@) ==> over,
    {
        if self.has_empty_cell() {
            return false;
        }
        let mut cell: usize = 0;
        while cell < 16
            invariant
                cell <= 16,
                forall|i: int| 0 <= i < cell ==> !equals_neighbour(self@, i),
            decreases 16 - cell,
        {
            let row = cell / 4;
            let col = cell % 4;
            if col < 3 && self.get(cell) == self.get(cell + 1) {
                assert(equals_neighbour(self@, cell as int));
                return false;
            }
            if row < 3 && self.get(cell) == self.get(cell + 4) {
                assert(equals_neighbour(self@, cell as int));
                return false;
            }
            cell += 1;
        }
        true
    }
}

} // verus!
