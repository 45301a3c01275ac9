//! The board: sixteen cells in row-major order, each empty or holding a tile.
//!
//! Cell `i` lies in row `i / 4` and column `i % 4`. An empty cell holds zero; a
//! tile is a power of two, at least two.

use vstd::arithmetic::power2::is_pow2;
use vstd::prelude::*;

verus! {

/// A tile is a power of two, at least two.
pub open spec fn is_tile(value: u32) -> bool {
    value >= 2 && is_pow2(value as int)
}

/// A cell is empty (zero) or holds a tile.
pub open spec fn is_cell(value: u32) -> bool {
    value == 0 || is_tile(value)
}

/// Sixteen cells, each of them empty or a tile.
pub open spec fn well_formed(cells: Seq<u32>) -> bool {
    &&& cells.len() == 16
    &&& forall|i: int| 0 <= i < 16 ==> is_cell(#[trigger] cells[i])
}

/// The board without any tile.
pub open spec fn blank() -> Seq<u32> {
    Seq::new(16, |i: int| 0u32)
}

/// The cells with rows and columns exchanged: the cell in row `r`, column `c`
/// comes from row `c`, column `r`.
pub open spec fn transposed(cells: Seq<u32>) -> Seq<u32> {
    Seq::new(16, |i: int| cells[4 * (i % 4) + i / 4])
}

/// The cells with every row reversed: the cell in column `c` comes from
/// column `3 - c` of the same row.
pub open spec fn mirrored(cells: Seq<u32>) -> Seq<u32> {
    Seq::new(16, |i: int| cells[4 * (i / 4) + (3 - i % 4)])
}

/// Sum of the values of all cells.
pub open spec fn total(cells: Seq<u32>) -> int
    decreases cells.len(),
{
    if cells.len() == 0 {
        0
    } else {
        total(cells.drop_last()) + cells.last()
    }
}

/// No cell is empty.
pub open spec fn is_full(cells: Seq<u32>) -> bool {
    forall|i: int| 0 <= i < cells.len() ==> #[trigger] cells[i] != 0
}

/// The cells below `below` that are not empty, each with its index and its
/// value, in increasing order of the index.
pub open spec fn occupied_below(cells: Seq<u32>, below: int) -> Seq<(usize, u32)>
    decreases below,
{
    if below <= 0 {
        Seq::empty()
    } else if cells[below - 1] != 0 {
        occupied_below(cells, below - 1).push(((below - 1) as usize, cells[below - 1]))
    } else {
        occupied_below(cells, below - 1)
    }
}

/// Whether `value` is a tile: a power of two, at least two.
pub fn is_tile_value(value: u32) -> (tile: bool)
    ensures
        tile == is_tile(value),
{
    if value < 2 {
        return false;
    }
    let mut rest = value;
    while rest % 2 == 0
        invariant
            rest >= 1,
            is_pow2(rest as int) == is_pow2(value as int),
        decreases rest,
    {
        proof {
            reveal(is_pow2);
        }
        rest = rest / 2;
    }
    proof {
        reveal(is_pow2);
    }
    rest == 1
}

/// The 4x4 board.
#[derive(Clone, Copy, Debug, PartialEq, Eq)]
pub struct Grid {
    cells: [u32; 16],
}

impl View for Grid {
    type V = Seq<u32>;

    closed spec fn view(&self) -> Seq<u32> {
        self.cells@
    }
}

impl Grid {
    /// A board has sixteen cells, whatever they hold.
    pub proof fn lemma_len(&self)
        ensures
            self@.len() == 16,
    {
    }

    /// The board without any tile.
    pub fn new() -> (grid: Grid)
        ensures
            grid@ == blank(),
            well_formed(grid@),
    {
        let grid = Grid { cells: [0u32; 16] };
        assert(grid@ =~= blank());
        grid
    }

    /// The board that holds `cells`, row by row.
    pub fn from_cells(cells: [u32; 16]) -> (grid: Grid)
        ensures
            grid@ == cells@,
    {
        Grid { cells }
    }

    /// The cells, row by row.
    pub fn cells(&self) -> (cells: [u32; 16])
        ensures
            cells@ == self@,
    {
        self.cells
    }

    /// The value of cell `index`.
    pub fn get(&self, index: usize) -> (value: u32)
        requires
            index < 16,
        ensures
            value == self@[index as int],
    {
        self.cells[index]
    }

    /// Puts `value` into cell `index` and leaves the other cells alone.
    pub fn set(&mut self, index: usize, value: u32)
        requires
            index < 16,
        ensures
            final(self)@ == old(self)@.update(index as int, value),
    {
        self.cells[index] = value;
    }

    /// Whether the two boards hold the same value in every cell.
    pub fn same(&self, other: &Grid) -> (equal: bool)
        ensures
            equal == (self@ == other@),
    {
        let mut i: usize = 0;
        while i < 16
            invariant
                i <= 16,
                forall|k: int| 0 <= k < i ==> self@[k] == other@[k],
            decreases 16 - i,
        {
            if self.cells[i] != other.cells[i] {
                return false;
            }
            i += 1;
        }
        assert(self@ =~= other@);
        true
    }

    /// Whether every cell is empty or holds a tile.
    pub fn is_well_formed(&self) -> (valid: bool)
        ensures
            valid == well_formed(self@),
    {
        let mut i: usize = 0;
        while i < 16
            invariant
                i <= 16,
                forall|k: int| 0 <= k < i ==> is_cell(#[trigger] self@[k]),
            decreases 16 - i,
        {
            let value = self.cells[i];
            if value != 0 && !is_tile_value(value) {
                assert(!is_cell(self@[i as int]));
                return false;
            }
            i += 1;
        }
        true
    }

    /// Sum of the values of all cells.
    pub fn total(&self) -> (sum: u64)
        ensures
            sum == total(self@),
    {
        let mut sum: u64 = 0;
        let mut i: usize = 0;
        while i < 16
            invariant
                i <= 16,
                sum == total(self@.take(i as int)),
                sum <= i * 0xffff_ffff,
            decreases 16 - i,
        {
            assert(self@.take(i + 1).drop_last() =~= self@.take(i as int));
            sum = sum + self.cells[i] as u64;
            i += 1;
        }
        assert(self@.take(16) =~= self@);
        sum
    }

    /// The cells that are not empty, each with its index and its value, in
    /// increasing order of the index.
    pub fn occupied_cells(&self) -> (found: Vec<(usize, u32)>)
        ensures
            found@ == occupied_below(self@, 16),
    {
        let mut found: Vec<(usize, u32)> = Vec::new();
        let mut i: usize = 0;
        while i < 16
            invariant
                i <= 16,
                found@ == occupied_below(self@, i as int),
            decreases 16 - i,
        {
            let value = self.cells[i];
            if value != 0 {
                found.push((i, value));
            }
            i += 1;
        }
        found
    }

    /// Exchanges cells `a` and `b`.
    fn swap(&mut self, a: usize, b: usize)
        requires
            a < 16,
            b < 16,
        ensures
            final(self)@ == old(self)@.update(a as int, old(self)@[b as int]).update(
                b as int,
                old(self)@[a as int],
            ),
    {
        let held = self.cells[a];
        self.cells[a] = self.cells[b];
        self.cells[b] = held;
    }

    /// Exchanges rows and columns in place, by swapping the six pairs of cells
    /// that lie across the main diagonal from each other.
    pub fn transpose(&mut self)
        ensures
            final(self)@ == transposed(old(self)@),
    {
        self.swap(1, 4);
        self.swap(2, 8);
        self.swap(3, 12);
        self.swap(6, 9);
        self.swap(7, 13);
        self.swap(11, 14);
        assert(self@ =~= transposed(old(self)@));
    }

    /// Reverses every row in place.
    pub fn mirror(&mut self)
        ensures
            final(self)@ == mirrored(old(self)@),
    {
        let mut row: usize = 0;
        while row < 4
            invariant
                row <= 4,
                forall|i: int| 0 <= i < 4 * row ==> self@[i] == mirrored(old(self)@)[i],
                forall|i: int| 4 * row <= i < 16 ==> self@[i] == old(self)@[i],
            decreases 4 - row,
        {
            self.swap(4 * row, 4 * row + 3);
            self.swap(4 * row + 1, 4 * row + 2);
            row += 1;
        }
        assert(self@ =~= mirrored(old(self)@));
    }
}

/// Transposing twice gives the cells back as they were.
pub proof fn lemma_transpose_involution(cells: Seq<u32>)
    requires
        cells.len() == 16,
    ensures
        transposed(transposed(cells)) == cells,
{
    assert(transposed(transposed(cells)) =~= cells);
}

/// Mirroring twice gives the cells back as they were.
pub proof fn lemma_mirror_involution(cells: Seq<u32>)
    requires
        cells.len() == 16,
    ensures
        mirrored(mirrored(cells)) == cells,
{
    assert(mirrored(mirrored(cells)) =~= cells);
}

} // verus!
