//! New tiles: a 2 or a 4 in an empty cell picked at random.
//!
//! The random draws come from a generator that the caller hands in. What
//! follows the draws is `Grid::place_tile`, which takes them as arguments.

use crate::grid::{is_full, Grid};
use rand::rngs::StdRng;
use vstd::prelude::*;

verus! {

/// `rand::rngs::StdRng`, the generator of random numbers that the caller hands
/// in. Nothing is known of what it holds.
#[verifier::external_type_specification]
#[verifier::external_body]
pub struct ExStdRng(StdRng);

/// Why no tile could be spawned.
#[derive(Clone, Copy, Debug, PartialEq, Eq, Structural)]
pub enum SpawnError {
    /// Every cell holds a tile.
    NoEmptyCell,
}

/// Of ten new tiles, nine are a 2 on average.
pub const TWO_ODDS: u32 = 9;

/// See `TWO_ODDS`.
pub const ODDS_BASE: u32 = 10;

/// The indices below `below` of the empty cells, in increasing order.
pub open spec fn empty_cells_below(cells: Seq<u32>, below: int) -> Seq<usize>
    decreases below,
{
    if below <= 0 {
        Seq::empty()
    } else if cells[below - 1] == 0 {
        empty_cells_below(cells, below - 1).push((below - 1) as usize)
    } else {
        empty_cells_below(cells, below - 1)
    }
}

/// The indices of the empty cells of a board, in increasing order.
pub open spec fn empty_cells(cells: Seq<u32>) -> Seq<usize> {
    empty_cells_below(cells, 16)
}

/// The value of a new tile.
pub open spec fn spawn_value(two: bool) -> u32 {
    if two {
        2
    } else {
        4
    }
}

/// `grid` is the board `cells` with a new tile of `value` in cell `cell`,
/// which was empty.
pub open spec fn spawns(cells: Seq<u32>, grid: Seq<u32>, cell: usize, value: u32) -> bool {
    cell < 16 && cells[cell as int] == 0 && grid == cells.update(cell as int, value)
}

/// `order` holds the empty cells of the board, each once, in any order.
pub open spec fn orders_empty_cells(order: Seq<usize>, cells: Seq<u32>) -> bool {
    order.to_multiset() == empty_cells(cells).to_multiset()
}

/// `empty_cells_below` lists empty cells below `below` only, and all of them.
pub proof fn lemma_empty_cells_below(cells: Seq<u32>, below: int)
    requires
        cells.len() == 16,
        0 <= below <= 16,
    ensures
        empty_cells_below(cells, below).len() <= below,
        forall|at: int|
            0 <= at < empty_cells_below(cells, below).len() ==> (#[trigger] empty_cells_below(
                cells,
                below,
            )[at]) < below && cells[empty_cells_below(cells, below)[at] as int] == 0,
        forall|cell: int|
            0 <= cell < below && #[trigger] cells[cell] == 0 ==> empty_cells_below(
                cells,
                below,
            ).contains(cell as usize),
    decreases below,
{
    if below > 0 {
        lemma_empty_cells_below(cells, below - 1);
        let shorter = empty_cells_below(cells, below - 1);
        let listed = empty_cells_below(cells, below);
        assert forall|cell: int|
            0 <= cell < below && #[trigger] cells[cell] == 0 implies listed.contains(
            cell as usize,
        ) by {
            if cell == below - 1 {
                assert(listed[shorter.len() as int] == cell as usize);
            } else {
                assert(shorter.contains(cell as usize));
                let at = choose|at: int| 0 <= at < shorter.len() && shorter[at] == cell as usize;
                assert(listed[at] == cell as usize);
            }
        }
    }
}

/// A board is full where it has no empty cell to list, and every listed cell
/// is an empty cell of the board.
pub proof fn lemma_empty_cells(cells: Seq<u32>)
    requires
        cells.len() == 16,
    ensures
        empty_cells(cells).len() <= 16,
        is_full(cells) <==> empty_cells(cells).len() == 0,
        forall|cell: usize|
            empty_cells(cells).contains(cell) <==> (cell < 16 && cells[cell as int] == 0),
{
    lemma_empty_cells_below(cells, 16);
    let listed = empty_cells(cells);
    if listed.len() > 0 {
        assert(cells[listed[0] as int] == 0);
    }
    if !is_full(cells) {
        let at = choose|at: int| 0 <= at < 16 && cells[at] == 0;
        assert(listed.contains(at as usize));
    }
    assert forall|cell: usize| listed.contains(cell) implies cell < 16 && cells[cell as int]
        == 0 by {
        let at = choose|at: int| 0 <= at < listed.len() && listed[at] == cell;
        assert(listed[at] < 16);
    }
}

/// What `order` holds when it orders the empty cells of the board.
pub proof fn lemma_order(order: Seq<usize>, cells: Seq<u32>)
    requires
        cells.len() == 16,
        orders_empty_cells(order, cells),
    ensures
        order.len() == empty_cells(cells).len(),
        is_full(cells) <==> order.len() == 0,
        forall|at: int|
            0 <= at < order.len() ==> (#[trigger] order[at]) < 16 && cells[order[at] as int] == 0,
{
    lemma_empty_cells(cells);
    order.to_multiset_ensures();
    empty_cells(cells).to_multiset_ensures();
    assert forall|at: int| 0 <= at < order.len() implies (#[trigger] order[at]) < 16
        && cells[order[at] as int] == 0 by {
        let listed = empty_cells(cells);
        assert(order.contains(order[at]));
        assert(order.to_multiset().count(order[at]) > 0);
        assert(listed.contains(order[at]));
        let found = choose|found: int| 0 <= found < listed.len() && listed[found] == order[at];
        lemma_empty_cells_below(cells, 16);
        assert(listed[found] < 16);
    }
}

/// Calls `shuffle` of `rand::seq::SliceRandom` on the items. The shuffle
/// exchanges items and does nothing else, so afterwards the vector holds the
/// same items as before, each as often as before.
#[verifier::external_body]
fn shuffle_cells(rng: &mut StdRng, cells: &mut Vec<usize>)
    ensures
        final(cells)@.to_multiset() == old(cells)@.to_multiset(),
{
    rand::seq::SliceRandom::shuffle(cells.as_mut_slice(), rng);
}

/// Calls `random_ratio` of `rand::Rng`, which is true with a chance of
/// `numerator` in `denominator`: always where the two are equal, never where
/// `numerator` is zero. It panics on a zero denominator and on a numerator
/// above the denominator.
#[verifier::external_body]
fn random_ratio(rng: &mut StdRng, numerator: u32, denominator: u32) -> (hit: bool)
    requires
        denominator > 0,
        numerator <= denominator,
    ensures
        numerator == denominator ==> hit,
        numerator == 0 ==> !hit,
{
    rand::Rng::random_ratio(rng, numerator, denominator)
}

impl Grid {
    /// The indices of the empty cells, in increasing order.
    pub fn empty_cells(&self) -> (found: Vec<usize>)
        ensures
            found@ == empty_cells(self@),
    {
        let mut found: Vec<usize> = Vec::new();
        let mut cell: usize = 0;
        while cell < 16
            invariant
                cell <= 16,
                found@ == empty_cells_below(self@, cell as int),
            decreases 16 - cell,
        {
            if self.get(cell) == 0 {
                found.push(cell);
            }
            cell += 1;
        }
        found
    }

    /// Puts a new tile on the board, given the random draws: `order` holds
    /// the empty cells in the order drawn, of which the first takes the tile,
    /// and `two` says whether the tile is a 2 or a 4. Fails on a full board.
    pub fn place_tile(&self, order: &Vec<usize>, two: bool) -> (placed: Result<
        (Grid, usize),
        SpawnError,
    >)
        requires
            orders_empty_cells(order@, self@),
        ensures
            is_full(self@) ==> placed == Err::<(Grid, usize), SpawnError>(SpawnError::NoEmptyCell),
            !is_full(self@) ==> (placed matches Ok((grid, cell)) && cell == order@[0] && spawns(
                self@,
                grid@,
                cell,
                spawn_value(two),
            )),
    {
        proof {
            self.lemma_len();
            lemma_order(order@, self@);
        }
        if order.len() == 0 {
            return Err(SpawnError::NoEmptyCell);
        }
        let cell = order[0];
        let mut grid = *self;
        grid.set(cell, if two { 2 } else { 4 });
        Ok((grid, cell))
    }

    /// Spawns a tile: picks one of the empty cells at random, each with the
    /// same chance, and puts a 2 there with a chance of nine in ten, else a 4.
    /// Returns the new board and the cell picked. Fails on a full board, and
    /// only there.
    pub fn spawn_tile(&self, rng: &mut StdRng) -> (spawned: Result<(Grid, usize), SpawnError>)
        ensures
            is_full(self@) ==> spawned == Err::<(Grid, usize), SpawnError>(
                SpawnError::NoEmptyCell,
            ),
            !is_full(self@) ==> (spawned matches Ok((grid, cell)) && (spawns(self@, grid@, cell, 2)
                || spawns(self@, grid@, cell, 4))),
    {
        let mut order = self.empty_cells();
        if order.len() == 0 {
            proof {
                self.lemma_len();
                lemma_empty_cells(self@);
            }
            return Err(SpawnError::NoEmptyCell);
        }
        shuffle_cells(rng, &mut order);
        let two = random_ratio(rng, TWO_ODDS, ODDS_BASE);
        self.place_tile(&order, two)
    }
}

} // verus!
