//! A game: the board, the score, and the moves of the player.
//!
//! A game waits until it is started, is then in play, and is over once a
//! move leaves a board on which nothing can be done. Starting anew puts it in
//! play again. Moves count only while it is in play.

use crate::grid::{blank, is_cell, is_tile, well_formed, Grid};
use crate::line::capped;
use crate::move_lemmas::{lemma_move_keeps_well_formed, lemma_moved_leaves_room};
use crate::moves::{lemma_move_gain_bounds, move_gain, moved_cells, Direction};
use crate::spawn::spawns;
use crate::terminal::terminal;
use rand::rngs::StdRng;
use vstd::arithmetic::power2::is_pow2;
use vstd::pervasive::unreached;
use vstd::prelude::*;

verus! {

/// What a game holds.
pub struct GameState {
    /// The cells of the board, row by row.
    pub grid: Seq<u32>,
    /// Points of the game in play.
    pub score: u32,
    /// The most points ever reached.
    pub best_score: u32,
    /// Whether a game is in play.
    pub started: bool,
    /// Whether the last game has ended and no new one has begun.
    pub game_over: bool,
    /// The cells that took a new tile at the last spawn.
    pub spawn_log: Seq<usize>,
    /// How many tiles were spawned so far, counted in 32 bits.
    pub spawn_count: u32,
}

/// What a move of the player came to.
#[derive(Clone, Copy, Debug, PartialEq, Eq, Structural)]
pub enum MoveOutcome {
    /// No game is in play: nothing was done.
    Ignored,
    /// No tile could move: the board is as it was, and no tile was spawned.
    Blocked,
    /// Tiles moved, and a new tile was spawned.
    Moved {
        /// Points that the merges brought.
        score_delta: u32,
        /// The cell of the new tile.
        spawned: usize,
        /// Whether the best score rose, so that it is due to be saved.
        best_score_changed: bool,
        /// Whether the move ended the game.
        game_over: bool,
    },
}

/// Where a game stands: it waits to be started, is in play, or is over.
#[derive(Clone, Copy, Debug, PartialEq, Eq, Structural)]
pub enum Phase {
    /// No game has been started yet.
    NotStarted,
    /// A game is in play and takes moves.
    Playing,
    /// The last game has ended; it takes no moves until a new one is started.
    GameOver,
}

/// Where the game stands.
pub open spec fn phase_of(state: GameState) -> Phase {
    if state.started {
        Phase::Playing
    } else if state.game_over {
        Phase::GameOver
    } else {
        Phase::NotStarted
    }
}

/// A number reduced to 32 bits.
pub open spec fn wrapped(n: int) -> u32 {
    (n % 0x1_0000_0000) as u32
}

/// The value of a new tile: 2 or 4.
pub open spec fn is_spawn_value(value: u32) -> bool {
    value == 2 || value == 4
}

/// What holds of every game: the board is made of empty cells and tiles, the
/// score is no higher than the best score, a game in play can go on, a game
/// that is over cannot, and the logged cells hold new tiles.
pub open spec fn consistent(state: GameState) -> bool {
    &&& well_formed(state.grid)
    &&& state.score <= state.best_score
    &&& state.started ==> !state.game_over && !terminal(state.grid)
    &&& state.game_over ==> terminal(state.grid)
    &&& forall|i: int|
        0 <= i < state.spawn_log.len() ==> (#[trigger] state.spawn_log[i]) < 16 && is_spawn_value(
            state.grid[state.spawn_log[i] as int],
        )
}

/// A game that has not been started.
pub open spec fn fresh(best_score: u32) -> GameState {
    GameState {
        grid: blank(),
        score: 0,
        best_score,
        started: false,
        game_over: false,
        spawn_log: Seq::empty(),
        spawn_count: 0,
    }
}

/// The game newly started, with its first two tiles.
pub open spec fn opened(
    state: GameState,
    first: usize,
    first_value: u32,
    second: usize,
    second_value: u32,
) -> GameState {
    GameState {
        grid: blank().update(first as int, first_value).update(second as int, second_value),
        score: 0,
        best_score: state.best_score,
        started: true,
        game_over: false,
        spawn_log: seq![first, second],
        spawn_count: wrapped(state.spawn_count + 2),
    }
}

/// The game after a move that changed the board and the spawn that followed
/// it: the points of the merges are added to the score, which stops at the
/// largest `u32`; the best score follows the score; the game is over where
/// nothing can be done on the new board.
pub open spec fn landed(state: GameState, direction: Direction, cell: usize, value: u32)
    -> GameState {
    let grid = moved_cells(state.grid, direction).update(cell as int, value);
    let score = capped(state.score + move_gain(state.grid, direction));
    let over = terminal(grid);
    GameState {
        grid,
        score,
        best_score: if score > state.best_score {
            score
        } else {
            state.best_score
        },
        started: !over,
        game_over: over,
        spawn_log: seq![cell],
        spawn_count: wrapped(state.spawn_count + 1),
    }
}

/// The game after a move that could not change the board: only the log of
/// spawned cells is emptied.
pub open spec fn blocked(state: GameState) -> GameState {
    GameState { spawn_log: Seq::empty(), ..state }
}

/// Whether `after` is the game `before` newly started: the two cells that
/// are logged are two different cells of the board, each holds a new tile,
/// and the rest is as `opened` says.
pub open spec fn starts(before: GameState, after: GameState) -> bool {
    let first = after.spawn_log[0];
    let second = after.spawn_log[1];
    &&& after.spawn_log.len() == 2
    &&& first < 16
    &&& second < 16
    &&& first != second
    &&& is_spawn_value(after.grid[first as int])
    &&& is_spawn_value(after.grid[second as int])
    &&& after == opened(before, first, after.grid[first as int], second, after.grid[second as int])
}

/// Whether a move in `direction` takes the game from `before` to `after`
/// with `outcome`. A game that is not in play ignores the move. A move that
/// cannot change the board is blocked. Any other move goes through: it is
/// followed by the spawn of one tile in a cell that the move left empty.
pub open spec fn plays(
    before: GameState,
    direction: Direction,
    outcome: MoveOutcome,
    after: GameState,
) -> bool {
    let moved = moved_cells(before.grid, direction);
    match outcome {
        MoveOutcome::Ignored => !before.started && after == before,
        MoveOutcome::Blocked => before.started && moved == before.grid && after == blocked(before),
        MoveOutcome::Moved { score_delta, spawned, best_score_changed, game_over } => {
            let value = after.grid[spawned as int];
            &&& before.started
            &&& moved != before.grid
            &&& is_spawn_value(value)
            &&& spawns(moved, after.grid, spawned, value)
            &&& after == landed(before, direction, spawned, value)
            &&& score_delta == capped(move_gain(before.grid, direction))
            &&& best_score_changed == (after.best_score != before.best_score)
            &&& game_over == after.game_over
        },
    }
}

/// The game: its board, its score, and the best score.
pub struct Game {
    score: u32,
    best_score: u32,
    grid: Grid,
    is_started: bool,
    is_game_over: bool,
    spawn_count: u32,
    new_tiles: Vec<usize>,
}

impl View for Game {
    type V = GameState;

    closed spec fn view(&self) -> GameState {
        GameState {
            grid: self.grid@,
            score: self.score,
            best_score: self.best_score,
            started: self.is_started,
            game_over: self.is_game_over,
            spawn_log: self.new_tiles@,
            spawn_count: self.spawn_count,
        }
    }
}

/// 2 and 4 are tiles.
proof fn lemma_spawn_values_are_tiles()
    ensures
        is_tile(2),
        is_tile(4),
{
    reveal_with_fuel(is_pow2, 4);
}

/// A board with a new tile in the place of an empty cell is still made of
/// empty cells and tiles.
proof fn lemma_spawn_keeps_well_formed(cells: Seq<u32>, grid: Seq<u32>, cell: usize, value: u32)
    requires
        well_formed(cells),
        spawns(cells, grid, cell, value),
        is_spawn_value(value),
    ensures
        well_formed(grid),
{
    lemma_spawn_values_are_tiles();
    assert forall|i: int| 0 <= i < 16 implies is_cell(#[trigger] grid[i]) by {
        if i != cell {
            assert(grid[i] == cells[i]);
        }
    }
}

/// A game newly started is as a game has to be, and is in play.
pub proof fn lemma_start_keeps_consistent(before: GameState, after: GameState)
    requires
        starts(before, after),
    ensures
        consistent(after),
        phase_of(after) == Phase::Playing,
        after.best_score == before.best_score,
{
    let first = after.spawn_log[0];
    let second = after.spawn_log[1];
    let one = blank().update(first as int, after.grid[first as int]);
    lemma_spawn_keeps_well_formed(blank(), one, first, after.grid[first as int]);
    lemma_spawn_keeps_well_formed(one, after.grid, second, after.grid[second as int]);
    let other: int = if first != 0 && second != 0 {
        0
    } else if first != 1 && second != 1 {
        1
    } else {
        2
    };
    assert(after.grid[other] == 0);
}

/// A move takes a game that is as it has to be to another one. The score
/// and the best score never fall, a game that is not in play stays where it
/// stands, and a game in play goes on or is over.
pub proof fn lemma_play_keeps_consistent(
    before: GameState,
    direction: Direction,
    outcome: MoveOutcome,
    after: GameState,
)
    requires
        consistent(before),
        plays(before, direction, outcome, after),
    ensures
        consistent(after),
        after.score >= before.score,
        after.best_score >= before.best_score,
        phase_of(before) != Phase::Playing ==> phase_of(after) == phase_of(before),
        phase_of(before) == Phase::Playing ==> phase_of(after) != Phase::NotStarted,
{
    match outcome {
        MoveOutcome::Moved { spawned, .. } => {
            let moved = moved_cells(before.grid, direction);
            lemma_move_keeps_well_formed(before.grid, direction);
            lemma_move_gain_bounds(before.grid, direction);
            lemma_spawn_keeps_well_formed(moved, after.grid, spawned, after.grid[spawned as int]);
        },
        _ => {},
    }
}

impl Game {
    #[verifier::type_invariant]
    spec fn holds(self) -> bool {
        consistent(self@)
    }

    /// A game that waits to be started, with the best score that was saved.
    pub fn new(best_score: u32) -> (game: Game)
        ensures
            game@ == fresh(best_score),
            consistent(game@),
    {
        Game {
            score: 0,
            best_score,
            grid: Grid::new(),
            is_started: false,
            is_game_over: false,
            spawn_count: 0,
            new_tiles: Vec::new(),
        }
    }

    /// The board.
    pub fn grid(&self) -> (grid: Grid)
        ensures
            grid@ == self@.grid,
            well_formed(grid@),
    {
        proof {
            use_type_invariant(self);
        }
        self.grid
    }

    /// Points of the game in play.
    pub fn score(&self) -> (score: u32)
        ensures
            score == self@.score,
            score <= self@.best_score,
    {
        proof {
            use_type_invariant(self);
        }
        self.score
    }

    /// The most points ever reached.
    pub fn best_score(&self) -> (best_score: u32)
        ensures
            best_score == self@.best_score,
    {
        self.best_score
    }

    /// Whether a game is in play.
    pub fn is_started(&self) -> (started: bool)
        ensures
            started == self@.started,
    {
        self.is_started
    }

    /// Whether the last game has ended and no new one has begun.
    pub fn is_game_over(&self) -> (over: bool)
        ensures
            over == self@.game_over,
    {
        self.is_game_over
    }

    /// Where the game stands.
    pub fn phase(&self) -> (phase: Phase)
        ensures
            phase == phase_of(self@),
    {
        if self.is_started {
            Phase::Playing
        } else if self.is_game_over {
            Phase::GameOver
        } else {
            Phase::NotStarted
        }
    }

    /// How many tiles were spawned so far, counted in 32 bits.
    pub fn spawn_count(&self) -> (count: u32)
        ensures
            count == self@.spawn_count,
    {
        self.spawn_count
    }

    /// The cells that took a new tile at the last spawn.
    pub fn spawn_log(&self) -> (log: &Vec<usize>)
        ensures
            log@ == self@.spawn_log,
    {
        &self.new_tiles
    }

    /// Whether cell `cell` took a new tile at the last spawn.
    pub fn is_new_tile(&self, cell: usize) -> (found: bool)
        ensures
            found == self@.spawn_log.contains(cell),
    {
        let mut at: usize = 0;
        while at < self.new_tiles.len()
            invariant
                at <= self.new_tiles@.len(),
                forall|i: int| 0 <= i < at ==> self.new_tiles@[i] != cell,
            decreases self.new_tiles@.len() - at,
        {
            if self.new_tiles[at] == cell {
                return true;
            }
            at += 1;
        }
        false
    }

    /// Starts a game: clears the board and the score and spawns two tiles.
    /// The best score stays.
    pub fn start_new_game(&mut self, rng: &mut StdRng)
        ensures
            starts(old(self)@, final(self)@),
            consistent(final(self)@),
            phase_of(final(self)@) == Phase::Playing,
    {
        let empty = Grid::new();
        proof {
            assert(empty@[0] == 0);
        }
        let (one, first) = match empty.spawn_tile(rng) {
            Ok(pair) => pair,
            Err(_) => unreached(),
        };
        proof {
            let other: int = if first == 0 {
                1
            } else {
                0
            };
            assert(one@[other] == 0);
        }
        let (two, second) = match one.spawn_tile(rng) {
            Ok(pair) => pair,
            Err(_) => unreached(),
        };
        let mut log: Vec<usize> = Vec::new();
        log.push(first);
        log.push(second);
        let spawn_count = self.spawn_count.wrapping_add(2);
        proof {
            assert(log@ =~= seq![first, second]);
            lemma_start_keeps_consistent(
                self@,
                opened(self@, first, two@[first as int], second, two@[second as int]),
            );
        }
        *self = Game {
            score: 0,
            best_score: self.best_score,
            grid: two,
            is_started: true,
            is_game_over: false,
            spawn_count,
            new_tiles: log,
        };
    }

    /// Carries out one move of the player. Where no game is in play, nothing
    /// is done. Else the log of spawned cells is emptied and the tiles are
    /// moved; where none could move, that is all. Where tiles moved, the points
    /// of the merges are added to the score, one tile is spawned and logged,
    /// and the game is over if nothing can be done on the new board.
    pub fn apply_player_move(&mut self, direction: Direction, rng: &mut StdRng) -> (outcome:
        MoveOutcome)
        ensures
            plays(old(self)@, direction, outcome, final(self)@),
            consistent(final(self)@),
            final(self)@.score >= old(self)@.score,
            final(self)@.best_score >= old(self)@.best_score,
            phase_of(old(self)@) != Phase::Playing ==> phase_of(final(self)@) == phase_of(
                old(self)@,
            ),
            phase_of(old(self)@) == Phase::Playing ==> phase_of(final(self)@) != Phase::NotStarted,
    {
        proof {
            use_type_invariant(&*self);
        }
        if !self.is_started {
            return MoveOutcome::Ignored;
        }
        let result = self.grid.apply_move(direction);
        if !result.moved {
            *self = Game {
                score: self.score,
                best_score: self.best_score,
                grid: self.grid,
                is_started: self.is_started,
                is_game_over: self.is_game_over,
                spawn_count: self.spawn_count,
                new_tiles: Vec::new(),
            };
            return MoveOutcome::Blocked;
        }
        proof {
            lemma_moved_leaves_room(self.grid@, direction);
            lemma_move_gain_bounds(self.grid@, direction);
        }
        let score_delta = result.score_delta;
        let score = self.score.saturating_add(score_delta);
        let best_score_changed = score > self.best_score;
        let best_score = if best_score_changed {
            score
        } else {
            self.best_score
        };
        let (grid, spawned) = match result.grid.spawn_tile(rng) {
            Ok(pair) => pair,
            Err(_) => unreached(),
        };
        let game_over = grid.is_terminal();
        let mut log: Vec<usize> = Vec::new();
        log.push(spawned);
        let spawn_count = self.spawn_count.wrapping_add(1);
        let outcome = MoveOutcome::Moved { score_delta, spawned, best_score_changed, game_over };
        proof {
            assert(log@ =~= seq![spawned]);
            lemma_play_keeps_consistent(
                self@,
                direction,
                outcome,
                landed(self@, direction, spawned, grid@[spawned as int]),
            );
        }
        *self = Game {
            score,
            best_score,
            grid,
            is_started: !game_over,
            is_game_over: game_over,
            spawn_count,
            new_tiles: log,
        };
        outcome
    }
}

} // verus!
