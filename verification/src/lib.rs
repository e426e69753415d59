//! Core of a 2048-style sliding-tile game on a fixed 4 x 4 board.
//!
//! The library holds the whole rules engine: the grid and direction model,
//! the turn state machine that resolves slides and merges after a key press,
//! the tile spawner, the game-over detector and the score bookkeeping.
//! Rendering, input decoding, animation timing and the high-score file are
//! left to the host program, which drives this state machine tick by tick.

use vstd::prelude::*;

mod grid;
mod tile;
mod state;
mod score;
mod game;
mod resolve;
mod spawn;

pub use grid::{Position, MovingDirection, neighbor, at_target_edge, dist_to_edge, line_of, scan_pos,
    scan_index, lemma_scan_index_of_pos, lemma_scan_pos_of_index, lemma_scan_order_bijective,
    lemma_neighbor_edge_and_order};
pub use tile::{Tile, level_color};
pub use state::{GameState, TurnState};
pub use score::{Score, HighScore, update_highscore};
pub use game::{TileEntry, Game, live, ent, occupied_at, occupant, cells_distinct, tiles_wf,
    lemma_occupant_unique, level_at, board_full, pair_at, movable_pair_exists, game_over,
    no_moving, mover_ok, movers_ok, overlaps_ok};
pub use grid::lemma_neighbor_injective;
pub use resolve::{wants_move, cand_step, cands_upto, cands, lemma_cands_bound,
    lemma_cands_stable, lemma_cands_mono, lemma_cands_at_own_step, committed_pos, stepped,
    sat_add, inc_level, gain_at, gains, lemma_gains_nonneg, lemma_gains_refl,
    merge_entry_ok, merge_death_ok, cycle_rel, lemma_cands_shrink, lemma_cands_ignore_moving,
    turn_entry_ok};
pub use spawn::{occ_upto, occupied_cells, lemma_occ_bounds};

verus! {

/// Number of tiles spawned at game start and on restart.
pub const STARTING_TILES: usize = 2;

/// Newly spawned tiles get a level drawn from `[0, MAX_STARTING_LEVEL)`.
pub const MAX_STARTING_LEVEL: u32 = 2;

/// Largest tile level the engine tracks.  A merge below the cap raises the
/// level by exactly one; at the cap the level stays put.  The cap keeps the
/// score `2^(level + 1)` of every tile, merged ones included, within `u32`,
/// and no play on a 16-cell board comes anywhere near it.
pub const MAX_LEVEL: u32 = 29;

} // verus!
