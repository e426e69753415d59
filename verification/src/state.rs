//! The two global state enums: whether the game accepts play at all, and
//! where within a turn the state machine stands.

use vstd::prelude::*;

verus! {

/// Whether the game is running, lost, or being reset.
#[derive(Debug, Clone, Copy, PartialEq, Eq, Structural)]
pub enum GameState {
    Play,
    GameOver,
    Restarting,
}

impl Default for GameState {
    /// A fresh game is in play.
    fn default() -> (r: Self)
        ensures
            r == GameState::Play,
    {
        GameState::Play
    }
}

/// Where within one turn the state machine stands.  A turn runs
/// `Idle -> CheckMovable -> (Animating -> Merging -> CheckMovable)* ->
/// Finishing -> Idle`; re-entering `CheckMovable` after each merge step lets
/// slides and merges cascade within a single key press.
#[derive(Debug, Clone, Copy, PartialEq, Eq, Structural)]
pub enum TurnState {
    /// Waiting for directional input.
    Idle,
    /// Looking for tiles that can slide or merge one step.  `starting` is
    /// true only for the first check of a turn, whose finding nothing must
    /// not spawn a tile.
    CheckMovable { starting: bool },
    /// The host animates the flagged tiles; their positions commit when it
    /// reports the animation done.
    Animating,
    /// Tiles that landed on the same cell merge.
    Merging,
    /// The turn winds down; `moved` tells whether any tile moved, and so
    /// whether a new tile spawns.
    Finishing { moved: bool },
}

impl Default for TurnState {
    /// The machine starts idle.
    fn default() -> (r: Self)
        ensures
            r == TurnState::Idle,
    {
        TurnState::Idle
    }
}

} // verus!
