//! The game session: the tile registry, the turn state machine, the
//! spawner and the game-over detector.

use vstd::prelude::*;
use crate::grid::{Position, MovingDirection, neighbor, scan_pos, scan_index};
use crate::tile::Tile;
use crate::state::{GameState, TurnState};
use crate::score::Score;

verus! {

/// One live tile of the session: the tile itself, the cell it occupies and
/// the two per-turn marker flags.
#[derive(Debug, Clone, Copy, PartialEq, Eq, Structural)]
pub struct TileEntry {
    pub tile: Tile,
    pub pos: Position,
    /// The tile slides one cell in the current direction this pass.
    pub moving: bool,
    /// The tile has already merged this turn and may not merge again.
    pub merged: bool,
}

/// A whole game session.  Tiles live in a registry indexed by a stable id;
/// a despawned tile leaves a `None` behind, so ids never shift.
#[derive(Debug)]
pub struct Game {
    pub tiles: Vec<Option<TileEntry>>,
    pub turn_state: TurnState,
    pub game_state: GameState,
    pub direction: MovingDirection,
    pub score: Score,
}

/// Id `i` names a live tile of the registry.
pub open spec fn live(ts: Seq<Option<TileEntry>>, i: int) -> bool {
    0 <= i < ts.len() && ts[i] is Some
}

/// The entry of live tile `i`.
pub open spec fn ent(ts: Seq<Option<TileEntry>>, i: int) -> TileEntry {
    match ts[i] {
        Some(e) => e,
        None => arbitrary(),
    }
}

/// Some live tile occupies cell `p`.
pub open spec fn occupied_at(ts: Seq<Option<TileEntry>>, p: Position) -> bool {
    exists|i: int| #[trigger] live(ts, i) && ent(ts, i).pos == p
}

/// The id of the live tile at cell `p` (meaningful only where
/// `occupied_at` holds and cells are distinct).
pub open spec fn occupant(ts: Seq<Option<TileEntry>>, p: Position) -> int {
    choose|i: int| #[trigger] live(ts, i) && ent(ts, i).pos == p
}

/// No two live tiles share a cell.
pub open spec fn cells_distinct(ts: Seq<Option<TileEntry>>) -> bool {
    forall|i: int, j: int|
        #[trigger] live(ts, i) && #[trigger] live(ts, j) && i != j
            ==> ent(ts, i).pos != ent(ts, j).pos
}

/// Every live tile sits on the board with a level within the cap.
pub open spec fn tiles_wf(ts: Seq<Option<TileEntry>>) -> bool {
    forall|i: int| #[trigger] live(ts, i)
        ==> ent(ts, i).pos.wf() && ent(ts, i).tile.level <= crate::MAX_LEVEL
}

/// The unique occupant of an occupied cell, pinned down.
pub proof fn lemma_occupant_unique(ts: Seq<Option<TileEntry>>, p: Position, i: int)
    requires
        cells_distinct(ts),
        live(ts, i),
        ent(ts, i).pos == p,
    ensures
        occupied_at(ts, p),
        occupant(ts, p) == i,
{
    assert(occupied_at(ts, p));
    let j = occupant(ts, p);
    assert(live(ts, j) && ent(ts, j).pos == p);
}

/// The level of the tile at cell `p` (meaningful only where `occupied_at`
/// holds and cells are distinct).
pub open spec fn level_at(ts: Seq<Option<TileEntry>>, p: Position) -> u32 {
    ent(ts, occupant(ts, p)).tile.level
}

/// Every one of the 16 cells holds a tile.
pub open spec fn board_full(ts: Seq<Option<TileEntry>>) -> bool {
    forall|p: Position| p.wf() ==> occupied_at(ts, p)
}

/// Cell `p` holds a tile whose upper or right neighbor holds a tile of the
/// same level, so the two could still merge.
pub open spec fn pair_at(ts: Seq<Option<TileEntry>>, p: Position) -> bool {
    &&& p.wf()
    &&& occupied_at(ts, p)
    &&& {
        ||| {
            let up = Position { row: (p.row + 1) as usize, col: p.col };
            p.row < 3 && occupied_at(ts, up) && level_at(ts, up) == level_at(ts, p)
        }
        ||| {
            let right = Position { row: p.row, col: (p.col + 1) as usize };
            p.col < 3 && occupied_at(ts, right) && level_at(ts, right) == level_at(ts, p)
        }
    }
}

/// Somewhere two adjacent tiles share a level.  Checking upper and right
/// neighbors alone covers every adjacent pair once.
pub open spec fn movable_pair_exists(ts: Seq<Option<TileEntry>>) -> bool {
    exists|p: Position| #[trigger] pair_at(ts, p)
}

/// The board is lost: full, with no two adjacent tiles of one level.
pub open spec fn game_over(ts: Seq<Option<TileEntry>>) -> bool {
    board_full(ts) && !movable_pair_exists(ts)
}

/// No tile carries the moving flag.
pub open spec fn no_moving(ts: Seq<Option<TileEntry>>) -> bool {
    forall|i: int| #[trigger] live(ts, i) ==> !ent(ts, i).moving
}

/// Moving tile `i` fits the board: it has a neighbor cell toward `d`, and
/// that cell is free, or its occupant moves as well, or holds a tile of
/// the same level with which neither has merged this turn.
pub open spec fn mover_ok(ts: Seq<Option<TileEntry>>, d: MovingDirection, i: int) -> bool {
    match neighbor(d, ent(ts, i).pos) {
        None => false,
        Some(n) => {
            ||| !occupied_at(ts, n)
            ||| ent(ts, occupant(ts, n)).moving
            ||| (ent(ts, occupant(ts, n)).tile.level == ent(ts, i).tile.level
                && !ent(ts, occupant(ts, n)).merged && !ent(ts, i).merged)
        },
    }
}

/// Every flagged tile fits the board as `mover_ok` asks.
pub open spec fn movers_ok(ts: Seq<Option<TileEntry>>, d: MovingDirection) -> bool {
    forall|i: int| #[trigger] live(ts, i) && ent(ts, i).moving ==> mover_ok(ts, d, i)
}

/// Between committing positions and merging, a cell may hold two tiles,
/// but only an equal pair of which neither has merged this turn — and
/// never three.
pub open spec fn overlaps_ok(ts: Seq<Option<TileEntry>>) -> bool {
    &&& forall|i: int, j: int|
        #[trigger] live(ts, i) && #[trigger] live(ts, j) && i != j
            && ent(ts, i).pos == ent(ts, j).pos
            ==> ent(ts, i).tile.level == ent(ts, j).tile.level
                && !ent(ts, i).merged && !ent(ts, j).merged
    &&& forall|i: int, j: int, k: int|
        #[trigger] live(ts, i) && #[trigger] live(ts, j) && #[trigger] live(ts, k)
            && i != j && j != k && i != k
            ==> !(ent(ts, i).pos == ent(ts, j).pos && ent(ts, j).pos == ent(ts, k).pos)
}

/// The id of the tile at cell `pos`, by a scan of the registry.
pub(crate) fn find_tile(tiles: &Vec<Option<TileEntry>>, pos: Position) -> (r: Option<usize>)
    ensures
        match r {
            Some(i) => live(tiles@, i as int) && ent(tiles@, i as int).pos == pos,
            None => !occupied_at(tiles@, pos),
        },
{
    let n = tiles.len();
    let mut k: usize = 0;
    while k < n
        invariant
            k <= n,
            n == tiles@.len(),
            forall|j: int| 0 <= j < k ==> !(#[trigger] live(tiles@, j) && ent(tiles@, j).pos == pos),
        decreases n - k,
    {
        match tiles[k] {
            Some(e) => {
                if e.pos.row == pos.row && e.pos.col == pos.col {
                    return Some(k);
                }
            },
            None => {},
        }
        k = k + 1;
    }
    None
}

impl Game {
    /// The state every public step keeps.  Tiles always sit on the board
    /// within the level cap.  Outside the two mid-turn phases no two tiles
    /// share a cell; while tiles are animating, their moving flags fit the
    /// board; between committing positions and merging, cells may hold
    /// equal unmerged pairs but never more.
    pub open spec fn inv(self) -> bool {
        &&& tiles_wf(self.tiles@)
        &&& match self.turn_state {
            TurnState::Animating => cells_distinct(self.tiles@)
                && movers_ok(self.tiles@, self.direction),
            TurnState::Merging => overlaps_ok(self.tiles@) && no_moving(self.tiles@),
            _ => cells_distinct(self.tiles@),
        }
    }

    /// A fresh session: empty board, zero score, idle and in play.
    pub fn new() -> (r: Game)
        ensures
            r.inv(),
            r.tiles@.len() == 0,
            r.turn_state == TurnState::Idle,
            r.game_state == GameState::Play,
            r.score.0 == 0,
    {
        Game {
            tiles: Vec::new(),
            turn_state: TurnState::Idle,
            game_state: GameState::Play,
            direction: MovingDirection::Left,
            score: Score(0),
        }
    }

    /// A directional key press.  While the game is in play and the machine
    /// is idle it fixes the direction for the turn and starts the first
    /// movable check; at any other moment it is ignored.
    pub fn moving_input(&mut self, dir: MovingDirection)
        requires
            old(self).inv(),
        ensures
            final(self).inv(),
            final(self).tiles@ == old(self).tiles@,
            final(self).game_state == old(self).game_state,
            final(self).score == old(self).score,
            if old(self).game_state == GameState::Play && old(self).turn_state == TurnState::Idle {
                final(self).direction == dir
                    && final(self).turn_state == (TurnState::CheckMovable { starting: true })
            } else {
                final(self).direction == old(self).direction
                    && final(self).turn_state == old(self).turn_state
            },
    {
        if self.game_state == GameState::Play && self.turn_state == TurnState::Idle {
            self.direction = dir;
            self.turn_state = TurnState::CheckMovable { starting: true };
        }
    }

    /// The restart trigger (key or button): asks for a fresh game.
    pub fn request_restart(&mut self)
        requires
            old(self).inv(),
        ensures
            final(self).inv(),
            final(self).tiles@ == old(self).tiles@,
            final(self).turn_state == old(self).turn_state,
            final(self).direction == old(self).direction,
            final(self).score == old(self).score,
            final(self).game_state == GameState::Restarting,
    {
        self.game_state = GameState::Restarting;
    }

    /// Carries out a requested restart: despawns every tile, resets the
    /// score and returns to play.  Returns how many tiles to spawn for the
    /// new game (zero when no restart was requested).
    pub fn new_game(&mut self) -> (spawn: usize)
        requires
            old(self).inv(),
        ensures
            final(self).inv(),
            final(self).direction == old(self).direction,
            if old(self).game_state == GameState::Restarting {
                final(self).tiles@.len() == 0
                    && final(self).score.0 == 0
                    && final(self).game_state == GameState::Play
                    && final(self).turn_state == TurnState::Idle
                    && spawn == crate::STARTING_TILES
            } else {
                final(self).tiles@ == old(self).tiles@
                    && final(self).score == old(self).score
                    && final(self).game_state == old(self).game_state
                    && final(self).turn_state == old(self).turn_state
                    && spawn == 0
            },
    {
        if self.game_state == GameState::Restarting {
            self.tiles = Vec::new();
            self.score = Score(0);
            self.game_state = GameState::Play;
            self.turn_state = TurnState::Idle;
            crate::STARTING_TILES
        } else {
            0
        }
    }

    /// Winds a turn down: clears every merged flag, goes back to idle, and
    /// returns how many tiles to spawn — exactly one when the turn moved
    /// something, none otherwise.
    pub fn finish_moving(&mut self) -> (spawn: usize)
        requires
            old(self).inv(),
            old(self).turn_state matches TurnState::Finishing { .. },
        ensures
            final(self).inv(),
            final(self).turn_state == TurnState::Idle,
            final(self).game_state == old(self).game_state,
            final(self).direction == old(self).direction,
            final(self).score == old(self).score,
            final(self).tiles@.len() == old(self).tiles@.len(),
            forall|i: int| live(final(self).tiles@, i) <==> live(old(self).tiles@, i),
            forall|i: int| #[trigger] live(final(self).tiles@, i)
                ==> ent(final(self).tiles@, i) == (TileEntry {
                    merged: false,
                    ..ent(old(self).tiles@, i)
                }),
            spawn == if old(self).turn_state == (TurnState::Finishing { moved: true }) {
                1int
            } else {
                0int
            },
    {
        let n = self.tiles.len();
        let mut k: usize = 0;
        while k < n
            invariant
                k <= n,
                n == self.tiles@.len(),
                self.turn_state == old(self).turn_state,
                self.game_state == old(self).game_state,
                self.direction == old(self).direction,
                self.score == old(self).score,
                forall|i: int| live(self.tiles@, i) <==> live(old(self).tiles@, i),
                forall|i: int| #[trigger] live(old(self).tiles@, i) && i < k
                    ==> ent(self.tiles@, i) == (TileEntry {
                        merged: false,
                        ..ent(old(self).tiles@, i)
                    }),
                forall|i: int| #[trigger] live(old(self).tiles@, i) && k <= i
                    ==> ent(self.tiles@, i) == ent(old(self).tiles@, i),
            decreases n - k,
        {
            match self.tiles[k] {
                Some(e) => {
                    self.tiles[k] = Some(TileEntry { merged: false, ..e });
                },
                None => {},
            }
            k = k + 1;
        }
        proof {
            assert forall|i: int| #[trigger] live(self.tiles@, i)
                implies ent(self.tiles@, i) == (TileEntry {
                    merged: false,
                    ..ent(old(self).tiles@, i)
                }) by {
                assert(live(old(self).tiles@, i));
            }
        }
        let moved = self.turn_state == (TurnState::Finishing { moved: true });
        self.turn_state = TurnState::Idle;
        if moved { 1 } else { 0 }
    }

    /// The game-over detector.  It runs between turns: when the game is in
    /// play, the machine idle and the board full, it looks for an adjacent
    /// equal-level pair; finding none, it ends the game.  Nothing else
    /// changes, and a board with any such pair never ends the game.
    pub fn check_moveable(&mut self)
        requires
            old(self).inv(),
        ensures
            final(self).inv(),
            final(self).tiles@ == old(self).tiles@,
            final(self).turn_state == old(self).turn_state,
            final(self).direction == old(self).direction,
            final(self).score == old(self).score,
            final(self).game_state == if old(self).game_state == GameState::Play
                && old(self).turn_state == TurnState::Idle
                && game_over(old(self).tiles@) {
                GameState::GameOver
            } else {
                old(self).game_state
            },
    {
        if !(self.game_state == GameState::Play && self.turn_state == TurnState::Idle) {
            return;
        }
        let ghost ts = self.tiles@;

        // First pass: is the board full?
        let mut full = true;
        let mut k: usize = 0;
        while k < 16
            invariant
                k <= 16,
                ts == self.tiles@,
                cells_distinct(ts),
                tiles_wf(ts),
                full <==> forall|j: int| 0 <= j < k ==> occupied_at(ts, #[trigger] scan_pos(MovingDirection::Left, j)),
            decreases 16 - k,
        {
            let p = Position { row: k / 4, col: k % 4 };
            proof {
                crate::grid::lemma_scan_pos_of_index(MovingDirection::Left, k as int);
                assert(p == scan_pos(MovingDirection::Left, k as int));
            }
            if find_tile(&self.tiles, p).is_none() {
                full = false;
            }
            k = k + 1;
        }
        proof {
            if full {
                assert forall|p: Position| p.wf() implies occupied_at(ts, p) by {
                    crate::grid::lemma_scan_index_of_pos(MovingDirection::Left, p);
                    let j = scan_index(MovingDirection::Left, p);
                    assert(occupied_at(ts, scan_pos(MovingDirection::Left, j)));
                }
            } else {
                let j = choose|j: int| 0 <= j < 16
                    && !occupied_at(ts, #[trigger] scan_pos(MovingDirection::Left, j));
                crate::grid::lemma_scan_pos_of_index(MovingDirection::Left, j);
                assert(!board_full(ts));
            }
        }
        if !full {
            return;
        }

        // Second pass: any adjacent equal-level pair?
        let mut found = false;
        let mut k: usize = 0;
        while k < 16
            invariant
                k <= 16,
                ts == self.tiles@,
                cells_distinct(ts),
                tiles_wf(ts),
                board_full(ts),
                found <==> exists|j: int| 0 <= j < k && pair_at(ts, #[trigger] scan_pos(MovingDirection::Left, j)),
            decreases 16 - k,
        {
            let p = Position { row: k / 4, col: k % 4 };
            proof {
                crate::grid::lemma_scan_pos_of_index(MovingDirection::Left, k as int);
                assert(p == scan_pos(MovingDirection::Left, k as int));
            }
            proof {
                assert(occupied_at(ts, p));
            }
            let i = find_tile(&self.tiles, p).unwrap();
            proof {
                lemma_occupant_unique(ts, p, i as int);
            }
            let here = self.tiles[i].unwrap();
            let mut pair_here = false;
            if p.row < 3 {
                let up = Position { row: p.row + 1, col: p.col };
                proof {
                    assert(up.wf());
                    assert(occupied_at(ts, up));
                }
                let j = find_tile(&self.tiles, up).unwrap();
                proof {
                    lemma_occupant_unique(ts, up, j as int);
                }
                if self.tiles[j].unwrap().tile.level == here.tile.level {
                    pair_here = true;
                }
            }
            if p.col < 3 {
                let right = Position { row: p.row, col: p.col + 1 };
                proof {
                    assert(right.wf());
                    assert(occupied_at(ts, right));
                }
                let j = find_tile(&self.tiles, right).unwrap();
                proof {
                    lemma_occupant_unique(ts, right, j as int);
                }
                if self.tiles[j].unwrap().tile.level == here.tile.level {
                    pair_here = true;
                }
            }
            proof {
                assert(pair_here <==> pair_at(ts, scan_pos(MovingDirection::Left, k as int)));
            }
            if pair_here {
                found = true;
            }
            k = k + 1;
        }
        proof {
            if found {
                let j = choose|j: int| 0 <= j < 16 && pair_at(ts, #[trigger] scan_pos(MovingDirection::Left, j));
                assert(movable_pair_exists(ts));
            } else {
                if movable_pair_exists(ts) {
                    let p = choose|p: Position| #[trigger] pair_at(ts, p);
                    crate::grid::lemma_scan_index_of_pos(MovingDirection::Left, p);
                    let j = scan_index(MovingDirection::Left, p);
                    assert(pair_at(ts, scan_pos(MovingDirection::Left, j)));
                    assert(false);
                }
            }
        }
        if !found {
            self.game_state = GameState::GameOver;
        }
    }
}

} // verus!
