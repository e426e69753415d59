//! The tile spawner: places freshly drawn tiles on free cells.
//!
//! The randomness comes in from the host as plain numbers, one pair per
//! tile — which free cell, and which starting level.  The spawner is thus
//! checked for every draw the host could hand it: whatever the numbers,
//! tiles land only on distinct, previously free cells.

use vstd::prelude::*;
use crate::grid::{Position, MovingDirection, scan_pos, scan_index, lemma_scan_pos_of_index,
    lemma_scan_index_of_pos};
use crate::tile::Tile;
use crate::state::TurnState;
use crate::game::{TileEntry, Game, live, ent, occupied_at, cells_distinct, tiles_wf};

verus! {

/// How many of the first `k` cells (in row-major order) hold a tile.
pub open spec fn occ_upto(ts: Seq<Option<TileEntry>>, k: int) -> int
    decreases k,
{
    if k <= 0 {
        0
    } else {
        occ_upto(ts, k - 1) + if occupied_at(ts, scan_pos(MovingDirection::Left, k - 1)) {
            1int
        } else {
            0int
        }
    }
}

/// How many of the 16 cells hold a tile.
pub open spec fn occupied_cells(ts: Seq<Option<TileEntry>>) -> int {
    occ_upto(ts, 16)
}

/// Cell counts stay within the prefix length.
pub proof fn lemma_occ_bounds(ts: Seq<Option<TileEntry>>, k: int)
    ensures
        0 <= occ_upto(ts, k),
        k >= 0 ==> occ_upto(ts, k) <= k,
    decreases k,
{
    if k > 0 {
        lemma_occ_bounds(ts, k - 1);
    }
}

/// Appending a tile on a free cell raises the count of the prefixes that
/// cover its cell by one and leaves the others alone.
proof fn lemma_occ_push(ts: Seq<Option<TileEntry>>, e: TileEntry, k: int)
    requires
        e.pos.wf(),
        !occupied_at(ts, e.pos),
        0 <= k <= 16,
    ensures
        occ_upto(ts.push(Some(e)), k) == occ_upto(ts, k)
            + if scan_index(MovingDirection::Left, e.pos) < k { 1int } else { 0int },
    decreases k,
{
    let ts2 = ts.push(Some(e));
    lemma_scan_index_of_pos(MovingDirection::Left, e.pos);
    if k > 0 {
        lemma_occ_push(ts, e, k - 1);
        let p = scan_pos(MovingDirection::Left, k - 1);
        lemma_scan_pos_of_index(MovingDirection::Left, k - 1);
        assert(live(ts2, ts.len() as int) && ent(ts2, ts.len() as int) == e);
        if p == e.pos {
            assert(occupied_at(ts2, p));
            assert(scan_index(MovingDirection::Left, e.pos) == k - 1);
        } else {
            assert(occupied_at(ts2, p) <==> occupied_at(ts, p)) by {
                if occupied_at(ts2, p) {
                    let w = choose|w: int| #[trigger] live(ts2, w) && ent(ts2, w).pos == p;
                    if w < ts.len() {
                        assert(live(ts, w) && ent(ts, w).pos == p);
                    } else {
                        assert(ent(ts2, w) == e);
                        assert(false);
                    }
                }
                if occupied_at(ts, p) {
                    let w = choose|w: int| #[trigger] live(ts, w) && ent(ts, w).pos == p;
                    assert(live(ts2, w) && ent(ts2, w).pos == p);
                }
            }
            assert(scan_index(MovingDirection::Left, e.pos) != k - 1);
        }
    }
}

impl Game {
    /// Spawns `count` tiles, one per pick.  Each pick names, by plain
    /// numbers of the host's choosing, one of the still-free cells and a
    /// starting level below `MAX_STARTING_LEVEL`.  Tiles land only on
    /// distinct, previously free cells, with both flags clear; afterwards
    /// exactly `count` more cells are occupied.  Asking for more tiles
    /// than there are free cells is the caller's error and is ruled out.
    pub fn spawn_tiles(&mut self, count: usize, picks: &Vec<(u64, u64)>)
        requires
            old(self).inv(),
            old(self).turn_state == TurnState::Idle,
            picks@.len() == count,
            count + occupied_cells(old(self).tiles@) <= 16,
        ensures
            final(self).inv(),
            final(self).turn_state == TurnState::Idle,
            final(self).game_state == old(self).game_state,
            final(self).direction == old(self).direction,
            final(self).score == old(self).score,
            final(self).tiles@.len() == old(self).tiles@.len() + count,
            forall|i: int| 0 <= i < old(self).tiles@.len()
                ==> final(self).tiles@[i] == old(self).tiles@[i],
            forall|i: int| old(self).tiles@.len() <= i < final(self).tiles@.len()
                ==> #[trigger] live(final(self).tiles@, i)
                    && ent(final(self).tiles@, i).pos.wf()
                    && !occupied_at(old(self).tiles@, ent(final(self).tiles@, i).pos)
                    && ent(final(self).tiles@, i).tile.level < crate::MAX_STARTING_LEVEL
                    && !ent(final(self).tiles@, i).moving
                    && !ent(final(self).tiles@, i).merged,
            occupied_cells(final(self).tiles@)
                == occupied_cells(old(self).tiles@) + count,
    {
        let ghost ts_start = self.tiles@;

        // Gather the free cells.
        let mut empties: Vec<Position> = Vec::new();
        let mut k: usize = 0;
        while k < 16
            invariant
                k <= 16,
                self.tiles@ == ts_start,
                empties@.len() == k - occ_upto(ts_start, k as int),
                forall|j: int| 0 <= j < empties@.len()
                    ==> (#[trigger] empties@[j]).wf()
                        && !occupied_at(ts_start, empties@[j]),
                forall|j1: int, j2: int|
                    0 <= j1 < empties@.len() && 0 <= j2 < empties@.len() && j1 != j2
                        ==> empties@[j1] != empties@[j2],
                forall|j: int| 0 <= j < empties@.len()
                    ==> scan_index(MovingDirection::Left, #[trigger] empties@[j]) < k,
            decreases 16 - k,
        {
            let p = Position { row: k / 4, col: k % 4 };
            proof {
                lemma_scan_pos_of_index(MovingDirection::Left, k as int);
                assert(p == scan_pos(MovingDirection::Left, k as int));
                lemma_occ_bounds(ts_start, k as int);
            }
            if find_empty_probe(&self.tiles, p) {
                proof {
                    assert forall|j1: int, j2: int|
                        0 <= j1 < empties@.len() + 1 && 0 <= j2 < empties@.len() + 1 && j1 != j2
                        implies empties@.push(p)[j1] != empties@.push(p)[j2] by {
                        if j1 < empties@.len() && j2 < empties@.len() {
                        } else if j1 < empties@.len() {
                            assert(scan_index(MovingDirection::Left, empties@[j1]) < k);
                        } else {
                            assert(scan_index(MovingDirection::Left, empties@[j2]) < k);
                        }
                    }
                }
                empties.push(p);
            }
            k = k + 1;
        }
        proof {
            lemma_occ_bounds(ts_start, 16);
            assert(empties@.len() == 16 - occupied_cells(ts_start));
        }

        // Place the tiles.
        let mut t: usize = 0;
        while t < count
            invariant
                t <= count,
                picks@.len() == count,
                count + occupied_cells(ts_start) <= 16,
                self.turn_state == old(self).turn_state,
                self.game_state == old(self).game_state,
                self.direction == old(self).direction,
                self.score == old(self).score,
                old(self).turn_state == TurnState::Idle,
                self.tiles@.len() == ts_start.len() + t,
                cells_distinct(self.tiles@),
                tiles_wf(self.tiles@),
                forall|i: int| 0 <= i < ts_start.len() ==> self.tiles@[i] == ts_start[i],
                forall|i: int| ts_start.len() <= i < self.tiles@.len()
                    ==> #[trigger] live(self.tiles@, i)
                        && ent(self.tiles@, i).pos.wf()
                        && !occupied_at(ts_start, ent(self.tiles@, i).pos)
                        && ent(self.tiles@, i).tile.level < crate::MAX_STARTING_LEVEL
                        && !ent(self.tiles@, i).moving
                        && !ent(self.tiles@, i).merged,
                occupied_cells(self.tiles@) == occupied_cells(ts_start) + t,
                empties@.len() == 16 - occupied_cells(self.tiles@),
                forall|j: int| 0 <= j < empties@.len()
                    ==> (#[trigger] empties@[j]).wf()
                        && !occupied_at(self.tiles@, empties@[j]),
                forall|j1: int, j2: int|
                    0 <= j1 < empties@.len() && 0 <= j2 < empties@.len() && j1 != j2
                        ==> empties@[j1] != empties@[j2],
            decreases count - t,
        {
            let ghost ts_cur = self.tiles@;
            let ghost empties0 = empties@;
            proof {
                lemma_occ_bounds(ts_cur, 16);
            }
            let len_e = empties.len();
            assert(len_e > 0);
            let pick = picks[t];
            let ei = (pick.0 % (len_e as u64)) as usize;
            let p = empties.swap_remove(ei);
            let level = (pick.1 % (crate::MAX_STARTING_LEVEL as u64)) as u32;
            let e = TileEntry {
                tile: Tile { level },
                pos: p,
                moving: false,
                merged: false,
            };
            self.tiles.push(Some(e));
            proof {
                assert(!occupied_at(ts_cur, p));
                assert(!occupied_at(ts_start, p)) by {
                    if occupied_at(ts_start, p) {
                        let w = choose|w: int| #[trigger] live(ts_start, w)
                            && ent(ts_start, w).pos == p;
                        assert(live(ts_cur, w) && ent(ts_cur, w).pos == p);
                        assert(occupied_at(ts_cur, p));
                    }
                }
                lemma_occ_push(ts_cur, e, 16);
                lemma_scan_index_of_pos(MovingDirection::Left, p);
                let ts2 = self.tiles@;
                assert(ts2 == ts_cur.push(Some(e)));
                assert(e.tile.level < crate::MAX_STARTING_LEVEL);
                assert forall|i: int| ts_start.len() <= i < ts2.len()
                    implies #[trigger] live(ts2, i)
                        && ent(ts2, i).pos.wf()
                        && !occupied_at(ts_start, ent(ts2, i).pos)
                        && ent(ts2, i).tile.level < crate::MAX_STARTING_LEVEL
                        && !ent(ts2, i).moving
                        && !ent(ts2, i).merged by {
                    if i < ts_cur.len() {
                        assert(live(ts_cur, i));
                        assert(ent(ts2, i) == ent(ts_cur, i));
                    } else {
                        assert(ent(ts2, i) == e);
                    }
                }
                assert forall|i: int| #[trigger] live(ts2, i)
                    implies ent(ts2, i).pos.wf()
                        && ent(ts2, i).tile.level <= crate::MAX_LEVEL by {
                    if i < ts_cur.len() {
                        assert(live(ts_cur, i));
                    } else {
                        assert(ent(ts2, i) == e);
                    }
                }
                // The new tile clashes with no one: its cell was free.
                assert forall|a: int, b: int|
                    #[trigger] live(ts2, a) && #[trigger] live(ts2, b) && a != b
                    implies ent(ts2, a).pos != ent(ts2, b).pos by {
                    if a < ts_cur.len() && b < ts_cur.len() {
                        assert(live(ts_cur, a) && live(ts_cur, b));
                    } else if a < ts_cur.len() {
                        assert(ent(ts2, b) == e);
                        if ent(ts2, a).pos == p {
                            assert(live(ts_cur, a) && ent(ts_cur, a).pos == p);
                            assert(occupied_at(ts_cur, p));
                        }
                    } else if b < ts_cur.len() {
                        assert(ent(ts2, a) == e);
                        if ent(ts2, b).pos == p {
                            assert(live(ts_cur, b) && ent(ts_cur, b).pos == p);
                            assert(occupied_at(ts_cur, p));
                        }
                    }
                }
                // Each remaining entry is an old entry at another index.
                assert forall|j: int| 0 <= j < empties@.len()
                    implies exists|j0: int| 0 <= j0 < empties0.len() && j0 != ei
                        && empties0[j0] == #[trigger] empties@[j] by {
                    if j == ei {
                        assert(empties@[j] == empties0.last());
                        assert(empties0.len() - 1 != ei as int);
                    } else {
                        assert(empties@[j] == empties0[j]);
                    }
                }
                // So they are still pairwise distinct ...
                assert forall|j1: int, j2: int|
                    0 <= j1 < empties@.len() && 0 <= j2 < empties@.len() && j1 != j2
                    implies empties@[j1] != empties@[j2] by {
                    if j1 == ei {
                        assert(empties@[j1] == empties0.last());
                        assert(empties@[j2] == empties0[j2]);
                    } else if j2 == ei {
                        assert(empties@[j2] == empties0.last());
                        assert(empties@[j1] == empties0[j1]);
                    }
                }
                // ... and stay free: each differs from `p` and was free.
                assert forall|j: int| 0 <= j < empties@.len()
                    implies (#[trigger] empties@[j]).wf()
                        && !occupied_at(ts2, empties@[j]) by {
                    let j0 = choose|j0: int| 0 <= j0 < empties0.len() && j0 != ei
                        && empties0[j0] == empties@[j];
                    assert(empties0[j0] != empties0[ei as int]);
                    assert(empties@[j] != p);
                    assert(!occupied_at(ts_cur, empties@[j]));
                    if occupied_at(ts2, empties@[j]) {
                        let w = choose|w: int| #[trigger] live(ts2, w)
                            && ent(ts2, w).pos == empties@[j];
                        if w < ts_cur.len() {
                            assert(live(ts_cur, w) && ent(ts_cur, w).pos == empties@[j]);
                        } else {
                            assert(ent(ts2, w) == e);
                        }
                        assert(false);
                    }
                }
            }
            t = t + 1;
        }
    }
}

/// Whether cell `pos` is free, by a scan of the registry.
fn find_empty_probe(tiles: &Vec<Option<TileEntry>>, pos: Position) -> (r: bool)
    ensures
        r <==> !occupied_at(tiles@, pos),
{
    match crate::game::find_tile(tiles, pos) {
        Some(i) => {
            proof {
                assert(occupied_at(tiles@, pos));
            }
            false
        },
        None => true,
    }
}

} // verus!
