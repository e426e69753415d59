//! The resolve pass of a turn: which tiles slide this pass, how their
//! positions commit, and how tiles landing on one cell merge.
//!
//! One pass walks the cells in the direction's scan order and marks each
//! tile that can move one step: into a free cell, after a tile ahead of it
//! that already moves, or onto an equal tile for a merge.  Because a line's
//! cells are visited nearest-the-edge first, a single pass cascades whole
//! lines; the state machine then re-runs the pass until nothing moves.

use vstd::prelude::*;
use vstd::arithmetic::power2::pow2;
use crate::grid::{Position, MovingDirection, neighbor, scan_pos, scan_index, dist_to_edge,
    line_of, lemma_scan_pos_of_index, lemma_scan_index_of_pos, lemma_neighbor_edge_and_order,
    lemma_neighbor_injective};
use crate::tile::Tile;
use crate::game::{TileEntry, Game, live, ent, occupied_at, occupant, cells_distinct, tiles_wf,
    lemma_occupant_unique, mover_ok, movers_ok, overlaps_ok, no_moving, find_tile};
use crate::state::TurnState;

verus! {

/// Addition on the score, saturating at the top of `u32`.
pub open spec fn sat_add(a: int, b: int) -> int {
    if a + b > u32::MAX {
        u32::MAX as int
    } else {
        a + b
    }
}

/// One level up, held at the cap.
pub open spec fn inc_level(l: u32) -> u32 {
    if l < crate::MAX_LEVEL {
        (l + 1) as u32
    } else {
        l
    }
}

/// What registry slot `i` contributes to the score between two snapshots
/// of one turn: a tile merged in `b` but not yet in `a` is worth its new
/// score `2^(level + 1)`.
pub open spec fn gain_at(a: Seq<Option<TileEntry>>, b: Seq<Option<TileEntry>>, i: int) -> int {
    if live(b, i) && ent(b, i).merged && live(a, i) && !ent(a, i).merged {
        pow2((ent(b, i).tile.level + 1) as nat) as int
    } else {
        0
    }
}

/// The score newly earned on the first `k` registry slots between two
/// snapshots of one turn.
pub open spec fn gains(a: Seq<Option<TileEntry>>, b: Seq<Option<TileEntry>>, k: int) -> int
    decreases k,
{
    if k <= 0 {
        0
    } else {
        gains(a, b, k - 1) + gain_at(a, b, k - 1)
    }
}

/// Nothing earns a negative score.
pub proof fn lemma_gains_nonneg(a: Seq<Option<TileEntry>>, b: Seq<Option<TileEntry>>, k: int)
    ensures
        gains(a, b, k) >= 0,
    decreases k,
{
    if k > 0 {
        lemma_gains_nonneg(a, b, k - 1);
    }
}

/// A snapshot earns nothing against itself.
pub proof fn lemma_gains_refl(a: Seq<Option<TileEntry>>, k: int)
    ensures
        gains(a, a, k) == 0,
    decreases k,
{
    if k > 0 {
        lemma_gains_refl(a, k - 1);
    }
}

/// Changing what one slot contributes changes the total by just that.
proof fn lemma_gains_one_change(
    a: Seq<Option<TileEntry>>,
    b1: Seq<Option<TileEntry>>,
    b2: Seq<Option<TileEntry>>,
    k: int,
    f: int,
)
    requires
        forall|i: int| 0 <= i < k && i != f ==> gain_at(a, b1, i) == gain_at(a, b2, i),
    ensures
        0 <= f < k ==> gains(a, b2, k) == gains(a, b1, k) + gain_at(a, b2, f) - gain_at(a, b1, f),
        !(0 <= f < k) ==> gains(a, b2, k) == gains(a, b1, k),
    decreases k,
{
    if k > 0 {
        lemma_gains_one_change(a, b1, b2, k - 1, f);
    }
}

/// Saturating additions chain: adding two earnings one after the other is
/// adding their sum.
proof fn lemma_sat_add_chain(s: int, g1: int, g2: int)
    requires
        0 <= s <= u32::MAX,
        g1 >= 0,
        g2 >= 0,
    ensures
        sat_add(sat_add(s, g1), g2) == sat_add(s, g1 + g2),
{
}

/// Whether tile `i` may slide one step toward `d`, judged against `acc`,
/// the movers already found earlier in the scan: its neighbor cell must
/// exist and be free, or be about to be vacated by an earlier mover, or
/// hold a tile of the same level with which neither has merged this turn.
pub open spec fn wants_move(
    ts: Seq<Option<TileEntry>>,
    d: MovingDirection,
    i: int,
    acc: Set<int>,
) -> bool {
    match neighbor(d, ent(ts, i).pos) {
        None => false,
        Some(n) => {
            ||| !occupied_at(ts, n)
            ||| acc.contains(occupant(ts, n))
            ||| (ent(ts, occupant(ts, n)).tile.level == ent(ts, i).tile.level
                && !ent(ts, occupant(ts, n)).merged && !ent(ts, i).merged)
        },
    }
}

/// One step of the scan: the tile on the `k`-th cell of the scan order
/// joins the movers when the rule above lets it.
pub open spec fn cand_step(
    ts: Seq<Option<TileEntry>>,
    d: MovingDirection,
    acc: Set<int>,
    k: int,
) -> Set<int> {
    let p = scan_pos(d, k);
    if occupied_at(ts, p) && wants_move(ts, d, occupant(ts, p), acc) {
        acc.insert(occupant(ts, p))
    } else {
        acc
    }
}

/// The movers found by the first `k` steps of the scan.
pub open spec fn cands_upto(
    ts: Seq<Option<TileEntry>>,
    d: MovingDirection,
    k: int,
) -> Set<int>
    decreases k,
{
    if k <= 0 {
        Set::empty()
    } else {
        cand_step(ts, d, cands_upto(ts, d, k - 1), k - 1)
    }
}

/// The movers of one whole resolve pass over the board.
pub open spec fn cands(ts: Seq<Option<TileEntry>>, d: MovingDirection) -> Set<int> {
    cands_upto(ts, d, 16)
}

/// Every mover found so far is a live tile whose cell the scan has already
/// visited.
pub proof fn lemma_cands_bound(ts: Seq<Option<TileEntry>>, d: MovingDirection, k: int)
    requires
        cells_distinct(ts),
        tiles_wf(ts),
        k <= 16,
    ensures
        forall|i: int| #[trigger] cands_upto(ts, d, k).contains(i)
            ==> live(ts, i) && 0 <= scan_index(d, ent(ts, i).pos) < k,
    decreases k,
{
    if k > 0 {
        lemma_cands_bound(ts, d, k - 1);
        let p = scan_pos(d, k - 1);
        if occupied_at(ts, p) {
            let o = occupant(ts, p);
            assert(live(ts, o) && ent(ts, o).pos == p);
            lemma_scan_pos_of_index(d, k - 1);
            assert(scan_index(d, ent(ts, o).pos) == k - 1);
        }
        assert forall|i: int| #[trigger] cands_upto(ts, d, k).contains(i)
            implies live(ts, i) && 0 <= scan_index(d, ent(ts, i).pos) < k by {
            if !cands_upto(ts, d, k - 1).contains(i) {
                assert(i == occupant(ts, scan_pos(d, k - 1)));
            }
        }
    }
}

/// Whether a tile moves is settled at its own scan step: later steps add
/// only tiles on later cells.
pub proof fn lemma_cands_stable(ts: Seq<Option<TileEntry>>, d: MovingDirection, i: int, k: int)
    requires
        cells_distinct(ts),
        tiles_wf(ts),
        live(ts, i),
        scan_index(d, ent(ts, i).pos) < k <= 16,
    ensures
        cands_upto(ts, d, k).contains(i)
            <==> cands_upto(ts, d, scan_index(d, ent(ts, i).pos) + 1).contains(i),
    decreases k,
{
    let idx = scan_index(d, ent(ts, i).pos);
    if k > idx + 1 {
        lemma_cands_stable(ts, d, i, k - 1);
        let p = scan_pos(d, k - 1);
        if occupied_at(ts, p) {
            let o = occupant(ts, p);
            assert(live(ts, o) && ent(ts, o).pos == p);
            lemma_scan_pos_of_index(d, k - 1);
            assert(scan_index(d, ent(ts, o).pos) == k - 1);
            assert(o != i);
        }
    }
}

/// Earlier prefixes of the scan find only a subset of the movers.
pub proof fn lemma_cands_mono(ts: Seq<Option<TileEntry>>, d: MovingDirection, k1: int, k2: int)
    requires
        cells_distinct(ts),
        tiles_wf(ts),
        0 <= k1 <= k2 <= 16,
    ensures
        forall|i: int| #[trigger] cands_upto(ts, d, k1).contains(i)
            ==> cands_upto(ts, d, k2).contains(i),
{
    lemma_cands_bound(ts, d, k1);
    assert forall|i: int| #[trigger] cands_upto(ts, d, k1).contains(i)
        implies cands_upto(ts, d, k2).contains(i) by {
        let idx = scan_index(d, ent(ts, i).pos);
        lemma_cands_stable(ts, d, i, k1);
        lemma_cands_stable(ts, d, i, k2);
    }
}

/// A live tile moves exactly when the rule holds for it at its own scan
/// step, judged against the movers found on the cells before its own.
pub proof fn lemma_cands_at_own_step(ts: Seq<Option<TileEntry>>, d: MovingDirection, i: int)
    requires
        cells_distinct(ts),
        tiles_wf(ts),
        live(ts, i),
    ensures
        cands(ts, d).contains(i)
            <==> wants_move(ts, d, i, cands_upto(ts, d, scan_index(d, ent(ts, i).pos))),
{
    let p = ent(ts, i).pos;
    let idx = scan_index(d, p);
    lemma_scan_index_of_pos(d, p);
    assert(0 <= idx < 16);
    assert(scan_pos(d, idx) == p);
    lemma_occupant_unique(ts, p, i);
    let acc = cands_upto(ts, d, idx);
    lemma_cands_bound(ts, d, idx);
    assert(!acc.contains(i));
    assert(cands_upto(ts, d, idx + 1) == cand_step(ts, d, acc, idx));
    lemma_cands_stable(ts, d, i, 16);
}

/// How the merge step may treat one surviving registry slot: the tile is
/// untouched, or it merged — exactly one level up (held at the cap), its
/// merged flag newly set, and a partner of its cell and level despawned.
pub open spec fn merge_entry_ok(
    a: Seq<Option<TileEntry>>,
    b: Seq<Option<TileEntry>>,
    i: int,
) -> bool {
    live(b, i) ==> live(a, i) && {
        let e0 = ent(a, i);
        let e1 = ent(b, i);
        &&& e1.pos == e0.pos
        &&& e1.moving == e0.moving
        &&& {
            ||| e1 == e0
            ||| (!e0.merged && e1.merged && e1.tile.level == inc_level(e0.tile.level)
                && exists|j: int|
                    #[trigger] live(a, j) && j != i && ent(a, j).pos == e0.pos
                        && ent(a, j).tile.level == e0.tile.level && !ent(a, j).merged
                        && !live(b, j))
        }
    }
}

/// A tile despawned by the merge step leaves a merged survivor on its cell.
pub open spec fn merge_death_ok(
    a: Seq<Option<TileEntry>>,
    b: Seq<Option<TileEntry>>,
    i: int,
) -> bool {
    live(a, i) && !live(b, i) ==> !ent(a, i).merged && exists|s: int|
        #[trigger] live(b, s) && s != i && ent(b, s).pos == ent(a, i).pos && ent(b, s).merged
}

/// The cell one step from `p` toward `d`, or `p` itself on the edge.
pub open spec fn stepped(d: MovingDirection, p: Position) -> Position {
    match neighbor(d, p) {
        Some(n) => n,
        None => p,
    }
}

/// Where a tile stands once the pass commits: its neighbor cell if it
/// moves, else its own.
pub open spec fn committed_pos(d: MovingDirection, e: TileEntry) -> Position {
    if e.moving {
        stepped(d, e.pos)
    } else {
        e.pos
    }
}

/// How one whole cycle — flagging the movers, committing their step,
/// merging — reads to the pass that follows it within the same turn:
/// movers stepped one cell, the rest stood still, levels changed only
/// under a fresh merged flag, flags never cleared, and every despawned
/// tile left a merged survivor where it landed.
pub open spec fn cycle_rel(
    ts1: Seq<Option<TileEntry>>,
    ts2: Seq<Option<TileEntry>>,
    d: MovingDirection,
) -> bool {
    &&& ts2.len() == ts1.len()
    &&& forall|i: int| live(ts2, i) ==> live(ts1, i)
    &&& forall|i: int| #[trigger] live(ts2, i) ==> ent(ts2, i).pos == (
        if cands(ts1, d).contains(i) {
            stepped(d, ent(ts1, i).pos)
        } else {
            ent(ts1, i).pos
        })
    &&& forall|i: int| #[trigger] live(ts2, i) && !ent(ts2, i).merged
        ==> !ent(ts1, i).merged && ent(ts2, i).tile == ent(ts1, i).tile
    &&& forall|i: int| live(ts1, i) && !live(ts2, i) ==> exists|s: int|
        #[trigger] live(ts2, s) && ent(ts2, s).merged && ent(ts2, s).pos == (
            if cands(ts1, d).contains(i) {
                stepped(d, ent(ts1, i).pos)
            } else {
                ent(ts1, i).pos
            })
}

/// A mover has a neighbor cell to step into.
proof fn lemma_mover_has_neighbor(ts: Seq<Option<TileEntry>>, d: MovingDirection, i: int)
    requires
        cells_distinct(ts),
        tiles_wf(ts),
        cands(ts, d).contains(i),
    ensures
        live(ts, i),
        neighbor(d, ent(ts, i).pos) is Some,
        ent(ts, i).pos.wf(),
    {
    lemma_cands_bound(ts, d, 16);
    assert(live(ts, i));
    lemma_cands_at_own_step(ts, d, i);
}

/// The heart of the turn bound: a tile that the next pass moves was moved
/// by this pass as well.  Nothing starts to move halfway through a turn:
/// a cell can only fall free because its tile moved on (then the tile
/// behind was chained along already), and a merge only blocks further
/// merges, never enables one.
proof fn lemma_shrink_at(
    ts1: Seq<Option<TileEntry>>,
    ts2: Seq<Option<TileEntry>>,
    d: MovingDirection,
    i: int,
    kk: int,
)
    requires
        cells_distinct(ts1),
        tiles_wf(ts1),
        cells_distinct(ts2),
        tiles_wf(ts2),
        cycle_rel(ts1, ts2, d),
        live(ts2, i),
        kk == scan_index(d, ent(ts2, i).pos),
        forall|t: int| #[trigger] cands_upto(ts2, d, kk).contains(t)
            ==> cands(ts1, d).contains(t),
        wants_move(ts2, d, i, cands_upto(ts2, d, kk)),
    ensures
        cands(ts1, d).contains(i),
{
    let ghost m = cands(ts1, d);
    if !m.contains(i) {
        assert(live(ts1, i));
        let p = ent(ts2, i).pos;
        assert(ent(ts1, i).pos == p);
        assert(p.wf());
        lemma_scan_index_of_pos(d, p);
        lemma_cands_at_own_step(ts1, d, i);
        let idx1 = scan_index(d, p);
        let acc1 = cands_upto(ts1, d, idx1);
        let acc2 = cands_upto(ts2, d, kk);
        match neighbor(d, p) {
            None => {
                assert(false);
            },
            Some(n) => {
                lemma_neighbor_edge_and_order(d, p);
                assert(n.wf());
                if !occupied_at(ts1, n) {
                    assert(wants_move(ts1, d, i, acc1));
                    assert(false);
                } else {
                    let w = occupant(ts1, n);
                    assert(live(ts1, w) && ent(ts1, w).pos == n);
                    if m.contains(w) {
                        assert(scan_index(d, ent(ts1, w).pos) == idx1 - 1);
                        lemma_cands_stable(ts1, d, w, 16);
                        lemma_cands_stable(ts1, d, w, idx1);
                        assert(acc1.contains(w));
                        assert(wants_move(ts1, d, i, acc1));
                        assert(false);
                    } else if live(ts2, w) {
                        assert(ent(ts2, w).pos == n);
                        lemma_occupant_unique(ts2, n, w);
                        assert(occupied_at(ts2, n));
                        if acc2.contains(w) {
                            assert(m.contains(w));
                            assert(false);
                        }
                        // Only the merge disjunct of the pass-2 rule is left.
                        assert(ent(ts2, w).tile.level == ent(ts2, i).tile.level
                            && !ent(ts2, w).merged && !ent(ts2, i).merged);
                        assert(!ent(ts1, w).merged && ent(ts1, w).tile == ent(ts2, w).tile);
                        assert(!ent(ts1, i).merged && ent(ts1, i).tile == ent(ts2, i).tile);
                        lemma_occupant_unique(ts1, n, w);
                        assert(wants_move(ts1, d, i, acc1));
                        assert(false);
                    } else {
                        // `w` despawned: a merged survivor sits on `n`.
                        let s = choose|s: int| #[trigger] live(ts2, s) && ent(ts2, s).merged
                            && ent(ts2, s).pos == (if cands(ts1, d).contains(w) {
                                stepped(d, ent(ts1, w).pos)
                            } else {
                                ent(ts1, w).pos
                            });
                        assert(ent(ts2, s).pos == n);
                        lemma_occupant_unique(ts2, n, s);
                        assert(occupied_at(ts2, n));
                        if acc2.contains(s) {
                            assert(m.contains(s));
                            lemma_mover_has_neighbor(ts1, d, s);
                            assert(ent(ts2, s).pos == stepped(d, ent(ts1, s).pos));
                            lemma_neighbor_injective(d, ent(ts1, s).pos, p);
                            assert(ent(ts1, s).pos == p);
                            assert(s != i);
                            assert(false);
                        }
                        // The survivor has merged, so the merge disjunct of
                        // the pass-2 rule fails too: `i` could not want to
                        // move in pass 2 at all.
                        assert(!ent(ts2, occupant(ts2, n)).merged);
                        assert(false);
                    }
                }
            },
        }
    }
}

/// Every mover of the pass after a cycle already moved in the cycle's own
/// pass, by induction along the scan order.
proof fn lemma_shrink_upto(
    ts1: Seq<Option<TileEntry>>,
    ts2: Seq<Option<TileEntry>>,
    d: MovingDirection,
    k: int,
)
    requires
        cells_distinct(ts1),
        tiles_wf(ts1),
        cells_distinct(ts2),
        tiles_wf(ts2),
        cycle_rel(ts1, ts2, d),
        k <= 16,
    ensures
        forall|i: int| #[trigger] cands_upto(ts2, d, k).contains(i)
            ==> cands(ts1, d).contains(i),
    decreases k,
{
    if k > 0 {
        lemma_shrink_upto(ts1, ts2, d, k - 1);
        let p = scan_pos(d, k - 1);
        lemma_scan_pos_of_index(d, k - 1);
        assert forall|i: int| #[trigger] cands_upto(ts2, d, k).contains(i)
            implies cands(ts1, d).contains(i) by {
            if !cands_upto(ts2, d, k - 1).contains(i) {
                assert(occupied_at(ts2, p));
                assert(i == occupant(ts2, p));
                assert(live(ts2, i) && ent(ts2, i).pos == p);
                assert(scan_index(d, ent(ts2, i).pos) == k - 1);
                assert(wants_move(ts2, d, i, cands_upto(ts2, d, k - 1)));
                lemma_shrink_at(ts1, ts2, d, i, k - 1);
            }
        }
    }
}

/// Law: within one turn, the set of moving tiles only shrinks from pass
/// to pass, and each tile the next pass moves stands one cell nearer the
/// edge than it did.  With at most three cells to cross, a turn resolves
/// in at most three cycles.
pub proof fn lemma_cands_shrink(
    ts1: Seq<Option<TileEntry>>,
    ts2: Seq<Option<TileEntry>>,
    d: MovingDirection,
)
    requires
        cells_distinct(ts1),
        tiles_wf(ts1),
        cells_distinct(ts2),
        tiles_wf(ts2),
        cycle_rel(ts1, ts2, d),
    ensures
        forall|i: int| #[trigger] cands(ts2, d).contains(i)
            ==> cands(ts1, d).contains(i)
                && dist_to_edge(d, ent(ts2, i).pos)
                    == dist_to_edge(d, ent(ts1, i).pos) - 1,
{
    lemma_shrink_upto(ts1, ts2, d, 16);
    assert forall|i: int| #[trigger] cands(ts2, d).contains(i)
        implies cands(ts1, d).contains(i)
            && dist_to_edge(d, ent(ts2, i).pos)
                == dist_to_edge(d, ent(ts1, i).pos) - 1 by {
        lemma_mover_has_neighbor(ts2, d, i);
        lemma_mover_has_neighbor(ts1, d, i);
        assert(ent(ts2, i).pos == stepped(d, ent(ts1, i).pos));
        lemma_neighbor_edge_and_order(d, ent(ts1, i).pos);
    }
}


/// The moving flags play no part in choosing the movers: two boards that
/// agree on liveness, cells, levels and merged flags have the same movers.
pub proof fn lemma_cands_ignore_moving(
    a: Seq<Option<TileEntry>>,
    b: Seq<Option<TileEntry>>,
    d: MovingDirection,
    k: int,
)
    requires
        a.len() == b.len(),
        cells_distinct(a),
        forall|i: int| live(a, i) <==> live(b, i),
        forall|i: int| #[trigger] live(a, i)
            ==> ent(b, i).pos == ent(a, i).pos && ent(b, i).tile == ent(a, i).tile
                && ent(b, i).merged == ent(a, i).merged,
        k <= 16,
    ensures
        cands_upto(a, d, k) == cands_upto(b, d, k),
    decreases k,
{
    assert forall|x: int, y: int|
        #[trigger] live(b, x) && #[trigger] live(b, y) && x != y
        implies ent(b, x).pos != ent(b, y).pos by {
        assert(live(a, x));
        assert(live(a, y));
    }
    assert forall|p: Position| #[trigger] occupied_at(a, p) <==> occupied_at(b, p) by {
        if occupied_at(a, p) {
            let w = choose|w: int| #[trigger] live(a, w) && ent(a, w).pos == p;
            assert(live(b, w) && ent(b, w).pos == p);
        }
        if occupied_at(b, p) {
            let w = choose|w: int| #[trigger] live(b, w) && ent(b, w).pos == p;
            assert(live(a, w) && ent(a, w).pos == p);
        }
    }
    if k > 0 {
        lemma_cands_ignore_moving(a, b, d, k - 1);
        let p = scan_pos(d, k - 1);
        if occupied_at(a, p) {
            let i = occupant(a, p);
            assert(live(a, i) && ent(a, i).pos == p);
            assert(live(b, i) && ent(b, i).pos == p);
            lemma_occupant_unique(b, p, i);
            let acc = cands_upto(a, d, k - 1);
            match neighbor(d, p) {
                None => {},
                Some(n) => {
                    if occupied_at(a, n) {
                        let j = occupant(a, n);
                        assert(live(a, j) && ent(a, j).pos == n);
                        assert(live(b, j) && ent(b, j).pos == n);
                        lemma_occupant_unique(b, n, j);
                        assert(wants_move(a, d, i, acc) == wants_move(b, d, i, acc));
                    } else {
                        assert(!occupied_at(b, n));
                        assert(wants_move(a, d, i, acc) == wants_move(b, d, i, acc));
                    }
                },
            }
        } else {
            assert(!occupied_at(b, p));
        }
    }
}

/// What one whole turn may do to a surviving tile: leave its level and
/// merged flag untouched, or merge it exactly once — level one up (held
/// at the cap) and flag freshly set.
pub open spec fn turn_entry_ok(
    a: Seq<Option<TileEntry>>,
    b: Seq<Option<TileEntry>>,
    i: int,
) -> bool {
    live(b, i) ==> live(a, i) && {
        ||| (ent(b, i).tile == ent(a, i).tile && ent(b, i).merged == ent(a, i).merged)
        ||| (!ent(a, i).merged && ent(b, i).merged
            && ent(b, i).tile.level == inc_level(ent(a, i).tile.level))
    }
}

/// Earnings add up across the steps of one turn: what a tile earns over
/// the whole stretch is what it earned up to the middle plus what the
/// last step added, because a merged tile rides through later steps
/// untouched.
proof fn lemma_gains_compose(
    a: Seq<Option<TileEntry>>,
    c: Seq<Option<TileEntry>>,
    dd: Seq<Option<TileEntry>>,
    k: int,
)
    requires
        forall|i: int| live(dd, i) ==> live(c, i),
        forall|i: int| #[trigger] live(c, i) && ent(c, i).merged
            ==> live(dd, i) && ent(dd, i) == ent(c, i),
        forall|i: int| live(c, i) ==> live(a, i),
        forall|i: int| #[trigger] live(c, i) && live(a, i) && ent(a, i).merged
            ==> ent(c, i).merged,
    ensures
        gains(a, dd, k) == gains(a, c, k) + gains(c, dd, k),
    decreases k,
{
    if k > 0 {
        lemma_gains_compose(a, c, dd, k - 1);
        let i = k - 1;
        if live(dd, i) {
            assert(live(c, i));
            if ent(c, i).merged {
                assert(ent(dd, i) == ent(c, i));
            }
        } else {
            if live(c, i) && ent(c, i).merged {
                assert(live(dd, i));
                assert(false);
            }
        }
    }
}

/// Two distinct tiles land on one cell only as a mover onto a stationary
/// tile, and then with equal levels and neither merged this turn.
proof fn lemma_overlap_pair(ts0: Seq<Option<TileEntry>>, d: MovingDirection, i: int, j: int)
    requires
        cells_distinct(ts0),
        tiles_wf(ts0),
        movers_ok(ts0, d),
        live(ts0, i),
        live(ts0, j),
        i != j,
        committed_pos(d, ent(ts0, i)) == committed_pos(d, ent(ts0, j)),
    ensures
        ent(ts0, i).tile.level == ent(ts0, j).tile.level,
        !ent(ts0, i).merged && !ent(ts0, j).merged,
        ent(ts0, i).moving != ent(ts0, j).moving,
{
    let ei = ent(ts0, i);
    let ej = ent(ts0, j);
    if ei.moving && ej.moving {
        assert(mover_ok(ts0, d, i));
        assert(mover_ok(ts0, d, j));
        lemma_neighbor_injective(d, ei.pos, ej.pos);
        assert(false);
    } else if !ei.moving && !ej.moving {
        assert(false);
    } else if ei.moving {
        assert(mover_ok(ts0, d, i));
        let n = committed_pos(d, ei);
        assert(neighbor(d, ei.pos) == Some(n));
        assert(ej.pos == n);
        lemma_occupant_unique(ts0, n, j);
        assert(!ent(ts0, occupant(ts0, n)).moving);
        assert(ei.tile.level == ej.tile.level && !ei.merged && !ej.merged);
    } else {
        assert(mover_ok(ts0, d, j));
        let n = committed_pos(d, ej);
        assert(neighbor(d, ej.pos) == Some(n));
        assert(ei.pos == n);
        lemma_occupant_unique(ts0, n, i);
        assert(!ent(ts0, occupant(ts0, n)).moving);
        assert(ej.tile.level == ei.tile.level && !ej.merged && !ei.merged);
    }
}

/// The tile already registered on a shared cell cannot have merged yet:
/// its entry still reads as it did when the turn's pass committed.
proof fn lemma_merge_partner(
    ts0: Seq<Option<TileEntry>>,
    now: Seq<Option<TileEntry>>,
    f: int,
    id: int,
)
    requires
        overlaps_ok(ts0),
        tiles_wf(ts0),
        now.len() == ts0.len(),
        forall|i: int| merge_entry_ok(ts0, now, i),
        forall|i: int| live(now, i) ==> live(ts0, i),
        live(now, f),
        live(now, id),
        f != id,
        ent(now, f).pos == ent(now, id).pos,
        ent(now, id) == ent(ts0, id),
    ensures
        ent(now, f) == ent(ts0, f),
        live(ts0, f),
        !ent(ts0, f).merged,
        !ent(ts0, id).merged,
        ent(ts0, f).tile.level == ent(ts0, id).tile.level,
        ent(ts0, f).pos == ent(ts0, id).pos,
{
    assert(merge_entry_ok(ts0, now, f));
    assert(live(ts0, f));
    assert(ent(now, f).pos == ent(ts0, f).pos);
    if ent(now, f) != ent(ts0, f) {
        let j = choose|j: int|
            #[trigger] live(ts0, j) && j != f && ent(ts0, j).pos == ent(ts0, f).pos
                && ent(ts0, j).tile.level == ent(ts0, f).tile.level && !ent(ts0, j).merged
                && !live(now, j);
        assert(live(ts0, j) && !live(now, j));
        assert(j != id);
        assert(live(ts0, id));
        assert(ent(ts0, id).pos == ent(ts0, f).pos);
        assert(ent(ts0, j).pos == ent(ts0, f).pos);
        assert(false);
    }
    assert(live(ts0, id));
    assert(ent(ts0, id).pos == ent(ts0, f).pos);
}

/// Re-establishes the merge step's running facts after one merge: the
/// absorbing tile went one level up and got its flag, its partner
/// despawned, earlier slots kept their stories, and the total earned
/// score grew by the new tile's worth.
proof fn lemma_merge_step(
    ts0: Seq<Option<TileEntry>>,
    before: Seq<Option<TileEntry>>,
    after: Seq<Option<TileEntry>>,
    n: int,
    f: int,
    id: int,
    s0: int,
)
    requires
        overlaps_ok(ts0),
        tiles_wf(ts0),
        ts0.len() == n,
        before.len() == n,
        0 <= f < n,
        0 <= id < n,
        f != id,
        live(before, f),
        live(before, id),
        ent(before, f) == ent(ts0, f),
        ent(before, id) == ent(ts0, id),
        !ent(ts0, f).merged,
        !ent(ts0, id).merged,
        ent(ts0, f).tile.level == ent(ts0, id).tile.level,
        ent(ts0, f).pos == ent(ts0, id).pos,
        forall|i: int| merge_entry_ok(ts0, before, i),
        forall|i: int| merge_death_ok(ts0, before, i),
        forall|i: int| live(before, i) ==> live(ts0, i),
        after == before.update(f, Some(TileEntry {
            tile: Tile { level: inc_level(ent(ts0, f).tile.level) },
            merged: true,
            ..ent(ts0, f)
        })).update(id, None),
        0 <= s0 <= u32::MAX,
    ensures
        after.len() == n,
        forall|i: int| merge_entry_ok(ts0, after, i),
        forall|i: int| merge_death_ok(ts0, after, i),
        forall|i: int| live(after, i) ==> live(ts0, i),
        gains(ts0, after, n) == gains(ts0, before, n)
            + pow2((inc_level(ent(ts0, f).tile.level) + 1) as nat),
        sat_add(sat_add(s0, gains(ts0, before, n)),
            pow2((inc_level(ent(ts0, f).tile.level) + 1) as nat) as int)
            == sat_add(s0, gains(ts0, after, n)),
{
    let ghost gain = pow2((inc_level(ent(ts0, f).tile.level) + 1) as nat) as int;
    assert(live(after, f));
    assert(!live(after, id));

    assert forall|i: int| merge_entry_ok(ts0, after, i) by {
        if live(after, i) {
            if i == f {
                assert(live(ts0, id) && id != f && ent(ts0, id).pos == ent(ts0, f).pos
                    && ent(ts0, id).tile.level == ent(ts0, f).tile.level
                    && !ent(ts0, id).merged && !live(after, id));
                assert(merge_entry_ok(ts0, after, f));
            } else {
                assert(live(before, i));
                assert(ent(after, i) == ent(before, i));
                assert(merge_entry_ok(ts0, before, i));
                if ent(before, i) != ent(ts0, i) {
                    let j = choose|j: int|
                        #[trigger] live(ts0, j) && j != i && ent(ts0, j).pos == ent(ts0, i).pos
                            && ent(ts0, j).tile.level == ent(ts0, i).tile.level
                            && !ent(ts0, j).merged && !live(before, j);
                    assert(j != f && j != id);
                    assert(!live(after, j));
                    assert(merge_entry_ok(ts0, after, i));
                }
            }
        }
    }

    assert forall|i: int| merge_death_ok(ts0, after, i) by {
        if live(ts0, i) && !live(after, i) {
            if i == id {
                assert(live(after, f) && f != id && ent(after, f).pos == ent(ts0, id).pos
                    && ent(after, f).merged);
            } else {
                assert(!live(before, i));
                assert(merge_death_ok(ts0, before, i));
                let w = choose|w: int|
                    #[trigger] live(before, w) && w != i && ent(before, w).pos == ent(ts0, i).pos
                        && ent(before, w).merged;
                assert(w != f);
                assert(w != id);
                assert(live(after, w) && ent(after, w) == ent(before, w));
            }
        }
    }

    assert(gain_at(ts0, after, f) == gain);
    assert(gain_at(ts0, before, f) == 0);
    assert(gain_at(ts0, after, id) == 0);
    assert(gain_at(ts0, before, id) == 0);
    assert forall|i: int| 0 <= i < n && i != f implies gain_at(ts0, before, i)
        == gain_at(ts0, after, i) by {
        if i != id {
            assert(after[i] == before[i]);
        }
    }
    lemma_gains_one_change(ts0, before, after, n, f);
    lemma_gains_nonneg(ts0, before, n);
    vstd::arithmetic::power2::lemma_pow2_pos((inc_level(ent(ts0, f).tile.level) + 1) as nat);
    lemma_sat_add_chain(s0, gains(ts0, before, n), gain);
}

/// Flagging exactly the movers of a pass yields a consistent moving set.
proof fn lemma_movers_ok_of_cands(
    ts0: Seq<Option<TileEntry>>,
    ts: Seq<Option<TileEntry>>,
    d: MovingDirection,
)
    requires
        cells_distinct(ts0),
        tiles_wf(ts0),
        ts.len() == ts0.len(),
        forall|i: int| live(ts, i) <==> live(ts0, i),
        forall|i: int| #[trigger] live(ts, i)
            ==> ent(ts, i) == (TileEntry {
                moving: cands(ts0, d).contains(i),
                ..ent(ts0, i)
            }),
    ensures
        movers_ok(ts, d),
{
    assert forall|a: int, b: int|
        #[trigger] live(ts, a) && #[trigger] live(ts, b) && a != b
        implies ent(ts, a).pos != ent(ts, b).pos by {
        assert(live(ts0, a));
        assert(live(ts0, b));
    }
    assert forall|i: int| #[trigger] live(ts, i) && ent(ts, i).moving
        implies mover_ok(ts, d, i) by {
        assert(live(ts0, i));
        assert(cands(ts0, d).contains(i));
        lemma_cands_at_own_step(ts0, d, i);
        let p = ent(ts0, i).pos;
        let idx = scan_index(d, p);
        let acc = cands_upto(ts0, d, idx);
        assert(wants_move(ts0, d, i, acc));
        assert(ent(ts, i).pos == p);
        match neighbor(d, p) {
            None => {
                assert(false);
            },
            Some(n) => {
                if occupied_at(ts0, n) {
                    let j = occupant(ts0, n);
                    assert(live(ts0, j) && ent(ts0, j).pos == n);
                    assert(live(ts, j));
                    assert(ent(ts, j).pos == n);
                    lemma_occupant_unique(ts, n, j);
                    if acc.contains(j) {
                        lemma_scan_index_of_pos(d, p);
                        lemma_cands_mono(ts0, d, idx, 16);
                        assert(cands(ts0, d).contains(j));
                        assert(ent(ts, j).moving);
                    } else {
                        assert(ent(ts0, j).tile.level == ent(ts0, i).tile.level
                            && !ent(ts0, j).merged && !ent(ts0, i).merged);
                        assert(ent(ts, j).tile.level == ent(ts, i).tile.level
                            && !ent(ts, j).merged && !ent(ts, i).merged);
                    }
                } else {
                    if occupied_at(ts, n) {
                        let w = choose|w: int| #[trigger] live(ts, w) && ent(ts, w).pos == n;
                        assert(live(ts0, w));
                        assert(ent(ts0, w).pos == n);
                        assert(occupied_at(ts0, n));
                        assert(false);
                    }
                }
            },
        }
    }
}

impl Game {
    /// One resolve pass.  Walks the scan order of the turn's direction and
    /// flags every tile that slides one step this pass.  Finding none, the
    /// turn winds down, with a spawn owed only when an earlier pass of the
    /// same turn moved something; finding any, the tiles animate.
    pub fn set_moving(&mut self)
        requires
            old(self).inv(),
            old(self).turn_state matches TurnState::CheckMovable { .. },
        ensures
            final(self).inv(),
            final(self).game_state == old(self).game_state,
            final(self).direction == old(self).direction,
            final(self).score == old(self).score,
            final(self).tiles@.len() == old(self).tiles@.len(),
            forall|i: int| live(final(self).tiles@, i) <==> live(old(self).tiles@, i),
            forall|i: int| #[trigger] live(final(self).tiles@, i)
                ==> ent(final(self).tiles@, i) == (TileEntry {
                    moving: cands(old(self).tiles@, old(self).direction).contains(i),
                    ..ent(old(self).tiles@, i)
                }),
            final(self).turn_state == if exists|t: int|
                cands(old(self).tiles@, old(self).direction).contains(t) {
                TurnState::Animating
            } else {
                TurnState::Finishing { moved: !old(self).turn_state->starting }
            },
    {
        let ghost ts0 = self.tiles@;
        let ghost d = self.direction;
        let n = self.tiles.len();
        let mut cand: Vec<bool> = vec![false; n];
        let order = self.direction.scan_order();
        let mut found = false;
        let mut k: usize = 0;
        while k < 16
            invariant
                k <= 16,
                self.tiles@ == ts0,
                self.direction == d,
                self.turn_state == old(self).turn_state,
                cells_distinct(ts0),
                tiles_wf(ts0),
                n == ts0.len(),
                order@.len() == 16,
                forall|j: int| 0 <= j < 16 ==> order@[j] == scan_pos(d, j),
                cand@.len() == n,
                forall|t: int| 0 <= t < n
                    ==> ((#[trigger] cand@[t]) <==> cands_upto(ts0, d, k as int).contains(t)),
                found <==> exists|t: int| cands_upto(ts0, d, k as int).contains(t),
            decreases 16 - k,
        {
            let ghost acc = cands_upto(ts0, d, k as int);
            proof {
                lemma_cands_bound(ts0, d, k as int);
            }
            let p = order[k];
            proof {
                lemma_scan_pos_of_index(d, k as int);
                assert(p == scan_pos(d, k as int));
                assert(p.wf());
            }
            let mover: Option<usize> = match find_tile(&self.tiles, p) {
                None => None,
                Some(i) => {
                    proof {
                        lemma_occupant_unique(ts0, p, i as int);
                    }
                    match self.direction.moved_position(&p) {
                        None => None,
                        Some(np) => {
                            match find_tile(&self.tiles, np) {
                                None => Some(i),
                                Some(j) => {
                                    proof {
                                        lemma_occupant_unique(ts0, np, j as int);
                                    }
                                    if cand[j] {
                                        Some(i)
                                    } else {
                                        let ei = self.tiles[i].unwrap();
                                        let ej = self.tiles[j].unwrap();
                                        if ej.tile.level == ei.tile.level && !ej.merged
                                            && !ei.merged {
                                            Some(i)
                                        } else {
                                            None
                                        }
                                    }
                                },
                            }
                        },
                    }
                },
            };
            match mover {
                Some(i) => {
                    proof {
                        assert(occupied_at(ts0, p));
                        assert(occupant(ts0, p) == i as int);
                        assert(wants_move(ts0, d, i as int, acc));
                        assert(cands_upto(ts0, d, k as int + 1) == acc.insert(i as int));
                        assert(cands_upto(ts0, d, k as int + 1).contains(i as int));
                    }
                    cand[i] = true;
                    found = true;
                },
                None => {
                    proof {
                        assert(cands_upto(ts0, d, k as int + 1) == acc);
                    }
                },
            }
            k = k + 1;
        }

        // Write the flags into the registry.
        let ghost full = cands(ts0, d);
        let mut idx: usize = 0;
        while idx < n
            invariant
                idx <= n,
                n == self.tiles@.len(),
                n == ts0.len(),
                self.direction == d,
                self.turn_state == old(self).turn_state,
                self.game_state == old(self).game_state,
                self.score == old(self).score,
                cand@.len() == n,
                forall|t: int| 0 <= t < n ==> ((#[trigger] cand@[t]) <==> full.contains(t)),
                forall|i: int| live(self.tiles@, i) <==> live(ts0, i),
                forall|i: int| #[trigger] live(ts0, i) && i < idx
                    ==> ent(self.tiles@, i) == (TileEntry {
                        moving: full.contains(i),
                        ..ent(ts0, i)
                    }),
                forall|i: int| #[trigger] live(ts0, i) && idx <= i
                    ==> ent(self.tiles@, i) == ent(ts0, i),
            decreases n - idx,
        {
            match self.tiles[idx] {
                Some(e) => {
                    let f = cand[idx];
                    self.tiles[idx] = Some(TileEntry { moving: f, ..e });
                },
                None => {},
            }
            idx = idx + 1;
        }
        proof {
            assert forall|i: int| #[trigger] live(self.tiles@, i)
                implies ent(self.tiles@, i) == (TileEntry {
                    moving: full.contains(i),
                    ..ent(ts0, i)
                }) by {
                assert(live(ts0, i));
            }
            assert forall|a: int, b: int|
                #[trigger] live(self.tiles@, a) && #[trigger] live(self.tiles@, b) && a != b
                implies ent(self.tiles@, a).pos != ent(self.tiles@, b).pos by {
                assert(live(ts0, a));
                assert(live(ts0, b));
            }
            assert forall|i: int| #[trigger] live(self.tiles@, i)
                implies ent(self.tiles@, i).pos.wf()
                    && ent(self.tiles@, i).tile.level <= crate::MAX_LEVEL by {
                assert(live(ts0, i));
            }
        }

        if found {
            self.turn_state = TurnState::Animating;
            proof {
                lemma_movers_ok_of_cands(ts0, self.tiles@, d);
            }
        } else {
            let starting = match self.turn_state {
                TurnState::CheckMovable { starting } => starting,
                _ => false,
            };
            self.turn_state = TurnState::Finishing { moved: !starting };
        }
    }

    /// Commits the animation: every moving tile's position becomes its
    /// neighbor cell, the moving flags clear, and the merge step follows.
    /// The host calls this when its animation of the flagged tiles is done.
    pub fn apply_positions(&mut self)
        requires
            old(self).inv(),
            old(self).turn_state == TurnState::Animating,
        ensures
            final(self).inv(),
            final(self).turn_state == TurnState::Merging,
            final(self).game_state == old(self).game_state,
            final(self).direction == old(self).direction,
            final(self).score == old(self).score,
            final(self).tiles@.len() == old(self).tiles@.len(),
            forall|i: int| live(final(self).tiles@, i) <==> live(old(self).tiles@, i),
            forall|i: int| #[trigger] live(final(self).tiles@, i)
                ==> ent(final(self).tiles@, i) == (TileEntry {
                    pos: committed_pos(old(self).direction, ent(old(self).tiles@, i)),
                    moving: false,
                    ..ent(old(self).tiles@, i)
                }),
    {
        let ghost ts0 = self.tiles@;
        let ghost d = self.direction;
        let n = self.tiles.len();
        let mut idx: usize = 0;
        while idx < n
            invariant
                idx <= n,
                n == self.tiles@.len(),
                n == ts0.len(),
                self.direction == d,
                self.turn_state == old(self).turn_state,
                self.game_state == old(self).game_state,
                self.score == old(self).score,
                cells_distinct(ts0),
                tiles_wf(ts0),
                movers_ok(ts0, d),
                forall|i: int| live(self.tiles@, i) <==> live(ts0, i),
                forall|i: int| #[trigger] live(ts0, i) && i < idx
                    ==> ent(self.tiles@, i) == (TileEntry {
                        pos: committed_pos(d, ent(ts0, i)),
                        moving: false,
                        ..ent(ts0, i)
                    }),
                forall|i: int| #[trigger] live(ts0, i) && idx <= i
                    ==> ent(self.tiles@, i) == ent(ts0, i),
            decreases n - idx,
        {
            match self.tiles[idx] {
                Some(e) => {
                    proof {
                        assert(live(ts0, idx as int));
                        assert(e == ent(ts0, idx as int));
                    }
                    if e.moving {
                        match self.direction.moved_position(&e.pos) {
                            Some(np) => {
                                self.tiles[idx] = Some(TileEntry {
                                    pos: np,
                                    moving: false,
                                    ..e
                                });
                            },
                            None => {
                                proof {
                                    assert(live(ts0, idx as int));
                                    assert(mover_ok(ts0, d, idx as int));
                                    assert(false);
                                }
                            },
                        }
                    } else {
                        self.tiles[idx] = Some(TileEntry { moving: false, ..e });
                    }
                },
                None => {},
            }
            idx = idx + 1;
        }
        self.turn_state = TurnState::Merging;
        proof {
            let ts2 = self.tiles@;
            assert forall|i: int| #[trigger] live(ts2, i)
                implies ent(ts2, i) == (TileEntry {
                    pos: committed_pos(d, ent(ts0, i)),
                    moving: false,
                    ..ent(ts0, i)
                }) by {
                assert(live(ts0, i));
            }
            // Well-formed positions: a committed position is either the old
            // cell or its neighbor, which lies on the board too.
            assert forall|i: int| #[trigger] live(ts2, i)
                implies ent(ts2, i).pos.wf()
                    && ent(ts2, i).tile.level <= crate::MAX_LEVEL by {
                assert(live(ts0, i));
                if ent(ts0, i).moving {
                    assert(mover_ok(ts0, d, i));
                    lemma_neighbor_edge_and_order(d, ent(ts0, i).pos);
                }
            }
            // Overlap structure: only equal, unmerged pairs, never three.
            assert forall|i: int, j: int|
                #[trigger] live(ts2, i) && #[trigger] live(ts2, j) && i != j
                    && ent(ts2, i).pos == ent(ts2, j).pos
                implies ent(ts2, i).tile.level == ent(ts2, j).tile.level
                    && !ent(ts2, i).merged && !ent(ts2, j).merged by {
                lemma_overlap_pair(ts0, d, i, j);
            }
            assert forall|i: int, j: int, k: int|
                #[trigger] live(ts2, i) && #[trigger] live(ts2, j) && #[trigger] live(ts2, k)
                    && i != j && j != k && i != k
                implies !(ent(ts2, i).pos == ent(ts2, j).pos
                    && ent(ts2, j).pos == ent(ts2, k).pos) by {
                if ent(ts2, i).pos == ent(ts2, j).pos && ent(ts2, j).pos == ent(ts2, k).pos {
                    lemma_overlap_pair(ts0, d, i, j);
                    lemma_overlap_pair(ts0, d, j, k);
                    lemma_overlap_pair(ts0, d, i, k);
                }
            }
        }
    }

    /// The merge step.  Wherever two tiles landed on one cell, the tile
    /// with the lower id absorbs the other: its level rises by one, its
    /// merged flag is set, the other despawns, and the new tile's score is
    /// added to the running score (saturating).  The pass then re-runs, so
    /// slides and merges cascade within the key press.
    pub fn merging(&mut self)
        requires
            old(self).inv(),
            old(self).turn_state == TurnState::Merging,
        ensures
            final(self).inv(),
            final(self).turn_state == (TurnState::CheckMovable { starting: false }),
            final(self).game_state == old(self).game_state,
            final(self).direction == old(self).direction,
            final(self).tiles@.len() == old(self).tiles@.len(),
            forall|i: int| merge_entry_ok(old(self).tiles@, final(self).tiles@, i),
            forall|i: int| merge_death_ok(old(self).tiles@, final(self).tiles@, i),
            final(self).score.0 == sat_add(
                old(self).score.0 as int,
                gains(old(self).tiles@, final(self).tiles@, old(self).tiles@.len() as int),
            ),
    {
        let ghost ts0 = self.tiles@;
        let ghost s0 = self.score.0 as int;
        let n = self.tiles.len();
        let mut board: Vec<Option<usize>> = vec![None; 16];
        proof {
            lemma_gains_refl(ts0, n as int);
        }
        let mut id: usize = 0;
        while id < n
            invariant
                id <= n,
                n == self.tiles@.len(),
                n == ts0.len(),
                self.direction == old(self).direction,
                self.turn_state == old(self).turn_state,
                self.game_state == old(self).game_state,
                overlaps_ok(ts0),
                no_moving(ts0),
                tiles_wf(ts0),
                s0 == old(self).score.0 as int,
                0 <= s0 <= u32::MAX,
                board@.len() == 16,
                forall|c: int| 0 <= c < 16 ==> match #[trigger] board@[c] {
                    Some(f) => live(self.tiles@, f as int) && (f as int) < id
                        && ent(self.tiles@, f as int).pos == scan_pos(MovingDirection::Left, c),
                    None => true,
                },
                forall|i: int| #[trigger] live(self.tiles@, i) && i < id
                    ==> board@[scan_index(MovingDirection::Left, ent(self.tiles@, i).pos)]
                        == Some(i as usize),
                forall|i: int| live(self.tiles@, i) ==> live(ts0, i),
                forall|i: int| #[trigger] live(ts0, i) && id <= i
                    ==> live(self.tiles@, i) && ent(self.tiles@, i) == ent(ts0, i),
                forall|i: int| merge_entry_ok(ts0, self.tiles@, i),
                forall|i: int| merge_death_ok(ts0, self.tiles@, i),
                self.score.0 == sat_add(s0, gains(ts0, self.tiles@, n as int)),
            decreases n - id,
        {
            let ghost before = self.tiles@;
            match self.tiles[id] {
                None => {},
                Some(e) => {
                    proof {
                        assert(live(ts0, id as int));
                        assert(e == ent(ts0, id as int));
                        lemma_scan_index_of_pos(MovingDirection::Left, e.pos);
                    }
                    let c = e.pos.index();
                    proof {
                        assert(c as int == scan_index(MovingDirection::Left, e.pos));
                        assert(scan_pos(MovingDirection::Left, c as int) == e.pos);
                    }
                    match board[c] {
                        None => {
                            let ghost board0 = board@;
                            board[c] = Some(id);
                            proof {
                                assert forall|i: int| #[trigger] live(self.tiles@, i) && i < id + 1
                                    implies board@[scan_index(MovingDirection::Left,
                                        ent(self.tiles@, i).pos)] == Some(i as usize) by {
                                    if i != id {
                                        assert(live(ts0, i));
                                        assert(merge_entry_ok(ts0, self.tiles@, i));
                                        assert(ent(self.tiles@, i).pos == ent(ts0, i).pos);
                                        lemma_scan_index_of_pos(MovingDirection::Left,
                                            ent(self.tiles@, i).pos);
                                        assert(board0[scan_index(MovingDirection::Left,
                                            ent(self.tiles@, i).pos)] == Some(i as usize));
                                        assert(scan_index(MovingDirection::Left,
                                            ent(self.tiles@, i).pos) != c as int);
                                    }
                                }
                            }
                        },
                        Some(f) => {
                            proof {
                                assert(live(self.tiles@, f as int));
                                assert(ent(self.tiles@, f as int).pos == e.pos);
                                lemma_merge_partner(ts0, self.tiles@, f as int, id as int);
                            }
                            let ef = self.tiles[f].unwrap();
                            let new_level: u32 = if ef.tile.level < crate::MAX_LEVEL {
                                ef.tile.level + 1
                            } else {
                                ef.tile.level
                            };
                            let merged_tile = Tile { level: new_level };
                            let gain = merged_tile.score();
                            self.tiles[f] = Some(TileEntry {
                                tile: merged_tile,
                                merged: true,
                                ..ef
                            });
                            self.tiles[id] = None;
                            let s = self.score.0;
                            self.score.0 = if s > u32::MAX - gain {
                                u32::MAX
                            } else {
                                s + gain
                            };
                            proof {
                                assert(self.tiles@ == before.update(f as int, Some(TileEntry {
                                    tile: Tile { level: inc_level(ent(ts0, f as int).tile.level) },
                                    merged: true,
                                    ..ent(ts0, f as int)
                                })).update(id as int, None));
                                lemma_merge_step(ts0, before, self.tiles@, n as int,
                                    f as int, id as int, s0);
                                assert forall|i: int| #[trigger] live(self.tiles@, i) && i < id + 1
                                    implies board@[scan_index(MovingDirection::Left,
                                        ent(self.tiles@, i).pos)] == Some(i as usize) by {
                                    assert(i != id as int);
                                    assert(live(before, i));
                                    assert(ent(self.tiles@, i).pos == ent(before, i).pos);
                                    assert(live(ts0, i));
                                    assert(ent(before, i).pos == ent(ts0, i).pos) by {
                                        assert(merge_entry_ok(ts0, before, i));
                                    }
                                    lemma_scan_index_of_pos(MovingDirection::Left,
                                        ent(before, i).pos);
                                    assert(board@[scan_index(MovingDirection::Left,
                                        ent(before, i).pos)] == Some(i as usize));
                                }
                                assert forall|c2: int| 0 <= c2 < 16 implies match #[trigger] board@[c2] {
                                    Some(g) => live(self.tiles@, g as int) && (g as int) < id + 1
                                        && ent(self.tiles@, g as int).pos
                                            == scan_pos(MovingDirection::Left, c2),
                                    None => true,
                                } by {
                                    match board@[c2] {
                                        Some(g) => {
                                            assert(live(before, g as int));
                                            assert(g as int != id as int);
                                            assert(live(self.tiles@, g as int));
                                            assert(ent(self.tiles@, g as int).pos
                                                == ent(before, g as int).pos);
                                        },
                                        None => {},
                                    }
                                }
                            }
                        },
                    }
                },
            }
            id = id + 1;
        }
        self.turn_state = TurnState::CheckMovable { starting: false };
        proof {
            let ts2 = self.tiles@;
            assert forall|a: int, b: int|
                #[trigger] live(ts2, a) && #[trigger] live(ts2, b) && a != b
                implies ent(ts2, a).pos != ent(ts2, b).pos by {
                if ent(ts2, a).pos == ent(ts2, b).pos {
                    assert(board@[scan_index(MovingDirection::Left, ent(ts2, a).pos)]
                        == Some(a as usize));
                    assert(board@[scan_index(MovingDirection::Left, ent(ts2, b).pos)]
                        == Some(b as usize));
                }
            }
            assert forall|i: int| #[trigger] live(ts2, i)
                implies ent(ts2, i).pos.wf() && ent(ts2, i).tile.level <= crate::MAX_LEVEL by {
                assert(merge_entry_ok(ts0, ts2, i));
                assert(live(ts0, i));
            }
        }
    }

    /// Resolves one whole key press synchronously: runs the pass, commits
    /// the step and merges, over and over, until a pass finds nothing
    /// more to move, leaving the machine in `Finishing`.  Returns how
    /// many move-and-merge cycles ran — at most three, since a pass only
    /// ever keeps moving tiles that the pass before it moved, and no tile
    /// has more than three cells to cross.  Over the whole turn each
    /// surviving tile's level rose at most once, and the score grew by
    /// exactly the worth of the tiles merged on the way.
    pub fn resolve_turn(&mut self) -> (cycles: usize)
        requires
            old(self).inv(),
            old(self).turn_state == (TurnState::CheckMovable { starting: true }),
        ensures
            final(self).inv(),
            final(self).turn_state == (TurnState::Finishing { moved: cycles > 0 }),
            final(self).game_state == old(self).game_state,
            final(self).direction == old(self).direction,
            final(self).tiles@.len() == old(self).tiles@.len(),
            forall|i: int| turn_entry_ok(old(self).tiles@, final(self).tiles@, i),
            forall|i: int| live(final(self).tiles@, i) ==> live(old(self).tiles@, i),
            cycles <= 3,
            (cycles > 0) <==> (exists|t: int|
                cands(old(self).tiles@, old(self).direction).contains(t)),
            forall|t: int| !(#[trigger] cands(final(self).tiles@,
                final(self).direction).contains(t)),
            forall|i: int| #[trigger] live(final(self).tiles@, i)
                ==> line_of(old(self).direction, ent(final(self).tiles@, i).pos)
                        == line_of(old(self).direction, ent(old(self).tiles@, i).pos)
                    && dist_to_edge(old(self).direction, ent(final(self).tiles@, i).pos)
                        <= dist_to_edge(old(self).direction, ent(old(self).tiles@, i).pos),
            final(self).score.0 == sat_add(
                old(self).score.0 as int,
                gains(old(self).tiles@, final(self).tiles@, old(self).tiles@.len() as int),
            ),
    {
        let ghost ts0 = self.tiles@;
        let ghost d = self.direction;
        let ghost s0 = self.score.0 as int;
        let ghost n = ts0.len() as int;
        let mut cycles: usize = 0;
        proof {
            lemma_gains_refl(ts0, n);
            lemma_cands_bound(ts0, d, 16);
        }
        loop
            invariant_except_break
                self.inv(),
                self.turn_state == (TurnState::CheckMovable { starting: cycles == 0 }),
                self.direction == d,
                self.game_state == old(self).game_state,
                self.tiles@.len() == n,
                n == ts0.len(),
                0 <= s0 <= u32::MAX,
                cycles <= 3,
                forall|i: int| turn_entry_ok(ts0, self.tiles@, i),
                forall|i: int| live(self.tiles@, i) ==> live(ts0, i),
                forall|i: int| #[trigger] cands(self.tiles@, d).contains(i)
                    ==> dist_to_edge(d, ent(self.tiles@, i).pos) + cycles <= 3,
                cycles == 0 ==> self.tiles@ == ts0,
                cycles > 0 ==> exists|t: int| cands(ts0, d).contains(t),
                forall|i: int| #[trigger] live(self.tiles@, i)
                    ==> line_of(d, ent(self.tiles@, i).pos) == line_of(d, ent(ts0, i).pos)
                        && dist_to_edge(d, ent(self.tiles@, i).pos)
                            <= dist_to_edge(d, ent(ts0, i).pos),
                self.score.0 == sat_add(s0, gains(ts0, self.tiles@, n)),
            ensures
                self.inv(),
                self.turn_state == (TurnState::Finishing { moved: cycles > 0 }),
                self.direction == d,
                self.game_state == old(self).game_state,
                self.tiles@.len() == n,
                cycles <= 3,
                forall|i: int| turn_entry_ok(ts0, self.tiles@, i),
                forall|i: int| live(self.tiles@, i) ==> live(ts0, i),
                (cycles > 0) <==> (exists|t: int| cands(ts0, d).contains(t)),
                forall|t: int| !(#[trigger] cands(self.tiles@, d).contains(t)),
                forall|i: int| #[trigger] live(self.tiles@, i)
                    ==> line_of(d, ent(self.tiles@, i).pos) == line_of(d, ent(ts0, i).pos)
                        && dist_to_edge(d, ent(self.tiles@, i).pos)
                            <= dist_to_edge(d, ent(ts0, i).pos),
                self.score.0 == sat_add(s0, gains(ts0, self.tiles@, n)),
            decreases 4 - cycles,
        {
            let ghost ts_a = self.tiles@;
            self.set_moving();
            let ghost ts_b = self.tiles@;
            proof {
                assert forall|i: int| 0 <= i < n && i != -1
                    implies gain_at(ts0, ts_a, i) == gain_at(ts0, ts_b, i) by {
                    if live(ts_b, i) {
                        assert(live(ts_a, i));
                    }
                }
                lemma_gains_one_change(ts0, ts_a, ts_b, n, -1);
                assert forall|i: int| turn_entry_ok(ts0, ts_b, i) by {
                    if live(ts_b, i) {
                        assert(live(ts_a, i));
                        assert(turn_entry_ok(ts0, ts_a, i));
                    }
                }
            }
            if !(self.turn_state == TurnState::Animating) {
                proof {
                    // No pass found a mover, and the flags written on the
                    // way out play no part in the choice: the board is
                    // quiescent.
                    assert(!(exists|t: int| cands(ts_a, d).contains(t)));
                    lemma_cands_ignore_moving(ts_a, ts_b, d, 16);
                    assert forall|t: int| !(#[trigger] cands(ts_b, d).contains(t)) by {
                        assert(!cands(ts_a, d).contains(t));
                    }
                    assert forall|i: int| #[trigger] live(ts_b, i)
                        implies line_of(d, ent(ts_b, i).pos) == line_of(d, ent(ts0, i).pos)
                            && dist_to_edge(d, ent(ts_b, i).pos)
                                <= dist_to_edge(d, ent(ts0, i).pos) by {
                        assert(live(ts_a, i));
                        assert(ent(ts_b, i).pos == ent(ts_a, i).pos);
                    }
                }
                break;
            }
            proof {
                let t = choose|t: int| cands(ts_a, d).contains(t);
                lemma_mover_has_neighbor(ts_a, d, t);
                lemma_neighbor_edge_and_order(d, ent(ts_a, t).pos);
                assert(dist_to_edge(d, ent(ts_a, t).pos) >= 1);
                assert(cycles <= 2);
            }
            self.apply_positions();
            let ghost ts_c = self.tiles@;
            self.merging();
            let ghost ts_d = self.tiles@;
            cycles = cycles + 1;
            proof {
                let m = cands(ts_a, d);

                // Liveness runs back through the three phases.
                assert forall|i: int| live(ts_d, i) implies live(ts_a, i) by {
                    assert(merge_entry_ok(ts_c, ts_d, i));
                }

                // The cycle relation that the next pass sees.
                assert forall|i: int| #[trigger] live(ts_d, i) implies ent(ts_d, i).pos == (
                    if m.contains(i) {
                        stepped(d, ent(ts_a, i).pos)
                    } else {
                        ent(ts_a, i).pos
                    }) by {
                    assert(merge_entry_ok(ts_c, ts_d, i));
                    assert(live(ts_c, i) && live(ts_b, i) && live(ts_a, i));
                    assert(ent(ts_d, i).pos == ent(ts_c, i).pos);
                    assert(ent(ts_c, i).pos == committed_pos(d, ent(ts_b, i)));
                    assert(ent(ts_b, i).moving == m.contains(i));
                    assert(ent(ts_b, i).pos == ent(ts_a, i).pos);
                }
                assert forall|i: int| #[trigger] live(ts_d, i) && !ent(ts_d, i).merged
                    implies !ent(ts_a, i).merged && ent(ts_d, i).tile == ent(ts_a, i).tile by {
                    assert(merge_entry_ok(ts_c, ts_d, i));
                    assert(live(ts_c, i) && live(ts_b, i) && live(ts_a, i));
                    assert(ent(ts_c, i).tile == ent(ts_a, i).tile);
                    assert(ent(ts_c, i).merged == ent(ts_a, i).merged);
                }
                assert forall|i: int| live(ts_a, i) && !live(ts_d, i) implies exists|s: int|
                    #[trigger] live(ts_d, s) && ent(ts_d, s).merged && ent(ts_d, s).pos == (
                        if m.contains(i) {
                            stepped(d, ent(ts_a, i).pos)
                        } else {
                            ent(ts_a, i).pos
                        }) by {
                    assert(live(ts_b, i) && live(ts_c, i));
                    assert(merge_death_ok(ts_c, ts_d, i));
                    let s = choose|s: int| #[trigger] live(ts_d, s) && s != i
                        && ent(ts_d, s).pos == ent(ts_c, i).pos && ent(ts_d, s).merged;
                    assert(ent(ts_c, i).pos == committed_pos(d, ent(ts_b, i)));
                    assert(ent(ts_b, i).moving == m.contains(i));
                    assert(ent(ts_b, i).pos == ent(ts_a, i).pos);
                    assert(live(ts_d, s) && ent(ts_d, s).merged && ent(ts_d, s).pos == (
                        if m.contains(i) {
                            stepped(d, ent(ts_a, i).pos)
                        } else {
                            ent(ts_a, i).pos
                        }));
                }
                assert(cycle_rel(ts_a, ts_d, d));
                lemma_cands_shrink(ts_a, ts_d, d);

                // The distance bound for the next pass's movers.
                assert forall|i: int| #[trigger] cands(ts_d, d).contains(i)
                    implies dist_to_edge(d, ent(ts_d, i).pos) + cycles <= 3 by {
                    assert(cands(ts_a, d).contains(i));
                    assert(dist_to_edge(d, ent(ts_d, i).pos)
                        == dist_to_edge(d, ent(ts_a, i).pos) - 1);
                }

                // Tiles stay in their line and only move toward the edge.
                assert forall|i: int| #[trigger] live(ts_d, i)
                    implies line_of(d, ent(ts_d, i).pos) == line_of(d, ent(ts0, i).pos)
                        && dist_to_edge(d, ent(ts_d, i).pos)
                            <= dist_to_edge(d, ent(ts0, i).pos) by {
                    assert(live(ts_a, i));
                    if m.contains(i) {
                        lemma_mover_has_neighbor(ts_a, d, i);
                        lemma_neighbor_edge_and_order(d, ent(ts_a, i).pos);
                        assert(ent(ts_d, i).pos == stepped(d, ent(ts_a, i).pos));
                    } else {
                        assert(ent(ts_d, i).pos == ent(ts_a, i).pos);
                    }
                }

                // Each tile's level still rose at most once this turn.
                assert forall|i: int| turn_entry_ok(ts0, ts_d, i) by {
                    if live(ts_d, i) {
                        assert(merge_entry_ok(ts_c, ts_d, i));
                        assert(live(ts_c, i) && live(ts_b, i) && live(ts_a, i));
                        assert(turn_entry_ok(ts0, ts_a, i));
                        assert(ent(ts_c, i).tile == ent(ts_a, i).tile);
                        assert(ent(ts_c, i).merged == ent(ts_a, i).merged);
                    }
                }
                assert forall|i: int| live(ts_d, i) implies live(ts0, i) by {
                    assert(merge_entry_ok(ts_c, ts_d, i));
                    assert(live(ts_a, i));
                }

                // The score grew by exactly what this cycle's merges earned.
                assert forall|i: int| 0 <= i < n && i != -1
                    implies gain_at(ts0, ts_b, i) == gain_at(ts0, ts_c, i) by {
                    if live(ts_c, i) {
                        assert(live(ts_b, i));
                    }
                }
                lemma_gains_one_change(ts0, ts_b, ts_c, n, -1);
                assert forall|i: int| #[trigger] live(ts_c, i) && ent(ts_c, i).merged
                    implies live(ts_d, i) && ent(ts_d, i) == ent(ts_c, i) by {
                    if !live(ts_d, i) {
                        assert(merge_death_ok(ts_c, ts_d, i));
                        assert(live(ts_c, i) && !live(ts_d, i));
                        assert(!ent(ts_c, i).merged);
                    }
                    assert(merge_entry_ok(ts_c, ts_d, i));
                }
                assert forall|i: int| live(ts_c, i) implies live(ts0, i) by {
                    assert(live(ts_a, i));
                }
                assert forall|i: int| #[trigger] live(ts_c, i) && live(ts0, i)
                    && ent(ts0, i).merged implies ent(ts_c, i).merged by {
                    assert(live(ts_a, i));
                    assert(turn_entry_ok(ts0, ts_a, i));
                    assert(ent(ts_a, i).merged);
                    assert(ent(ts_c, i).merged == ent(ts_a, i).merged);
                }
                lemma_gains_compose(ts0, ts_c, ts_d, n);
                lemma_gains_nonneg(ts0, ts_c, n);
                lemma_gains_nonneg(ts_c, ts_d, n);
                lemma_sat_add_chain(s0, gains(ts0, ts_c, n), gains(ts_c, ts_d, n));
            }
        }
        cycles
    }
}

} // verus!
