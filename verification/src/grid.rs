//! The grid model: positions on the 4 x 4 board, the four moving
//! directions, neighbor lookup and the direction-dependent scan order.

use vstd::prelude::*;
use vstd::arithmetic::div_mod::{
    lemma_fundamental_div_mod_converse_div, lemma_fundamental_div_mod_converse_mod,
};

verus! {

/// One of the 16 cells of the board, by row and column (each in `0..4`).
#[derive(Debug, Default, Clone, Copy, PartialEq, Eq, Structural)]
pub struct Position {
    pub row: usize,
    pub col: usize,
}

impl Position {
    /// The position lies on the board.
    pub open spec fn wf(self) -> bool {
        self.row < 4 && self.col < 4
    }

    /// Index of the position on a board represented by a flat array of
    /// 16 cells, row by row.
    pub fn index(&self) -> (r: usize)
        requires
            self.wf(),
        ensures
            r == self.row * 4 + self.col,
            r < 16,
    {
        self.row * 4 + self.col
    }
}

/// The direction a whole turn moves the tiles in.
#[derive(Debug, Clone, Copy, PartialEq, Eq, Structural)]
pub enum MovingDirection {
    Left,
    Up,
    Right,
    Down,
}

/// The cell one step from `p` toward the edge that `d` points at, or
/// `None` when `p` already sits on that edge.  Rows grow upward, so `Up`
/// increases the row.
pub open spec fn neighbor(d: MovingDirection, p: Position) -> Option<Position> {
    match d {
        MovingDirection::Left => if p.col > 0 {
            Some(Position { row: p.row, col: (p.col - 1) as usize })
        } else {
            None
        },
        MovingDirection::Right => if p.col < 3 {
            Some(Position { row: p.row, col: (p.col + 1) as usize })
        } else {
            None
        },
        MovingDirection::Up => if p.row < 3 {
            Some(Position { row: (p.row + 1) as usize, col: p.col })
        } else {
            None
        },
        MovingDirection::Down => if p.row > 0 {
            Some(Position { row: (p.row - 1) as usize, col: p.col })
        } else {
            None
        },
    }
}

/// `p` sits on the edge that `d` points at, the destination edge of a move.
pub open spec fn at_target_edge(d: MovingDirection, p: Position) -> bool {
    match d {
        MovingDirection::Left => p.col == 0,
        MovingDirection::Right => p.col == 3,
        MovingDirection::Up => p.row == 3,
        MovingDirection::Down => p.row == 0,
    }
}

/// How many cells lie between `p` and the destination edge of `d`.
pub open spec fn dist_to_edge(d: MovingDirection, p: Position) -> int {
    match d {
        MovingDirection::Left => p.col as int,
        MovingDirection::Right => 3 - p.col,
        MovingDirection::Up => 3 - p.row,
        MovingDirection::Down => p.row as int,
    }
}

/// The line a move happens along: the row for a horizontal direction,
/// the column for a vertical one.  Sliding never leaves its line.
pub open spec fn line_of(d: MovingDirection, p: Position) -> int {
    match d {
        MovingDirection::Left => p.row as int,
        MovingDirection::Right => p.row as int,
        MovingDirection::Up => p.col as int,
        MovingDirection::Down => p.col as int,
    }
}

/// The `k`-th position of the scan order of `d`: lines are walked with the
/// axis of movement innermost, starting at the cell on the destination edge,
/// so that of two cells in one line the one nearer that edge comes first.
pub open spec fn scan_pos(d: MovingDirection, k: int) -> Position {
    match d {
        MovingDirection::Left => Position { row: (k / 4) as usize, col: (k % 4) as usize },
        MovingDirection::Right => Position { row: (k / 4) as usize, col: (3 - k % 4) as usize },
        MovingDirection::Up => Position { row: (3 - k % 4) as usize, col: (k / 4) as usize },
        MovingDirection::Down => Position { row: (k % 4) as usize, col: (k / 4) as usize },
    }
}

/// Where `p` stands in the scan order of `d`; the inverse of `scan_pos`.
pub open spec fn scan_index(d: MovingDirection, p: Position) -> int {
    match d {
        MovingDirection::Left => p.row * 4 + p.col,
        MovingDirection::Right => p.row * 4 + (3 - p.col),
        MovingDirection::Up => p.col * 4 + (3 - p.row),
        MovingDirection::Down => p.col * 4 + p.row,
    }
}

/// `scan_index` inverts `scan_pos` on the board.
pub proof fn lemma_scan_index_of_pos(d: MovingDirection, p: Position)
    requires
        p.wf(),
    ensures
        0 <= scan_index(d, p) < 16,
        scan_pos(d, scan_index(d, p)) == p,
{
    let i = scan_index(d, p);
    match d {
        MovingDirection::Left => {
            lemma_fundamental_div_mod_converse_div(i, 4, p.row as int, p.col as int);
            lemma_fundamental_div_mod_converse_mod(i, 4, p.row as int, p.col as int);
        },
        MovingDirection::Right => {
            lemma_fundamental_div_mod_converse_div(i, 4, p.row as int, 3 - p.col);
            lemma_fundamental_div_mod_converse_mod(i, 4, p.row as int, 3 - p.col);
        },
        MovingDirection::Up => {
            lemma_fundamental_div_mod_converse_div(i, 4, p.col as int, 3 - p.row);
            lemma_fundamental_div_mod_converse_mod(i, 4, p.col as int, 3 - p.row);
        },
        MovingDirection::Down => {
            lemma_fundamental_div_mod_converse_div(i, 4, p.col as int, p.row as int);
            lemma_fundamental_div_mod_converse_mod(i, 4, p.col as int, p.row as int);
        },
    }
}

/// Every scan step lands on the board, and `scan_pos` inverts `scan_index`.
pub proof fn lemma_scan_pos_of_index(d: MovingDirection, k: int)
    requires
        0 <= k < 16,
    ensures
        scan_pos(d, k).wf(),
        scan_index(d, scan_pos(d, k)) == k,
{
    lemma_fundamental_div_mod_converse_div(k, 4, k / 4, k % 4);
    lemma_fundamental_div_mod_converse_mod(k, 4, k / 4, k % 4);
    assert(0 <= k % 4 < 4);
    assert(0 <= k / 4 < 4);
}

/// Law: the scan order of every direction visits each of the 16 board
/// positions exactly once — distinct steps land on distinct cells, and every
/// cell is some step's target.
pub proof fn lemma_scan_order_bijective(d: MovingDirection)
    ensures
        forall|k: int| 0 <= k < 16 ==> (#[trigger] scan_pos(d, k)).wf(),
        forall|k: int, l: int|
            0 <= k < 16 && 0 <= l < 16 && k != l ==> scan_pos(d, k) != scan_pos(d, l),
        forall|p: Position| p.wf() ==> exists|k: int| 0 <= k < 16 && scan_pos(d, k) == p,
{
    assert forall|k: int| 0 <= k < 16 implies (#[trigger] scan_pos(d, k)).wf() by {
        lemma_scan_pos_of_index(d, k);
    }
    assert forall|k: int, l: int|
        0 <= k < 16 && 0 <= l < 16 && k != l implies scan_pos(d, k) != scan_pos(d, l) by {
        lemma_scan_pos_of_index(d, k);
        lemma_scan_pos_of_index(d, l);
    }
    assert forall|p: Position| p.wf() implies exists|k: int|
        0 <= k < 16 && scan_pos(d, k) == p by {
        lemma_scan_index_of_pos(d, p);
        assert(0 <= scan_index(d, p) < 16 && scan_pos(d, scan_index(d, p)) == p);
    }
}

/// Law: `neighbor(d, p)` is `None` exactly when `p` sits on the destination
/// edge of `d`; otherwise it is the adjacent cell one step nearer that edge,
/// which the scan order visits first.
pub proof fn lemma_neighbor_edge_and_order(d: MovingDirection, p: Position)
    requires
        p.wf(),
    ensures
        neighbor(d, p) is None <==> at_target_edge(d, p),
        neighbor(d, p) is None <==> dist_to_edge(d, p) == 0,
        neighbor(d, p) matches Some(n) ==> n.wf()
            && dist_to_edge(d, n) == dist_to_edge(d, p) - 1
            && line_of(d, n) == line_of(d, p)
            && scan_index(d, n) == scan_index(d, p) - 1,
{
}

/// Two cells with the same neighbor toward `d` are the same cell.
pub proof fn lemma_neighbor_injective(d: MovingDirection, p1: Position, p2: Position)
    requires
        p1.wf(),
        p2.wf(),
        neighbor(d, p1) is Some,
        neighbor(d, p1) == neighbor(d, p2),
    ensures
        p1 == p2,
{
}

impl MovingDirection {
    /// The cell a tile at `pos` moves into: one step toward this
    /// direction's edge, or `None` when the tile already sits on it.
    pub fn moved_position(&self, pos: &Position) -> (r: Option<Position>)
        requires
            pos.wf(),
        ensures
            r == neighbor(*self, *pos),
    {
        match self {
            MovingDirection::Left => if pos.col > 0 {
                Some(Position { row: pos.row, col: pos.col - 1 })
            } else {
                None
            },
            MovingDirection::Right => if pos.col < 3 {
                Some(Position { row: pos.row, col: pos.col + 1 })
            } else {
                None
            },
            MovingDirection::Up => if pos.row < 3 {
                Some(Position { row: pos.row + 1, col: pos.col })
            } else {
                None
            },
            MovingDirection::Down => if pos.row > 0 {
                Some(Position { row: pos.row - 1, col: pos.col })
            } else {
                None
            },
        }
    }

    /// The order in which one resolve pass visits the 16 cells: cells
    /// nearer the destination edge come before cells farther from it, so a
    /// single pass can cascade slides along each line.
    pub fn scan_order(&self) -> (r: Vec<Position>)
        ensures
            r@.len() == 16,
            forall|k: int| 0 <= k < 16 ==> r@[k] == scan_pos(*self, k),
    {
        let mut r: Vec<Position> = Vec::new();
        let mut k: usize = 0;
        while k < 16
            invariant
                k <= 16,
                r@.len() == k,
                forall|j: int| 0 <= j < k ==> r@[j] == scan_pos(*self, j),
            decreases 16 - k,
        {
            let outer: usize = k / 4;
            let inner: usize = k % 4;
            let p = match self {
                MovingDirection::Left => Position { row: outer, col: inner },
                MovingDirection::Right => Position { row: outer, col: 3 - inner },
                MovingDirection::Up => Position { row: 3 - inner, col: outer },
                MovingDirection::Down => Position { row: inner, col: outer },
            };
            r.push(p);
            k = k + 1;
        }
        r
    }
}

} // verus!
