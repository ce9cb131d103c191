//! Cell coordinates and the row-major successor.

use vstd::prelude::*;

verus! {

/// A cell position: a (row, column) pair, each in `[0, 8]`.
#[derive(Clone, Copy, Debug, PartialEq, Eq, Structural)]
pub struct Coord {
    pub row: u8,
    pub col: u8,
}

impl Coord {
    /// Both components are on the 9x9 board.
    pub open spec fn wf(self) -> bool {
        self.row < 9 && self.col < 9
    }

    /// The row-major rank of this cell, in `[0, 80]` for a well-formed coordinate.
    pub open spec fn idx(self) -> int {
        self.row * 9 + self.col
    }

    /// The cell of a given row-major rank.
    pub open spec fn from_idx(k: int) -> Coord {
        Coord { row: (k / 9) as u8, col: (k % 9) as u8 }
    }

    /// The row-major successor: one step right, wrapping to the start of the
    /// next row; the last cell (8, 8) has no successor.
    pub fn next(&self) -> (r: Option<Coord>)
        requires
            self.wf(),
        ensures
            match r {
                Some(n) => n.wf() && n.idx() == self.idx() + 1,
                None => self.idx() == 80,
            },
    {
        let next_col: u8 = if self.col < 8 {
            self.col + 1
        } else {
            0
        };
        let next_row: u8 = if next_col == 0 {
            self.row + 1
        } else {
            self.row
        };
        if next_row < 9 {
            Some(Coord { row: next_row, col: next_col })
        } else {
            None
        }
    }
}

/// The successor law: starting from (0, 0), taking the row-major successor
/// walks the ranks 0, 1, ..., 80 and then stops.  Rank `k` names the cell
/// `from_idx(k)`; distinct ranks name distinct cells, every well-formed cell
/// is named by its own rank, and rank 80 is the last cell (8, 8).
pub proof fn lemma_successor_law()
    ensures
        Coord::from_idx(0) == (Coord { row: 0, col: 0 }),
        Coord::from_idx(80) == (Coord { row: 8, col: 8 }),
        forall|k: int| 0 <= k < 81 ==> (#[trigger] Coord::from_idx(k)).wf(),
        forall|k: int| 0 <= k < 81 ==> (#[trigger] Coord::from_idx(k)).idx() == k,
        forall|c: Coord| c.wf() ==> Coord::from_idx(#[trigger] c.idx()) == c,
        forall|c: Coord| c.wf() ==> 0 <= #[trigger] c.idx() < 81,
{
    assert forall|k: int| 0 <= k < 81 implies (#[trigger] Coord::from_idx(k)).wf()
        && Coord::from_idx(k).idx() == k by {
        assert(0 <= k / 9 < 9 && 0 <= k % 9 < 9 && (k / 9) * 9 + k % 9 == k) by (nonlinear_arith)
            requires 0 <= k < 81;
    }
    assert forall|c: Coord| c.wf() implies Coord::from_idx(#[trigger] c.idx()) == c
        && 0 <= c.idx() < 81 by {
        let k = c.idx();
        assert(k / 9 == c.row && k % 9 == c.col) by (nonlinear_arith)
            requires k == c.row * 9 + c.col, c.row < 9, c.col < 9;
    }
}

} // verus!
