//! The 9x9 board and its derived digit views.

use vstd::prelude::*;
use vstd::pervasive::VecAdditionalExecFns;
use crate::coord::Coord;
use crate::digits::Digits;

verus! {

/// A 9x9 Sudoku board, stored as 81 cells in row-major order.  A cell holds
/// a digit 1-9 or nothing.
#[derive(Debug, PartialEq, Eq)]
pub struct Sudoku {
    pub cells: Vec<Option<u8>>,
}

/// The cell of grid `g` at row `r`, column `c`.
pub open spec fn at(g: Seq<Option<u8>>, r: int, c: int) -> Option<u8> {
    g[r * 9 + c]
}

/// The contents of row `r` of grid `g` include digit `d`.
pub open spec fn in_row(g: Seq<Option<u8>>, r: int, d: u8) -> bool {
    exists|j: int| 0 <= j < 9 && #[trigger] at(g, r, j) == Some(d)
}

/// The contents of column `c` of grid `g` include digit `d`.
pub open spec fn in_col(g: Seq<Option<u8>>, c: int, d: u8) -> bool {
    exists|j: int| 0 <= j < 9 && #[trigger] at(g, j, c) == Some(d)
}

/// The contents of the 3x3 box with box coordinates (`br`, `bc`) include
/// digit `d`.
pub open spec fn in_house(g: Seq<Option<u8>>, br: int, bc: int, d: u8) -> bool {
    exists|rr: int, cc: int|
        br * 3 <= rr < br * 3 + 3 && bc * 3 <= cc < bc * 3 + 3 && #[trigger] at(g, rr, cc)
            == Some(d)
}

/// Digit `d` may legally be placed on the empty cell of rank `i`: it is
/// absent from the cell's row, column, and box.
pub open spec fn is_candidate(g: Seq<Option<u8>>, i: int, d: u8) -> bool {
    &&& 1 <= d <= 9
    &&& !in_row(g, i / 9, d)
    &&& !in_col(g, i % 9, d)
    &&& !in_house(g, (i / 9) / 3, (i % 9) / 3, d)
}

/// A grid sequence has 81 cells, every one empty or a digit 1-9.
pub open spec fn wf_grid(g: Seq<Option<u8>>) -> bool {
    &&& g.len() == 81
    &&& forall|i: int| 0 <= i < 81 ==> (#[trigger] g[i] matches Some(d) ==> 1 <= d <= 9)
}

impl View for Sudoku {
    type V = Seq<Option<u8>>;

    open spec fn view(&self) -> Seq<Option<u8>> {
        self.cells@
    }
}

impl Clone for Sudoku {
    /// An exact copy of the board.
    fn clone(&self) -> (r: Self)
        ensures
            r@ == self@,
    {
        let mut cells: Vec<Option<u8>> = Vec::new();
        let mut i: usize = 0;
        while i < self.cells.len()
            invariant
                i <= self.cells.len(),
                cells@ == self.cells@.subrange(0, i as int),
            decreases self.cells.len() - i,
        {
            cells.push(self.cells[i]);
            i = i + 1;
        }
        proof {
            assert(cells@ =~= self.cells@);
        }
        Sudoku { cells }
    }
}

impl Sudoku {
    /// The board is well-formed: 81 cells, each empty or a digit 1-9.
    pub open spec fn wf(&self) -> bool {
        wf_grid(self@)
    }

    /// The cell at `coord`.
    pub fn get(&self, coord: Coord) -> (r: Option<u8>)
        requires
            self.wf(),
            coord.wf(),
        ensures
            r == self@[coord.idx()],
    {
        self.cells[(coord.row as usize) * 9 + (coord.col as usize)]
    }

    /// Sets the cell at `coord` to hold `value`.
    pub fn set(&mut self, coord: Coord, value: u8)
        requires
            old(self).wf(),
            coord.wf(),
            1 <= value <= 9,
        ensures
            final(self).wf(),
            final(self)@ == old(self)@.update(coord.idx(), Some(value)),
    {
        self.cells.set((coord.row as usize) * 9 + (coord.col as usize), Some(value));
    }

    /// Sets the cell at `coord` back to empty.
    pub fn unset(&mut self, coord: Coord)
        requires
            old(self).wf(),
            coord.wf(),
        ensures
            final(self).wf(),
            final(self)@ == old(self)@.update(coord.idx(), None::<u8>),
    {
        self.cells.set((coord.row as usize) * 9 + (coord.col as usize), None);
    }

    /// The set of digits present in row `index`.
    pub fn get_row(&self, index: u8) -> (r: Digits)
        requires
            self.wf(),
            index < 9,
        ensures
            r.wf(),
            forall|d: u8| r.has(d) <==> in_row(self@, index as int, d),
    {
        let mut r = Digits::empty();
        let mut j: usize = 0;
        while j < 9
            invariant
                self.wf(),
                index < 9,
                j <= 9,
                r.wf(),
                forall|d: u8| r.has(d) <==> exists|jj: int|
                    0 <= jj < j && #[trigger] at(self@, index as int, jj) == Some(d),
            decreases 9 - j,
        {
            proof {
                assert(at(self@, index as int, j as int) == self@[index * 9 + (j as int)]);
            }
            if let Some(n) = self.cells[(index as usize) * 9 + j] {
                r = r.insert(n);
            }
            j = j + 1;
        }
        r
    }

    /// The set of digits present in column `index`.
    pub fn get_col(&self, index: u8) -> (r: Digits)
        requires
            self.wf(),
            index < 9,
        ensures
            r.wf(),
            forall|d: u8| r.has(d) <==> in_col(self@, index as int, d),
    {
        let mut r = Digits::empty();
        let mut j: usize = 0;
        while j < 9
            invariant
                self.wf(),
                index < 9,
                j <= 9,
                r.wf(),
                forall|d: u8| r.has(d) <==> exists|jj: int|
                    0 <= jj < j && #[trigger] at(self@, jj, index as int) == Some(d),
            decreases 9 - j,
        {
            proof {
                assert(at(self@, j as int, index as int) == self@[(j as int) * 9 + index]);
            }
            if let Some(n) = self.cells[j * 9 + (index as usize)] {
                r = r.insert(n);
            }
            j = j + 1;
        }
        r
    }

    /// The set of digits present in the 3x3 box with box coordinates
    /// `coord` (both components in `[0, 2]`); (2, 1) names the
    /// bottom-middle box.
    pub fn get_house(&self, coord: Coord) -> (r: Digits)
        requires
            self.wf(),
            coord.row < 3,
            coord.col < 3,
        ensures
            r.wf(),
            forall|d: u8| r.has(d) <==> in_house(self@, coord.row as int, coord.col as int, d),
    {
        let mut r = Digits::empty();
        let row_start = (coord.row as usize) * 3;
        let col_start = (coord.col as usize) * 3;
        let mut rr: usize = 0;
        while rr < 3
            invariant
                self.wf(),
                coord.row < 3,
                coord.col < 3,
                row_start == coord.row * 3,
                col_start == coord.col * 3,
                rr <= 3,
                r.wf(),
                forall|d: u8| r.has(d) <==> exists|r2: int, c2: int|
                    coord.row * 3 <= r2 < coord.row * 3 + rr && coord.col * 3 <= c2 < coord.col
                        * 3 + 3 && #[trigger] at(self@, r2, c2) == Some(d),
            decreases 3 - rr,
        {
            let mut cc: usize = 0;
            while cc < 3
                invariant
                    self.wf(),
                    coord.row < 3,
                    coord.col < 3,
                    row_start == coord.row * 3,
                    col_start == coord.col * 3,
                    rr < 3,
                    cc <= 3,
                    r.wf(),
                    forall|d: u8| r.has(d) <==> exists|r2: int, c2: int|
                        (coord.row * 3 <= r2 < coord.row * 3 + rr && coord.col * 3 <= c2
                            < coord.col * 3 + 3 || r2 == coord.row * 3 + rr && coord.col * 3 <= c2
                            < coord.col * 3 + cc) && #[trigger] at(self@, r2, c2) == Some(d),
                decreases 3 - cc,
            {
                proof {
                    assert(at(self@, (row_start + rr) as int, (col_start + cc) as int) == self@[((
                    row_start + rr) as int) * 9 + ((col_start + cc) as int)]);
                }
                if let Some(n) = self.cells[(row_start + rr) * 9 + col_start + cc] {
                    r = r.insert(n);
                }
                cc = cc + 1;
            }
            rr = rr + 1;
        }
        r
    }

    /// The candidates for the cell at `coord`: the digits 1-9 that appear
    /// nowhere in its row, column, or box.
    pub fn get_possible_numbers(&self, coord: Coord) -> (r: Digits)
        requires
            self.wf(),
            coord.wf(),
        ensures
            r.wf(),
            forall|d: u8| r.has(d) <==> is_candidate(self@, coord.idx(), d),
    {
        let row = self.get_row(coord.row);
        let col = self.get_col(coord.col);
        let house = self.get_house(Coord { row: coord.row / 3, col: coord.col / 3 });
        let r = Digits::full().diff(row).diff(col).diff(house);
        proof {
            assert(coord.idx() / 9 == coord.row && coord.idx() % 9 == coord.col)
                by (nonlinear_arith)
                requires
                    coord.idx() == coord.row * 9 + coord.col,
                    coord.row < 9,
                    coord.col < 9,
            ;
        }
        r
    }
}

} // verus!
