//! Backtracking search over the grid cells in row-major order.
//!
//! The search is specified by a pair of mutually recursive spec functions
//! that describe exactly which grid the search produces: the solver is
//! deterministic, a function of the starting grid alone.

use vstd::prelude::*;
use crate::coord::Coord;
use crate::grid::{Sudoku, is_candidate, wf_grid};
use crate::validate::{InvalidSudokuError, grid_valid};

verus! {

/// The smallest candidate digit for the cell of rank `i` that is at least
/// `d`, or 0 if there is none.
pub open spec fn first_cand_from(g: Seq<Option<u8>>, i: int, d: int) -> int
    decreases 10 - d,
{
    if d < 1 || d > 9 {
        0
    } else if is_candidate(g, i, d as u8) {
        d
    } else {
        first_cand_from(g, i, d + 1)
    }
}

/// What the search does from the cell of rank `i` on: the grid it leaves
/// behind, and whether it reported success.
///
/// At the last cell the search fills in the smallest candidate if the cell
/// is empty and a candidate exists, and reports success either way.  At an
/// already-filled cell it moves on.  At an empty cell it tries the
/// candidates in increasing order.
pub open spec fn spec_solve_at(g: Seq<Option<u8>>, i: int) -> (Seq<Option<u8>>, bool)
    decreases 81 - i, 11int,
{
    if i < 0 || i > 80 {
        (g, true)
    } else if i == 80 {
        if g[80] is None && first_cand_from(g, 80, 1) != 0 {
            (g.update(80, Some(first_cand_from(g, 80, 1) as u8)), true)
        } else {
            (g, true)
        }
    } else if g[i] is Some {
        spec_solve_at(g, i + 1)
    } else {
        spec_try(g, i, 1)
    }
}

/// The candidate loop at the empty cell of rank `i`: place each candidate
/// digit `d`, `d + 1`, ..., 9 in turn and continue at the next cell,
/// keeping the first placement whose continuation succeeds; if none does,
/// leave the grid as it was and report failure.
pub open spec fn spec_try(g: Seq<Option<u8>>, i: int, d: int) -> (Seq<Option<u8>>, bool)
    decreases 81 - i, 10 - d,
{
    if !(0 <= i < 80) || d < 1 || d > 9 {
        (g, false)
    } else if is_candidate(g, i, d as u8) {
        let r = spec_solve_at(g.update(i, Some(d as u8)), i + 1);
        if r.1 {
            r
        } else {
            spec_try(g, i, d + 1)
        }
    } else {
        spec_try(g, i, d + 1)
    }
}

/// A non-zero first candidate is a candidate, and no smaller digit at
/// least `d` is one; zero means there is no candidate at least `d`.
pub proof fn lemma_first_cand(g: Seq<Option<u8>>, i: int, d: int)
    requires
        1 <= d,
    ensures
        ({
            let f = first_cand_from(g, i, d);
            &&& f == 0 ==> forall|e: u8| d <= e <= 9 ==> !is_candidate(g, i, e)
            &&& f != 0 ==> d <= f <= 9 && is_candidate(g, i, f as u8) && (forall|e: u8|
                d <= e < f ==> !is_candidate(g, i, e))
        }),
    decreases 10 - d,
{
    if d > 9 {
    } else if is_candidate(g, i, d as u8) {
    } else {
        lemma_first_cand(g, i, d + 1);
    }
}

/// The search preserves well-formedness and never touches a filled cell,
/// nor any cell before the one it starts at; and a failed search leaves
/// the grid exactly as it found it.
pub proof fn lemma_solve_props(g: Seq<Option<u8>>, i: int)
    requires
        wf_grid(g),
    ensures
        ({
            let (g2, ok) = spec_solve_at(g, i);
            &&& wf_grid(g2)
            &&& forall|j: int| 0 <= j < 81 && g[j] is Some ==> g2[j] == g[j]
            &&& forall|j: int| 0 <= j < 81 && !(i <= j) ==> g2[j] == g[j]
            &&& !ok ==> g2 == g
        }),
    decreases 81 - i, 11int,
{
    if i < 0 || i > 80 {
    } else if i == 80 {
        lemma_first_cand(g, 80, 1);
    } else if g[i] is Some {
        lemma_solve_props(g, i + 1);
    } else {
        lemma_try_props(g, i, 1);
    }
}

/// As `lemma_solve_props`, for the candidate loop.
pub proof fn lemma_try_props(g: Seq<Option<u8>>, i: int, d: int)
    requires
        wf_grid(g),
        0 <= i < 80,
        g[i] is None,
        1 <= d,
    ensures
        ({
            let (g2, ok) = spec_try(g, i, d);
            &&& wf_grid(g2)
            &&& forall|j: int| 0 <= j < 81 && g[j] is Some ==> g2[j] == g[j]
            &&& forall|j: int| 0 <= j < 81 && !(i <= j) ==> g2[j] == g[j]
            &&& !ok ==> g2 == g
        }),
    decreases 81 - i, 10 - d,
{
    if d > 9 {
    } else if is_candidate(g, i, d as u8) {
        let gd = g.update(i, Some(d as u8));
        lemma_solve_props(gd, i + 1);
        if !spec_solve_at(gd, i + 1).1 {
            lemma_try_props(g, i, d + 1);
        }
    } else {
        lemma_try_props(g, i, d + 1);
    }
}

impl Sudoku {
    /// One step of the backtracking search, starting at `current_coord`.
    /// The grid left behind and the reported outcome are exactly those of
    /// the search specification.
    pub fn solve_rec(&mut self, current_coord: Coord) -> (r: bool)
        requires
            old(self).wf(),
            current_coord.wf(),
        ensures
            final(self).wf(),
            final(self)@ == spec_solve_at(old(self)@, current_coord.idx()).0,
            r == spec_solve_at(old(self)@, current_coord.idx()).1,
        decreases 81 - current_coord.idx(),
    {
        let ghost i = current_coord.idx();
        let next = current_coord.next();
        match next {
            None => {
                // Last cell: if it is still empty, fill in the smallest
                // candidate, if any; report success either way.
                if self.get(current_coord).is_some() {
                    return true;
                }
                let cands = self.get_possible_numbers(current_coord);
                match cands.smallest() {
                    Some(n) => {
                        proof {
                            assert forall|e: u8| e < n implies !is_candidate(self@, i, e) by {
                                assert(!cands.has(e));
                            }
                            lemma_first_cand_eq(self@, i, n);
                        }
                        self.set(current_coord, n);
                    },
                    None => {
                        proof {
                            assert forall|e: u8| 1 <= e <= 9 implies !is_candidate(
                                self@,
                                i,
                                e,
                            ) by {
                                assert(!cands.has(e));
                            }
                            lemma_first_cand(self@, i, 1);
                            assert(first_cand_from(self@, i, 1) == 0);
                        }
                    },
                }
                true
            },
            Some(next_coord) => {
                if self.get(current_coord).is_some() {
                    return self.solve_rec(next_coord);
                }
                let cands = self.get_possible_numbers(current_coord);
                let ghost g0 = self@;
                let mut d: u8 = 1;
                while d <= 9
                    invariant
                        wf_grid(g0),
                        g0 == old(self)@,
                        g0[i] is None,
                        self.wf(),
                        current_coord.wf(),
                        i == current_coord.idx(),
                        0 <= i < 80,
                        next_coord.wf(),
                        next_coord.idx() == i + 1,
                        1 <= d <= 10,
                        forall|j: int| 0 <= j < 81 && j != i ==> self@[j] == g0[j],
                        spec_try(g0, i, 1) == spec_try(g0, i, d as int),
                        cands.wf(),
                        forall|e: u8| cands.has(e) <==> is_candidate(g0, i, e),
                    decreases 10 - d,
                {
                    if cands.contains(d) {
                        self.set(current_coord, d);
                        proof {
                            assert(self@ =~= g0.update(i, Some(d)));
                        }
                        if self.solve_rec(next_coord) {
                            return true;
                        }
                        proof {
                            lemma_solve_props(g0.update(i, Some(d)), i + 1);
                        }
                    }
                    d = d + 1;
                }
                self.unset(current_coord);
                proof {
                    assert(self@ =~= g0);
                }
                false
            },
        }
    }

    /// Solves the puzzle: runs the search on a copy of this grid, starting
    /// at (0, 0), and then validates the outcome.  On success the returned
    /// grid is the one the search specification names — solving the same
    /// puzzle twice yields the same grid — it is actually solved (every
    /// row, column, and box holds each digit 1-9 exactly once), and every
    /// originally filled cell keeps its digit.  Otherwise the puzzle is
    /// reported unsolvable, which happens exactly when the search leaves a
    /// grid that does not validate.
    pub fn solve(&self) -> (res: Result<Sudoku, InvalidSudokuError>)
        requires
            self.wf(),
        ensures
            res is Ok <==> grid_valid(spec_solve_at(self@, 0).0),
            res matches Ok(s) ==> {
                &&& s.wf()
                &&& s@ == spec_solve_at(self@, 0).0
                &&& grid_valid(s@)
                &&& forall|j: int| 0 <= j < 81 && self@[j] is Some ==> s@[j] == self@[j]
            },
            res matches Err(e) ==> e == InvalidSudokuError::Unsolvable,
    {
        let mut sudoku = self.clone();
        sudoku.solve_rec(Coord { row: 0, col: 0 });
        proof {
            lemma_solve_props(self@, 0);
        }
        match sudoku.validate() {
            Ok(()) => Ok(sudoku),
            Err(_) => Err(InvalidSudokuError::Unsolvable),
        }
    }
}

/// If `n` is a candidate and no smaller digit is, then `n` is the first
/// candidate.
proof fn lemma_first_cand_eq(g: Seq<Option<u8>>, i: int, n: u8)
    requires
        1 <= n <= 9,
        is_candidate(g, i, n),
        forall|e: u8| e < n ==> !is_candidate(g, i, e),
    ensures
        first_cand_from(g, i, 1) == n,
{
    lemma_first_cand_eq_from(g, i, 1, n);
}

proof fn lemma_first_cand_eq_from(g: Seq<Option<u8>>, i: int, d: int, n: u8)
    requires
        1 <= d <= n <= 9,
        is_candidate(g, i, n),
        forall|e: u8| e < n ==> !is_candidate(g, i, e),
    ensures
        first_cand_from(g, i, d) == n,
    decreases 10 - d,
{
    if d == n {
    } else {
        assert(!is_candidate(g, i, d as u8));
        lemma_first_cand_eq_from(g, i, d + 1, n);
    }
}

} // verus!
