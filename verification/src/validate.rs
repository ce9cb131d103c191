//! Global consistency checking, decoupled from the search.
//!
//! The validator sums the set of distinct digits present in each row,
//! column, and box.  A set of distinct digits drawn from 1-9 sums to 45
//! exactly when it is all of 1-9; and a group of nine cells that shows all
//! nine digits must hold each of them exactly once.  The check is therefore
//! proved equivalent to full validity: every row, column, and box holds
//! each digit 1-9 exactly once.

use vstd::prelude::*;
use crate::coord::Coord;
use crate::digits::{Digits, lemma_sum_is_45};
use crate::grid::{Sudoku, at, in_col, in_house, in_row, wf_grid};

verus! {

/// A way in which a grid fails to be solved, or the report that no
/// solution exists.
#[derive(Clone, Copy, Debug, PartialEq, Eq, Structural)]
pub enum InvalidSudokuError {
    /// No consistent, complete grid could be produced.
    Unsolvable,
    /// The row with this index does not hold each digit exactly once.
    InvalidRow(u8),
    /// The column with this index does not hold each digit exactly once.
    InvalidCol(u8),
    /// The box with these box coordinates does not hold each digit
    /// exactly once.
    InvalidHouse(Coord),
}

/// The nine cells of row `r`, in order.
pub open spec fn row_seq(g: Seq<Option<u8>>, r: int) -> Seq<Option<u8>> {
    Seq::new(9, |j: int| at(g, r, j))
}

/// The nine cells of column `c`, in order.
pub open spec fn col_seq(g: Seq<Option<u8>>, c: int) -> Seq<Option<u8>> {
    Seq::new(9, |j: int| at(g, j, c))
}

/// The nine cells of the box with box coordinates (`br`, `bc`), in
/// row-major order.
pub open spec fn house_seq(g: Seq<Option<u8>>, br: int, bc: int) -> Seq<Option<u8>> {
    Seq::new(9, |k: int| at(g, br * 3 + k / 3, bc * 3 + k % 3))
}

/// How many cells of `s` hold digit `d`.
pub open spec fn count(s: Seq<Option<u8>>, d: u8) -> nat
    decreases s.len(),
{
    if s.len() == 0 {
        0
    } else {
        count(s.drop_last(), d) + (if s.last() == Some(d) {
            1nat
        } else {
            0nat
        })
    }
}

/// How many cells of `s` are filled.
pub open spec fn filled(s: Seq<Option<u8>>) -> nat
    decreases s.len(),
{
    if s.len() == 0 {
        0
    } else {
        filled(s.drop_last()) + (if s.last() is Some {
            1nat
        } else {
            0nat
        })
    }
}

/// The number of cells of `s` holding `d`, summed over the digits `d`,
/// `d + 1`, ..., 9.
pub open spec fn total_counts(s: Seq<Option<u8>>, d: int) -> nat
    decreases 10 - d,
{
    if d < 1 || d > 9 {
        0
    } else {
        count(s, d as u8) + total_counts(s, d + 1)
    }
}

/// A group of nine cells is valid when it holds each digit 1-9 exactly
/// once.
pub open spec fn group_valid(s: Seq<Option<u8>>) -> bool {
    forall|d: u8| 1 <= d <= 9 ==> count(s, d) == 1
}

/// Every cell of the group holds a digit 1-9 or nothing.
pub open spec fn group_wf(s: Seq<Option<u8>>) -> bool {
    forall|j: int| 0 <= j < s.len() ==> (#[trigger] s[j] matches Some(d) ==> 1 <= d <= 9)
}

/// A grid is valid — actually solved — when every row, column, and box
/// holds each digit 1-9 exactly once.
pub open spec fn grid_valid(g: Seq<Option<u8>>) -> bool {
    &&& wf_grid(g)
    &&& forall|r: int| 0 <= r < 9 ==> group_valid(#[trigger] row_seq(g, r))
    &&& forall|c: int| 0 <= c < 9 ==> group_valid(#[trigger] col_seq(g, c))
    &&& forall|br: int, bc: int| 0 <= br < 3 && 0 <= bc < 3 ==> group_valid(
        #[trigger] house_seq(g, br, bc),
    )
}

/// A digit is counted at least once exactly when some cell holds it.
proof fn lemma_count_present(s: Seq<Option<u8>>, d: u8)
    ensures
        count(s, d) >= 1 <==> exists|j: int| 0 <= j < s.len() && s[j] == Some(d),
    decreases s.len(),
{
    if s.len() > 0 {
        lemma_count_present(s.drop_last(), d);
        if s.last() == Some(d) {
            assert(s[s.len() - 1] == Some(d));
        } else if count(s, d) >= 1 {
            let j = choose|j: int| 0 <= j < s.len() - 1 && s.drop_last()[j] == Some(d);
            assert(s[j] == Some(d));
        } else if exists|j: int| 0 <= j < s.len() && s[j] == Some(d) {
            let j = choose|j: int| 0 <= j < s.len() && s[j] == Some(d);
            assert(j < s.len() - 1 && s.drop_last()[j] == Some(d));
        }
    }
}

/// No more cells are filled than there are cells.
proof fn lemma_filled_le(s: Seq<Option<u8>>)
    ensures
        filled(s) <= s.len(),
    decreases s.len(),
{
    if s.len() > 0 {
        lemma_filled_le(s.drop_last());
    }
}

proof fn lemma_total_empty(s: Seq<Option<u8>>, d: int)
    requires
        s.len() == 0,
    ensures
        total_counts(s, d) == 0,
    decreases 10 - d,
{
    if 1 <= d <= 9 {
        lemma_total_empty(s, d + 1);
    }
}

/// Dropping the last cell lowers the tail of digit counts by one exactly
/// when that cell holds a digit in the tail's range.
proof fn lemma_total_drop(s: Seq<Option<u8>>, d: int)
    requires
        s.len() > 0,
        1 <= d,
    ensures
        total_counts(s, d) == total_counts(s.drop_last(), d) + (match s.last() {
            Some(e) => if d <= e <= 9 {
                1nat
            } else {
                0nat
            },
            None => 0nat,
        }),
    decreases 10 - d,
{
    if 1 <= d <= 9 {
        lemma_total_drop(s, d + 1);
    }
}

/// Each filled cell holding a digit 1-9 is counted exactly once across the
/// nine digit counts.
proof fn lemma_total_filled(s: Seq<Option<u8>>)
    requires
        group_wf(s),
    ensures
        total_counts(s, 1) == filled(s),
    decreases s.len(),
{
    if s.len() == 0 {
        lemma_total_empty(s, 1);
    } else {
        assert(group_wf(s.drop_last())) by {
            assert(forall|j: int| 0 <= j < s.len() - 1 ==> s.drop_last()[j] == s[j]);
        }
        lemma_total_filled(s.drop_last());
        lemma_total_drop(s, 1);
        assert(s[s.len() - 1] == s.last());
    }
}

/// If every digit from `d` up is counted at least once, the tail of counts
/// is at least the number of those digits.
proof fn lemma_total_lower(s: Seq<Option<u8>>, d: int)
    requires
        1 <= d <= 10,
        forall|e: u8| d <= e <= 9 ==> count(s, e) >= 1,
    ensures
        total_counts(s, d) >= 10 - d,
    decreases 10 - d,
{
    if d <= 9 {
        lemma_total_lower(s, d + 1);
    }
}

/// If every digit from `d` up is counted at least once but the tail of
/// counts is no more than the number of those digits, each is counted
/// exactly once.
proof fn lemma_total_ones(s: Seq<Option<u8>>, d: int)
    requires
        1 <= d <= 10,
        forall|e: u8| d <= e <= 9 ==> count(s, e) >= 1,
        total_counts(s, d) <= 10 - d,
    ensures
        forall|e: u8| d <= e <= 9 ==> count(s, e) == 1,
    decreases 10 - d,
{
    if d <= 9 {
        lemma_total_lower(s, d + 1);
        lemma_total_ones(s, d + 1);
    }
}

/// Pigeonhole for one group: nine cells that show all nine digits hold
/// each exactly once.
proof fn lemma_group_all_present(s: Seq<Option<u8>>)
    requires
        s.len() == 9,
        group_wf(s),
        forall|d: u8| 1 <= d <= 9 ==> count(s, d) >= 1,
    ensures
        group_valid(s),
{
    lemma_filled_le(s);
    lemma_total_filled(s);
    lemma_total_ones(s, 1);
}

/// The distinct-digit sum of a group is 45 exactly when the group is
/// valid.
proof fn lemma_group_sum(s: Seq<Option<u8>>, ds: Digits)
    requires
        s.len() == 9,
        group_wf(s),
        forall|d: u8| ds.has(d) <==> exists|j: int| 0 <= j < s.len() && s[j] == Some(d),
    ensures
        ds.spec_sum() == 45 <==> group_valid(s),
{
    lemma_sum_is_45(ds);
    if ds.spec_sum() == 45 {
        assert forall|d: u8| 1 <= d <= 9 implies count(s, d) >= 1 by {
            assert(ds.has(d));
            lemma_count_present(s, d);
        }
        lemma_group_all_present(s);
    }
    if group_valid(s) {
        assert forall|d: u8| 1 <= d <= 9 implies ds.has(d) by {
            assert(count(s, d) == 1);
            lemma_count_present(s, d);
        }
        assert(ds.spec_sum() == 45);
    }
}

/// The digits of a row, as `get_row` reports them, are the digits of the
/// row's cell sequence.
proof fn lemma_row_digits(g: Seq<Option<u8>>, r: int, ds: Digits)
    requires
        forall|d: u8| ds.has(d) <==> in_row(g, r, d),
    ensures
        forall|d: u8| ds.has(d) <==> exists|j: int|
            0 <= j < row_seq(g, r).len() && row_seq(g, r)[j] == Some(d),
{
    let s = row_seq(g, r);
    assert forall|d: u8| ds.has(d) <==> exists|j: int| 0 <= j < s.len() && s[j] == Some(d) by {
        if ds.has(d) {
            let j = choose|j: int| 0 <= j < 9 && at(g, r, j) == Some(d);
            assert(s[j] == Some(d));
        }
        if exists|j: int| 0 <= j < s.len() && s[j] == Some(d) {
            let j = choose|j: int| 0 <= j < s.len() && s[j] == Some(d);
            assert(at(g, r, j) == Some(d));
        }
    }
}

/// As `lemma_row_digits`, for a column.
proof fn lemma_col_digits(g: Seq<Option<u8>>, c: int, ds: Digits)
    requires
        forall|d: u8| ds.has(d) <==> in_col(g, c, d),
    ensures
        forall|d: u8| ds.has(d) <==> exists|j: int|
            0 <= j < col_seq(g, c).len() && col_seq(g, c)[j] == Some(d),
{
    let s = col_seq(g, c);
    assert forall|d: u8| ds.has(d) <==> exists|j: int| 0 <= j < s.len() && s[j] == Some(d) by {
        if ds.has(d) {
            let j = choose|j: int| 0 <= j < 9 && at(g, j, c) == Some(d);
            assert(s[j] == Some(d));
        }
        if exists|j: int| 0 <= j < s.len() && s[j] == Some(d) {
            let j = choose|j: int| 0 <= j < s.len() && s[j] == Some(d);
            assert(at(g, j, c) == Some(d));
        }
    }
}

/// As `lemma_row_digits`, for a box.
proof fn lemma_house_digits(g: Seq<Option<u8>>, br: int, bc: int, ds: Digits)
    requires
        0 <= br < 3,
        0 <= bc < 3,
        forall|d: u8| ds.has(d) <==> in_house(g, br, bc, d),
    ensures
        forall|d: u8| ds.has(d) <==> exists|k: int|
            0 <= k < house_seq(g, br, bc).len() && house_seq(g, br, bc)[k] == Some(d),
{
    let s = house_seq(g, br, bc);
    assert forall|d: u8| ds.has(d) <==> exists|k: int| 0 <= k < s.len() && s[k] == Some(d) by {
        if ds.has(d) {
            let (rr, cc) = choose|rr: int, cc: int|
                br * 3 <= rr < br * 3 + 3 && bc * 3 <= cc < bc * 3 + 3 && #[trigger] at(g, rr, cc)
                    == Some(d);
            let k = (rr - br * 3) * 3 + (cc - bc * 3);
            assert(k / 3 == rr - br * 3 && k % 3 == cc - bc * 3) by (nonlinear_arith)
                requires
                    0 <= rr - br * 3 < 3,
                    0 <= cc - bc * 3 < 3,
                    k == (rr - br * 3) * 3 + (cc - bc * 3),
            ;
            assert(s[k] == Some(d));
        }
        if exists|k: int| 0 <= k < s.len() && s[k] == Some(d) {
            let k = choose|k: int| 0 <= k < s.len() && s[k] == Some(d);
            assert(0 <= k / 3 < 3 && 0 <= k % 3 < 3) by (nonlinear_arith)
                requires
                    0 <= k < 9,
            ;
            assert(at(g, br * 3 + k / 3, bc * 3 + k % 3) == Some(d));
        }
    }
}

/// Row `r` of `g` is a valid group.
pub open spec fn row_ok(g: Seq<Option<u8>>, r: int) -> bool {
    group_valid(row_seq(g, r))
}

/// Column `c` of `g` is a valid group.
pub open spec fn col_ok(g: Seq<Option<u8>>, c: int) -> bool {
    group_valid(col_seq(g, c))
}

/// The box of `g` with box coordinates (`br`, `bc`) is a valid group.
pub open spec fn house_ok(g: Seq<Option<u8>>, br: int, bc: int) -> bool {
    group_valid(house_seq(g, br, bc))
}

/// The box the validator checks in step `m`: box coordinates
/// (`m / 3`, `m % 3`).
pub open spec fn house_ok_at(g: Seq<Option<u8>>, m: int) -> bool {
    house_ok(g, m / 3, m % 3)
}

/// All three groups checked in step `m` of the validator's scan are valid.
pub open spec fn groups_ok_at(g: Seq<Option<u8>>, m: int) -> bool {
    row_ok(g, m) && col_ok(g, m) && house_ok_at(g, m)
}

/// Every cell of a row, column, or box group of a well-formed grid is
/// empty or a digit 1-9, and each group has nine cells.
proof fn lemma_groups_wf(g: Seq<Option<u8>>, m: int)
    requires
        wf_grid(g),
        0 <= m < 9,
    ensures
        group_wf(row_seq(g, m)),
        group_wf(col_seq(g, m)),
        group_wf(house_seq(g, m / 3, m % 3)),
        row_seq(g, m).len() == 9,
        col_seq(g, m).len() == 9,
        house_seq(g, m / 3, m % 3).len() == 9,
{
    let br = m / 3;
    let bc = m % 3;
    assert(0 <= m / 3 < 3 && 0 <= m % 3 < 3) by (nonlinear_arith)
        requires
            0 <= m < 9,
    ;
    assert forall|j: int| 0 <= j < 9 implies (#[trigger] row_seq(g, m)[j] matches Some(d) ==> 1
        <= d <= 9) by {
        assert(row_seq(g, m)[j] == g[m * 9 + j]);
    }
    assert forall|j: int| 0 <= j < 9 implies (#[trigger] col_seq(g, m)[j] matches Some(d) ==> 1
        <= d <= 9) by {
        assert(col_seq(g, m)[j] == g[j * 9 + m]);
    }
    assert forall|k: int| 0 <= k < 9 implies (#[trigger] house_seq(g, br, bc)[k] matches Some(d)
        ==> 1 <= d <= 9) by {
        assert(0 <= k / 3 < 3 && 0 <= k % 3 < 3) by (nonlinear_arith)
            requires
                0 <= k < 9,
        ;
        let rr = br * 3 + k / 3;
        let cc = bc * 3 + k % 3;
        assert(house_seq(g, br, bc)[k] == g[rr * 9 + cc]);
    }
}

/// The violations the validator reports for the groups with indices below
/// `n`, in the order it finds them: for each index, the row, then the
/// column, then the box numbered in row-major box order.
pub open spec fn spec_violations_upto(g: Seq<Option<u8>>, n: int) -> Seq<InvalidSudokuError>
    decreases n,
{
    if n <= 0 {
        Seq::empty()
    } else {
        let m = n - 1;
        let a = spec_violations_upto(g, m);
        let b = if !row_ok(g, m) {
            a.push(InvalidSudokuError::InvalidRow(m as u8))
        } else {
            a
        };
        let c = if !col_ok(g, m) {
            b.push(InvalidSudokuError::InvalidCol(m as u8))
        } else {
            b
        };
        if !house_ok_at(g, m) {
            c.push(
                InvalidSudokuError::InvalidHouse(
                    Coord { row: (m / 3) as u8, col: (m % 3) as u8 },
                ),
            )
        } else {
            c
        }
    }
}

/// All violations the validator reports for `g`.
pub open spec fn spec_violations(g: Seq<Option<u8>>) -> Seq<InvalidSudokuError> {
    spec_violations_upto(g, 9)
}

/// An empty violation list up to `n` means every group with index below
/// `n` is valid.
proof fn lemma_violations_empty(g: Seq<Option<u8>>, n: int)
    requires
        0 <= n <= 9,
    ensures
        spec_violations_upto(g, n).len() == 0 <==> (forall|m: int|
            0 <= m < n ==> #[trigger] groups_ok_at(g, m)),
    decreases n,
{
    if n > 0 {
        lemma_violations_empty(g, n - 1);
        let m = n - 1;
        if spec_violations_upto(g, n).len() == 0 {
            assert(spec_violations_upto(g, m).len() == 0);
            assert(groups_ok_at(g, m));
            assert forall|mm: int| 0 <= mm < n implies #[trigger] groups_ok_at(g, mm) by {
                if mm < m {
                    assert(groups_ok_at(g, mm));
                }
            }
        } else {
            if forall|mm: int| 0 <= mm < n ==> #[trigger] groups_ok_at(g, mm) {
                assert(groups_ok_at(g, m));
                assert forall|mm: int| 0 <= mm < m implies #[trigger] groups_ok_at(g, mm) by {
                    assert(groups_ok_at(g, mm));
                }
                assert(spec_violations_upto(g, m).len() == 0);
                assert(false);
            }
        }
    }
}

proof fn lemma_violations_upto_mem(g: Seq<Option<u8>>, n: int)
    requires
        0 <= n <= 9,
    ensures
        forall|m: u8|
            #[trigger] spec_violations_upto(g, n).contains(InvalidSudokuError::InvalidRow(m))
                <==> (m < n && !row_ok(g, m as int)),
        forall|m: u8|
            #[trigger] spec_violations_upto(g, n).contains(InvalidSudokuError::InvalidCol(m))
                <==> (m < n && !col_ok(g, m as int)),
        forall|br: u8, bc: u8|
            #[trigger] spec_violations_upto(g, n).contains(
                InvalidSudokuError::InvalidHouse(Coord { row: br, col: bc }),
            ) <==> (br < 3 && bc < 3 && br * 3 + bc < n && !house_ok(g, br as int, bc as int)),
    decreases n,
{
    broadcast use vstd::seq_lib::lemma_seq_contains_after_push;

    if n > 0 {
        lemma_violations_upto_mem(g, n - 1);
        let m0 = n - 1;
        assert(0 <= m0 / 3 < 3 && 0 <= m0 % 3 < 3 && (m0 / 3) * 3 + m0 % 3 == m0)
            by (nonlinear_arith)
            requires
                0 <= m0 < 9,
        ;
        assert forall|m: u8|
            #[trigger] spec_violations_upto(g, n).contains(InvalidSudokuError::InvalidRow(m))
                <==> (m < n && !row_ok(g, m as int)) by {
            assert(spec_violations_upto(g, m0).contains(InvalidSudokuError::InvalidRow(m)) <==> (
            m < m0 && !row_ok(g, m as int)));
        }
        assert forall|m: u8|
            #[trigger] spec_violations_upto(g, n).contains(InvalidSudokuError::InvalidCol(m))
                <==> (m < n && !col_ok(g, m as int)) by {
            assert(spec_violations_upto(g, m0).contains(InvalidSudokuError::InvalidCol(m)) <==> (
            m < m0 && !col_ok(g, m as int)));
        }
        assert forall|br: u8, bc: u8|
            #[trigger] spec_violations_upto(g, n).contains(
                InvalidSudokuError::InvalidHouse(Coord { row: br, col: bc }),
            ) <==> (br < 3 && bc < 3 && br * 3 + bc < n && !house_ok(
                g,
                br as int,
                bc as int,
            )) by {
            let rec = InvalidSudokuError::InvalidHouse(Coord { row: br, col: bc });
            assert(spec_violations_upto(g, m0).contains(rec) <==> (br < 3 && bc < 3 && br * 3
                + bc < m0 && !house_ok(g, br as int, bc as int)));
            if br < 3 && bc < 3 && br * 3 + bc == m0 {
                assert(br == m0 / 3 && bc == m0 % 3) by (nonlinear_arith)
                    requires
                        br < 3,
                        bc < 3,
                        br * 3 + bc == m0,
                ;
            }
        }
    }
}

/// The validator's report is complete and precise: it holds a record for a
/// row, a column, or a box exactly when that group does not hold each
/// digit 1-9 exactly once.
pub proof fn lemma_violations_complete(g: Seq<Option<u8>>)
    ensures
        forall|m: u8|
            m < 9 ==> (#[trigger] spec_violations(g).contains(InvalidSudokuError::InvalidRow(m))
                <==> !row_ok(g, m as int)),
        forall|m: u8|
            m < 9 ==> (#[trigger] spec_violations(g).contains(InvalidSudokuError::InvalidCol(m))
                <==> !col_ok(g, m as int)),
        forall|br: u8, bc: u8|
            br < 3 && bc < 3 ==> (#[trigger] spec_violations(g).contains(
                InvalidSudokuError::InvalidHouse(Coord { row: br, col: bc }),
            ) <==> !house_ok(g, br as int, bc as int)),
{
    lemma_violations_upto_mem(g, 9);
}

impl Sudoku {
    /// Checks the whole grid: reports success exactly when every row,
    /// column, and box holds each digit 1-9 exactly once, and otherwise
    /// the full list of failing groups, in the order scanned.
    pub fn validate(&self) -> (r: Result<(), Vec<InvalidSudokuError>>)
        requires
            self.wf(),
        ensures
            r is Ok <==> grid_valid(self@),
            r matches Err(v) ==> v@ == spec_violations(self@) && v@.len() > 0,
    {
        let ghost g = self@;
        let mut errors: Vec<InvalidSudokuError> = Vec::new();
        let mut n: u8 = 0;
        while n < 9
            invariant
                self.wf(),
                g == self@,
                n <= 9,
                errors@ == spec_violations_upto(g, n as int),
            decreases 9 - n,
        {
            proof {
                lemma_groups_wf(g, n as int);
            }
            let row = self.get_row(n);
            proof {
                lemma_row_digits(g, n as int, row);
                lemma_group_sum(row_seq(g, n as int), row);
            }
            if row.sum() != 45 {
                errors.push(InvalidSudokuError::InvalidRow(n));
            }

            let col = self.get_col(n);
            proof {
                lemma_col_digits(g, n as int, col);
                lemma_group_sum(col_seq(g, n as int), col);
            }
            if col.sum() != 45 {
                errors.push(InvalidSudokuError::InvalidCol(n));
            }

            let house_coord = Coord { row: n / 3, col: n % 3 };
            let house = self.get_house(house_coord);
            proof {
                assert(house_coord.row == n as int / 3 && house_coord.col == n as int % 3);
                lemma_house_digits(g, n as int / 3, n as int % 3, house);
                lemma_group_sum(house_seq(g, n as int / 3, n as int % 3), house);
            }
            if house.sum() != 45 {
                errors.push(InvalidSudokuError::InvalidHouse(house_coord));
            }
            n = n + 1;
        }
        proof {
            lemma_violations_empty(g, 9);
            if spec_violations(g).len() == 0 {
                assert forall|r: int| 0 <= r < 9 implies group_valid(#[trigger] row_seq(g, r)) by {
                    assert(groups_ok_at(g, r));
                }
                assert forall|c: int| 0 <= c < 9 implies group_valid(#[trigger] col_seq(g, c)) by {
                    assert(groups_ok_at(g, c));
                }
                assert forall|br: int, bc: int| 0 <= br < 3 && 0 <= bc < 3 implies group_valid(
                    #[trigger] house_seq(g, br, bc),
                ) by {
                    let m = br * 3 + bc;
                    assert(0 <= br * 3 + bc < 9 && (br * 3 + bc) / 3 == br && (br * 3 + bc) % 3
                        == bc) by (nonlinear_arith)
                        requires
                            0 <= br < 3,
                            0 <= bc < 3,
                    ;
                    assert(groups_ok_at(g, m));
                }
                assert(grid_valid(g));
            } else {
                if grid_valid(g) {
                    assert forall|m: int| 0 <= m < 9 implies #[trigger] groups_ok_at(g, m) by {
                        assert(0 <= m / 3 < 3 && 0 <= m % 3 < 3) by (nonlinear_arith)
                            requires
                                0 <= m < 9,
                        ;
                        assert(group_valid(row_seq(g, m)));
                        assert(group_valid(col_seq(g, m)));
                        assert(group_valid(house_seq(g, m / 3, m % 3)));
                    }
                    assert(false);
                }
            }
        }
        if errors.len() > 0 {
            return Err(errors);
        }
        Ok(())
    }
}

} // verus!
