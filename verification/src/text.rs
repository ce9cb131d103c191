//! Reading a puzzle from text and writing a grid back out.
//!
//! The textual form is nine lines of nine characters, each a digit
//! '1'-'9' or the blank marker '.', every line ended by a newline (the
//! final newline may be omitted on input).  Character `c` of line `r`
//! thus sits at position `r * 10 + c` of the text.

use vstd::prelude::*;
use vstd::string::StrSliceExecFns;
use vstd::string::StringExecFns;
use crate::grid::{Sudoku, at};

verus! {

/// A reason the puzzle text was rejected.
#[derive(Clone, Copy, Debug, PartialEq, Eq, Structural)]
pub enum ParseSudokuError {
    /// A character that is neither a digit 1-9 nor the blank marker '.'
    /// stood where a cell was expected.
    InvalidChar(char),
    /// The text does not have the shape of nine newline-separated lines
    /// of nine characters.
    InvalidSize,
}

/// The digit a character stands for, or 0 if it is no digit.
pub open spec fn char_digit(ch: char) -> int {
    if ch == '1' {
        1
    } else if ch == '2' {
        2
    } else if ch == '3' {
        3
    } else if ch == '4' {
        4
    } else if ch == '5' {
        5
    } else if ch == '6' {
        6
    } else if ch == '7' {
        7
    } else if ch == '8' {
        8
    } else if ch == '9' {
        9
    } else {
        0
    }
}

/// The character is a legal cell: a digit 1-9 or the blank marker.
pub open spec fn cell_ok(ch: char) -> bool {
    ch == '.' || char_digit(ch) != 0
}

/// The cell a legal character stands for.
pub open spec fn char_cell(ch: char) -> Option<u8> {
    if ch == '.' {
        None
    } else {
        Some(char_digit(ch) as u8)
    }
}

/// Character `c` of line `r` of the text.
pub open spec fn text_at(t: Seq<char>, r: int, c: int) -> char {
    t[r * 10 + c]
}

/// The text is a well-formed puzzle: nine lines of nine legal cell
/// characters, separated by newlines, the final newline optional.
pub open spec fn valid_text(t: Seq<char>) -> bool {
    &&& (t.len() == 89 || (t.len() == 90 && t[89] == '\n'))
    &&& forall|r: int, c: int| 0 <= r < 9 && 0 <= c < 9 ==> cell_ok(#[trigger] text_at(t, r, c))
    &&& forall|r: int| 0 <= r < 8 ==> #[trigger] text_at(t, r, 9) == '\n'
}

/// The character a cell is written as.
pub open spec fn render_cell(cell: Option<u8>) -> char {
    match cell {
        None => '.',
        Some(d) => if d == 1 {
            '1'
        } else if d == 2 {
            '2'
        } else if d == 3 {
            '3'
        } else if d == 4 {
            '4'
        } else if d == 5 {
            '5'
        } else if d == 6 {
            '6'
        } else if d == 7 {
            '7'
        } else if d == 8 {
            '8'
        } else {
            '9'
        },
    }
}

/// The textual form of a grid: nine lines of nine cell characters, each
/// line ended by a newline.
pub open spec fn spec_render(g: Seq<Option<u8>>) -> Seq<char> {
    Seq::new(
        90,
        |k: int|
            if k % 10 == 9 {
                '\n'
            } else {
                render_cell(at(g, k / 10, k % 10))
            },
    )
}

/// Position `r * 10 + c` of the text is character `c` of line `r`.
proof fn lemma_line_pos(k: int, r: int, c: int)
    requires
        k == r * 10 + c,
        0 <= c < 10,
    ensures
        k / 10 == r,
        k % 10 == c,
{
    assert(k / 10 == r && k % 10 == c) by (nonlinear_arith)
        requires
            k == r * 10 + c,
            0 <= c < 10,
    ;
}

impl Sudoku {
    /// Reads a puzzle from text.  Succeeds exactly on well-formed puzzle
    /// text, and then every cell of the grid is the one its character
    /// stands for.  A malformed shape is reported as a size error; a
    /// character that is no legal cell, as an invalid character.
    pub fn from_str(s: &str) -> (res: Result<Sudoku, ParseSudokuError>)
        ensures
            res is Ok <==> valid_text(s@),
            res matches Ok(g) ==> g.wf() && forall|r: int, c: int|
                0 <= r < 9 && 0 <= c < 9 ==> #[trigger] at(g@, r, c) == char_cell(
                    text_at(s@, r, c),
                ),
            res matches Err(ParseSudokuError::InvalidChar(ch)) ==> !cell_ok(ch) && exists|i: int|
                0 <= i < s@.len() && s@[i] == ch,
    {
        let len = s.unicode_len();
        let mut cells: Vec<Option<u8>> = Vec::new();
        let mut r: usize = 0;
        while r < 9
            invariant
                r <= 9,
                len == s@.len(),
                cells@.len() == r * 9,
                forall|i: int| 0 <= i < cells@.len() ==> (#[trigger] cells@[i] matches Some(d)
                    ==> 1 <= d <= 9),
                forall|rr: int, cc: int| 0 <= rr < r && 0 <= cc < 9 ==> #[trigger] at(
                    cells@,
                    rr,
                    cc,
                ) == char_cell(text_at(s@, rr, cc)),
                forall|rr: int, cc: int| 0 <= rr < r && 0 <= cc < 9 ==> cell_ok(
                    #[trigger] text_at(s@, rr, cc),
                ),
                forall|rr: int| 0 <= rr < r && rr < 8 ==> #[trigger] text_at(s@, rr, 9) == '\n',
            decreases 9 - r,
        {
            let mut c: usize = 0;
            while c < 9
                invariant
                    r < 9,
                    c <= 9,
                    len == s@.len(),
                    cells@.len() == r * 9 + c,
                    forall|i: int| 0 <= i < cells@.len() ==> (#[trigger] cells@[i] matches Some(
                        d,
                    ) ==> 1 <= d <= 9),
                    forall|rr: int, cc: int| 0 <= rr < r && 0 <= cc < 9 ==> #[trigger] at(
                        cells@,
                        rr,
                        cc,
                    ) == char_cell(text_at(s@, rr, cc)),
                    forall|cc: int| 0 <= cc < c ==> #[trigger] at(cells@, r as int, cc)
                        == char_cell(text_at(s@, r as int, cc)),
                    forall|rr: int, cc: int| 0 <= rr < r && 0 <= cc < 9 ==> cell_ok(
                        #[trigger] text_at(s@, rr, cc),
                    ),
                    forall|cc: int| 0 <= cc < c ==> cell_ok(#[trigger] text_at(s@, r as int, cc)),
                    forall|rr: int| 0 <= rr < r && rr < 8 ==> #[trigger] text_at(s@, rr, 9)
                        == '\n',
                decreases 9 - c,
            {
                let pos = r * 10 + c;
                if pos >= len {
                    return Err(ParseSudokuError::InvalidSize);
                }
                let ch = s.get_char(pos);
                proof {
                    assert(text_at(s@, r as int, c as int) == ch);
                }
                let cell: Option<u8> = match ch {
                    // A newline here means the line is too short.
                    '\n' => {
                        return Err(ParseSudokuError::InvalidSize);
                    },
                    '.' => None,
                    '1' => Some(1),
                    '2' => Some(2),
                    '3' => Some(3),
                    '4' => Some(4),
                    '5' => Some(5),
                    '6' => Some(6),
                    '7' => Some(7),
                    '8' => Some(8),
                    '9' => Some(9),
                    _ => {
                        proof {
                            assert(s@[pos as int] == ch);
                            assert(!cell_ok(text_at(s@, r as int, c as int)));
                        }
                        return Err(ParseSudokuError::InvalidChar(ch));
                    },
                };
                let ghost cells0 = cells@;
                cells.push(cell);
                proof {
                    assert(cell == char_cell(text_at(s@, r as int, c as int)));
                    assert forall|rr: int, cc: int| 0 <= rr < r && 0 <= cc < 9 implies #[trigger]
                    at(cells@, rr, cc) == char_cell(text_at(s@, rr, cc)) by {
                        assert(at(cells0, rr, cc) == char_cell(text_at(s@, rr, cc)));
                        assert(rr * 9 + cc < cells0.len());
                    }
                    assert forall|cc: int| 0 <= cc < c + 1 implies #[trigger] at(
                        cells@,
                        r as int,
                        cc,
                    ) == char_cell(text_at(s@, r as int, cc)) by {
                        if cc < c {
                            assert(at(cells0, r as int, cc) == char_cell(text_at(s@, r as int, cc)));
                            assert(r * 9 + cc < cells0.len());
                        } else {
                            assert(r * 9 + cc == cells0.len());
                        }
                    }
                }
                c = c + 1;
            }
            if r < 8 {
                let pos = r * 10 + 9;
                if pos >= len {
                    return Err(ParseSudokuError::InvalidSize);
                }
                let ch = s.get_char(pos);
                proof {
                    assert(text_at(s@, r as int, 9) == ch);
                }
                if ch != '\n' {
                    return Err(ParseSudokuError::InvalidSize);
                }
            }
            r = r + 1;
        }
        if len == 90 {
            if s.get_char(89) != '\n' {
                return Err(ParseSudokuError::InvalidSize);
            }
        } else if len != 89 {
            return Err(ParseSudokuError::InvalidSize);
        }
        let g = Sudoku { cells };
        proof {
            assert(valid_text(s@));
            assert(g.wf());
        }
        Ok(g)
    }

    /// Writes the grid out as text: nine lines of nine cell characters,
    /// each line ended by a newline.
    pub fn render(&self) -> (out: String)
        requires
            self.wf(),
        ensures
            out@ == spec_render(self@),
    {
        let mut out = String::new();
        let mut r: usize = 0;
        while r < 9
            invariant
                self.wf(),
                r <= 9,
                out@.len() == r * 10,
                forall|k: int| 0 <= k < out@.len() ==> out@[k] == spec_render(self@)[k],
            decreases 9 - r,
        {
            let mut c: usize = 0;
            while c < 9
                invariant
                    self.wf(),
                    r < 9,
                    c <= 9,
                    out@.len() == r * 10 + c,
                    forall|k: int| 0 <= k < out@.len() ==> out@[k] == spec_render(self@)[k],
                decreases 9 - c,
            {
                let ghost k = r * 10 + c;
                proof {
                    lemma_line_pos(k as int, r as int, c as int);
                }
                match self.cells[r * 9 + c] {
                    None => {
                        proof {
                            reveal_strlit(".");
                        }
                        out.append(".");
                    },
                    Some(n) => {
                        out.append(digit_str(n));
                    },
                }
                c = c + 1;
            }
            let ghost k = r * 10 + 9;
            proof {
                lemma_line_pos(k as int, r as int, 9);
                reveal_strlit("\n");
            }
            out.append("\n");
            r = r + 1;
        }
        proof {
            assert(out@ =~= spec_render(self@));
        }
        out
    }
}

/// The one-character text of a digit.
fn digit_str(n: u8) -> (r: &'static str)
    requires
        1 <= n <= 9,
    ensures
        r@.len() == 1,
        r@[0] == render_cell(Some(n)),
{
    match n {
        1 => {
            proof {
                reveal_strlit("1");
            }
            "1"
        },
        2 => {
            proof {
                reveal_strlit("2");
            }
            "2"
        },
        3 => {
            proof {
                reveal_strlit("3");
            }
            "3"
        },
        4 => {
            proof {
                reveal_strlit("4");
            }
            "4"
        },
        5 => {
            proof {
                reveal_strlit("5");
            }
            "5"
        },
        6 => {
            proof {
                reveal_strlit("6");
            }
            "6"
        },
        7 => {
            proof {
                reveal_strlit("7");
            }
            "7"
        },
        8 => {
            proof {
                reveal_strlit("8");
            }
            "8"
        },
        _ => {
            proof {
                reveal_strlit("9");
            }
            "9"
        },
    }
}

} // verus!
