//! The win detector: finds a run of four equal marks, if any, scanning
//! horizontally, then vertically, then along both diagonal directions.
//!
//! The contract is an exact characterization: the reported endpoints always
//! bound a real four-cell run of the reported mark, and `None` comes back
//! exactly when no such run exists anywhere on the board.

use vstd::prelude::*;

use crate::connect4board::Board;
use crate::connect4board::BoardModel;
use crate::connect4board::Team;
use crate::connect4board::BOARD_COLS;
use crate::connect4board::BOARD_ROWS;
use crate::connect4board::EMPTY;
use crate::connect4board::is_team;

verus! {

/// A horizontal run of four equal marks starting at `(r, c)` going right.
pub open spec fn h_win_at(m: BoardModel, r: int, c: int) -> bool {
    &&& 0 <= r < BOARD_ROWS
    &&& 0 <= c && c + 3 < BOARD_COLS
    &&& is_team(m.cell(r, c))
    &&& m.cell(r, c + 1) == m.cell(r, c)
    &&& m.cell(r, c + 2) == m.cell(r, c)
    &&& m.cell(r, c + 3) == m.cell(r, c)
}

/// A vertical run of four equal marks starting at `(r, c)` going down.
pub open spec fn v_win_at(m: BoardModel, r: int, c: int) -> bool {
    &&& 0 <= r && r + 3 < BOARD_ROWS
    &&& 0 <= c < BOARD_COLS
    &&& is_team(m.cell(r, c))
    &&& m.cell(r + 1, c) == m.cell(r, c)
    &&& m.cell(r + 2, c) == m.cell(r, c)
    &&& m.cell(r + 3, c) == m.cell(r, c)
}

/// A run of four equal marks starting at `(r, c)` going down and right.
pub open spec fn d1_win_at(m: BoardModel, r: int, c: int) -> bool {
    &&& 0 <= r && r + 3 < BOARD_ROWS
    &&& 0 <= c && c + 3 < BOARD_COLS
    &&& is_team(m.cell(r, c))
    &&& m.cell(r + 1, c + 1) == m.cell(r, c)
    &&& m.cell(r + 2, c + 2) == m.cell(r, c)
    &&& m.cell(r + 3, c + 3) == m.cell(r, c)
}

/// A run of four equal marks starting at `(r, c)` going down and left.
pub open spec fn d2_win_at(m: BoardModel, r: int, c: int) -> bool {
    &&& 0 <= r && r + 3 < BOARD_ROWS
    &&& 3 <= c < BOARD_COLS
    &&& is_team(m.cell(r, c))
    &&& m.cell(r + 1, c - 1) == m.cell(r, c)
    &&& m.cell(r + 2, c - 2) == m.cell(r, c)
    &&& m.cell(r + 3, c - 3) == m.cell(r, c)
}

/// Some four-cell run of one mark exists, in any of the four directions.
pub open spec fn has_win(m: BoardModel) -> bool {
    exists|r: int, c: int|
        h_win_at(m, r, c) || v_win_at(m, r, c) || d1_win_at(m, r, c) || d2_win_at(m, r, c)
}

/// The reported endpoints bound a real four-cell run of the reported mark.
pub open spec fn win_report_ok(m: BoardModel, rep: ((usize, usize), (usize, usize), Team)) -> bool {
    let ((r1, c1), (r2, c2), t) = rep;
    &&& is_team(t)
    &&& m.cell(r1 as int, c1 as int) == t
    &&& {
        ||| (r2 == r1 && c2 == c1 + 3 && h_win_at(m, r1 as int, c1 as int))
        ||| (c2 == c1 && r2 == r1 + 3 && v_win_at(m, r1 as int, c1 as int))
        ||| (r2 == r1 + 3 && c2 == c1 + 3 && d1_win_at(m, r1 as int, c1 as int))
        ||| (r2 == r1 + 3 && c1 == c2 + 3 && d2_win_at(m, r1 as int, c1 as int))
    }
}

impl Board {
    /// The mark at row `r`, column `c`.
    fn at(&self, r: usize, c: usize) -> (v: Team)
        requires
            self@.len_ok(),
            r < BOARD_ROWS,
            c < BOARD_COLS,
        ensures
            v == self@.cell(r as int, c as int),
    {
        self.mat[r * BOARD_COLS + c]
    }

    /// Looks for a run of four equal marks and reports its two endpoints and
    /// its mark; reports `None` exactly when the board holds no such run.
    pub fn won(&self) -> (r: Option<((usize, usize), (usize, usize), Team)>)
        requires
            self@.len_ok(),
            self@.in_range(),
        ensures
            match r {
                Option::None => !has_win(self@),
                Option::Some(rep) => win_report_ok(self@, rep),
            },
    {
        let ghost m = self@;
        // horizontal
        let mut row: usize = 0;
        while row < BOARD_ROWS
            invariant
                self@ == m,
                self@.len_ok(),
                self@.in_range(),
                row <= BOARD_ROWS,
                forall|rr: int, cc: int| rr < row ==> !h_win_at(m, rr, cc),
            decreases BOARD_ROWS - row,
        {
            let mut c: usize = 0;
            while c + 3 < BOARD_COLS
                invariant
                    self@ == m,
                    self@.len_ok(),
                    self@.in_range(),
                    row < BOARD_ROWS,
                    c + 3 <= BOARD_COLS,
                    forall|rr: int, cc: int| rr < row ==> !h_win_at(m, rr, cc),
                    forall|cc: int| cc < c ==> !h_win_at(m, row as int, cc),
                decreases BOARD_COLS - c,
            {
                let t = self.at(row, c);
                if t != EMPTY && self.at(row, c + 1) == t && self.at(row, c + 2) == t && self.at(
                    row,
                    c + 3,
                ) == t {
                    return Option::Some(((row, c), (row, c + 3), t));
                }
                c = c + 1;
            }
            row = row + 1;
        }
        // vertical
        let mut col: usize = 0;
        while col < BOARD_COLS
            invariant
                self@ == m,
                self@.len_ok(),
                self@.in_range(),
                col <= BOARD_COLS,
                forall|rr: int, cc: int| !h_win_at(m, rr, cc),
                forall|rr: int, cc: int| cc < col ==> !v_win_at(m, rr, cc),
            decreases BOARD_COLS - col,
        {
            let mut r: usize = 0;
            while r + 3 < BOARD_ROWS
                invariant
                    self@ == m,
                    self@.len_ok(),
                    self@.in_range(),
                    col < BOARD_COLS,
                    r + 3 <= BOARD_ROWS,
                    forall|rr: int, cc: int| !h_win_at(m, rr, cc),
                    forall|rr: int, cc: int| cc < col ==> !v_win_at(m, rr, cc),
                    forall|rr: int| rr < r ==> !v_win_at(m, rr, col as int),
                decreases BOARD_ROWS - r,
            {
                let t = self.at(r, col);
                if t != EMPTY && self.at(r + 1, col) == t && self.at(r + 2, col) == t && self.at(
                    r + 3,
                    col,
                ) == t {
                    return Option::Some(((r, col), (r + 3, col), t));
                }
                r = r + 1;
            }
            col = col + 1;
        }
        // both diagonal directions, top anchors first
        let mut i: usize = 0;
        while i + 3 < BOARD_ROWS
            invariant
                self@ == m,
                self@.len_ok(),
                self@.in_range(),
                i + 3 <= BOARD_ROWS,
                forall|rr: int, cc: int| !h_win_at(m, rr, cc),
                forall|rr: int, cc: int| !v_win_at(m, rr, cc),
                forall|rr: int, cc: int| rr < i ==> !d1_win_at(m, rr, cc),
                forall|rr: int, cc: int| rr < i ==> !d2_win_at(m, rr, cc),
            decreases BOARD_ROWS - i,
        {
            let mut j: usize = 0;
            while j + 3 < BOARD_COLS
                invariant
                    self@ == m,
                    self@.len_ok(),
                    self@.in_range(),
                    i + 3 < BOARD_ROWS,
                    j + 3 <= BOARD_COLS,
                    forall|rr: int, cc: int| !h_win_at(m, rr, cc),
                    forall|rr: int, cc: int| !v_win_at(m, rr, cc),
                    forall|rr: int, cc: int| rr < i ==> !d1_win_at(m, rr, cc),
                    forall|rr: int, cc: int| rr < i ==> !d2_win_at(m, rr, cc),
                    forall|cc: int| cc < j ==> !d1_win_at(m, i as int, cc),
                    forall|cc: int| cc >= BOARD_COLS - j ==> !d2_win_at(m, i as int, cc),
                decreases BOARD_COLS - j,
            {
                // down-right from (i, j)
                let t = self.at(i, j);
                if t != EMPTY && self.at(i + 1, j + 1) == t && self.at(i + 2, j + 2) == t
                    && self.at(i + 3, j + 3) == t {
                    return Option::Some(((i, j), (i + 3, j + 3), t));
                }
                // down-left from (i, BOARD_COLS - 1 - j)
                let j2 = BOARD_COLS - 1 - j;
                let t2 = self.at(i, j2);
                if t2 != EMPTY && self.at(i + 1, j2 - 1) == t2 && self.at(i + 2, j2 - 2) == t2
                    && self.at(i + 3, j2 - 3) == t2 {
                    return Option::Some(((i, j2), (i + 3, j2 - 3), t2));
                }
                j = j + 1;
            }
            i = i + 1;
        }
        Option::None
    }
}

} // verus!
