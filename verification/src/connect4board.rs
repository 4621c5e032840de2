//! The grid: a fixed 6 x 7 cell matrix with one fill cursor per column.
//!
//! Row 0 is the top of the physical board; pieces dropped into a column land
//! on the lowest empty row of that column. `next_empty_spot[col]` is the row
//! where the next piece in `col` will land, or -1 once the column is full.

use vstd::prelude::*;

verus! {

pub const BOARD_COLS: usize = 7;

pub const BOARD_ROWS: usize = 6;

pub type Team = u8;

pub const EMPTY: Team = 0;

pub const TEAM_X: Team = 1;

pub const TEAM_O: Team = 2;

#[derive(Debug, Clone, Copy, PartialEq, Eq, Structural)]
pub enum Error {
    /// A piece was dropped into a column that is already full.
    ColumnFull,
    /// An undo was asked of a column that has no piece in it.
    ColumnEmpty,
    /// A recommendation was asked of a board with no legal move.
    NoLegalMoves,
    /// A serialized board had the wrong shape or an unknown character.
    MalformedInput,
}

pub type Connect4Result<T> = Result<T, Error>;

/// True of the two playable marks; the empty cell value is not a team.
pub open spec fn is_team(t: Team) -> bool {
    t == TEAM_X || t == TEAM_O
}

/// True of every value a cell may hold.
pub open spec fn is_cell_value(t: Team) -> bool {
    t == EMPTY || is_team(t)
}

/// The mathematical value of a board: the row-major cell sequence and the
/// per-column fill cursors.
#[verifier::ext_equal]
pub ghost struct BoardModel {
    pub cells: Seq<Team>,
    pub cursors: Seq<int>,
}

impl BoardModel {
    /// Both sequences have the fixed board dimensions.
    pub open spec fn len_ok(self) -> bool {
        &&& self.cells.len() == BOARD_ROWS * BOARD_COLS
        &&& self.cursors.len() == BOARD_COLS
    }

    /// The mark in row `r`, column `c` (row 0 at the top).
    pub open spec fn cell(self, r: int, c: int) -> Team {
        self.cells[r * (BOARD_COLS as int) + c]
    }

    /// Every cell holds a mark or is empty, and every cursor lies between -1
    /// (column full) and the bottom row.
    pub open spec fn in_range(self) -> bool {
        &&& forall|i: int| 0 <= i < self.cells.len() ==> is_cell_value(#[trigger] self.cells[i])
        &&& forall|c: int|
            0 <= c < BOARD_COLS ==> -1 <= #[trigger] self.cursors[c] < BOARD_ROWS
    }

    /// Gravity: in each column, exactly the rows at or above the cursor are
    /// empty, so the filled cells form a contiguous block at the bottom.
    pub open spec fn gravity(self) -> bool {
        forall|r: int, c: int|
            0 <= r < BOARD_ROWS && 0 <= c < BOARD_COLS ==> (#[trigger] self.cell(r, c) == EMPTY
                <==> r <= self.cursors[c])
    }

    /// A reachable board state: dimensions, cell values, cursor ranges and
    /// gravity all hold.
    pub open spec fn wf(self) -> bool {
        self.len_ok() && self.in_range() && self.gravity()
    }

    /// A column accepts a piece while its cursor has not fallen below row 0.
    pub open spec fn legal(self, col: int) -> bool {
        0 <= col < BOARD_COLS && self.cursors[col] >= 0
    }

    /// No column accepts a piece.
    pub open spec fn is_full(self) -> bool {
        forall|c: int| 0 <= c < BOARD_COLS ==> #[trigger] self.cursors[c] < 0
    }

    /// The state after a piece of `team` lands in `col`: the cell at the
    /// cursor row is written and the cursor moves up one row.
    pub open spec fn place(self, col: int, team: Team) -> BoardModel {
        BoardModel {
            cells: self.cells.update(self.cursors[col] * (BOARD_COLS as int) + col, team),
            cursors: self.cursors.update(col, self.cursors[col] - 1),
        }
    }

    /// The state after the most recent piece of `col` is taken out again: the
    /// cursor moves down one row and the cell there is cleared.
    pub open spec fn remove(self, col: int) -> BoardModel {
        BoardModel {
            cells: self.cells.update((self.cursors[col] + 1) * (BOARD_COLS as int) + col, EMPTY),
            cursors: self.cursors.update(col, self.cursors[col] + 1),
        }
    }
}

/// The playing grid. `mat` stores the cells row-major, row 0 first (the top
/// of the physical board); `next_empty_spot[col]` is the row index where the
/// next piece dropped into `col` lands, or -1 when the column is full.
#[derive(Debug)]
pub struct Board {
    pub mat: Vec<Team>,
    pub next_empty_spot: Vec<isize>,
}

impl View for Board {
    type V = BoardModel;

    open spec fn view(&self) -> BoardModel {
        BoardModel {
            cells: self.mat@,
            cursors: Seq::new(self.next_empty_spot@.len(), |i: int| self.next_empty_spot@[i] as int),
        }
    }
}

impl Board {
    /// A reachable board state; established by `init_empty` and preserved by
    /// `drop` and `undrop`.
    pub open spec fn wf(self) -> bool {
        self@.wf()
    }

    /// The empty board: all cells empty, every cursor at the bottom row.
    pub fn init_empty() -> (r: Board)
        ensures
            r.wf(),
            r@.cells =~= Seq::new((BOARD_ROWS * BOARD_COLS) as nat, |i: int| EMPTY),
            r@.cursors =~= Seq::new(BOARD_COLS as nat, |i: int| (BOARD_ROWS - 1) as int),
    {
        let mut mat: Vec<Team> = Vec::new();
        let mut i: usize = 0;
        while i < BOARD_ROWS * BOARD_COLS
            invariant
                i <= BOARD_ROWS * BOARD_COLS,
                mat@.len() == i,
                forall|k: int| 0 <= k < i ==> mat@[k] == EMPTY,
            decreases BOARD_ROWS * BOARD_COLS - i,
        {
            mat.push(EMPTY);
            i = i + 1;
        }
        let mut next_empty_spot: Vec<isize> = Vec::new();
        let mut c: usize = 0;
        while c < BOARD_COLS
            invariant
                c <= BOARD_COLS,
                next_empty_spot@.len() == c,
                forall|k: int| 0 <= k < c ==> next_empty_spot@[k] == (BOARD_ROWS - 1) as isize,
            decreases BOARD_COLS - c,
        {
            next_empty_spot.push((BOARD_ROWS - 1) as isize);
            c = c + 1;
        }
        let r = Board { mat, next_empty_spot };
        proof {
            assert(r@.cells =~= Seq::new((BOARD_ROWS * BOARD_COLS) as nat, |i: int| EMPTY));
            assert(r@.cursors =~= Seq::new(BOARD_COLS as nat, |i: int| (BOARD_ROWS - 1) as int));
        }
        r
    }

    /// True exactly when no column accepts another piece.
    pub fn is_full(&self) -> (r: bool)
        requires
            self.wf(),
        ensures
            r == self@.is_full(),
    {
        let mut c: usize = 0;
        let mut all_full = true;
        while c < BOARD_COLS
            invariant
                c <= BOARD_COLS,
                self.wf(),
                all_full ==> forall|k: int| 0 <= k < c ==> #[trigger] self@.cursors[k] < 0,
                !all_full ==> exists|k: int| 0 <= k < c && #[trigger] self@.cursors[k] >= 0,
            decreases BOARD_COLS - c,
        {
            if self.next_empty_spot[c] >= 0 {
                proof {
                    assert(self@.cursors[c as int] >= 0);
                }
                all_full = false;
            }
            c = c + 1;
        }
        all_full
    }

    /// The columns that accept a piece, in ascending order, each exactly once.
    pub fn valid_choices(&self) -> (r: Vec<usize>)
        requires
            self.wf(),
        ensures
            forall|i: int, j: int| 0 <= i < j < r@.len() ==> r@[i] < r@[j],
            forall|i: int| 0 <= i < r@.len() ==> self@.legal(#[trigger] r@[i] as int),
            forall|c: int| 0 <= c < BOARD_COLS && self@.legal(c) ==> r@.contains(c as usize),
    {
        let mut r: Vec<usize> = Vec::new();
        let mut c: usize = 0;
        while c < BOARD_COLS
            invariant
                c <= BOARD_COLS,
                self.wf(),
                forall|i: int, j: int| 0 <= i < j < r@.len() ==> r@[i] < r@[j],
                forall|i: int| 0 <= i < r@.len() ==> self@.legal(#[trigger] r@[i] as int) && r@[i] < c,
                forall|k: int| 0 <= k < c && self@.legal(k) ==> r@.contains(k as usize),
            decreases BOARD_COLS - c,
        {
            let ghost prev = r@;
            if self.next_empty_spot[c] >= 0 {
                r.push(c);
            }
            proof {
                assert forall|k: int| 0 <= k < c + 1 && self@.legal(k) implies r@.contains(
                    k as usize,
                ) by {
                    if k < c {
                        let i = choose|i: int| 0 <= i < prev.len() && prev[i] == k as usize;
                        assert(r@[i] == k as usize);
                    } else {
                        assert(self@.cursors[c as int] >= 0);
                        assert(r@[r@.len() - 1] == c);
                    }
                }
            }
            c = c + 1;
        }
        r
    }

    /// Drops a piece of `team` into `col`; fails with `ColumnFull`, leaving
    /// the board unchanged, exactly when the column is not legal.
    pub fn drop(&mut self, col: usize, team: Team) -> (r: Connect4Result<()>)
        requires
            old(self).wf(),
            col < BOARD_COLS,
            is_team(team),
        ensures
            final(self).wf(),
            old(self)@.legal(col as int) ==> r == Connect4Result::<()>::Ok(()) && final(self)@
                == old(self)@.place(col as int, team),
            !old(self)@.legal(col as int) ==> r == Connect4Result::<()>::Err(Error::ColumnFull)
                && *final(self) == *old(self),
    {
        let es = self.next_empty_spot[col];
        proof {
            assert(self@.cursors[col as int] == es as int);
            assert(-1 <= self@.cursors[col as int] < BOARD_ROWS);
        }
        if es < 0 {
            Connect4Result::Err(Error::ColumnFull)
        } else {
            let row = es as usize;
            self.mat.set(row * BOARD_COLS + col, team);
            self.next_empty_spot.set(col, es - 1);
            proof {
                lemma_cell_index_bijective();
                assert(self@ =~= old(self)@.place(col as int, team));
                assert forall|r: int, c: int|
                    0 <= r < BOARD_ROWS && 0 <= c < BOARD_COLS implies (#[trigger] self@.cell(r, c)
                    == EMPTY <==> r <= self@.cursors[c]) by {
                    assert(old(self)@.cell(r, c) == EMPTY <==> r <= old(self)@.cursors[c]);
                }
            }
            Connect4Result::Ok(())
        }
    }

    /// Takes the most recent piece out of `col`; fails with `ColumnEmpty`,
    /// leaving the board unchanged, exactly when the column has no piece.
    pub fn undrop(&mut self, col: usize) -> (r: Connect4Result<()>)
        requires
            old(self).wf(),
            col < BOARD_COLS,
        ensures
            final(self).wf(),
            old(self)@.cursors[col as int] < BOARD_ROWS - 1 ==> r == Connect4Result::<()>::Ok(())
                && final(self)@ == old(self)@.remove(col as int),
            old(self)@.cursors[col as int] >= BOARD_ROWS - 1 ==> r == Connect4Result::<()>::Err(
                Error::ColumnEmpty,
            ) && *final(self) == *old(self),
    {
        let es = self.next_empty_spot[col];
        proof {
            assert(self@.cursors[col as int] == es as int);
            assert(-1 <= self@.cursors[col as int] < BOARD_ROWS);
        }
        if es >= (BOARD_ROWS - 1) as isize {
            Connect4Result::Err(Error::ColumnEmpty)
        } else {
            let row = (es + 1) as usize;
            self.next_empty_spot.set(col, es + 1);
            self.mat.set(row * BOARD_COLS + col, EMPTY);
            proof {
                lemma_cell_index_bijective();
                assert(self@ =~= old(self)@.remove(col as int));
                assert forall|r: int, c: int|
                    0 <= r < BOARD_ROWS && 0 <= c < BOARD_COLS implies (#[trigger] self@.cell(r, c)
                    == EMPTY <==> r <= self@.cursors[c]) by {
                    assert(old(self)@.cell(r, c) == EMPTY <==> r <= old(self)@.cursors[c]);
                }
            }
            Connect4Result::Ok(())
        }
    }

    /// An independent copy with the same cells and cursors.
    pub fn duplicate(&self) -> (r: Board)
        ensures
            r@ == self@,
    {
        let mut mat: Vec<Team> = Vec::new();
        let mut i: usize = 0;
        while i < self.mat.len()
            invariant
                i <= self.mat@.len(),
                mat@ =~= self.mat@.subrange(0, i as int),
            decreases self.mat@.len() - i,
        {
            mat.push(self.mat[i]);
            i = i + 1;
        }
        let mut next_empty_spot: Vec<isize> = Vec::new();
        let mut c: usize = 0;
        while c < self.next_empty_spot.len()
            invariant
                c <= self.next_empty_spot@.len(),
                next_empty_spot@ =~= self.next_empty_spot@.subrange(0, c as int),
            decreases self.next_empty_spot@.len() - c,
        {
            next_empty_spot.push(self.next_empty_spot[c]);
            c = c + 1;
        }
        let r = Board { mat, next_empty_spot };
        proof {
            assert(r.mat@ =~= self.mat@);
            assert(r.next_empty_spot@ =~= self.next_empty_spot@);
            assert(r@ =~= self@);
        }
        r
    }

    /// True exactly when the board is a reachable state: dimensions, cell
    /// values, cursor ranges and gravity all hold.
    pub fn is_well_formed(&self) -> (r: bool)
        ensures
            r == self.wf(),
    {
        if self.mat.len() != BOARD_ROWS * BOARD_COLS || self.next_empty_spot.len() != BOARD_COLS {
            return false;
        }
        let mut c: usize = 0;
        while c < BOARD_COLS
            invariant
                c <= BOARD_COLS,
                self.mat@.len() == BOARD_ROWS * BOARD_COLS,
                self.next_empty_spot@.len() == BOARD_COLS,
                forall|k: int| 0 <= k < c ==> -1 <= #[trigger] self@.cursors[k] < BOARD_ROWS,
                forall|r: int, k: int|
                    0 <= r < BOARD_ROWS && 0 <= k < c ==> (#[trigger] self@.cell(r, k) == EMPTY
                        <==> r <= self@.cursors[k]) && is_cell_value(self@.cell(r, k)),
            decreases BOARD_COLS - c,
        {
            let es = self.next_empty_spot[c];
            proof {
                assert(self@.cursors[c as int] == es as int);
            }
            if es < -1 || es >= BOARD_ROWS as isize {
                return false;
            }
            let mut r: usize = 0;
            while r < BOARD_ROWS
                invariant
                    r <= BOARD_ROWS,
                    c < BOARD_COLS,
                    self.mat@.len() == BOARD_ROWS * BOARD_COLS,
                    self.next_empty_spot@.len() == BOARD_COLS,
                    es == self.next_empty_spot@[c as int],
                    -1 <= es < BOARD_ROWS,
                    forall|k: int|
                        0 <= k < r ==> (#[trigger] self@.cell(k, c as int) == EMPTY <==> k
                            <= self@.cursors[c as int]) && is_cell_value(self@.cell(k, c as int)),
                decreases BOARD_ROWS - r,
            {
                let v = self.mat[r * BOARD_COLS + c];
                proof {
                    assert(self@.cell(r as int, c as int) == v);
                }
                if v != EMPTY && v != TEAM_X && v != TEAM_O {
                    proof {
                        assert(!is_cell_value(self@.cells[r as int * (BOARD_COLS as int)
                            + c as int]));
                    }
                    return false;
                }
                let should_be_empty = (r as isize) <= es;
                if (v == EMPTY) != should_be_empty {
                    proof {
                        assert(!((self@.cell(r as int, c as int) == EMPTY) <==> r as int
                            <= self@.cursors[c as int]));
                    }
                    return false;
                }
                r = r + 1;
            }
            c = c + 1;
        }
        proof {
            lemma_cell_index_bijective();
            assert forall|i: int| 0 <= i < self@.cells.len() implies is_cell_value(
                #[trigger] self@.cells[i],
            ) by {
                let r = i / (BOARD_COLS as int);
                let c = i % (BOARD_COLS as int);
                assert(self@.cell(r, c) == self@.cells[i]);
                assert(is_cell_value(self@.cell(r, c)));
            }
        }
        true
    }
}

/// Each in-range (row, column) pair addresses one distinct cell of the
/// row-major sequence, and row and column can be read back off the index.
pub proof fn lemma_cell_index_bijective()
    ensures
        forall|r: int, c: int|
            0 <= r < BOARD_ROWS && 0 <= c < BOARD_COLS ==> {
                let i = #[trigger] (r * (BOARD_COLS as int) + c);
                0 <= i < BOARD_ROWS * BOARD_COLS && i / (BOARD_COLS as int) == r && i % (
                BOARD_COLS as int) == c
            },
{
    assert forall|r: int, c: int| 0 <= r < BOARD_ROWS && 0 <= c < BOARD_COLS implies {
        let i = #[trigger] (r * (BOARD_COLS as int) + c);
        0 <= i < BOARD_ROWS * BOARD_COLS && i / (BOARD_COLS as int) == r && i % (BOARD_COLS as int)
            == c
    } by {
        let i = r * (BOARD_COLS as int) + c;
        assert(0 <= i < 42) by (nonlinear_arith)
            requires
                0 <= r < 6 && 0 <= c < 7 && i == r * 7 + c,
        ;
        assert(i / 7 == r && i % 7 == c) by (nonlinear_arith)
            requires
                i == r * 7 + c && 0 <= c < 7,
        ;
    }
}

impl PartialEq for Board {
    /// Two boards are equal exactly when their cell matrices and their
    /// cursor arrays are identical.
    fn eq(&self, other: &Board) -> (r: bool) {
        if self.mat.len() != other.mat.len() || self.next_empty_spot.len()
            != other.next_empty_spot.len() {
            return false;
        }
        let mut i: usize = 0;
        while i < self.mat.len()
            invariant
                self.mat@.len() == other.mat@.len(),
                self.next_empty_spot@.len() == other.next_empty_spot@.len(),
                i <= self.mat@.len(),
                forall|k: int| 0 <= k < i ==> self.mat@[k] == other.mat@[k],
            decreases self.mat@.len() - i,
        {
            if self.mat[i] != other.mat[i] {
                return false;
            }
            i = i + 1;
        }
        let mut c: usize = 0;
        while c < self.next_empty_spot.len()
            invariant
                self.mat@.len() == other.mat@.len(),
                self.next_empty_spot@.len() == other.next_empty_spot@.len(),
                forall|k: int| 0 <= k < self.mat@.len() ==> self.mat@[k] == other.mat@[k],
                c <= self.next_empty_spot@.len(),
                forall|k: int| 0 <= k < c ==> self.next_empty_spot@[k] == other.next_empty_spot@[k],
            decreases self.next_empty_spot@.len() - c,
        {
            if self.next_empty_spot[c] != other.next_empty_spot[c] {
                return false;
            }
            c = c + 1;
        }
        proof {
            assert(self.mat@ =~= other.mat@);
            assert(self.next_empty_spot@ =~= other.next_empty_spot@);
        }
        true
    }
}

impl vstd::std_specs::cmp::PartialEqSpecImpl for Board {
    open spec fn obeys_eq_spec() -> bool {
        true
    }

    open spec fn eq_spec(&self, other: &Board) -> bool {
        self.mat@ == other.mat@ && self.next_empty_spot@ == other.next_empty_spot@
    }
}

/// Gravity, stated as the absence of gaps: on a reachable board no empty
/// cell ever sits below a non-empty cell of the same column.
pub proof fn lemma_gravity_no_gaps(m: BoardModel)
    requires
        m.wf(),
    ensures
        forall|r: int, c: int|
            0 <= r && r + 1 < BOARD_ROWS && 0 <= c < BOARD_COLS && #[trigger] m.cell(r, c)
                != EMPTY ==> m.cell(r + 1, c) != EMPTY,
{
    assert forall|r: int, c: int|
        0 <= r && r + 1 < BOARD_ROWS && 0 <= c < BOARD_COLS && #[trigger] m.cell(r, c)
            != EMPTY implies m.cell(r + 1, c) != EMPTY by {
        assert(r > m.cursors[c]);
        assert(!(r + 1 <= m.cursors[c]));
    }
}

/// Removing from a column immediately after placing into the same column
/// restores the exact prior state, cells and cursors both.
pub proof fn lemma_place_remove_inverse(m: BoardModel, col: int, team: Team)
    requires
        m.wf(),
        m.legal(col),
        is_team(team),
    ensures
        m.place(col, team).remove(col) == m,
{
    let p = m.place(col, team);
    assert(p.cursors[col] == m.cursors[col] - 1);
    assert(p.remove(col).cursors =~= m.cursors);
    assert(m.cell(m.cursors[col], col) == EMPTY);
    assert(m.cells[m.cursors[col] * (BOARD_COLS as int) + col] == EMPTY);
    assert(p.remove(col).cells =~= m.cells);
    assert(p.remove(col) =~= m);
}

/// The character a cell is rendered as: '_' for empty, the team letter for a
/// mark, '?' for a value no reachable board holds.
pub open spec fn char_of_team(team: Team) -> char {
    if team == EMPTY {
        '_'
    } else if team == TEAM_O {
        'O'
    } else if team == TEAM_X {
        'X'
    } else {
        '?'
    }
}

/// The display character of one cell value.
pub fn team_to_char(team: Team) -> (r: char)
    ensures
        r == char_of_team(team),
{
    match team {
        EMPTY => '_',
        TEAM_O => 'O',
        TEAM_X => 'X',
        _ => '?',
    }
}

} // verus!
