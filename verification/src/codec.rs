//! The exchange format: a board as six lines of seven characters, one of
//! `'_'`, `'X'`, `'O'` per cell, row 0 (the top) first, the lines separated
//! by single newlines and nothing after the last line.
//!
//! `parse` is the exact inverse of `serialize`: it rebuilds the cell matrix
//! from the characters and recomputes each column's cursor as the bottommost
//! empty row of that column.

use vstd::prelude::*;

use crate::connect4board::Board;
use crate::connect4board::BoardModel;
use crate::connect4board::Connect4Result;
use crate::connect4board::Error;
use crate::connect4board::Team;
use crate::connect4board::BOARD_COLS;
use crate::connect4board::BOARD_ROWS;
use crate::connect4board::EMPTY;
use crate::connect4board::TEAM_O;
use crate::connect4board::TEAM_X;
use crate::connect4board::char_of_team;
use crate::connect4board::is_cell_value;

verus! {

/// The width of one serialized line including its newline.
pub open spec fn line_width() -> int {
    BOARD_COLS + 1
}

/// The length of a serialized board: six lines of seven cells, five newlines.
pub open spec fn ser_len() -> int {
    BOARD_ROWS * (BOARD_COLS + 1) - 1
}

/// The serialized text of a board model.
pub open spec fn spec_serialize(m: BoardModel) -> Seq<char> {
    Seq::new(
        ser_len() as nat,
        |k: int|
            if k % line_width() == BOARD_COLS {
                '\n'
            } else {
                char_of_team(m.cell(k / line_width(), k % line_width()))
            },
    )
}

/// The characters a cell may be written as.
pub open spec fn is_board_char(ch: char) -> bool {
    ch == '_' || ch == 'X' || ch == 'O'
}

/// The cell value a character stands for.
pub open spec fn team_of_char(ch: char) -> Team {
    if ch == 'X' {
        TEAM_X
    } else if ch == 'O' {
        TEAM_O
    } else {
        EMPTY
    }
}

/// Position `k` of a serialized board holds the right kind of character:
/// a newline at the end of a line, a cell character elsewhere.
pub open spec fn shape_char_ok(s: Seq<char>, k: int) -> bool {
    if k % line_width() == BOARD_COLS {
        s[k] == '\n'
    } else {
        is_board_char(s[k])
    }
}

/// The text has exactly the serialized shape: right length, newlines at line
/// ends, cell characters everywhere else.
pub open spec fn parse_shape_ok(s: Seq<char>) -> bool {
    &&& s.len() == ser_len()
    &&& forall|k: int| 0 <= k < ser_len() ==> shape_char_ok(s, k)
}

/// The cell sequence a well-shaped text stands for.
pub open spec fn parse_cells(s: Seq<char>) -> Seq<Team> {
    Seq::new(
        (BOARD_ROWS * BOARD_COLS) as nat,
        |i: int| team_of_char(s[(i / BOARD_COLS as int) * line_width() + i % BOARD_COLS as int]),
    )
}

/// The bottommost row at or above `r` whose cell in column `c` is empty, or
/// -1 when rows 0 through `r` of the column are all filled.
pub open spec fn bottom_empty_row(cells: Seq<Team>, c: int, r: int) -> int
    decreases r + 1,
{
    if r < 0 {
        -1
    } else if cells[r * (BOARD_COLS as int) + c] == EMPTY {
        r
    } else {
        bottom_empty_row(cells, c, r - 1)
    }
}

/// The cursors a cell sequence stands for: each column's bottommost empty row.
pub open spec fn parse_cursors(cells: Seq<Team>) -> Seq<int> {
    Seq::new(BOARD_COLS as nat, |c: int| bottom_empty_row(cells, c, BOARD_ROWS - 1))
}

/// What a text parses to: the cell matrix read off the characters and the
/// cursors recomputed from the cells, or nothing when the shape is wrong.
pub open spec fn spec_parse(s: Seq<char>) -> Option<BoardModel> {
    if parse_shape_ok(s) {
        Option::Some(BoardModel { cells: parse_cells(s), cursors: parse_cursors(parse_cells(s)) })
    } else {
        Option::None
    }
}

/// Positions inside one serialized line decompose back into row and column.
proof fn lemma_line_pos(row: int, c: int)
    requires
        0 <= row < BOARD_ROWS,
        0 <= c < line_width(),
    ensures
        0 <= row * line_width() + c < BOARD_ROWS * line_width(),
        (row * line_width() + c) / line_width() == row,
        (row * line_width() + c) % line_width() == c,
{
    let p = row * line_width() + c;
    assert(0 <= p < 48 && p / 8 == row && p % 8 == c) by (nonlinear_arith)
        requires
            0 <= row < 6 && 0 <= c < 8 && p == row * 8 + c,
    ;
}

/// Cell indices of the row-major sequence decompose back into row and column.
proof fn lemma_cell_pos(row: int, c: int)
    requires
        0 <= row < BOARD_ROWS,
        0 <= c < BOARD_COLS,
    ensures
        0 <= row * (BOARD_COLS as int) + c < BOARD_ROWS * BOARD_COLS,
        (row * (BOARD_COLS as int) + c) / (BOARD_COLS as int) == row,
        (row * (BOARD_COLS as int) + c) % (BOARD_COLS as int) == c,
{
    let p = row * (BOARD_COLS as int) + c;
    assert(0 <= p < 42 && p / 7 == row && p % 7 == c) by (nonlinear_arith)
        requires
            0 <= row < 6 && 0 <= c < 7 && p == row * 7 + c,
    ;
}

/// The single-character text a cell value is rendered as.
fn char_str(v: Team) -> (r: &'static str)
    ensures
        r@ =~= seq![char_of_team(v)],
{
    proof {
        reveal_strlit("_");
        reveal_strlit("O");
        reveal_strlit("X");
        reveal_strlit("?");
    }
    match v {
        EMPTY => "_",
        TEAM_O => "O",
        TEAM_X => "X",
        _ => "?",
    }
}

impl Board {
    /// Renders the board in the exchange format: six lines of seven cell
    /// characters, newline-separated, the top row first.
    pub fn serialize(&self) -> (r: String)
        requires
            self@.len_ok(),
        ensures
            r@ == spec_serialize(self@),
    {
        let ghost m = self@;
        let ghost ser = spec_serialize(m);
        let mut r = String::new();
        let mut row: usize = 0;
        while row < BOARD_ROWS
            invariant
                self@ == m,
                ser == spec_serialize(m),
                self@.len_ok(),
                row <= BOARD_ROWS,
                r@.len() == if row < BOARD_ROWS {
                    (row * (BOARD_COLS + 1)) as int
                } else {
                    ser_len()
                },
                r@ =~= ser.subrange(0, r@.len() as int),
            decreases BOARD_ROWS - row,
        {
            let mut c: usize = 0;
            while c < BOARD_COLS
                invariant
                    self@ == m,
                    ser == spec_serialize(m),
                    self@.len_ok(),
                    row < BOARD_ROWS,
                    c <= BOARD_COLS,
                    r@.len() == row * (BOARD_COLS + 1) + c,
                    r@ =~= ser.subrange(0, r@.len() as int),
                decreases BOARD_COLS - c,
            {
                let v = self.mat[row * BOARD_COLS + c];
                proof {
                    lemma_cell_pos(row as int, c as int);
                    lemma_line_pos(row as int, c as int);
                    assert(ser[r@.len() as int] == char_of_team(m.cell(row as int, c as int)));
                }
                r.append(char_str(v));
                proof {
                    assert(r@ =~= ser.subrange(0, r@.len() as int));
                }
                c = c + 1;
            }
            if row + 1 < BOARD_ROWS {
                proof {
                    lemma_line_pos(row as int, BOARD_COLS as int);
                    assert(ser[r@.len() as int] == '\n');
                    reveal_strlit("\n");
                }
                r.append("\n");
                proof {
                    assert(r@ =~= ser.subrange(0, r@.len() as int));
                }
            }
            row = row + 1;
            proof {
                if row < BOARD_ROWS {
                    assert(r@.len() == (row * (BOARD_COLS + 1)) as int);
                } else {
                    assert(row == BOARD_ROWS);
                    assert(r@.len() == (BOARD_ROWS - 1) * (BOARD_COLS + 1) + BOARD_COLS);
                    assert((BOARD_ROWS - 1) * (BOARD_COLS + 1) + BOARD_COLS == ser_len());
                    assert(r@.len() == ser_len());
                }
            }
        }
        proof {
            assert(r@ =~= ser);
        }
        r
    }

    /// Reads a board back from the exchange format. Fails with
    /// `MalformedInput`, and only with it, exactly when the text has the
    /// wrong length, a misplaced newline or an unknown cell character.
    pub fn parse(s: &str) -> (res: Connect4Result<Board>)
        ensures
            match res {
                Result::Ok(b) => spec_parse(s@) == Option::Some(b@) && b@.len_ok()
                    && b@.in_range(),
                Result::Err(e) => e == Error::MalformedInput && spec_parse(s@) is None,
            },
    {
        let n = s.unicode_len();
        if n != BOARD_ROWS * (BOARD_COLS + 1) - 1 {
            return Connect4Result::Err(Error::MalformedInput);
        }
        let mut cells: Vec<Team> = Vec::new();
        let mut row: usize = 0;
        while row < BOARD_ROWS
            invariant
                s@.len() == ser_len(),
                row <= BOARD_ROWS,
                cells@.len() == row * BOARD_COLS,
                forall|i: int|
                    0 <= i < cells@.len() ==> #[trigger] cells@[i] == team_of_char(
                        s@[(i / BOARD_COLS as int) * line_width() + i % BOARD_COLS as int],
                    ) && is_cell_value(cells@[i]),
                forall|k: int| 0 <= k < row * (BOARD_COLS + 1) && k < ser_len() ==> shape_char_ok(
                    s@,
                    k,
                ),
            decreases BOARD_ROWS - row,
        {
            let mut c: usize = 0;
            while c < BOARD_COLS
                invariant
                    s@.len() == ser_len(),
                    row < BOARD_ROWS,
                    c <= BOARD_COLS,
                    cells@.len() == row * BOARD_COLS + c,
                    forall|i: int|
                        0 <= i < cells@.len() ==> #[trigger] cells@[i] == team_of_char(
                            s@[(i / BOARD_COLS as int) * line_width() + i % BOARD_COLS as int],
                        ) && is_cell_value(cells@[i]),
                    forall|k: int|
                        0 <= k < row * (BOARD_COLS + 1) + c && k < ser_len() ==> shape_char_ok(
                            s@,
                            k,
                        ),
                decreases BOARD_COLS - c,
            {
                proof {
                    lemma_line_pos(row as int, c as int);
                }
                let ch = s.get_char(row * (BOARD_COLS + 1) + c);
                let v: Team = if ch == '_' {
                    EMPTY
                } else if ch == 'X' {
                    TEAM_X
                } else if ch == 'O' {
                    TEAM_O
                } else {
                    proof {
                        assert(!shape_char_ok(s@, row as int * line_width() + c));
                    }
                    return Connect4Result::Err(Error::MalformedInput);
                };
                cells.push(v);
                proof {
                    lemma_cell_pos(row as int, c as int);
                    assert(cells@[cells@.len() - 1] == team_of_char(
                        s@[((cells@.len() - 1) / BOARD_COLS as int) * line_width() + (cells@.len()
                            - 1) % BOARD_COLS as int],
                    ));
                }
                c = c + 1;
            }
            if row + 1 < BOARD_ROWS {
                proof {
                    lemma_line_pos(row as int, BOARD_COLS as int);
                }
                let ch = s.get_char(row * (BOARD_COLS + 1) + BOARD_COLS);
                if ch != '\n' {
                    proof {
                        assert(!shape_char_ok(s@, row as int * line_width() + BOARD_COLS));
                    }
                    return Connect4Result::Err(Error::MalformedInput);
                }
            }
            row = row + 1;
        }
        proof {
            assert(parse_shape_ok(s@));
            assert(cells@ =~= parse_cells(s@));
        }
        let mut next_empty_spot: Vec<isize> = Vec::new();
        let mut c: usize = 0;
        while c < BOARD_COLS
            invariant
                cells@ == parse_cells(s@),
                cells@.len() == BOARD_ROWS * BOARD_COLS,
                forall|i: int| 0 <= i < cells@.len() ==> is_cell_value(#[trigger] cells@[i]),
                c <= BOARD_COLS,
                next_empty_spot@.len() == c,
                forall|k: int|
                    0 <= k < c ==> (#[trigger] next_empty_spot@[k] as int == bottom_empty_row(
                        cells@,
                        k,
                        BOARD_ROWS - 1,
                    )) && (-1 <= next_empty_spot@[k] as int) && ((next_empty_spot@[k] as int)
                        < BOARD_ROWS),
            decreases BOARD_COLS - c,
        {
            let mut es: isize = -1;
            let mut rr: usize = 0;
            while rr < BOARD_ROWS
                invariant
                    cells@.len() == BOARD_ROWS * BOARD_COLS,
                    c < BOARD_COLS,
                    rr <= BOARD_ROWS,
                    es as int == bottom_empty_row(cells@, c as int, rr as int - 1),
                    -1 <= es < BOARD_ROWS,
                decreases BOARD_ROWS - rr,
            {
                if cells[rr * BOARD_COLS + c] == EMPTY {
                    es = rr as isize;
                }
                rr = rr + 1;
            }
            next_empty_spot.push(es);
            c = c + 1;
        }
        let b = Board { mat: cells, next_empty_spot };
        proof {
            assert(b@.cells =~= parse_cells(s@));
            assert(b@.cursors =~= parse_cursors(parse_cells(s@)));
            assert(b@ =~= spec_parse(s@).unwrap());
            assert forall|k: int| 0 <= k < BOARD_COLS implies -1 <= #[trigger] b@.cursors[k]
                < BOARD_ROWS by {
                assert(b@.cursors[k] == next_empty_spot@[k] as int);
            }
        }
        Connect4Result::Ok(b)
    }
}

/// In a gravity-packed column the bottommost empty row is the cursor itself:
/// walking up from any row at or above the cursor's row lands on it.
proof fn lemma_bottom_empty_is_cursor(m: BoardModel, c: int, r: int)
    requires
        m.wf(),
        0 <= c < BOARD_COLS,
        m.cursors[c] <= r <= BOARD_ROWS - 1,
    ensures
        bottom_empty_row(m.cells, c, r) == m.cursors[c],
    decreases r + 1,
{
    if r < 0 {
        assert(m.cursors[c] >= -1);
    } else {
        assert(m.cell(r, c) == m.cells[r * (BOARD_COLS as int) + c]);
        if r <= m.cursors[c] {
            assert(m.cell(r, c) == EMPTY);
        } else {
            assert(m.cell(r, c) != EMPTY);
            lemma_bottom_empty_is_cursor(m, c, r - 1);
        }
    }
}

/// Round trip: serializing any reachable board and parsing the text back
/// yields exactly the same cells and the same cursors.
pub proof fn lemma_round_trip(m: BoardModel)
    requires
        m.wf(),
    ensures
        spec_parse(spec_serialize(m)) == Option::Some(m),
{
    let s = spec_serialize(m);
    assert forall|k: int| 0 <= k < ser_len() implies shape_char_ok(s, k) by {
        if k % line_width() != BOARD_COLS {
            let r = k / line_width();
            let c = k % line_width();
            assert(0 <= c < line_width() && k == r * line_width() + c && 0 <= r < BOARD_ROWS) by (
            nonlinear_arith)
                requires
                    0 <= k < 47 && r == k / 8 && c == k % 8 && k % 8 != 7,
            ;
            assert(s[k] == char_of_team(m.cell(r, c)));
            lemma_cell_pos(r, c);
            assert(is_cell_value(m.cells[r * (BOARD_COLS as int) + c]));
        }
    }
    assert(parse_shape_ok(s));
    assert forall|i: int| 0 <= i < BOARD_ROWS * BOARD_COLS implies parse_cells(s)[i]
        == m.cells[i] by {
        let r = i / (BOARD_COLS as int);
        let c = i % (BOARD_COLS as int);
        assert(0 <= r < BOARD_ROWS && 0 <= c < BOARD_COLS && i == r * (BOARD_COLS as int) + c) by (
        nonlinear_arith)
            requires
                0 <= i < 42 && r == i / 7 && c == i % 7,
        ;
        lemma_line_pos(r, c);
        assert(s[r * line_width() + c] == char_of_team(m.cell(r, c)));
        assert(is_cell_value(m.cells[i]));
        assert(parse_cells(s)[i] == team_of_char(char_of_team(m.cells[i])));
    }
    assert(parse_cells(s) =~= m.cells);
    assert forall|c: int| 0 <= c < BOARD_COLS implies parse_cursors(m.cells)[c]
        == m.cursors[c] by {
        lemma_bottom_empty_is_cursor(m, c, BOARD_ROWS - 1);
    }
    assert(parse_cursors(parse_cells(s)) =~= m.cursors);
    assert(spec_parse(s).unwrap() =~= m);
}

} // verus!
