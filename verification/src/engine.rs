//! The random playout engine and the Monte Carlo move recommender.
//!
//! A playout drops uniformly random legal moves onto a private copy of the
//! board until somebody wins or the board fills up. The recommender runs a
//! fixed number of playouts for every legal candidate move, tallies wins
//! against non-wins, and picks the first candidate with the best win ratio.

use vstd::prelude::*;

use crate::connect4board::Board;
use crate::connect4board::BoardModel;
use crate::connect4board::Connect4Result;
use crate::connect4board::Error;
use crate::connect4board::Team;
use crate::connect4board::BOARD_COLS;
use crate::connect4board::BOARD_ROWS;
use crate::connect4board::EMPTY;
use crate::connect4board::TEAM_O;
use crate::connect4board::TEAM_X;
use crate::connect4board::is_team;
use crate::wins::has_win;
use crate::wins::win_report_ok;

verus! {

/// The mark that moves after `team`.
pub fn next_turn(team: Team) -> (r: Team)
    requires
        is_team(team),
    ensures
        is_team(r),
        team == TEAM_O ==> r == TEAM_X,
        team == TEAM_X ==> r == TEAM_O,
{
    if team == TEAM_O {
        TEAM_X
    } else {
        TEAM_O
    }
}

/// Relies on rand::Rng::gen_range over the range `0..n`: with a non-empty
/// range it returns an index strictly below `n` (uniformly, which this
/// contract does not need to state).
#[verifier::external_body]
fn random_below(n: usize) -> (r: usize)
    requires
        0 < n,
    ensures
        r < n,
{
    rand::Rng::gen_range(&mut rand::thread_rng(), 0..n)
}

/// The number of empty cells in the columns left of `c`, counted through the
/// cursors.
pub open spec fn empties_upto(m: BoardModel, c: int) -> int
    decreases c,
{
    if c <= 0 {
        0
    } else {
        empties_upto(m, c - 1) + (m.cursors[c - 1] + 1)
    }
}

/// The number of empty cells of the whole board, counted through the cursors.
pub open spec fn empties(m: BoardModel) -> int {
    empties_upto(m, BOARD_COLS as int)
}

proof fn lemma_empties_upto_bounds(m: BoardModel, c: int)
    requires
        m.wf(),
        0 <= c <= BOARD_COLS,
    ensures
        0 <= empties_upto(m, c) <= c * (BOARD_ROWS as int),
    decreases c,
{
    if c > 0 {
        lemma_empties_upto_bounds(m, c - 1);
        assert(-1 <= m.cursors[c - 1] < BOARD_ROWS);
    }
}

/// A reachable board has between zero and one piece slot per cell free: a
/// random playout therefore runs out of moves after at most R*C plies.
pub proof fn lemma_empties_bounded(m: BoardModel)
    requires
        m.wf(),
    ensures
        0 <= empties(m) <= BOARD_ROWS * BOARD_COLS,
{
    lemma_empties_upto_bounds(m, BOARD_COLS as int);
}

proof fn lemma_empties_upto_place(m: BoardModel, col: int, team: Team, c: int)
    requires
        m.wf(),
        m.legal(col),
        0 <= c <= BOARD_COLS,
    ensures
        empties_upto(m.place(col, team), c) == empties_upto(m, c) + (if col < c {
            -1int
        } else {
            0int
        }),
    decreases c,
{
    if c > 0 {
        lemma_empties_upto_place(m, col, team, c - 1);
    }
}

proof fn lemma_empties_upto_lower(m: BoardModel, c: int, k: int)
    requires
        m.wf(),
        0 <= c < k <= BOARD_COLS,
        m.cursors[c] >= 0,
    ensures
        empties_upto(m, k) >= m.cursors[c] + 1,
    decreases k,
{
    if k == c + 1 {
        lemma_empties_upto_bounds(m, c);
    } else {
        lemma_empties_upto_lower(m, c, k - 1);
        assert(m.cursors[k - 1] >= -1);
    }
}

/// A board with a legal column has at least one empty cell.
pub proof fn lemma_empties_positive(m: BoardModel, c: int)
    requires
        m.wf(),
        m.legal(c),
    ensures
        empties(m) >= 1,
{
    lemma_empties_upto_lower(m, c, BOARD_COLS as int);
}

/// Dropping a piece into a legal column uses up exactly one empty cell.
pub proof fn lemma_empties_place(m: BoardModel, col: int, team: Team)
    requires
        m.wf(),
        m.legal(col),
    ensures
        empties(m.place(col, team)) == empties(m) - 1,
{
    lemma_empties_upto_place(m, col, team, BOARD_COLS as int);
}

/// Plays uniformly random legal moves on a private copy of `board`, the mark
/// `turn` moving first, until a mark wins (that mark is returned) or the
/// board fills up (the empty mark is returned as the draw).
pub fn play_random_game(board: &Board, turn: Team) -> (r: Team)
    requires
        board.wf(),
        is_team(turn),
    ensures
        r == EMPTY || is_team(r),
        !has_win(board@) && board@.is_full() ==> r == EMPTY,
        has_win(board@) ==> exists|p1: (usize, usize), p2: (usize, usize)|
            win_report_ok(board@, (p1, p2, r)),
{
    let mut b = board.duplicate();
    let mut t = turn;
    loop
        invariant
            b.wf(),
            is_team(t),
            has_win(board@) || board@.is_full() ==> b@ == board@,
        decreases empties(b@),
    {
        if let Option::Some((p1, p2, p)) = b.won() {
            proof {
                assert(win_report_ok(b@, (p1, p2, p)));
            }
            return p;
        }
        if b.is_full() {
            return EMPTY;
        }
        let choices = b.valid_choices();
        proof {
            let ghost wc = choose|c: int| 0 <= c < BOARD_COLS && b@.cursors[c] >= 0;
            assert(b@.legal(wc));
            assert(choices@.contains(wc as usize));
            assert(choices@.len() > 0);
        }
        let choice = choices[random_below(choices.len())];
        proof {
            assert(b@.legal(choice as int));
            lemma_empties_positive(b@, choice as int);
            lemma_empties_place(b@, choice as int, t);
        }
        let _ = b.drop(choice, t);
        t = next_turn(t);
    }
}

/// The win/non-win tally of a candidate, read as a score: infinite when every
/// sample won, otherwise the ratio of wins to non-wins, with an empty tally
/// counting as zero. `num`/`den` are the comparable fraction.
pub open spec fn score_num(a: (usize, usize)) -> int {
    if a.1 == 0 && a.0 == 0 {
        0
    } else {
        a.0 as int
    }
}

/// The denominator of a tally's score; zero exactly for the infinite score.
pub open spec fn score_den(a: (usize, usize)) -> int {
    if a.1 == 0 && a.0 == 0 {
        1
    } else {
        a.1 as int
    }
}

/// Tally `a` scores strictly higher than tally `b`: an all-wins tally beats
/// everything but another all-wins tally; otherwise the win ratios compare as
/// fractions.
pub open spec fn score_gt(a: (usize, usize), b: (usize, usize)) -> bool {
    if score_den(a) == 0 {
        score_den(b) != 0
    } else if score_den(b) == 0 {
        false
    } else {
        score_num(a) * score_den(b) > score_num(b) * score_den(a)
    }
}

/// The score order is transitive across a non-strict link: whatever beats `b`
/// also beats anything that does not beat `b`.
pub proof fn lemma_score_order(a: (usize, usize), b: (usize, usize), c: (usize, usize))
    requires
        !score_gt(a, b),
        score_gt(c, b),
    ensures
        score_gt(c, a),
{
    let na = score_num(a);
    let da = score_den(a);
    let nb = score_num(b);
    let db = score_den(b);
    let nc = score_num(c);
    let dc = score_den(c);
    if dc == 0 {
        assert(db != 0);
        if da == 0 {
            assert(score_gt(a, b));
        }
    } else {
        assert(db != 0);
        if da == 0 {
            assert(score_gt(a, b));
        }
        assert(da > 0 && db > 0);
        assert(nc * db > nb * dc);
        assert(na * db <= nb * da);
        assert(nc * da > na * dc) by (nonlinear_arith)
            requires
                da > 0 && db > 0 && dc > 0 && nc * db > nb * dc && na * db <= nb * da,
        ;
    }
}

/// Tally `a` scores strictly higher than tally `b`; the executable mirror of
/// `score_gt`.
pub fn score_gt_exec(a: (usize, usize), b: (usize, usize)) -> (r: bool)
    ensures
        r == score_gt(a, b),
{
    let a_inf = a.1 == 0 && a.0 > 0;
    let b_inf = b.1 == 0 && b.0 > 0;
    if a_inf {
        !b_inf
    } else if b_inf {
        false
    } else {
        let na: u128 = a.0 as u128;
        let da: u128 = if a.1 == 0 {
            1
        } else {
            a.1 as u128
        };
        let nb: u128 = b.0 as u128;
        let db: u128 = if b.1 == 0 {
            1
        } else {
            b.1 as u128
        };
        proof {
            assert(na < 0x1_0000_0000_0000_0000 && db < 0x1_0000_0000_0000_0000 && nb
                < 0x1_0000_0000_0000_0000 && da < 0x1_0000_0000_0000_0000);
            assert(na * db < u128::MAX && nb * da < u128::MAX) by (nonlinear_arith)
                requires
                    na < 0x1_0000_0000_0000_0000 && db < 0x1_0000_0000_0000_0000 && nb
                        < 0x1_0000_0000_0000_0000 && da < 0x1_0000_0000_0000_0000,
            ;
        }
        na * db > nb * da
    }
}

/// Picks the first candidate whose tally no other candidate strictly beats:
/// the returned column is carried by some entry with a maximal score, and
/// every earlier entry scores strictly lower.
pub fn best_choice(outcomes: &Vec<(usize, (usize, usize))>) -> (r: Option<usize>)
    ensures
        match r {
            Option::None => outcomes@.len() == 0,
            Option::Some(c) => exists|i: int|
                0 <= i < outcomes@.len() && (#[trigger] outcomes@[i]).0 == c && (forall|j: int|
                    0 <= j < outcomes@.len() ==> !score_gt(
                        (#[trigger] outcomes@[j]).1,
                        outcomes@[i].1,
                    )) && (forall|j: int|
                    0 <= j < i ==> score_gt(outcomes@[i].1, (#[trigger] outcomes@[j]).1)),
        },
{
    if outcomes.len() == 0 {
        return Option::None;
    }
    let mut best: usize = 0;
    let mut k: usize = 1;
    while k < outcomes.len()
        invariant
            outcomes@.len() > 0,
            best < k <= outcomes@.len(),
            forall|j: int| 0 <= j < k ==> !score_gt(
                (#[trigger] outcomes@[j]).1,
                outcomes@[best as int].1,
            ),
            forall|j: int| 0 <= j < best ==> score_gt(
                outcomes@[best as int].1,
                (#[trigger] outcomes@[j]).1,
            ),
        decreases outcomes@.len() - k,
    {
        if score_gt_exec(outcomes[k].1, outcomes[best].1) {
            proof {
                assert forall|j: int| 0 <= j < k implies score_gt(
                    outcomes@[k as int].1,
                    (#[trigger] outcomes@[j]).1,
                ) by {
                    lemma_score_order(outcomes@[j].1, outcomes@[best as int].1, outcomes@[k as int].1);
                }
            }
            best = k;
        }
        k = k + 1;
    }
    Option::Some(outcomes[best].0)
}

/// Runs a Monte Carlo evaluation of every legal move: the sample budget is
/// split evenly over the candidates, each candidate is played on a private
/// copy and evaluated by that many random playouts from the opponent's turn,
/// and the first candidate with the best win ratio is returned. Fails with
/// `NoLegalMoves`, and only with it, exactly when the board is full.
pub fn recommend_best_move(board: &Board, turn: Team, num_test_games: usize) -> (r: Connect4Result<
    usize,
>)
    requires
        board.wf(),
        is_team(turn),
    ensures
        r is Err <==> board@.is_full(),
        match r {
            Result::Ok(c) => board@.legal(c as int),
            Result::Err(e) => e == Error::NoLegalMoves,
        },
{
    let moves = board.valid_choices();
    if moves.len() == 0 {
        proof {
            assert forall|c: int| 0 <= c < BOARD_COLS implies #[trigger] board@.cursors[c] < 0 by {
                if board@.cursors[c] >= 0 {
                    assert(board@.legal(c));
                    assert(moves@.contains(c as usize));
                }
            }
        }
        return Connect4Result::Err(Error::NoLegalMoves);
    }
    proof {
        assert(board@.legal(moves@[0] as int));
        assert(!board@.is_full());
    }
    let test_games = num_test_games / moves.len();
    let mut outcomes: Vec<(usize, (usize, usize))> = Vec::new();
    let mut idx: usize = 0;
    while idx < moves.len()
        invariant
            board.wf(),
            is_team(turn),
            idx <= moves@.len(),
            forall|i: int| 0 <= i < moves@.len() ==> board@.legal(#[trigger] moves@[i] as int),
            outcomes@.len() == idx,
            forall|i: int| 0 <= i < idx ==> (#[trigger] outcomes@[i]).0 == moves@[i],
        decreases moves@.len() - idx,
    {
        let choice = moves[idx];
        let mut nboard = board.duplicate();
        let _ = nboard.drop(choice, turn);
        let opp = next_turn(turn);
        let mut win: usize = 0;
        let mut lose_tie: usize = 0;
        let mut g: usize = 0;
        while g < test_games
            invariant
                nboard.wf(),
                is_team(opp),
                is_team(turn),
                g <= test_games,
                win + lose_tie == g,
            decreases test_games - g,
        {
            if play_random_game(&nboard, opp) == turn {
                win = win + 1;
            } else {
                lose_tie = lose_tie + 1;
            }
            g = g + 1;
        }
        outcomes.push((choice, (win, lose_tie)));
        idx = idx + 1;
    }
    match best_choice(&outcomes) {
        Option::Some(c) => {
            proof {
                let i = choose|i: int|
                    0 <= i < outcomes@.len() && (#[trigger] outcomes@[i]).0 == c && (forall|j: int|
                        0 <= j < outcomes@.len() ==> !score_gt(
                            (#[trigger] outcomes@[j]).1,
                            outcomes@[i].1,
                        )) && (forall|j: int|
                        0 <= j < i ==> score_gt(outcomes@[i].1, (#[trigger] outcomes@[j]).1));
                assert(outcomes@[i].0 == moves@[i]);
                assert(board@.legal(moves@[i] as int));
            }
            Connect4Result::Ok(c)
        },
        Option::None => {
            proof {
                assert(outcomes@.len() == moves@.len());
                assert(false);
            }
            Connect4Result::Err(Error::NoLegalMoves)
        },
    }
}

} // verus!
