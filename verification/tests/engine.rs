use connect_four::connect4board::Board;
use connect_four::connect4board::Error;
use connect_four::connect4board::EMPTY;
use connect_four::connect4board::TEAM_O;
use connect_four::connect4board::TEAM_X;
use connect_four::engine::best_choice;
use connect_four::engine::next_turn;
use connect_four::engine::play_random_game;
use connect_four::engine::recommend_best_move;
use connect_four::engine::score_gt_exec;

#[test]
fn turns_alternate() {
    assert_eq!(next_turn(TEAM_X), TEAM_O);
    assert_eq!(next_turn(TEAM_O), TEAM_X);
}

#[test]
fn playout_returns_the_winner_of_a_decided_board() {
    let mut board = Board::init_empty();
    for _ in 0..4 {
        board.drop(2, TEAM_X).unwrap();
    }
    for _ in 0..20 {
        assert_eq!(play_random_game(&board, TEAM_O), TEAM_X);
    }
}

#[test]
fn playout_reports_a_full_drawn_board_as_a_draw() {
    let board = Board::parse("XOXOXOX\nXOXOXOX\nOXOXOXO\nOXOXOXO\nXOXOXOX\nXOXOXOX").unwrap();
    assert!(board.is_full());
    assert_eq!(board.won(), None);
    assert_eq!(play_random_game(&board, TEAM_X), EMPTY);
}

#[test]
fn playout_always_finishes_with_a_mark_or_a_draw() {
    let board = Board::init_empty();
    for _ in 0..50 {
        let outcome = play_random_game(&board, TEAM_X);
        assert!(outcome == EMPTY || outcome == TEAM_X || outcome == TEAM_O);
    }
}

#[test]
fn score_comparison_ranks_ratios_and_all_wins() {
    assert!(score_gt_exec((9, 1), (5, 5)));
    assert!(!score_gt_exec((5, 5), (9, 1)));
    assert!(!score_gt_exec((5, 5), (5, 5)));
    assert!(score_gt_exec((10, 0), (1000, 1)));
    assert!(!score_gt_exec((10, 0), (3, 0)));
    assert!(score_gt_exec((1, 1), (0, 0)));
    assert!(!score_gt_exec((0, 0), (1, 1)));
}

#[test]
fn best_choice_takes_the_first_highest_ratio() {
    assert_eq!(best_choice(&vec![(2, (5, 5)), (6, (9, 1)), (1, (9, 1))]), Some(6));
    assert_eq!(best_choice(&vec![(3, (10, 0)), (5, (100, 1))]), Some(3));
    assert_eq!(best_choice(&vec![(4, (0, 0)), (2, (0, 0))]), Some(4));
    assert_eq!(best_choice(&vec![]), None);
}

#[test]
fn recommend_fails_only_on_a_full_board() {
    let board = Board::parse("XOXOXOX\nXOXOXOX\nOXOXOXO\nOXOXOXO\nXOXOXOX\nXOXOXOX").unwrap();
    assert_eq!(recommend_best_move(&board, TEAM_O, 1000).unwrap_err(), Error::NoLegalMoves);
}

#[test]
fn recommend_returns_the_single_legal_column() {
    let board = Board::parse("XOXO_OX\nXOXO_OX\nOXOX_XO\nOXOX_XO\nXOXO_OX\nXOXO_OX").unwrap();
    assert!(board.is_well_formed());
    assert_eq!(recommend_best_move(&board, TEAM_O, 0).unwrap(), 4);
    assert_eq!(recommend_best_move(&board, TEAM_X, 5000).unwrap(), 4);
}

#[test]
fn recommend_prefers_an_immediate_win() {
    let mut board = Board::init_empty();
    for c in 0..3 {
        board.drop(c, TEAM_O).unwrap();
        board.drop(c, TEAM_X).unwrap();
    }
    // O has three in the bottom row; dropping column 3 wins at once.
    let choice = recommend_best_move(&board, TEAM_O, 7000).unwrap();
    assert_eq!(choice, 3);
}
