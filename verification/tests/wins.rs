use connect_four::connect4board::Board;
use connect_four::connect4board::TEAM_O;
use connect_four::connect4board::TEAM_X;

#[test]
fn four_in_a_column_is_a_vertical_win() {
    let mut board = Board::init_empty();
    for _ in 0..4 {
        board.drop(0, TEAM_X).unwrap();
    }
    assert_eq!(board.won(), Some(((2, 0), (5, 0), TEAM_X)));
}

#[test]
fn three_in_a_column_is_no_win_yet() {
    let mut board = Board::init_empty();
    for _ in 0..3 {
        board.drop(0, TEAM_X).unwrap();
    }
    assert_eq!(board.won(), None);
}

#[test]
fn bottom_row_run_is_a_horizontal_win() {
    let mut board = Board::init_empty();
    for c in 0..4 {
        board.drop(c, TEAM_O).unwrap();
    }
    assert_eq!(board.won(), Some(((5, 0), (5, 3), TEAM_O)));
}

#[test]
fn horizontal_win_touching_the_right_edge() {
    let board = Board::parse("_______\n_______\n_______\n_______\n_______\n___OOOO").unwrap();
    assert_eq!(board.won(), Some(((5, 3), (5, 6), TEAM_O)));
}

#[test]
fn vertical_win_touching_the_right_edge() {
    let mut board = Board::init_empty();
    board.drop(6, TEAM_O).unwrap();
    board.drop(6, TEAM_X).unwrap();
    for _ in 0..4 {
        board.drop(6, TEAM_O).unwrap();
    }
    assert_eq!(board.won(), Some(((0, 6), (3, 6), TEAM_O)));
}

#[test]
fn down_right_diagonal_win() {
    let board = Board::parse("_______\n__X____\n___X___\n____X__\n_____X_\n_______").unwrap();
    assert_eq!(board.won(), Some(((1, 2), (4, 5), TEAM_X)));
}

#[test]
fn down_left_diagonal_win() {
    let board = Board::parse("_______\n_______\n____O__\n___O___\n__O____\n_O_____").unwrap();
    assert_eq!(board.won(), Some(((2, 4), (5, 1), TEAM_O)));
}

#[test]
fn down_right_diagonal_win_in_the_corner() {
    let board = Board::parse("_______\n_______\n___X___\n____X__\n_____X_\n______X").unwrap();
    assert_eq!(board.won(), Some(((2, 3), (5, 6), TEAM_X)));
}

#[test]
fn down_left_diagonal_win_in_the_corner() {
    let board = Board::parse("_______\n_______\n___O___\n__O____\n_O_____\nO______").unwrap();
    assert_eq!(board.won(), Some(((2, 3), (5, 0), TEAM_O)));
}

#[test]
fn three_in_a_row_every_direction_is_no_win() {
    let board = Board::parse("_______\n_______\n_______\nX______\nX______\nX_XXX__").unwrap();
    assert_eq!(board.won(), None);
    let diagonals = Board::parse("X_____O\n_X___O_\n__X_O__\n_______\n_______\n_______").unwrap();
    assert_eq!(diagonals.won(), None);
}
