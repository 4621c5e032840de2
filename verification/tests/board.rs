use connect_four::connect4board::Board;
use connect_four::connect4board::Error;
use connect_four::connect4board::BOARD_COLS;
use connect_four::connect4board::BOARD_ROWS;
use connect_four::connect4board::EMPTY;
use connect_four::connect4board::TEAM_O;
use connect_four::connect4board::TEAM_X;
use connect_four::connect4board::team_to_char;

#[test]
fn empty_board_is_open_everywhere() {
    let board = Board::init_empty();
    assert!(!board.is_full());
    assert_eq!(board.valid_choices(), vec![0, 1, 2, 3, 4, 5, 6]);
    assert!(board.is_well_formed());
}

#[test]
fn drop_lands_on_the_bottom_row() {
    let mut board = Board::init_empty();
    board.drop(2, TEAM_X).unwrap();
    let text = board.serialize();
    let lines: Vec<&str> = text.split('\n').collect();
    assert_eq!(lines.len(), BOARD_ROWS);
    assert_eq!(lines[BOARD_ROWS - 1], "__X____");
    for r in 0..BOARD_ROWS - 1 {
        assert_eq!(lines[r], "_______");
    }
}

#[test]
fn drop_into_full_column_fails() {
    let mut board = Board::init_empty();
    for i in 0..BOARD_ROWS {
        let team = if i % 2 == 0 { TEAM_X } else { TEAM_O };
        board.drop(3, team).unwrap();
    }
    let before = board.serialize();
    assert_eq!(board.drop(3, TEAM_X).unwrap_err(), Error::ColumnFull);
    assert_eq!(board.serialize(), before);
}

#[test]
fn undrop_from_empty_column_fails() {
    let mut board = Board::init_empty();
    assert_eq!(board.undrop(5).unwrap_err(), Error::ColumnEmpty);
}

#[test]
fn undrop_after_drop_restores_the_state() {
    let mut board = Board::init_empty();
    board.drop(0, TEAM_O).unwrap();
    board.drop(3, TEAM_X).unwrap();
    board.drop(3, TEAM_O).unwrap();
    let before = board.duplicate();
    board.drop(3, TEAM_X).unwrap();
    board.undrop(3).unwrap();
    assert_eq!(board, before);
}

#[test]
fn gravity_holds_after_mixed_drops_and_undrops() {
    let mut board = Board::init_empty();
    board.drop(1, TEAM_X).unwrap();
    board.drop(1, TEAM_O).unwrap();
    board.drop(4, TEAM_X).unwrap();
    board.undrop(1).unwrap();
    board.drop(4, TEAM_O).unwrap();
    board.drop(1, TEAM_X).unwrap();
    assert!(board.is_well_formed());
    let text = board.serialize();
    let lines: Vec<&str> = text.split('\n').collect();
    assert_eq!(lines[5], "_X__X__");
    assert_eq!(lines[4], "_X__O__");
    assert_eq!(lines[3], "_______");
}

#[test]
fn filling_every_column_fills_the_board() {
    let mut board = Board::init_empty();
    for c in 0..BOARD_COLS {
        for i in 0..BOARD_ROWS {
            let team = if (c + i) % 2 == 0 { TEAM_X } else { TEAM_O };
            board.drop(c, team).unwrap();
        }
    }
    assert!(board.is_full());
    assert!(board.valid_choices().is_empty());
}

#[test]
fn team_characters() {
    assert_eq!(team_to_char(EMPTY), '_');
    assert_eq!(team_to_char(TEAM_X), 'X');
    assert_eq!(team_to_char(TEAM_O), 'O');
    assert_eq!(team_to_char(9), '?');
}
