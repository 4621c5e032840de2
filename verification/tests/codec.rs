use connect_four::connect4board::Board;
use connect_four::connect4board::Error;
use connect_four::connect4board::TEAM_O;
use connect_four::connect4board::TEAM_X;

#[test]
fn test_adding_tokens() {
    let mut board = Board::init_empty();
    board.drop(0, TEAM_O).unwrap();
    board.drop(2, TEAM_O).unwrap();
    board.drop(4, TEAM_O).unwrap();
    board.drop(1, TEAM_X).unwrap();
    board.drop(2, TEAM_X).unwrap();
    board.drop(3, TEAM_X).unwrap();
    board.drop(5, TEAM_X).unwrap();

    let serialized = board.serialize();
    println!("{}", serialized);
    let parsed = Board::parse(&serialized).unwrap();
    assert_eq!(board, parsed);
}

#[test]
fn empty_board_serializes_to_underscores() {
    let board = Board::init_empty();
    assert_eq!(
        board.serialize(),
        "_______\n_______\n_______\n_______\n_______\n_______"
    );
}

#[test]
fn serialize_shows_pieces_bottom_up() {
    let mut board = Board::init_empty();
    board.drop(0, TEAM_X).unwrap();
    board.drop(0, TEAM_O).unwrap();
    board.drop(6, TEAM_O).unwrap();
    assert_eq!(
        board.serialize(),
        "_______\n_______\n_______\n_______\nO______\nX_____O"
    );
}

#[test]
fn parse_rebuilds_cells_and_cursors() {
    let text = "_______\n_______\n_______\n__X____\n__O___X\n_XO__OX";
    let board = Board::parse(text).unwrap();
    assert!(board.is_well_formed());
    assert_eq!(board.serialize(), text);
    let mut rebuilt = Board::init_empty();
    rebuilt.drop(1, TEAM_X).unwrap();
    rebuilt.drop(2, TEAM_O).unwrap();
    rebuilt.drop(2, TEAM_O).unwrap();
    rebuilt.drop(2, TEAM_X).unwrap();
    rebuilt.drop(5, TEAM_O).unwrap();
    rebuilt.drop(6, TEAM_X).unwrap();
    rebuilt.drop(6, TEAM_X).unwrap();
    assert_eq!(board, rebuilt);
}

#[test]
fn parse_rejects_wrong_length() {
    assert_eq!(Board::parse("").unwrap_err(), Error::MalformedInput);
    assert_eq!(
        Board::parse("_______\n_______\n_______\n_______\n_______")
            .unwrap_err(),
        Error::MalformedInput
    );
    assert_eq!(
        Board::parse("________\n_______\n_______\n_______\n_______\n______")
            .unwrap_err(),
        Error::MalformedInput
    );
}

#[test]
fn parse_rejects_unknown_characters() {
    assert_eq!(
        Board::parse("_______\n_______\n_______\n_______\n_______\n____A__")
            .unwrap_err(),
        Error::MalformedInput
    );
}

#[test]
fn parse_rejects_misplaced_newline() {
    assert_eq!(
        Board::parse("______\n_______\n_______\n_______\n_______\n_______\n")
            .unwrap_err(),
        Error::MalformedInput
    );
}

#[test]
fn round_trip_of_a_tall_position() {
    let mut board = Board::init_empty();
    for i in 0..6 {
        let team = if i % 2 == 0 { TEAM_X } else { TEAM_O };
        board.drop(3, team).unwrap();
    }
    board.drop(0, TEAM_O).unwrap();
    let parsed = Board::parse(&board.serialize()).unwrap();
    assert_eq!(parsed, board);
}
