use mct_bot::board::Board;
use mct_bot::bot_board::BotBoard;
use mct_bot::notation::from_board_string_to_state;
use mct_bot::player::Player;

fn search_board(drawing: &str, k: i8) -> BotBoard {
    let cells = from_board_string_to_state(drawing);
    let n = (cells.len() as f64).sqrt() as i16;
    let mut raw_test_board = Board::new(n, k);
    let mut test_board = BotBoard::new(raw_test_board.clone());
    for (m, p) in cells.iter().enumerate() {
        if p.is_none() {
            continue;
        }
        raw_test_board
            .apply_move(m as i16, p.expect("player should not be None"))
            .expect("move should be valid");
    }
    test_board.update_board(raw_test_board);
    test_board
}

#[test]
fn legal_moves() {
    let board = "
        [ ][ ][ ]
        [ ][X][O]
        [ ][ ][X]
        ";
    let test_board = search_board(board, 3);

    let legal_moves = test_board.legal_moves();

    assert_eq!(legal_moves, [0, 1, 2, 3, 6, 7]);
}

#[test]
fn is_tactical_move() {
    let board = "
        [ ][ ][ ]
        [ ][X][O]
        [ ][ ][X]
        ";
    let mut test_board = search_board(board, 3);

    let is_tactical = test_board.is_tactical_move(0, Player::X);
    assert_eq!(is_tactical, true);

    let is_tactical = test_board.is_tactical_move(1, Player::X);
    assert_eq!(is_tactical, false);

    let is_tactical = test_board.is_tactical_move(0, Player::O);
    assert_eq!(is_tactical, true);

    let is_tactical = test_board.is_tactical_move(1, Player::O);
    assert_eq!(is_tactical, false);
}

#[test]
fn has_neighbour() {
    let board = "
        [ ][ ][ ]
        [ ][ ][ ]
        [O][ ][X]
        ";
    let mut test_board = search_board(board, 3);

    let has_neighour = test_board.has_neighbour(1);
    assert_eq!(has_neighour, false);

    let has_neighour = test_board.has_neighbour(4);
    assert_eq!(has_neighour, true);

    let has_neighour = test_board.has_neighbour(5);
    assert_eq!(has_neighour, true);
}

#[test]
fn terminating_moves_win() {
    let board = "
        [ ][ ][X][X]
        [ ][O][O][ ]
        [ ][ ][ ][ ]
        [ ][ ][ ][ ]
        ";
    let mut test_board = search_board(board, 3);

    let (winning, blocking) = test_board.terminating_moves(Player::X);

    assert!(winning == Some(1));
    assert!(blocking.is_empty());
}

#[test]
fn terminating_moves_blocks() {
    let board = "
        [ ][X][ ][ ]
        [ ][O][O][ ]
        [ ][ ][X][ ]
        [ ][ ][ ][ ]
        ";
    let mut test_board = search_board(board, 3);

    let (winning, blocking) = test_board.terminating_moves(Player::X);

    assert_eq!(winning, None);
    assert_eq!(blocking, [4, 7]);
}

#[test]
fn legal_moves_and_marks_fill_the_board() {
    let board = "
        [ ][X][ ][ ]
        [ ][O][O][ ]
        [ ][ ][X][ ]
        [ ][ ][ ][ ]
        ";
    let test_board = search_board(board, 3);
    let marks = test_board.board().cells().iter().filter(|c| c.is_some()).count();
    assert_eq!(marks, 4);
    assert_eq!(test_board.legal_moves().len() + marks, 16);
    assert_eq!(test_board.legal_moves(), [0, 2, 3, 4, 7, 8, 9, 11, 12, 13, 14, 15]);
}

#[test]
fn legal_moves_of_empty_and_full_board() {
    let empty = BotBoard::new(Board::new(2, 2));
    assert_eq!(empty.legal_moves(), [0, 1, 2, 3]);
    let cells = vec![Some(Player::X), Some(Player::O), Some(Player::O), Some(Player::X)];
    let full = BotBoard::new(Board::new_from_state(2, 3, cells));
    assert!(full.legal_moves().is_empty());
}

#[test]
fn probes_leave_the_cells_as_they_were() {
    let board = "
        [ ][X][ ][ ]
        [ ][O][O][ ]
        [ ][ ][X][ ]
        [ ][ ][ ][ ]
        ";
    let mut test_board = search_board(board, 3);
    let before = test_board.board().cells().to_vec();
    test_board.is_tactical_move(4, Player::X);
    assert_eq!(test_board.board().cells(), &before[..]);
    test_board.terminating_moves(Player::O);
    assert_eq!(test_board.board().cells(), &before[..]);
    test_board.has_neighbour(0);
    assert_eq!(test_board.board().cells(), &before[..]);
    assert_eq!(test_board.board().check_winner(), None);
}

#[test]
fn has_neighbour_at_corners_and_edges() {
    let board = "
        [X][ ][ ]
        [ ][ ][ ]
        [ ][ ][ ]
        ";
    let mut test_board = search_board(board, 3);
    assert_eq!(test_board.has_neighbour(0), false);
    assert_eq!(test_board.has_neighbour(1), true);
    assert_eq!(test_board.has_neighbour(3), true);
    assert_eq!(test_board.has_neighbour(4), true);
    assert_eq!(test_board.has_neighbour(2), false);
    assert_eq!(test_board.has_neighbour(8), false);
    // the last cell of a row is no neighbour of the first cell of the next
    let board = "
        [ ][ ][X]
        [ ][ ][ ]
        [ ][ ][ ]
        ";
    let mut test_board = search_board(board, 3);
    assert_eq!(test_board.has_neighbour(3), false);
    assert_eq!(test_board.has_neighbour(5), true);
}

#[test]
fn terminating_moves_for_the_other_side() {
    let board = "
        [ ][X][ ][ ]
        [ ][O][O][ ]
        [ ][ ][X][ ]
        [ ][ ][ ][ ]
        ";
    let mut test_board = search_board(board, 3);
    let (winning, blocking) = test_board.terminating_moves(Player::O);
    assert_eq!(winning, Some(4));
    assert!(blocking.is_empty());
}

#[test]
fn terminating_moves_on_quiet_and_full_boards() {
    let mut quiet = BotBoard::new(Board::new(3, 3));
    assert_eq!(quiet.terminating_moves(Player::X), (None, vec![]));
    let cells = vec![Some(Player::X), Some(Player::O), Some(Player::O), Some(Player::X)];
    let mut full = BotBoard::new(Board::new_from_state(2, 3, cells));
    assert_eq!(full.terminating_moves(Player::X), (None, vec![]));
}

#[test]
fn apply_move_on_search_board() {
    let mut b = BotBoard::new(Board::new(3, 3));
    assert_eq!(b.apply_move(0, Player::X), Ok(None));
    assert_eq!(b.apply_move(1, Player::X), Ok(None));
    assert_eq!(b.apply_move(2, Player::X), Ok(Some(Player::X)));
    assert!(b.apply_move(2, Player::O).is_err());
    assert_eq!(b.legal_moves(), [3, 4, 5, 6, 7, 8]);
}

#[test]
fn board_of_the_search_board() {
    let board = "
        [ ][X][ ][ ]
        [ ][O][O][ ]
        [ ][ ][X][ ]
        [ ][ ][ ][ ]
        ";
    let mut test_board = search_board(board, 3);
    assert_eq!(test_board.board().n(), 4);
    assert_eq!(test_board.board().cells()[1], Some(Player::X));
    test_board.apply_move(0, Player::O).unwrap();
    assert_eq!(test_board.board().cells()[0], Some(Player::O));
    test_board.update_board(Board::new(4, 3));
    assert!(test_board.board().cells().iter().all(|c| c.is_none()));
}
