use std::time::Duration;

use mct_bot::board::Board;
use mct_bot::bot_board::BotBoard;
use mct_bot::mct_bot::{place_to_expand, places_to_draw_from, Bot, BotError, Node};
use mct_bot::notation::from_board_string_to_state;
use mct_bot::player::Player;

const TEST_THINKING_TIME: Duration = Duration::new(5, 0);

fn uct_value(nodes: &Vec<Node>, node_index: usize, p_v_ln: f32) -> f32 {
    let current = &nodes[node_index];
    if current.visits() == 0 {
        return f32::INFINITY;
    }
    let visits = current.visits() as f32;
    let wins = current.reward() as f32 / 10.0;
    wins / visits + 1.414 * (p_v_ln / visits).sqrt()
}

fn select_child(nodes: &Vec<Node>, node_index: usize) -> usize {
    let current = &nodes[node_index];
    let current_visits_ln = (current.visits() as f32).ln();
    current
        .children()
        .iter()
        .max_by(|&&a, &&b| {
            let u_a = uct_value(nodes, a, current_visits_ln);
            let u_b = uct_value(nodes, b, current_visits_ln);
            u_a.partial_cmp(&u_b).unwrap_or(std::cmp::Ordering::Equal)
        })
        .copied()
        .expect("node without children")
}

fn out_of_range(_nodes: &Vec<Node>, _node_index: usize) -> usize {
    usize::MAX
}

fn played(drawing: &str, k: i8) -> Board {
    let cells = from_board_string_to_state(drawing);
    let n = (cells.len() as f64).sqrt() as i16;
    let mut test_board = Board::new(n, k);
    for (m, p) in cells.iter().enumerate() {
        if p.is_none() {
            continue;
        }
        test_board
            .apply_move(m as i16, p.expect("player should not be None"))
            .expect("move should be valid");
    }
    test_board
}

const ONE_FROM_WIN: &str = "
        [ ][ ][ ][ ][ ]
        [ ][X][O][ ][ ]
        [ ][ ][X][O][ ]
        [ ][ ][ ][X][O]
        [ ][ ][ ][ ][ ]
        ";

const ONE_TO_BLOCK: &str = "
        [ ][ ][ ][ ][ ]
        [ ][X][O][ ][ ]
        [ ][ ][X][O][ ]
        [ ][X][ ][ ][O]
        [ ][ ][ ][ ][ ]
        ";

const OPEN_THREE: &str = "
        [ ][ ][ ][ ][ ][ ][ ][ ][ ]
        [ ][ ][ ][ ][ ][ ][ ][ ][ ]
        [ ][ ][ ][ ][ ][X][ ][ ][ ]
        [ ][ ][ ][O][ ][X][ ][ ][ ]
        [ ][ ][ ][ ][O][ ][ ][ ][ ]
        [ ][ ][ ][X][ ][O][ ][ ][ ]
        [ ][ ][ ][ ][ ][ ][ ][ ][ ]
        [ ][ ][ ][ ][ ][ ][ ][ ][ ]
        [ ][ ][ ][ ][ ][ ][ ][ ][ ]
        ";

#[test]
fn find_best_move_win() {
    let test_board = played(ONE_FROM_WIN, 4);

    let mut b = Bot::new(TEST_THINKING_TIME);
    let m = b
        .find_next_move(&test_board, Player::X, select_child)
        .expect("could find move");

    assert_eq!(m, 0);
}

#[test]
fn find_best_move_block() {
    let test_board = played(ONE_TO_BLOCK, 4);

    let mut b = Bot::new(TEST_THINKING_TIME);
    let m = b
        .find_next_move(&test_board, Player::X, select_child)
        .expect("could find move");

    assert_eq!(m, 1);
}

#[test]
fn find_best_move_block_open_three() {
    let test_board = played(OPEN_THREE, 4);

    let mut b = Bot::new(TEST_THINKING_TIME);
    let m = b
        .find_next_move(&test_board, Player::X, select_child)
        .expect("could find move");

    println!("FOUND {m}");
    assert!(m == 20 || m == 60);
}

#[test]
fn expansion_tactical() {
    let raw_test_board = played(ONE_TO_BLOCK, 4);
    let mut test_board = BotBoard::new(raw_test_board.clone());

    let mut b = Bot::new(TEST_THINKING_TIME);
    b.plant_root(Player::X, test_board.legal_moves());

    let (n_i, _) = b.expand(0, &mut test_board, Player::X);

    assert!(b.nodes()[n_i].game_move() == Some(1))
}

#[test]
fn winning_move_with_win_length_three_is_the_first_one() {
    // with three in a row the diagonal through 6 and 12 is already won by 0
    let mut b = Bot::new(TEST_THINKING_TIME);
    let m = b.find_next_move(&played(ONE_FROM_WIN, 3), Player::X, select_child);
    assert_eq!(m, Ok(0));
    let m = b.find_next_move(&played(ONE_TO_BLOCK, 3), Player::X, select_child);
    assert_eq!(m, Ok(0));
    let m = b.find_next_move(&played(OPEN_THREE, 3), Player::X, select_child);
    assert_eq!(m, Ok(14));
}

#[test]
fn winning_move_is_found_without_any_time() {
    let test_board = played(ONE_FROM_WIN, 4);
    let mut b = Bot::new(Duration::new(0, 0));
    for _ in 0..20 {
        let m = b.find_next_move(&test_board, Player::X, select_child);
        assert_eq!(m, Ok(0));
        assert_eq!(b.iterations(), 0);
        assert!(b.nodes().is_empty());
    }
}

#[test]
fn winning_move_is_preferred_to_blocking() {
    let drawing = "
        [X][X][ ][ ]
        [O][O][ ][ ]
        [ ][ ][ ][ ]
        [ ][ ][ ][ ]
        ";
    let mut b = Bot::new(Duration::new(0, 0));
    assert_eq!(b.find_next_move(&played(drawing, 3), Player::X, select_child), Ok(2));
    assert_eq!(b.find_next_move(&played(drawing, 3), Player::O, select_child), Ok(6));
}

#[test]
fn caller_board_is_not_changed() {
    let test_board = played(OPEN_THREE, 4);
    let before = test_board.cells().to_vec();
    let mut b = Bot::new(Duration::from_millis(30));
    b.find_next_move(&test_board, Player::X, select_child).unwrap();
    assert_eq!(test_board.cells(), &before[..]);
}

#[test]
fn full_board_gives_no_more_moves() {
    let cells = vec![Some(Player::X), Some(Player::O), Some(Player::O), Some(Player::X)];
    let full = Board::new_from_state(2, 3, cells);
    let mut b = Bot::new(Duration::from_millis(10));
    assert_eq!(b.find_next_move(&full, Player::X, select_child), Err(BotError::NoMoreMoves));
    assert_eq!(BotError::NoMoreMoves.to_string(), "NoMoreMoves");
}

#[test]
fn search_returns_a_legal_move() {
    let test_board = Board::new(4, 3);
    let mut b = Bot::new(Duration::from_millis(100));
    let m = b.find_next_move(&test_board, Player::X, select_child).unwrap();
    assert!((0..16).contains(&m));
    assert!(b.iterations() > 0);
    let root = &b.nodes()[0];
    assert_eq!(root.visits(), b.iterations());
    assert_eq!(root.parent(), None);
    assert_eq!(root.game_move(), None);
    assert_eq!(root.player(), Player::X);
    // the move belongs to a child of the root that no other child outnumbers
    let best = root
        .children()
        .iter()
        .map(|&c| b.nodes()[c].visits())
        .max()
        .unwrap();
    assert!(root
        .children()
        .iter()
        .any(|&c| b.nodes()[c].game_move() == Some(m) && b.nodes()[c].visits() == best));
}

#[test]
fn search_tree_is_consistent() {
    let test_board = played(OPEN_THREE, 5);
    let mut b = Bot::new(Duration::from_millis(100));
    b.find_next_move(&test_board, Player::X, select_child).unwrap();
    let nodes = b.nodes();
    for (i, node) in nodes.iter().enumerate() {
        if i == 0 {
            assert_eq!(node.parent(), None);
        } else {
            let p = node.parent().unwrap();
            assert!(p < i);
            assert!(nodes[p].children().contains(&i));
            let m = node.game_move().unwrap();
            assert_eq!(test_board.cells()[m as usize], None);
            // the mover alternates from the root's side on
            if p == 0 {
                assert_eq!(node.player(), nodes[0].player());
            } else {
                assert_eq!(node.player(), nodes[p].player().next());
            }
        }
        assert!(node.reward() <= 10 * node.visits() as u64);
        for &c in node.children() {
            assert_eq!(nodes[c].parent(), Some(i));
            let m = nodes[c].game_move().unwrap();
            assert!(!node.untried_moves().contains(&m));
        }
        let mut untried = node.untried_moves().clone();
        untried.sort();
        untried.dedup();
        assert_eq!(untried.len(), node.untried_moves().len());
    }
}

#[test]
fn search_without_time_falls_back_to_the_first_open_cell() {
    let test_board = played(OPEN_THREE, 5);
    let mut b = Bot::new(Duration::new(0, 0));
    let m = b.find_next_move(&test_board, Player::X, select_child).unwrap();
    assert_eq!(test_board.cells()[m as usize], None);
    if b.nodes()[0].children().is_empty() {
        assert_eq!(m, 0);
    }
}

#[test]
fn several_blocking_moves_are_never_ignored() {
    // O threatens 20 and 60; whatever the search prefers, one of them is played
    let test_board = played(OPEN_THREE, 4);
    for budget in [0u64, 1, 20] {
        let mut b = Bot::new(Duration::from_millis(budget));
        let m = b.find_next_move(&test_board, Player::X, out_of_range).unwrap();
        assert!(m == 20 || m == 60);
    }
}

#[test]
fn choice_that_is_no_child_is_replaced() {
    let test_board = Board::new(3, 3);
    let mut b = Bot::new(Duration::from_millis(50));
    let m = b.find_next_move(&test_board, Player::O, out_of_range).unwrap();
    assert!((0..9).contains(&m));
    assert!(b.iterations() > 0);
}

#[test]
fn new_node_is_a_bare_root() {
    let node = Node::new(Player::O);
    assert_eq!(node.parent(), None);
    assert!(node.children().is_empty());
    assert_eq!(node.game_move(), None);
    assert_eq!(node.reward(), 0);
    assert_eq!(node.visits(), 0);
    assert!(node.untried_moves().is_empty());
    assert_eq!(node.player(), Player::O);
    assert!(!node.can_expand());
}

#[test]
fn new_bot_has_no_tree() {
    let b = Bot::new(TEST_THINKING_TIME);
    assert!(b.nodes().is_empty());
    assert_eq!(b.iterations(), 0);
    assert_eq!(b.turn(), 0);
}

#[test]
fn turn_counts_the_marks() {
    let test_board = played(OPEN_THREE, 4);
    let mut b = Bot::new(Duration::new(0, 0));
    b.find_next_move(&test_board, Player::X, select_child).unwrap();
    assert_eq!(b.turn(), 6);
}

#[test]
fn plant_root_and_can_expand() {
    let mut b = Bot::new(TEST_THINKING_TIME);
    b.plant_root(Player::X, vec![0, 1, 2, 3]);
    assert_eq!(b.nodes().len(), 1);
    let root = &b.nodes()[0];
    assert_eq!(root.untried_moves(), &vec![0, 1, 2, 3]);
    assert_eq!(root.player(), Player::X);
    // no visit yet: 0 children are not fewer than 2 * sqrt(0)
    assert!(!root.can_expand());
}

#[test]
fn can_expand_follows_the_square_root_of_the_visits() {
    // after n simulations the root has fewer than 2 * sqrt(n) + 1 children
    let test_board = Board::new(5, 4);
    let mut b = Bot::new(Duration::from_millis(50));
    b.find_next_move(&test_board, Player::X, select_child).unwrap();
    for node in b.nodes() {
        let children = node.children().len() as u64;
        let visits = node.visits() as u64;
        let expected = !node.untried_moves().is_empty() && children * children < 4 * visits;
        assert_eq!(node.can_expand(), expected);
        if children > 0 {
            assert!((children - 1) * (children - 1) < 4 * visits);
        }
    }
}

#[test]
fn expand_adds_a_child_and_plays_its_move() {
    let mut test_board = BotBoard::new(Board::new(3, 3));
    let mut b = Bot::new(TEST_THINKING_TIME);
    b.plant_root(Player::O, test_board.legal_moves());
    let (child, winner) = b.expand(0, &mut test_board, Player::O);
    assert_eq!(child, 1);
    assert_eq!(winner, None);
    assert_eq!(b.nodes().len(), 2);
    let m = b.nodes()[1].game_move().unwrap();
    assert_eq!(test_board.board().cells()[m as usize], Some(Player::O));
    assert_eq!(b.nodes()[1].parent(), Some(0));
    assert_eq!(b.nodes()[1].player(), Player::O);
    assert_eq!(b.nodes()[1].visits(), 0);
    assert_eq!(b.nodes()[1].reward(), 0);
    assert!(b.nodes()[1].children().is_empty());
    assert_eq!(b.nodes()[1].untried_moves(), &test_board.legal_moves());
    assert_eq!(b.nodes()[1].untried_moves().len(), 8);
    assert_eq!(b.nodes()[0].children(), &vec![1]);
    assert_eq!(b.nodes()[0].untried_moves().len(), 8);
    assert!(!b.nodes()[0].untried_moves().contains(&m));
}

#[test]
fn expand_reports_a_winning_child() {
    let drawing = "
        [X][X][ ]
        [O][O][ ]
        [ ][ ][ ]
        ";
    let mut test_board = BotBoard::new(played(drawing, 3));
    let mut b = Bot::new(TEST_THINKING_TIME);
    b.plant_root(Player::X, test_board.legal_moves());
    let (child, winner) = b.expand(0, &mut test_board, Player::X);
    // both 2 and 5 are tactical; only 2 wins for X
    let m = b.nodes()[child].game_move().unwrap();
    assert!(m == 2 || m == 5);
    assert_eq!(winner, if m == 2 { Some(Player::X) } else { None });
}

#[test]
fn rewards_are_counted_for_the_mover() {
    // X wins at once wherever it moves next to its mark on a 2 x 2 board with two in a row
    let mut test_board = Board::new(2, 2);
    test_board.apply_move(0, Player::X).unwrap();
    test_board.apply_move(3, Player::O).unwrap();
    let mut b = Bot::new(Duration::from_millis(20));
    // the shortcut answers: the first winning cell
    assert_eq!(b.find_next_move(&test_board, Player::X, select_child), Ok(1));
    // on an open board every simulation ends with a winner or a tie
    let open = Board::new(3, 3);
    b.find_next_move(&open, Player::X, select_child).unwrap();
    let root = &b.nodes()[0];
    assert!(root.reward() <= 10 * root.visits() as u64);
    let visits: u64 = root.children().iter().map(|&c| b.nodes()[c].visits() as u64).sum();
    assert!(visits <= root.visits() as u64);
}

#[test]
fn candidates_sort_out_tactical_and_neighbouring_moves() {
    let mut test_board = BotBoard::new(played(ONE_TO_BLOCK, 4));
    let mut b = Bot::new(TEST_THINKING_TIME);
    b.plant_root(Player::X, test_board.legal_moves());
    assert_eq!(b.nodes()[0].untried_moves()[1], 1);
    // only 1 is tactical; before it stands 0, next to the X on 6
    assert_eq!(b.candidates(0, &mut test_board, Player::X), (vec![1], vec![0]));
    assert_eq!(b.candidates(0, &mut test_board, Player::O), (vec![1], vec![0]));

    let mut quiet = BotBoard::new(Board::new(3, 3));
    b.plant_root(Player::X, quiet.legal_moves());
    assert_eq!(b.candidates(0, &mut quiet, Player::X), (vec![], vec![]));

    let mut one_mark = BotBoard::new(played("[X][ ][ ]\n[ ][ ][ ]\n[ ][ ][ ]", 3));
    b.plant_root(Player::O, one_mark.legal_moves());
    assert_eq!(b.candidates(0, &mut one_mark, Player::O), (vec![], vec![0, 2, 3]));
    assert_eq!(one_mark.legal_moves(), [1, 2, 3, 4, 5, 6, 7, 8]);
}

#[test]
fn candidates_stop_collecting_neighbours_at_the_first_tactical_move() {
    let drawing = "
        [X][X][ ][ ]
        [ ][ ][ ][ ]
        [ ][ ][ ][ ]
        [ ][ ][ ][O]
        ";
    let mut test_board = BotBoard::new(played(drawing, 3));
    let mut b = Bot::new(TEST_THINKING_TIME);
    // the moves in an order of their own: 4 and 5 are neighbours, 2 is tactical, 6 comes too late
    b.plant_root(Player::O, vec![4, 9, 5, 2, 6]);
    assert_eq!(b.candidates(0, &mut test_board, Player::O), (vec![3], vec![0, 2]));
}

#[test]
fn expand_with_takes_the_move_at_the_given_place() {
    let mut test_board = BotBoard::new(Board::new(3, 3));
    let mut b = Bot::new(TEST_THINKING_TIME);
    b.plant_root(Player::O, test_board.legal_moves());
    let (child, winner) = b.expand_with(0, &mut test_board, Player::O, 2);
    assert_eq!((child, winner), (1, None));
    assert_eq!(b.nodes()[1].game_move(), Some(2));
    assert_eq!(b.nodes()[1].player(), Player::O);
    assert_eq!(b.nodes()[1].parent(), Some(0));
    assert_eq!(b.nodes()[1].untried_moves(), &vec![0, 1, 3, 4, 5, 6, 7, 8]);
    assert_eq!(b.nodes()[0].untried_moves(), &vec![0, 1, 8, 3, 4, 5, 6, 7]);
    assert_eq!(b.nodes()[0].children(), &vec![1]);
    assert_eq!(test_board.board().cells()[2], Some(Player::O));

    let (child, winner) = b.expand_with(1, &mut test_board, Player::X, 7);
    assert_eq!((child, winner), (2, None));
    assert_eq!(b.nodes()[2].game_move(), Some(8));
    assert_eq!(b.nodes()[2].parent(), Some(1));
    assert_eq!(b.nodes()[1].untried_moves(), &vec![0, 1, 3, 4, 5, 6, 7]);
    assert_eq!(b.nodes()[1].children(), &vec![2]);
    assert_eq!(b.nodes()[2].untried_moves(), &vec![0, 1, 3, 4, 5, 6, 7]);
}

#[test]
fn expand_with_reports_the_winner() {
    let mut test_board = BotBoard::new(played("[X][X][ ]\n[O][O][ ]\n[ ][ ][ ]", 3));
    let mut b = Bot::new(TEST_THINKING_TIME);
    b.plant_root(Player::X, test_board.legal_moves());
    assert_eq!(b.nodes()[0].untried_moves(), &vec![2, 5, 6, 7, 8]);
    assert_eq!(b.expand_with(0, &mut test_board, Player::X, 0), (1, Some(Player::X)));
}

#[test]
fn backpropagate_counts_for_each_mover() {
    let mut test_board = BotBoard::new(Board::new(3, 3));
    let mut b = Bot::new(TEST_THINKING_TIME);
    b.plant_root(Player::X, test_board.legal_moves());
    let (first, _) = b.expand_with(0, &mut test_board, Player::X, 0);
    let (second, _) = b.expand_with(first, &mut test_board, Player::O, 0);
    assert_eq!((first, second), (1, 2));

    // a win of O counts for the node that O moved to only
    b.backpropagate(second, Some(Player::O));
    let stats: Vec<(u32, u64)> = b.nodes().iter().map(|n| (n.visits(), n.reward())).collect();
    assert_eq!(stats, [(1, 0), (1, 0), (1, 10)]);

    // a tie counts six tenths for every node on the way up, and leaves the others alone
    b.backpropagate(first, None);
    let stats: Vec<(u32, u64)> = b.nodes().iter().map(|n| (n.visits(), n.reward())).collect();
    assert_eq!(stats, [(2, 6), (2, 6), (1, 10)]);

    // a win of X counts for the root, whose side is X, and for the node that X moved to
    b.backpropagate(second, Some(Player::X));
    let stats: Vec<(u32, u64)> = b.nodes().iter().map(|n| (n.visits(), n.reward())).collect();
    assert_eq!(stats, [(3, 16), (3, 16), (2, 10)]);

    b.backpropagate(0, Some(Player::O));
    let stats: Vec<(u32, u64)> = b.nodes().iter().map(|n| (n.visits(), n.reward())).collect();
    assert_eq!(stats, [(4, 16), (3, 16), (2, 10)]);
    assert_eq!(b.iterations(), 4);
}

#[test]
fn rollout_ends_with_a_winner_or_a_full_board() {
    let b = Bot::new(TEST_THINKING_TIME);
    for round in 0..50 {
        let mut test_board = BotBoard::new(played("[X][ ][ ]\n[ ][O][ ]\n[ ][ ][ ]", 3));
        let starter = if round % 2 == 0 { Player::X } else { Player::O };
        let winner = b.rollout(&mut test_board, starter);
        assert_eq!(test_board.board().cells()[0], Some(Player::X));
        assert_eq!(test_board.board().cells()[4], Some(Player::O));
        match winner {
            Some(w) => assert_eq!(test_board.board().check_winner(), Some(w)),
            None => {
                assert!(test_board.board().is_tie());
                assert_eq!(test_board.board().check_winner(), None);
            }
        }
        let xs = test_board.board().cells().iter().filter(|c| **c == Some(Player::X)).count();
        let os = test_board.board().cells().iter().filter(|c| **c == Some(Player::O)).count();
        // the sides took turns
        if starter == Player::X {
            assert!(xs == os || xs == os + 1);
        } else {
            assert!(os == xs || os == xs + 1);
        }
    }
}

#[test]
fn rollout_on_a_full_board_is_a_tie() {
    let cells = vec![Some(Player::X), Some(Player::O), Some(Player::O), Some(Player::X)];
    let mut full = BotBoard::new(Board::new_from_state(2, 3, cells));
    let b = Bot::new(TEST_THINKING_TIME);
    assert_eq!(b.rollout(&mut full, Player::X), None);
}

#[test]
fn most_visited_child_is_the_last_of_the_best() {
    let mut test_board = BotBoard::new(Board::new(3, 3));
    let mut b = Bot::new(TEST_THINKING_TIME);
    b.plant_root(Player::X, test_board.legal_moves());
    assert_eq!(b.most_visited_child(), None);
    let (first, _) = b.expand_with(0, &mut test_board, Player::X, 0);
    test_board.update_board(Board::new(3, 3));
    let (second, _) = b.expand_with(0, &mut test_board, Player::X, 0);
    test_board.update_board(Board::new(3, 3));
    let (third, _) = b.expand_with(0, &mut test_board, Player::X, 0);
    // nobody visited: the last child stands
    assert_eq!(b.most_visited_child(), Some(third));
    b.backpropagate(first, None);
    assert_eq!(b.most_visited_child(), Some(first));
    b.backpropagate(second, None);
    assert_eq!(b.most_visited_child(), Some(second));
    b.backpropagate(first, None);
    assert_eq!(b.most_visited_child(), Some(first));
    b.backpropagate(third, None);
    b.backpropagate(third, None);
    assert_eq!(b.most_visited_child(), Some(third));
}

#[test]
fn budget_is_used_up_only_by_a_longer_time() {
    use_overdue(Some(0), 0, false);
    use_overdue(Some(5), 5, false);
    use_overdue(Some(6), 5, true);
    use_overdue(Some(1), 0, true);
    use_overdue(Some(u128::MAX), u128::MAX, false);
    use_overdue(Some(4_999_999_999), 5_000_000_000, false);
    use_overdue(Some(5_000_000_001), 5_000_000_000, true);
    // a clock that was set back gives no time: the search stops
    use_overdue(None, 0, true);
    use_overdue(None, u128::MAX, true);
}

fn use_overdue(gone: Option<u128>, budget: u128, expected: bool) {
    assert_eq!(mct_bot::clock::overdue(gone, budget), expected);
}

#[test]
fn place_to_expand_prefers_tactical_then_neighbouring_moves() {
    let tactical = vec![4, 7];
    let neighbours = vec![1, 2, 9];
    let none: Vec<usize> = vec![];
    // tactical places win, whatever the coin shows
    for coin in [false, true] {
        assert_eq!(places_to_draw_from(&tactical, &neighbours, 12, coin), 2);
        assert_eq!(place_to_expand(&tactical, &neighbours, 12, coin, 0), 4);
        assert_eq!(place_to_expand(&tactical, &neighbours, 12, coin, 1), 7);
    }
    // without tactical places the coin decides between the neighbours and all places
    assert_eq!(places_to_draw_from(&none, &neighbours, 12, true), 3);
    assert_eq!(place_to_expand(&none, &neighbours, 12, true, 0), 1);
    assert_eq!(place_to_expand(&none, &neighbours, 12, true, 2), 9);
    assert_eq!(places_to_draw_from(&none, &neighbours, 12, false), 12);
    assert_eq!(place_to_expand(&none, &neighbours, 12, false, 2), 2);
    assert_eq!(place_to_expand(&none, &neighbours, 12, false, 11), 11);
    // without neighbours the coin changes nothing
    assert_eq!(places_to_draw_from(&none, &none, 12, true), 12);
    assert_eq!(place_to_expand(&none, &none, 12, true, 5), 5);
}

#[test]
fn neighbouring_move_is_expanded_when_the_coin_falls_for_it() {
    let mut test_board = BotBoard::new(played("[X][ ][ ]\n[ ][ ][ ]\n[ ][ ][ ]", 3));
    let mut b = Bot::new(TEST_THINKING_TIME);
    b.plant_root(Player::O, test_board.legal_moves());
    let (tactical, neighbours) = b.candidates(0, &mut test_board, Player::O);
    let count = b.nodes()[0].untried_moves().len();
    for draw in 0..places_to_draw_from(&tactical, &neighbours, count, true) {
        let mut board = BotBoard::new(played("[X][ ][ ]\n[ ][ ][ ]\n[ ][ ][ ]", 3));
        b.plant_root(Player::O, board.legal_moves());
        let idx = place_to_expand(&tactical, &neighbours, count, true, draw);
        let (child, _) = b.expand_with(0, &mut board, Player::O, idx);
        let m = b.nodes()[child].game_move().unwrap();
        assert!([1, 3, 4].contains(&m));
    }
}

#[test]
fn unvisited_child_is_the_last_without_a_visit() {
    let mut test_board = BotBoard::new(Board::new(3, 3));
    let mut b = Bot::new(TEST_THINKING_TIME);
    b.plant_root(Player::X, test_board.legal_moves());
    assert_eq!(b.unvisited_child(0), None);
    let (first, _) = b.expand_with(0, &mut test_board, Player::X, 0);
    test_board.update_board(Board::new(3, 3));
    let (second, _) = b.expand_with(0, &mut test_board, Player::X, 0);
    test_board.update_board(Board::new(3, 3));
    let (third, _) = b.expand_with(0, &mut test_board, Player::X, 0);
    assert_eq!(b.unvisited_child(0), Some(third));
    assert_eq!(b.unvisited_child(first), None);
    b.backpropagate(third, None);
    assert_eq!(b.unvisited_child(0), Some(second));
    b.backpropagate(first, None);
    assert_eq!(b.unvisited_child(0), Some(second));
    b.backpropagate(second, None);
    assert_eq!(b.unvisited_child(0), None);
}

#[test]
fn every_child_is_tried_before_the_selection_rule_is_asked() {
    // a rule that must never see a child without a visit
    fn strict(nodes: &Vec<Node>, node_index: usize) -> usize {
        let children = nodes[node_index].children();
        assert!(children.iter().all(|&c| nodes[c].visits() > 0));
        select_child(nodes, node_index)
    }
    let test_board = Board::new(4, 3);
    let mut b = Bot::new(Duration::from_millis(100));
    b.find_next_move(&test_board, Player::X, strict).unwrap();
    assert!(b.iterations() > 10);
}

#[test]
fn rounds_of_the_search_grow_and_visit_the_tree() {
    let position = played("[X][ ][ ]\n[ ][O][ ]\n[ ][ ][ ]", 3);
    let mut test_board = BotBoard::new(position.clone());
    let mut b = Bot::new(TEST_THINKING_TIME);
    b.plant_root(Player::X, test_board.legal_moves());

    // the first round cannot expand a root without visits: it plays out from the root
    b.simulate(&mut test_board, Player::X, &select_child);
    assert_eq!(b.nodes().len(), 1);
    assert_eq!(b.nodes()[0].visits(), 1);
    assert!([0, 6, 10].contains(&b.nodes()[0].reward()));
    let marks = test_board.board().cells().iter().filter(|c| c.is_some()).count();
    assert!(marks > 2);

    // the second round gives the root a child and records the outcome on both
    test_board.update_board(position.clone());
    b.simulate(&mut test_board, Player::X, &select_child);
    assert_eq!(b.nodes().len(), 2);
    assert_eq!(b.nodes()[0].visits(), 2);
    assert_eq!(b.nodes()[0].children(), &vec![1]);
    assert_eq!(b.nodes()[1].player(), Player::X);
    let m = b.nodes()[1].game_move().unwrap();
    assert_eq!(test_board.board().cells()[m as usize], Some(Player::X));
    assert_eq!(test_board.board().cells()[0], Some(Player::X));
    assert_eq!(test_board.board().cells()[4], Some(Player::O));
    // X at 0 and O at 4: no move wins at once, so the outcome is recorded from the child
    assert_eq!(b.nodes()[1].visits(), 1);
    assert!([0, 6, 10].contains(&b.nodes()[1].reward()));
    // both nodes have X as their side: they gain the same
    let first = b.nodes()[0].reward() - b.nodes()[1].reward();
    assert!([0, 6, 10].contains(&first));
    match test_board.board().check_winner() {
        Some(_) => {}
        None => assert!(test_board.board().is_tie()),
    }

    for _ in 0..200 {
        test_board.update_board(position.clone());
        let before = b.nodes().len();
        let visits = b.nodes()[0].visits();
        b.simulate(&mut test_board, Player::X, &select_child);
        assert!(b.nodes().len() == before || b.nodes().len() == before + 1);
        assert_eq!(b.nodes()[0].visits(), visits + 1);
        // the sides took turns from X on
        let xs = test_board.board().cells().iter().filter(|c| **c == Some(Player::X)).count();
        let os = test_board.board().cells().iter().filter(|c| **c == Some(Player::O)).count();
        assert!(xs == os || xs == os + 1);
    }
}

#[test]
fn choice_of_the_child_to_descend_to() {
    let mut test_board = BotBoard::new(Board::new(3, 3));
    let mut b = Bot::new(TEST_THINKING_TIME);
    b.plant_root(Player::X, test_board.legal_moves());
    let (first, _) = b.expand_with(0, &mut test_board, Player::X, 0);
    let (grandchild, _) = b.expand_with(first, &mut test_board, Player::O, 0);
    test_board.update_board(Board::new(3, 3));
    let (second, _) = b.expand_with(0, &mut test_board, Player::X, 0);
    assert_eq!((first, grandchild, second), (1, 2, 3));

    // a child stands; what is no child of the node gives way to the first child
    assert_eq!(b.child_or_first(0, second), second);
    assert_eq!(b.child_or_first(0, first), first);
    assert_eq!(b.child_or_first(0, grandchild), first);
    assert_eq!(b.child_or_first(0, 0), first);
    assert_eq!(b.child_or_first(0, 17), first);
    assert_eq!(b.child_or_first(0, usize::MAX), first);
    assert_eq!(b.child_or_first(first, second), grandchild);

    // children without a visit come first, the last of them before the others
    assert_eq!(b.child_to_visit(0, &out_of_range), second);
    b.backpropagate(second, None);
    assert_eq!(b.child_to_visit(0, &out_of_range), first);
    b.backpropagate(first, None);
    // now the rule is asked: its choice stands where it is a child
    assert_eq!(b.child_to_visit(0, &out_of_range), first);
    assert_eq!(b.child_to_visit(0, &|_: &Vec<Node>, _: usize| 3), second);
    assert_eq!(b.child_to_visit(0, &|_: &Vec<Node>, _: usize| 2), first);
    assert_eq!(b.child_to_visit(0, &select_child), select_child(b.nodes(), 0));
}
