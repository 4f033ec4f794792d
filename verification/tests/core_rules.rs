use super_ttt::{
    apply_move, get_valid_moves, Board, Game, GameState, InvalidMoveError, Move, Player, Square,
};

const X: Square = Square::Occupied(Player::X);
const O: Square = Square::Occupied(Player::O);
const E: Square = Square::Empty;

fn board(squares: [[Square; 3]; 3]) -> Board {
    Board { squares }
}

fn tied_board() -> Board {
    board([[X, O, X], [X, O, O], [O, X, X]])
}

fn game_of(boards: [[Board; 3]; 3], current_player: Player, last: Option<(usize, usize)>) -> Game {
    Game { boards, current_player, last_move_cords: last }
}

#[test]
fn game_struct_size() {
    assert_eq!(std::mem::size_of::<Game>(), 112);
}

#[test]
fn new_game_is_empty_with_x_to_move() {
    let game = Game::new();
    assert_eq!(game.current_player, Player::X);
    assert_eq!(game.last_move_cords, None);
    for row in game.boards.iter() {
        for b in row.iter() {
            assert_eq!(*b, Board::default());
            assert_eq!(b.squares, [[E; 3]; 3]);
        }
    }
    assert_eq!(game.get_winner(), GameState::InProgress);
    assert_eq!(game, Game::default());
    assert_eq!(Square::default(), Square::Empty);
}

#[test]
fn opening_moves_follow_each_other() {
    let mut game = Game::new();
    assert!(game.make_move(0, 0, 1, 1).is_ok());
    assert!(game.make_move(1, 1, 0, 0).is_ok());
    assert!(game.make_move(0, 0, 2, 2).is_ok());
    assert!(game.make_move(2, 2, 0, 2).is_ok());
    assert!(game.make_move(0, 2, 1, 0).is_ok());
    assert_eq!(game.last_move_cords, Some((1, 0)));
    assert_eq!(game.current_player, Player::O);
    assert_eq!(game.get_winner(), GameState::InProgress);
    assert_eq!(game.boards[0][0].squares[1][1], X);
    assert_eq!(game.boards[1][1].squares[0][0], O);
    assert_eq!(game.boards[0][0].squares[2][2], X);
    assert_eq!(game.boards[2][2].squares[0][2], O);
    assert_eq!(game.boards[0][2].squares[1][0], X);
}

#[test]
fn same_moves_through_apply_move() {
    let moves: [Move; 5] = [(0, 0, 1, 1), (1, 1, 0, 0), (0, 0, 2, 2), (2, 2, 0, 2), (0, 2, 1, 0)];
    let mut game = Game::new();
    for mv in moves {
        game = apply_move(mv, game).unwrap();
    }
    assert_eq!(game.last_move_cords, Some((1, 0)));
    let mut other = Game::new();
    for mv in moves {
        other.make_move(mv.0, mv.1, mv.2, mv.3).unwrap();
    }
    assert_eq!(game, other);
}

#[test]
fn make_move_marks_flips_and_remembers() {
    let mut game = Game::new();
    let after = game.make_move(2, 1, 0, 2).unwrap();
    assert_eq!(after, game);
    assert_eq!(game.boards[2][1].squares[0][2], X);
    assert_eq!(game.current_player, Player::O);
    assert_eq!(game.last_move_cords, Some((0, 2)));
    let mut filled = 0;
    for i in 0..3 {
        for j in 0..3 {
            for k in 0..3 {
                for l in 0..3 {
                    if game.boards[i][j].squares[k][l] != E {
                        filled += 1;
                    }
                }
            }
        }
    }
    assert_eq!(filled, 1);
}

#[test]
fn occupied_cell_is_refused() {
    let mut game = Game::new();
    game.make_move(1, 1, 1, 1).unwrap();
    let before = game;
    assert_eq!(game.make_move(1, 1, 1, 1), Err(InvalidMoveError::CellAlreadyOccupied));
    assert_eq!(game, before);
    assert_eq!(apply_move((1, 1, 1, 1), game), Err(InvalidMoveError::CellAlreadyOccupied));
}

#[test]
fn wrong_board_is_refused() {
    let mut game = Game::new();
    game.make_move(0, 0, 2, 2).unwrap();
    let before = game;
    assert_eq!(game.make_move(0, 0, 0, 0), Err(InvalidMoveError::InvalidBoard));
    assert_eq!(game, before);
    assert_eq!(game.make_move(2, 2, 0, 0).map(|g| g.last_move_cords), Ok(Some((0, 0))));
}

#[test]
fn occupied_cell_is_reported_before_wrong_board() {
    let mut game = Game::new();
    game.make_move(0, 0, 2, 2).unwrap();
    assert_eq!(game.make_move(0, 0, 2, 2), Err(InvalidMoveError::CellAlreadyOccupied));
}

#[test]
fn apply_move_leaves_its_argument_alone() {
    let game = Game::new();
    let copy = game;
    let first = apply_move((1, 2, 0, 1), game);
    let second = apply_move((1, 2, 0, 1), game);
    assert_eq!(first, second);
    assert!(first.is_ok());
    assert_eq!(game, copy);
    assert_ne!(first.unwrap(), game);
}

#[test]
fn error_messages() {
    assert_eq!(
        InvalidMoveError::CellAlreadyOccupied.message(),
        "the specified cell is already occupied"
    );
    assert_eq!(
        InvalidMoveError::InvalidBoard.message(),
        "the specified board does not match the coordinates of the opponent's last move"
    );
}

#[test]
fn board_lines_decide() {
    assert_eq!(board([[X, X, X], [E, E, E], [E, E, E]]).get_winner(), GameState::Winner(Player::X));
    assert_eq!(board([[E, E, E], [O, O, O], [E, E, E]]).get_winner(), GameState::Winner(Player::O));
    assert_eq!(board([[E, E, X], [O, O, X], [E, E, X]]).get_winner(), GameState::Winner(Player::X));
    assert_eq!(board([[O, E, X], [O, X, X], [O, E, E]]).get_winner(), GameState::Winner(Player::O));
    assert_eq!(board([[X, E, O], [O, X, E], [E, E, X]]).get_winner(), GameState::Winner(Player::X));
    assert_eq!(board([[X, E, O], [E, O, E], [O, E, X]]).get_winner(), GameState::Winner(Player::O));
    assert_eq!(board([[X, X, E], [E, E, E], [E, E, E]]).get_winner(), GameState::InProgress);
    assert_eq!(board([[X, X, O], [E, E, E], [E, E, E]]).get_winner(), GameState::InProgress);
    assert_eq!(Board::default().get_winner(), GameState::InProgress);
}

#[test]
fn board_check_winner_tells_players_apart() {
    let b = board([[X, X, X], [O, O, E], [E, E, E]]);
    assert!(b.check_winner(Player::X));
    assert!(!b.check_winner(Player::O));
}

#[test]
fn full_board_without_line_is_tied() {
    assert_eq!(tied_board().get_winner(), GameState::Tie);
    assert!(!tied_board().check_winner(Player::X));
    assert!(!tied_board().check_winner(Player::O));
}

#[test]
fn line_counts_on_a_full_board() {
    assert_eq!(board([[X, O, X], [O, X, O], [X, O, X]]).get_winner(), GameState::Winner(Player::X));
}

#[test]
fn o_is_asked_before_x() {
    assert_eq!(board([[X, X, X], [O, O, O], [E, E, E]]).get_winner(), GameState::Winner(Player::O));
}

#[test]
fn board_set_changes_one_square() {
    let mut b = Board::default();
    b.set(1, 2, O);
    assert_eq!(b, board([[E, E, E], [E, E, O], [E, E, E]]));
    assert_ne!(b, Board::default());
}

#[test]
fn won_board_is_never_offered() {
    let won = board([[X, X, X], [E, E, E], [E, E, E]]);
    assert_eq!(won.get_winner(), GameState::Winner(Player::X));
    let mut boards = [[Board::default(); 3]; 3];
    boards[0][0] = won;
    for player in [Player::X, Player::O] {
        for last in [None, Some((0, 0)), Some((1, 1)), Some((2, 0))] {
            let game = game_of(boards, player, last);
            let moves = get_valid_moves(game);
            assert!(!moves.is_empty());
            assert!(moves.iter().all(|m| (m.0, m.1) != (0, 0)));
            for m in moves {
                assert!(apply_move(m, game).is_ok());
            }
        }
    }
    let free = get_valid_moves(game_of(boards, Player::O, Some((0, 0))));
    assert_eq!(free.len(), 72);
    let sent = get_valid_moves(game_of(boards, Player::O, Some((1, 1))));
    assert_eq!(sent.len(), 9);
}

#[test]
fn tied_board_is_never_offered() {
    let mut boards = [[Board::default(); 3]; 3];
    boards[1][2] = tied_board();
    let game = game_of(boards, Player::X, Some((1, 2)));
    let moves = get_valid_moves(game);
    assert_eq!(moves.len(), 72);
    assert!(moves.iter().all(|m| (m.0, m.1) != (1, 2)));
}

#[test]
fn empty_cell_of_a_won_board_is_still_taken_by_make_move() {
    let mut boards = [[Board::default(); 3]; 3];
    boards[0][0] = board([[X, X, X], [E, E, E], [E, E, E]]);
    let game = game_of(boards, Player::O, Some((0, 0)));
    assert!(!get_valid_moves(game).contains(&(0, 0, 1, 1)));
    let after = apply_move((0, 0, 1, 1), game).unwrap();
    assert_eq!(after.boards[0][0].squares[1][1], O);
}

#[test]
fn new_game_offers_all_squares_in_order() {
    let moves = get_valid_moves(Game::new());
    assert_eq!(moves.len(), 81);
    assert_eq!(moves[0], (0, 0, 0, 0));
    assert_eq!(moves[1], (0, 0, 0, 1));
    assert_eq!(moves[3], (0, 0, 1, 0));
    assert_eq!(moves[9], (0, 1, 0, 0));
    assert_eq!(moves[27], (1, 0, 0, 0));
    assert_eq!(moves[80], (2, 2, 2, 2));
    let mut expected = Vec::new();
    for i in 0..3 {
        for j in 0..3 {
            for k in 0..3 {
                for l in 0..3 {
                    expected.push((i, j, k, l));
                }
            }
        }
    }
    assert_eq!(moves, expected);
}

#[test]
fn moves_stay_in_the_board_they_are_sent_to() {
    let mut game = Game::new();
    game.make_move(0, 0, 1, 1).unwrap();
    let moves = get_valid_moves(game);
    assert_eq!(moves.len(), 9);
    assert!(moves.iter().all(|m| (m.0, m.1) == (1, 1)));
    game.make_move(1, 1, 1, 1).unwrap();
    let moves = get_valid_moves(game);
    assert_eq!(
        moves,
        vec![
            (1, 1, 0, 0),
            (1, 1, 0, 1),
            (1, 1, 0, 2),
            (1, 1, 1, 0),
            (1, 1, 1, 2),
            (1, 1, 2, 0),
            (1, 1, 2, 1),
            (1, 1, 2, 2)
        ]
    );
    for m in moves {
        assert_eq!(game.boards[m.0][m.1].squares[m.2][m.3], E);
        assert!(apply_move(m, game).is_ok());
    }
}

#[test]
fn three_boards_in_a_row_win_the_game() {
    let won = board([[O, E, E], [E, O, E], [E, E, O]]);
    let mut boards = [[Board::default(); 3]; 3];
    boards[0][2] = won;
    boards[1][2] = won;
    assert_eq!(game_of(boards, Player::X, None).get_winner(), GameState::InProgress);
    boards[2][2] = won;
    let game = game_of(boards, Player::X, None);
    assert_eq!(game.get_winner(), GameState::Winner(Player::O));
    assert!(game.check_winner(Player::O));
    assert!(!game.check_winner(Player::X));
}

#[test]
fn finished_game_has_no_legal_move() {
    let won = board([[O, E, E], [E, O, E], [E, E, O]]);
    let mut boards = [[Board::default(); 3]; 3];
    boards[0][2] = won;
    boards[1][2] = won;
    assert_eq!(get_valid_moves(game_of(boards, Player::X, None)).len(), 81 - 18);
    boards[2][2] = won;
    for last in [None, Some((0, 0)), Some((2, 2))] {
        let game = game_of(boards, Player::X, last);
        assert_eq!(game.get_winner(), GameState::Winner(Player::O));
        assert!(get_valid_moves(game).is_empty());
    }
}

#[test]
fn diagonal_of_boards_wins_the_game() {
    let won = board([[X, X, X], [E, E, E], [E, E, E]]);
    let mut boards = [[Board::default(); 3]; 3];
    boards[0][2] = won;
    boards[1][1] = won;
    boards[2][0] = won;
    assert_eq!(game_of(boards, Player::O, None).get_winner(), GameState::Winner(Player::X));
}

#[test]
fn tied_board_counts_for_nobody() {
    let won = board([[X, X, X], [E, E, E], [E, E, E]]);
    let mut boards = [[Board::default(); 3]; 3];
    boards[0][0] = won;
    boards[0][1] = tied_board();
    boards[0][2] = won;
    assert_eq!(game_of(boards, Player::O, None).get_winner(), GameState::InProgress);
}

#[test]
fn all_boards_tied_is_a_tie() {
    let game = game_of([[tied_board(); 3]; 3], Player::O, Some((2, 2)));
    assert_eq!(game.get_winner(), GameState::Tie);
    assert!(get_valid_moves(game).is_empty());
}

#[test]
fn all_boards_locked_without_line_is_a_tie() {
    let x = board([[X, X, X], [E, E, E], [E, E, E]]);
    let o = board([[O, O, O], [E, E, E], [E, E, E]]);
    let t = tied_board();
    let game = game_of([[x, o, x], [x, o, o], [o, x, t]], Player::X, Some((0, 0)));
    assert_eq!(game.get_winner(), GameState::Tie);
    assert!(get_valid_moves(game).is_empty());
}

#[test]
fn games_are_equal_by_what_they_hold() {
    let a = apply_move((1, 1, 0, 0), apply_move((0, 0, 1, 1), Game::new()).unwrap()).unwrap();
    let mut b = Game::new();
    b.boards[0][0].squares[1][1] = X;
    b.boards[1][1].squares[0][0] = O;
    b.last_move_cords = Some((0, 0));
    assert_eq!(a, b);
    b.current_player = Player::O;
    assert_ne!(a, b);
    b.current_player = Player::X;
    b.last_move_cords = Some((0, 1));
    assert_ne!(a, b);
    b.last_move_cords = None;
    assert_ne!(a, b);
    b.last_move_cords = Some((0, 0));
    b.boards[2][2].squares[2][2] = O;
    assert_ne!(a, b);
}

#[test]
fn opponent_of_each_player() {
    assert_eq!(Player::X.opponent(), Player::O);
    assert_eq!(Player::O.opponent(), Player::X);
}

#[test]
fn new_game_as_text() {
    let expected = "\
┏━━━┳━━━┳━━━┓
┃   ┃   ┃   ┃
┃   ┃   ┃   ┃
┃   ┃   ┃   ┃
┣━━━╋━━━╋━━━┫
┃   ┃   ┃   ┃
┃   ┃   ┃   ┃
┃   ┃   ┃   ┃
┣━━━╋━━━╋━━━┫
┃   ┃   ┃   ┃
┃   ┃   ┃   ┃
┃   ┃   ┃   ┃
┗━━━┻━━━┻━━━┛
";
    assert_eq!(Game::new().render(), expected);
}

#[test]
fn game_with_marks_as_text() {
    let mut game = Game::new();
    game.make_move(0, 0, 1, 1).unwrap();
    game.make_move(1, 1, 0, 0).unwrap();
    game.make_move(0, 0, 2, 2).unwrap();
    game.make_move(2, 2, 0, 2).unwrap();
    game.make_move(0, 2, 1, 0).unwrap();
    let expected = "\
┏━━━┳━━━┳━━━┓
┃   ┃   ┃   ┃
┃ X ┃   ┃X  ┃
┃  X┃   ┃   ┃
┣━━━╋━━━╋━━━┫
┃   ┃O  ┃   ┃
┃   ┃   ┃   ┃
┃   ┃   ┃   ┃
┣━━━╋━━━╋━━━┫
┃   ┃   ┃  O┃
┃   ┃   ┃   ┃
┃   ┃   ┃   ┃
┗━━━┻━━━┻━━━┛
";
    assert_eq!(game.render(), expected);
}

#[test]
fn text_is_written_square_by_square() {
    let mut game = Game::new();
    let marks = [X, O, E];
    for i in 0..3 {
        for j in 0..3 {
            for k in 0..3 {
                for l in 0..3 {
                    game.boards[i][j].squares[k][l] = marks[(i + 2 * j + k * l + l) % 3];
                }
            }
        }
    }
    let mut expected = String::from("┏━━━┳━━━┳━━━┓\n");
    for board_rows in 0..3 {
        for cell_row in 0..3 {
            expected.push('┃');
            for board in 0..3 {
                for cell_col in 0..3 {
                    expected.push(match game.boards[board_rows][board].squares[cell_row][cell_col] {
                        Square::Empty => ' ',
                        Square::Occupied(Player::X) => 'X',
                        Square::Occupied(Player::O) => 'O',
                    });
                }
                expected.push('┃');
            }
            expected.push('\n');
        }
        expected.push_str(if board_rows == 2 { "┗━━━┻━━━┻━━━┛\n" } else { "┣━━━╋━━━╋━━━┫\n" });
    }
    assert_eq!(game.render(), expected);
    assert_eq!(game.render().chars().count(), 182);
}
