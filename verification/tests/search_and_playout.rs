use super_ttt::{
    apply_move, get_valid_moves, simulate_game, Game, GameState, Player, Registry, TreeData,
    Ucb1Score, Ucb1Terms, MTCS,
};

fn ucb1(t: Ucb1Terms) -> f64 {
    let exploitation = t.total_score as f64 / t.visit_count as f64;
    let exploration = (2.0 * (t.parent_visits as f64).log2() / t.visit_count as f64).sqrt();
    exploitation + exploration
}

fn exceeds(a: Ucb1Terms, b: Ucb1Terms) -> bool {
    ucb1(a) > ucb1(b)
}

fn successors(game: Game) -> Vec<Game> {
    get_valid_moves(game).into_iter().map(|m| apply_move(m, game).unwrap()).collect()
}

fn filled(game: &Game) -> usize {
    let mut n = 0;
    for row in game.boards.iter() {
        for b in row.iter() {
            for cells in b.squares.iter() {
                for s in cells.iter() {
                    if *s != super_ttt::Square::Empty {
                        n += 1;
                    }
                }
            }
        }
    }
    n
}

fn check_playout(start: Game, path: &[Game], outcome: i8) {
    assert!(!path.is_empty());
    assert!(path.len() <= 82);
    assert_eq!(path[0], start);
    for pair in path.windows(2) {
        assert_eq!(pair[0].get_winner(), GameState::InProgress);
        assert!(successors(pair[0]).contains(&pair[1]));
        assert_eq!(filled(&pair[1]), filled(&pair[0]) + 1);
    }
    let last = path[path.len() - 1];
    let expected = match last.get_winner() {
        GameState::Winner(Player::X) => 1,
        GameState::Winner(Player::O) => -1,
        GameState::Tie => 0,
        GameState::InProgress => panic!("the playout stopped early"),
    };
    assert_eq!(outcome, expected);
}

#[test]
fn playout_runs_to_the_end() {
    for _ in 0..20 {
        let (path, outcome) = simulate_game(Game::new());
        check_playout(Game::new(), &path, outcome);
        assert!(path.len() >= 18);
    }
}

#[test]
fn playout_from_a_later_game() {
    let mut game = Game::new();
    game.make_move(1, 1, 1, 1).unwrap();
    game.make_move(1, 1, 0, 0).unwrap();
    let (path, outcome) = simulate_game(game);
    check_playout(game, &path, outcome);
    assert!(path.len() <= 80);
}

#[test]
fn playout_of_a_finished_game_is_that_game() {
    let mut game = Game::new();
    let won = super_ttt::Board {
        squares: [[super_ttt::Square::Occupied(Player::O); 3], [super_ttt::Square::Empty; 3], [
            super_ttt::Square::Empty;
            3
        ]],
    };
    game.boards[0][0] = won;
    game.boards[1][1] = won;
    game.boards[2][2] = won;
    let (path, outcome) = simulate_game(game);
    assert_eq!(path, vec![game]);
    assert_eq!(outcome, -1);
}

fn won_by(player: Player) -> Game {
    let mut game = Game::new();
    let won = super_ttt::Board {
        squares: [[super_ttt::Square::Occupied(player); 3], [super_ttt::Square::Empty; 3], [
            super_ttt::Square::Empty;
            3
        ]],
    };
    game.boards[0][2] = won;
    game.boards[1][1] = won;
    game.boards[2][0] = won;
    game
}

fn tied_board() -> super_ttt::Board {
    let x = super_ttt::Square::Occupied(Player::X);
    let o = super_ttt::Square::Occupied(Player::O);
    super_ttt::Board { squares: [[x, o, x], [x, o, o], [o, x, x]] }
}

/// All boards tied but the last, which lacks one mark that decides nothing.
fn one_move_from_a_tie() -> Game {
    let x = super_ttt::Square::Occupied(Player::X);
    let o = super_ttt::Square::Occupied(Player::O);
    let mut boards = [[tied_board(); 3]; 3];
    boards[2][2] = super_ttt::Board { squares: [[x, o, x], [x, o, o], [o, x, super_ttt::Square::Empty]] };
    Game { boards, current_player: Player::X, last_move_cords: Some((2, 2)) }
}

#[test]
fn outcome_counts_one_for_x_minus_one_for_o_nothing_for_a_tie() {
    assert_eq!(simulate_game(won_by(Player::X)), (vec![won_by(Player::X)], 1));
    assert_eq!(simulate_game(won_by(Player::O)), (vec![won_by(Player::O)], -1));
    let tied = Game { boards: [[tied_board(); 3]; 3], current_player: Player::X, last_move_cords: None };
    assert_eq!(simulate_game(tied), (vec![tied], 0));
}

#[test]
fn playout_with_one_move_left() {
    let start = one_move_from_a_tie();
    assert_eq!(start.get_winner(), GameState::InProgress);
    assert_eq!(get_valid_moves(start), vec![(2, 2, 2, 2)]);
    let end = apply_move((2, 2, 2, 2), start).unwrap();
    assert_eq!(end.get_winner(), GameState::Tie);
    assert_eq!(simulate_game(start), (vec![start, end], 0));
}

#[test]
fn search_with_one_move_left_goes_on_when_nothing_is_left_to_try() {
    let start = one_move_from_a_tie();
    let end = apply_move((2, 2, 2, 2), start).unwrap();
    let mut mtcs = MTCS::new();
    assert_eq!(mtcs.ucb1(end, start), Ucb1Score::PlusInfinity);
    assert_eq!(mtcs.search(start, 3, exceeds), end);
    assert!(mtcs.is_fully_expanded(start));
    assert!(mtcs.is_fully_expanded(end));
    assert_eq!(mtcs.ucb1(end, start), Ucb1Score::MinusInfinity);
    assert_eq!(mtcs.select_child(start, &exceeds), end);
    assert_eq!(mtcs.playouts(), 3);
    assert_eq!(mtcs.tree().len(), 2);
    let root = mtcs.tree().get(&start).unwrap();
    assert_eq!((root.visit_count, root.total_score), (4, 0));
    assert_eq!(root.children, vec![end]);
    let leaf = mtcs.tree().get(&end).unwrap();
    assert_eq!((leaf.visit_count, leaf.total_score), (4, 0));
    assert!(leaf.children.is_empty());
}

#[test]
fn scores_add_up_along_the_way() {
    let x = super_ttt::Square::Occupied(Player::X);
    let o = super_ttt::Square::Occupied(Player::O);
    let e = super_ttt::Square::Empty;
    let won = super_ttt::Board { squares: [[x, x, x], [e, e, e], [e, e, e]] };
    let mut boards = [[tied_board(); 3]; 3];
    boards[0][0] = won;
    boards[1][1] = won;
    boards[2][2] = super_ttt::Board { squares: [[x, x, e], [o, o, x], [x, o, o]] };
    let start = Game { boards, current_player: Player::X, last_move_cords: Some((2, 2)) };
    assert_eq!(get_valid_moves(start), vec![(2, 2, 0, 2)]);
    let end = apply_move((2, 2, 0, 2), start).unwrap();
    assert_eq!(end.get_winner(), GameState::Winner(Player::X));
    let mut mtcs = MTCS::new();
    assert_eq!(mtcs.search(start, 5, exceeds), end);
    let root = mtcs.tree().get(&start).unwrap();
    assert_eq!((root.visit_count, root.total_score), (6, 5));
    let leaf = mtcs.tree().get(&end).unwrap();
    assert_eq!((leaf.visit_count, leaf.total_score), (6, 5));
}

#[test]
fn selection_takes_the_highest_score_and_the_last_of_equals() {
    let mut root = Game::new();
    root.make_move(0, 0, 1, 1).unwrap();
    let mut mtcs = MTCS::new();
    mtcs.search(root, 9, exceeds);
    let kids = successors(root);
    assert_eq!(kids.len(), 9);
    let mut best = 0;
    let mut best_score = f64::NEG_INFINITY;
    for (i, kid) in kids.iter().enumerate() {
        let score = match mtcs.ucb1(*kid, root) {
            Ucb1Score::PlusInfinity => f64::INFINITY,
            Ucb1Score::MinusInfinity => f64::NEG_INFINITY,
            Ucb1Score::Finite(terms) => {
                assert_eq!(terms.parent_visits, 10);
                assert_eq!(terms.visit_count, 2);
                assert!(terms.total_score == 1 || terms.total_score == 0 || terms.total_score == -1);
                ucb1(terms)
            }
        };
        if i == 0 || !(best_score > score) {
            best = i;
            best_score = score;
        }
    }
    assert!(best_score.is_finite());
    assert_eq!(mtcs.select_child(root, &exceeds), kids[best]);
}

#[test]
fn unmet_games_go_before_any_number() {
    let mut root = Game::new();
    root.make_move(0, 0, 1, 1).unwrap();
    let mut mtcs = MTCS::new();
    mtcs.search(root, 4, exceeds);
    let kids = successors(root);
    assert_eq!(kids.len(), 9);
    let always = |_: Ucb1Terms, _: Ucb1Terms| true;
    assert_eq!(mtcs.select_child(root, &always), kids[8]);
    let never = |_: Ucb1Terms, _: Ucb1Terms| false;
    assert_eq!(mtcs.select_child(root, &never), kids[8]);
}

#[test]
fn among_numbers_the_judge_decides() {
    let mut root = Game::new();
    root.make_move(0, 0, 1, 1).unwrap();
    let mut mtcs = MTCS::new();
    mtcs.search(root, 9, exceeds);
    let kids = successors(root);
    let always = |_: Ucb1Terms, _: Ucb1Terms| true;
    assert_eq!(mtcs.select_child(root, &always), kids[0]);
    let never = |_: Ucb1Terms, _: Ucb1Terms| false;
    assert_eq!(mtcs.select_child(root, &never), kids[8]);
}

#[test]
fn playouts_differ() {
    let mut seen = Vec::new();
    for _ in 0..8 {
        let (path, _) = simulate_game(Game::new());
        if !seen.contains(&path) {
            seen.push(path);
        }
    }
    assert!(seen.len() > 1);
}

#[test]
fn registry_keeps_what_it_is_told() {
    let root = Game::new();
    let child = apply_move((0, 0, 0, 0), root).unwrap();
    let other = apply_move((0, 0, 0, 1), root).unwrap();
    let mut registry = Registry::new();
    assert_eq!(registry.len(), 0);
    assert!(!registry.contains(&root));
    assert!(registry.get(&root).is_none());
    {
        let entry = registry.get_or_create(root);
        assert_eq!(entry.visit_count, 1);
        assert_eq!(entry.total_score, 0);
        assert!(entry.children.is_empty());
    }
    assert_eq!(registry.len(), 1);
    registry.add_visit(root);
    registry.add_visit(root);
    registry.add_score(root, -1);
    registry.add_score(root, -1);
    registry.record_child(root, child);
    registry.record_child(root, other);
    registry.record_child(root, child);
    {
        let entry = registry.get_or_create(root);
        assert_eq!(entry.visit_count, 3);
        assert_eq!(entry.total_score, -2);
        assert_eq!(entry.children, vec![child, other]);
        assert!(entry.has_child(&other));
        assert!(!entry.has_child(&root));
    }
    assert_eq!(registry.len(), 1);
    registry.add_score(child, 1);
    assert!(!registry.contains(&child));
    registry.add_visit(child);
    assert_eq!(registry.get(&child).unwrap().visit_count, 2);
    assert_eq!(registry.get(&root).unwrap().visit_count, 3);
    assert_eq!(registry.len(), 2);
}

#[test]
fn registry_shares_an_entry_between_two_ways_to_one_game() {
    let mut a = Game::new();
    a.make_move(1, 1, 1, 1).unwrap();
    let mut b = Game::new();
    b.boards[1][1].squares[1][1] = super_ttt::Square::Occupied(Player::X);
    b.current_player = Player::O;
    b.last_move_cords = Some((1, 1));
    let mut registry = Registry::new();
    registry.add_visit(a);
    registry.add_visit(b);
    assert_eq!(registry.len(), 1);
    assert_eq!(registry.get(&a).unwrap().visit_count, 3);
}

#[test]
fn fresh_entry() {
    let data = TreeData::default();
    assert_eq!(data.visit_count, 1);
    assert_eq!(data.total_score, 0);
    assert!(data.children.is_empty());
}

#[test]
fn new_search_knows_nothing() {
    let mtcs = MTCS::new();
    assert_eq!(mtcs.playouts(), 0);
    assert_eq!(mtcs.tree().len(), 0);
    assert!(!mtcs.is_fully_expanded(Game::new()));
    let root = Game::new();
    let child = apply_move((0, 0, 0, 0), root).unwrap();
    assert_eq!(mtcs.ucb1(child, root), Ucb1Score::PlusInfinity);
}

#[test]
fn selection_with_nothing_met_takes_the_last_move() {
    let mtcs = MTCS::new();
    let root = Game::new();
    let chosen = mtcs.select_child(root, &exceeds);
    assert_eq!(chosen, apply_move((2, 2, 2, 2), root).unwrap());
}

fn check_search(root: Game, budget: usize) -> Game {
    let mut mtcs = MTCS::new();
    let best = mtcs.search(root, budget, exceeds);
    assert_ne!(best, root);
    let reachable = successors(root);
    assert_eq!(reachable.iter().filter(|g| **g == best).count(), 1);
    assert_eq!(mtcs.playouts(), budget as u64);
    let entry = mtcs.tree().get(&root).unwrap();
    assert_eq!(entry.visit_count, 1 + budget as u64);
    assert!(entry.children.contains(&best));
    assert!(entry.total_score.unsigned_abs() <= budget as u64);
    for child in entry.children.iter() {
        assert!(reachable.contains(child));
        let held = mtcs.tree().get(child).unwrap();
        assert!(held.visit_count >= 2);
    }
    assert_eq!(mtcs.best_child(root), best);
    best
}

#[test]
fn search_gives_a_game_one_move_on() {
    check_search(Game::new(), 100);
    check_search(Game::new(), 100);
}

#[test]
fn search_with_one_playout() {
    let best = check_search(Game::new(), 1);
    assert_eq!(best, apply_move((0, 0, 0, 0), Game::new()).unwrap());
}

#[test]
fn search_from_a_later_game() {
    let mut game = Game::new();
    game.make_move(1, 1, 1, 1).unwrap();
    let best = check_search(game, 40);
    assert_eq!(best.current_player, Player::X);
}

#[test]
fn best_child_has_the_best_mean_for_the_mover() {
    for first in [None, Some((1usize, 1usize, 1usize, 1usize))] {
        let mut root = Game::new();
        if let Some(m) = first {
            root = apply_move(m, root).unwrap();
        }
        let mut mtcs = MTCS::new();
        let best = mtcs.search(root, 60, exceeds);
        let sign: i128 = if root.current_player == Player::X { 1 } else { -1 };
        let tree = mtcs.tree();
        let held = tree.get(&best).unwrap();
        let kids = &tree.get(&root).unwrap().children;
        let at = kids.iter().position(|g| *g == best).unwrap();
        for (j, kid) in kids.iter().enumerate() {
            let other = tree.get(kid).unwrap();
            let mine = sign * held.total_score as i128 * other.visit_count as i128;
            let theirs = sign * other.total_score as i128 * held.visit_count as i128;
            if j < at {
                assert!(theirs <= mine);
            }
            if j > at {
                assert!(theirs < mine);
            }
        }
    }
}

#[test]
fn tree_grows_from_search_to_search() {
    let root = Game::new();
    let mut mtcs = MTCS::new();
    let first = mtcs.search(root, 10, exceeds);
    let size = mtcs.tree().len();
    let visits = mtcs.tree().get(&root).unwrap().visit_count;
    let kids = mtcs.tree().get(&root).unwrap().children.clone();
    assert_eq!(visits, 11);
    assert_eq!(kids.len(), 10);
    assert!(!mtcs.is_fully_expanded(root));
    assert!(!mtcs.is_fully_expanded(first) && first.get_winner() == GameState::InProgress);
    mtcs.search(first, 10, exceeds);
    assert_eq!(mtcs.playouts(), 20);
    assert!(mtcs.tree().len() >= size);
    assert_eq!(mtcs.tree().get(&root).unwrap().visit_count, visits);
    assert_eq!(mtcs.tree().get(&root).unwrap().children, kids);
}

#[test]
fn root_with_every_move_tried_is_fully_expanded() {
    let mut game = Game::new();
    game.make_move(1, 1, 1, 1).unwrap();
    let mut mtcs = MTCS::new();
    mtcs.search(game, 9, exceeds);
    assert!(mtcs.is_fully_expanded(game));
    assert_eq!(mtcs.tree().get(&game).unwrap().children, successors(game));
}

#[test]
fn finished_game_is_fully_expanded() {
    let done = Game { boards: [[super_ttt::Board {
        squares: [
            [super_ttt::Square::Occupied(Player::X), super_ttt::Square::Occupied(Player::O), super_ttt::Square::Occupied(Player::X)],
            [super_ttt::Square::Occupied(Player::X), super_ttt::Square::Occupied(Player::O), super_ttt::Square::Occupied(Player::O)],
            [super_ttt::Square::Occupied(Player::O), super_ttt::Square::Occupied(Player::X), super_ttt::Square::Occupied(Player::X)],
        ],
    }; 3]; 3], current_player: Player::X, last_move_cords: Some((0, 0)) };
    assert_eq!(done.get_winner(), GameState::Tie);
    assert!(MTCS::new().is_fully_expanded(done));
}

#[test]
fn ucb1_of_a_met_game_gives_its_terms() {
    let mut root = Game::new();
    root.make_move(1, 1, 1, 1).unwrap();
    let mut mtcs = MTCS::new();
    mtcs.search(root, 3, exceeds);
    let tree = mtcs.tree();
    let kids = tree.get(&root).unwrap().children.clone();
    assert_eq!(kids.len(), 3);
    for kid in kids.iter() {
        let held = tree.get(kid).unwrap();
        assert_eq!(
            mtcs.ucb1(*kid, root),
            Ucb1Score::Finite(Ucb1Terms {
                total_score: -held.total_score,
                visit_count: held.visit_count,
                parent_visits: 4,
            })
        );
    }
    let unmet = successors(root)[5];
    assert_eq!(mtcs.ucb1(unmet, root), Ucb1Score::PlusInfinity);
}
