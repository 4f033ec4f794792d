//! Random playouts: a game played to its end by moves picked at random.
use crate::board::{GameState, Player};
use crate::game::{Game, Move};
use crate::moves::{
    apply_move, get_valid_moves, lemma_filled_bound, lemma_legal_move_is_accepted,
    lemma_legal_moves_contains, lemma_move_fills_one, lemma_open_game_has_move,
};
use rand::seq::SliceRandom;
use vstd::prelude::*;

verus! {

/// What an outcome counts for: 1 if `X` has won, -1 if `O` has won, 0 for a
/// tie. A game in progress counts for nothing yet.
pub open spec fn outcome_value(state: GameState) -> int {
    match state {
        GameState::Winner(Player::X) => 1,
        GameState::Winner(Player::O) => -1,
        GameState::Tie => 0,
        GameState::InProgress => 0,
    }
}

/// Whether `path[i]` is a game in progress and `path[i + 1]` is what one
/// legal move makes of it.
pub open spec fn plays_on(path: Seq<Game>, i: int) -> bool {
    &&& path[i].wf()
    &&& path[i].outcome() == GameState::InProgress
    &&& path[i].steps_to(path[i + 1])
}

/// Whether `path` is a line of play from `start` to the end of a game: it
/// begins with `start`, each game but the last is in progress and leads to
/// the next by one legal move, and the last game is over.
pub open spec fn is_playout(start: Game, path: Seq<Game>) -> bool {
    &&& path.len() > 0
    &&& path[0] == start
    &&& forall|i: int| 0 <= i < path.len() - 1 ==> #[trigger] plays_on(path, i)
    &&& path.last().wf()
    &&& path.last().outcome() != GameState::InProgress
}

/// Each game of a line of play has one square more filled than the one
/// before it.
pub proof fn lemma_playout_fills(start: Game, path: Seq<Game>, i: int)
    requires
        is_playout(start, path),
        0 <= i < path.len(),
    ensures
        path[i].filled() == start.filled() + i,
        path[i].filled() <= 81,
    decreases i,
{
    if i > 0 {
        reveal(Game::steps_to);
        lemma_playout_fills(start, path, i - 1);
        assert(plays_on(path, i - 1));
        let m = choose|m: Move| path[i - 1].is_legal(m) && path[i] == #[trigger] path[i - 1].after(m);
        lemma_move_fills_one(path[i - 1], m);
    } else {
        lemma_filled_bound(start, 81);
    }
}

/// A line of play has at most 81 moves, and no game comes twice in it.
pub proof fn lemma_playout_is_short(start: Game, path: Seq<Game>)
    requires
        is_playout(start, path),
    ensures
        path.len() - 1 <= 81 - start.filled(),
        path.no_duplicates(),
{
    lemma_playout_fills(start, path, path.len() - 1);
    assert forall|i: int, j: int| 0 <= i < path.len() && 0 <= j < path.len() && i != j implies path[i]
        != path[j] by {
        lemma_playout_fills(start, path, i);
        lemma_playout_fills(start, path, j);
    }
}

/// Picks one of `moves` with `rand::seq::SliceRandom::choose`, on the
/// generator that `rand::thread_rng` gives. Believed of that call: for an
/// empty list it gives nothing, and else an element of the list. Which
/// element is left open.
#[verifier::external_body]
fn choose_move(moves: &Vec<Move>) -> (picked: Option<Move>)
    ensures
        moves@.len() == 0 ==> picked is None,
        moves@.len() > 0 ==> picked is Some && moves@.contains(picked.unwrap()),
{
    moves.choose(&mut rand::thread_rng()).copied()
}

/// Plays `node` to its end, each move picked at random among the legal
/// ones, and gives the games gone through, `node` first and the finished
/// game last, with what the outcome counts for.
///
/// Each move fills a square, so the line has at most 81 moves.
pub fn simulate_game(node: Game) -> (result: (Vec<Game>, i8))
    requires
        node.wf(),
    ensures
        is_playout(node, result.0@),
        result.1 == outcome_value(result.0@.last().outcome()),
        result.0@.len() - 1 == result.0@.last().filled() - node.filled(),
        result.0@.len() - 1 <= 81,
{
    let mut current_node = node;
    let mut visited_nodes: Vec<Game> = Vec::new();
    visited_nodes.push(node);
    proof {
        lemma_filled_bound(node, 81);
    }
    while current_node.get_winner() == GameState::InProgress
        invariant
            current_node.wf(),
            visited_nodes@.len() > 0,
            visited_nodes@[0] == node,
            visited_nodes@.last() == current_node,
            forall|i: int| 0 <= i < visited_nodes@.len() - 1 ==> #[trigger] plays_on(visited_nodes@, i),
            visited_nodes@.len() - 1 == current_node.filled() - node.filled(),
            current_node.filled() <= 81,
        decreases 81 - current_node.filled(),
    {
        let moves = get_valid_moves(current_node);
        proof {
            lemma_open_game_has_move(current_node);
        }
        let picked = choose_move(&moves);
        let mv = picked.unwrap();
        proof {
            reveal(Game::steps_to);
            lemma_legal_moves_contains(current_node, mv);
            lemma_legal_move_is_accepted(current_node, mv);
            lemma_move_fills_one(current_node, mv);
        }
        let next = apply_move(mv, current_node).unwrap();
        let ghost before = visited_nodes@;
        visited_nodes.push(next);
        proof {
            assert forall|i: int| 0 <= i < visited_nodes@.len() - 1 implies #[trigger] plays_on(
                visited_nodes@,
                i,
            ) by {
                if i < before.len() - 1 {
                    assert(plays_on(before, i));
                }
            }
        }
        current_node = next;
    }
    let outcome: i8 = match current_node.get_winner() {
        GameState::Tie => 0,
        GameState::Winner(player) => {
            if player == Player::X {
                1
            } else {
                -1
            }
        },
        GameState::InProgress => unreached(),
    };
    (visited_nodes, outcome)
}

/// Whether `path` is a line of play: each game but the last is in
/// progress and leads to the next by one legal move.
pub open spec fn is_line(path: Seq<Game>) -> bool {
    &&& path.len() > 0
    &&& forall|i: int| 0 <= i < path.len() - 1 ==> #[trigger] plays_on(path, i)
    &&& path.last().wf()
}

/// Plays on from the last game of `path` to the end, by a random playout,
/// adds the games gone through to `path`, and gives what the outcome
/// counts for.
pub(crate) fn play_on(path: &mut Vec<Game>) -> (outcome: i8)
    requires
        is_line(old(path)@),
    ensures
        is_playout(old(path)@[0], final(path)@),
        final(path)@.len() >= old(path)@.len(),
        forall|j: int| 0 <= j < old(path)@.len() ==> final(path)@[j] == old(path)@[j],
        old(path)@.last().outcome() != GameState::InProgress ==> final(path)@.len() == old(
            path,
        )@.len(),
        outcome == outcome_value(final(path)@.last().outcome()),
        -1 <= outcome <= 1,
{
    let ghost trunk = path@;
    let start = path[path.len() - 1];
    let (playout, outcome) = simulate_game(start);
    let mut k: usize = 1;
    while k < playout.len()
        invariant
            1 <= k <= playout@.len(),
            trunk.len() > 0,
            path@.len() == trunk.len() + k - 1,
            forall|j: int| 0 <= j < trunk.len() ==> path@[j] == trunk[j],
            forall|j: int| 1 <= j < k ==> path@[trunk.len() + j - 1] == playout@[j],
        decreases playout@.len() - k,
    {
        path.push(playout[k]);
        k += 1;
    }
    proof {
        let n = trunk.len() as int;
        assert forall|j: int| 0 <= j < path@.len() - 1 implies #[trigger] plays_on(path@, j) by {
            if j < n - 1 {
                assert(plays_on(trunk, j));
            } else {
                assert(plays_on(playout@, j - n + 1));
                assert(path@[j] == playout@[j - n + 1]);
                assert(path@[j + 1] == playout@[j - n + 2]);
            }
        }
        if playout@.len() == 1 {
            assert(path@.last() == trunk.last());
        } else {
            assert(path@.last() == playout@.last());
            assert(plays_on(playout@, 0));
        }
    }
    outcome
}

} // verus!
