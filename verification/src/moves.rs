//! Which moves are legal, in which order they are listed, and what a move
//! does to a game.
use crate::board::{lemma_open_board_has_room, GameState, Square};
use crate::errors::InvalidMoveError;
use crate::game::{in_range, Game, Move};
use vstd::prelude::*;

verus! {

/// The `k`-th square of the game, counting board rows, then board columns,
/// then cell rows, then cell columns.
pub open spec fn nth_move(k: int) -> Move {
    ((k / 27) as usize, ((k / 9) % 3) as usize, ((k / 3) % 3) as usize, (k % 3) as usize)
}

/// The place of `m` in that order.
pub open spec fn index_of(m: Move) -> int {
    27 * m.0 + 9 * m.1 + 3 * m.2 + m.3
}

/// All 81 squares in that order.
pub open spec fn all_moves() -> Seq<Move> {
    Seq::new(81, |k: int| nth_move(k))
}

impl Game {
    /// Whether `m` is a legal move: the game is in progress, `m` names an
    /// empty square of a board that is still in progress, and that board
    /// is the one the player is confined to, if there is one.
    pub open spec fn is_legal(self, m: Move) -> bool {
        &&& in_range(m)
        &&& self.outcome() == GameState::InProgress
        &&& self.square(m) == Square::Empty
        &&& !self.board(m.0 as int, m.1 as int).is_finished()
        &&& !self.sends_elsewhere(m)
    }

    /// `is_legal` as a predicate on moves.
    pub open spec fn legal(self) -> spec_fn(Move) -> bool {
        |m: Move| self.is_legal(m)
    }

    /// The legal moves among the first `k` squares, in order.
    pub open spec fn legal_among_first(self, k: int) -> Seq<Move> {
        all_moves().take(k).filter(self.legal())
    }

    /// The legal moves, in the order of the squares.
    pub open spec fn legal_moves(self) -> Seq<Move> {
        all_moves().filter(self.legal())
    }

    /// Whether `next` is what one legal move makes of this game.
    #[verifier::opaque]
    pub open spec fn steps_to(self, next: Game) -> bool {
        exists|m: Move| self.is_legal(m) && next == #[trigger] self.after(m)
    }
}

/// Every move in range is the square at its index.
pub proof fn lemma_nth_of_index(m: Move)
    requires
        in_range(m),
    ensures
        0 <= index_of(m) < 81,
        nth_move(index_of(m)) == m,
{
    let k = index_of(m);
    let (a, b, c, d) = (m.0 as int, m.1 as int, m.2 as int, m.3 as int);
    assert(k % 3 == d && k / 3 == 9 * a + 3 * b + c);
    assert((k / 3) % 3 == c);
    assert(k / 9 == 3 * a + b);
    assert((k / 9) % 3 == b);
    assert(k / 27 == a);
}

/// Every index below 81 is the index of the square at it.
pub proof fn lemma_index_of_nth(k: int)
    requires
        0 <= k < 81,
    ensures
        in_range(nth_move(k)),
        index_of(nth_move(k)) == k,
{
    let q3 = k / 3;
    let q9 = k / 9;
    let q27 = k / 27;
    assert(q9 == q3 / 3);
    assert(q27 == q9 / 3);
    assert(k == 3 * q3 + k % 3);
    assert(q3 == 3 * q9 + q3 % 3);
    assert(q9 == 3 * q27 + q9 % 3);
    assert(q27 < 3);
}

/// What one more square adds to the legal moves among the first `k`.
proof fn lemma_legal_among_first_step(g: Game, k: int)
    requires
        0 <= k < 81,
    ensures
        g.legal_among_first(k + 1) == if g.is_legal(nth_move(k)) {
            g.legal_among_first(k).push(nth_move(k))
        } else {
            g.legal_among_first(k)
        },
{
    assert(all_moves().take(k + 1) =~= all_moves().take(k).push(nth_move(k)));
    all_moves().take(k).lemma_filter_push(nth_move(k), g.legal());
}

/// The legal moves are exactly the moves for which `is_legal` holds.
pub proof fn lemma_legal_moves_contains(g: Game, m: Move)
    ensures
        g.legal_moves().contains(m) <==> g.is_legal(m),
{
    broadcast use vstd::seq_lib::group_filter_ensures;

    if g.is_legal(m) {
        lemma_nth_of_index(m);
        assert(all_moves()[index_of(m)] == m);
        all_moves().lemma_filter_contains(g.legal(), index_of(m));
    }
    if g.legal_moves().contains(m) {
        let i = choose|i: int| 0 <= i < g.legal_moves().len() && g.legal_moves()[i] == m;
        all_moves().lemma_filter_pred(g.legal(), i);
    }
}

/// The moves that are legal in a game in progress: every empty square of
/// the board that the last move sends the player to, if that board is still
/// in progress, and else every empty square of every board still in
/// progress. They are listed by board row, board column, cell row and cell
/// column. A game that is over has no legal move.
pub fn get_valid_moves(node: Game) -> (moves: Vec<Move>)
    requires
        node.wf(),
    ensures
        moves@ == node.legal_moves(),
        forall|m: Move| moves@.contains(m) <==> node.is_legal(m),
{
    let mut valid_moves: Vec<Move> = Vec::new();
    let live = node.get_winner() == GameState::InProgress;
    let zone: Option<(usize, usize)> = match node.last_move_cords {
        Some((x, y)) => {
            if node.boards[x][y].get_winner() == GameState::InProgress {
                Some((x, y))
            } else {
                None
            }
        },
        None => None,
    };
    proof {
        reveal(Seq::filter);
        assert(all_moves().take(0).len() == 0);
    }
    let mut i: usize = 0;
    while i < 3
        invariant
            i <= 3,
            node.wf(),
            zone == node.zone(),
            live == (node.outcome() == GameState::InProgress),
            valid_moves@ == node.legal_among_first(27 * i),
        decreases 3 - i,
    {
        let mut j: usize = 0;
        while j < 3
            invariant
                i < 3,
                j <= 3,
                node.wf(),
                zone == node.zone(),
                live == (node.outcome() == GameState::InProgress),
                valid_moves@ == node.legal_among_first(27 * i + 9 * j),
            decreases 3 - j,
        {
            let here = match zone {
                Some((x, y)) => x == i && y == j,
                None => true,
            };
            let usable = live && here && node.boards[i][j].get_winner()
                == GameState::InProgress;
            let mut k: usize = 0;
            while k < 3
                invariant
                    i < 3,
                    j < 3,
                    k <= 3,
                    usable == (node.outcome() == GameState::InProgress && !node.board(
                        i as int,
                        j as int,
                    ).is_finished() && !node.sends_elsewhere((i, j, 0, 0))),
                    valid_moves@ == node.legal_among_first(27 * i + 9 * j + 3 * k),
                decreases 3 - k,
            {
                let mut l: usize = 0;
                while l < 3
                    invariant
                        i < 3,
                        j < 3,
                        k < 3,
                        l <= 3,
                        usable == (node.outcome() == GameState::InProgress && !node.board(
                            i as int,
                            j as int,
                        ).is_finished() && !node.sends_elsewhere((i, j, 0, 0))),
                        valid_moves@ == node.legal_among_first(27 * i + 9 * j + 3 * k + l),
                    decreases 3 - l,
                {
                    proof {
                        let at = 27 * i + 9 * j + 3 * k + l;
                        assert(nth_move(at) == (i, j, k, l));
                        lemma_legal_among_first_step(node, at);
                    }
                    if usable && node.boards[i][j].squares[k][l] == Square::Empty {
                        valid_moves.push((i, j, k, l));
                    }
                    l += 1;
                }
                k += 1;
            }
            j += 1;
        }
        i += 1;
    }
    proof {
        assert(all_moves().take(81) =~= all_moves());
        assert forall|m: Move| valid_moves@.contains(m) <==> node.is_legal(m) by {
            lemma_legal_moves_contains(node, m);
        }
    }
    valid_moves
}

/// Makes `mv` in `game` and gives the game that results, or the reason why
/// the move is refused. The game handed in is not changed.
pub fn apply_move(mv: Move, game: Game) -> (result: Result<Game, InvalidMoveError>)
    requires
        game.wf(),
        in_range(mv),
    ensures
        result == game.move_result(mv),
{
    let mut game = game;
    game.make_move(mv.0, mv.1, mv.2, mv.3)
}

/// What a move changes on the boards: the board it names gets the mark,
/// every other board stays as it is.
pub proof fn lemma_after_board(g: Game, m: Move, r: int, c: int)
    requires
        in_range(m),
        0 <= r < 3,
        0 <= c < 3,
    ensures
        g.after(m).board(r, c) == g.board_after(m, r, c),
{
}

/// What a move changes on the squares: the square it names becomes the
/// mover's, every other square stays as it is.
pub proof fn lemma_after_square(g: Game, m: Move, n: Move)
    requires
        in_range(m),
        in_range(n),
    ensures
        g.after(m).square(n) == if n == m {
            Square::Occupied(g.current_player)
        } else {
            g.square(n)
        },
{
    lemma_after_board(g, m, n.0 as int, n.1 as int);
}

/// The players take turns: after a move the other player is to move, and
/// the last move is on record, which it is not before the first move alone.
pub proof fn lemma_players_take_turns(g: Game, m: Move)
    ensures
        g.after(m).current_player == g.current_player.other(),
        g.after(m).current_player != g.current_player,
        g.after(m).last_move_cords == Some((m.2, m.3)),
        !g.after(m).is_initial(),
{
}

/// Every listed move names an empty square; and while the last move sends
/// the player to a board that is still in progress, every listed move goes
/// to that board.
pub proof fn lemma_legal_moves_stay_in_zone(g: Game, m: Move)
    requires
        g.wf(),
        g.legal_moves().contains(m),
    ensures
        in_range(m),
        g.square(m) == Square::Empty,
        match g.last_move_cords {
            Some((x, y)) => !g.board(x as int, y as int).is_finished() ==> m.0 == x && m.1 == y,
            None => true,
        },
{
    lemma_legal_moves_contains(g, m);
}

/// Making a move is a function of the game and the move alone: whenever one
/// move is made in one game, the same comes of it, be it the same error or
/// games that agree in every square, in the player to move and in the last
/// move.
pub proof fn lemma_same_move_same_result(
    g: Game,
    m: Move,
    first: Result<Game, InvalidMoveError>,
    second: Result<Game, InvalidMoveError>,
)
    requires
        first == g.move_result(m),
        second == g.move_result(m),
    ensures
        first == second,
        first is Ok ==> second is Ok && first.unwrap().current_player
            == second.unwrap().current_player && first.unwrap().last_move_cords
            == second.unwrap().last_move_cords && forall|n: Move|
            in_range(n) ==> first.unwrap().square(n) == second.unwrap().square(n),
        first is Err ==> second is Err,
{
}

/// Every listed move is accepted: making it gives the game after it, never
/// an error.
pub proof fn lemma_legal_move_is_accepted(g: Game, m: Move)
    requires
        g.wf(),
        g.legal_moves().contains(m),
    ensures
        g.move_result(m) == Ok::<Game, InvalidMoveError>(g.after(m)),
        g.after(m).wf(),
{
    lemma_legal_moves_contains(g, m);
}

/// A locked board is never offered: no listed move goes to a board that is
/// won or tied, whoever is to move and wherever the last move sends them.
pub proof fn lemma_locked_board_gets_no_move(g: Game, m: Move)
    requires
        g.wf(),
        g.legal_moves().contains(m),
    ensures
        !g.board(m.0 as int, m.1 as int).is_finished(),
{
    lemma_legal_moves_contains(g, m);
}

/// A locked board stays as it is: a listed move changes no square of it,
/// so it keeps its outcome.
pub proof fn lemma_locked_board_stays(g: Game, m: Move, r: int, c: int)
    requires
        g.wf(),
        g.legal_moves().contains(m),
        0 <= r < 3,
        0 <= c < 3,
        g.board(r, c).is_finished(),
    ensures
        g.after(m).board(r, c) == g.board(r, c),
{
    lemma_legal_moves_contains(g, m);
    lemma_after_board(g, m, r, c);
}

/// The list of moves is empty exactly for a game that is over.
pub proof fn lemma_no_move_means_over(g: Game)
    requires
        g.wf(),
    ensures
        g.legal_moves().len() == 0 <==> g.outcome() != GameState::InProgress,
{
    if g.outcome() == GameState::InProgress {
        lemma_open_game_has_move(g);
    } else if g.legal_moves().len() > 0 {
        lemma_legal_moves_contains(g, g.legal_moves()[0]);
    }
}

/// A game in progress has a legal move.
pub proof fn lemma_open_game_has_move(g: Game) -> (m: Move)
    requires
        g.wf(),
        g.outcome() == GameState::InProgress,
    ensures
        g.is_legal(m),
        g.legal_moves().len() > 0,
{
    let (r, c): (int, int) = match g.zone() {
        Some((x, y)) => (x as int, y as int),
        None => choose|r: int, c: int| 0 <= r < 3 && 0 <= c < 3 && !g.board(r, c).is_finished(),
    };
    let at = lemma_open_board_has_room(g.board(r, c));
    let m: Move = (r as usize, c as usize, at.0 as usize, at.1 as usize);
    lemma_legal_moves_contains(g, m);
    m
}

/// The listed moves come in the order of the squares, so none is listed twice.
pub proof fn lemma_legal_moves_ordered(g: Game, i: int, j: int)
    requires
        0 <= i < j < g.legal_moves().len(),
    ensures
        index_of(g.legal_moves()[i]) < index_of(g.legal_moves()[j]),
{
    assert(all_moves().take(81) =~= all_moves());
    lemma_legal_among_first_ordered(g, 81);
    let listed = g.legal_among_first(81);
    assert(listed == g.legal_moves());
    assert(index_of(listed[i]) < index_of(listed[j]));
}

/// The legal moves among the first `k` squares have indices below `k`, in
/// rising order.
proof fn lemma_legal_among_first_ordered(g: Game, k: int)
    requires
        0 <= k <= 81,
    ensures
        forall|i: int|
            0 <= i < g.legal_among_first(k).len() ==> 0 <= index_of(
                #[trigger] g.legal_among_first(k)[i],
            ) < k,
        forall|i: int, j: int|
            0 <= i < j < g.legal_among_first(k).len() ==> index_of(
                #[trigger] g.legal_among_first(k)[i],
            ) < index_of(#[trigger] g.legal_among_first(k)[j]),
    decreases k,
{
    if k == 0 {
        reveal(Seq::filter);
        assert(all_moves().take(0).len() == 0);
    } else {
        lemma_legal_among_first_ordered(g, k - 1);
        lemma_legal_among_first_step(g, k - 1);
        lemma_index_of_nth(k - 1);
    }
}

impl Game {
    /// How many of the first `k` squares are occupied.
    pub open spec fn filled_among_first(self, k: int) -> nat
        decreases k,
    {
        if k <= 0 {
            0
        } else {
            let here: nat = if self.square(nth_move(k - 1)) == Square::Empty {
                0
            } else {
                1
            };
            self.filled_among_first(k - 1) + here
        }
    }

    /// How many squares of the game are occupied.
    pub open spec fn filled(self) -> nat {
        self.filled_among_first(81)
    }
}

/// No more than `k` of the first `k` squares are occupied.
pub proof fn lemma_filled_bound(g: Game, k: int)
    requires
        0 <= k,
    ensures
        g.filled_among_first(k) <= k,
    decreases k,
{
    if k > 0 {
        lemma_filled_bound(g, k - 1);
    }
}

/// A move into an empty square fills one square more among the first `k`
/// exactly if its own square is among them.
proof fn lemma_move_fills_among_first(g: Game, m: Move, k: int)
    requires
        in_range(m),
        g.square(m) == Square::Empty,
        0 <= k <= 81,
    ensures
        g.after(m).filled_among_first(k) == g.filled_among_first(k) + if index_of(m) < k {
            1nat
        } else {
            0nat
        },
    decreases k,
{
    if k > 0 {
        lemma_move_fills_among_first(g, m, k - 1);
        lemma_index_of_nth(k - 1);
        lemma_nth_of_index(m);
        lemma_after_square(g, m, nth_move(k - 1));
    }
}

/// A move into an empty square fills exactly one square more. A game has
/// 81 squares, so no line of play is longer than 81 moves.
pub proof fn lemma_move_fills_one(g: Game, m: Move)
    requires
        in_range(m),
        g.square(m) == Square::Empty,
    ensures
        g.after(m).filled() == g.filled() + 1,
        g.after(m).filled() <= 81,
{
    lemma_move_fills_among_first(g, m, 81);
    lemma_nth_of_index(m);
    lemma_filled_bound(g.after(m), 81);
}

} // verus!
