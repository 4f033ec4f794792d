//! The whole game: nine boards, the player to move and the last move made.
use crate::board::{lemma_boards_equal, Board, GameState, Player, Square, BOARD_SIZE};
use crate::errors::InvalidMoveError;
use vstd::prelude::*;

verus! {

/// A move: the row and column of the board, then the row and column of the
/// cell in that board.
pub type Move = (usize, usize, usize, usize);

/// Whether all four coordinates of `m` lie in `0..3`.
pub open spec fn in_range(m: Move) -> bool {
    m.0 < 3 && m.1 < 3 && m.2 < 3 && m.3 < 3
}

/// The 9x9 game. `X` starts.
///
/// A game is a plain value: a move gives a new one, and two games are equal
/// exactly if they agree in every square, in the player to move and in the
/// last move.
#[derive(Copy, Clone, Hash, Debug)]
pub struct Game {
    /// The boards, by row and column.
    pub boards: [[Board; BOARD_SIZE]; BOARD_SIZE],
    /// The player who makes the next move.
    pub current_player: Player,
    /// The cell coordinates of the last move, which name the board that the
    /// next move has to go to. `None` before the first move.
    pub last_move_cords: Option<(usize, usize)>,
}

impl Game {
    /// The coordinates of the last move, if any, name a board.
    pub open spec fn wf(&self) -> bool {
        match self.last_move_cords {
            Some((x, y)) => x < 3 && y < 3,
            None => true,
        }
    }

    /// The board in row `r`, column `c`.
    pub open spec fn board(&self, r: int, c: int) -> Board {
        self.boards[r][c]
    }

    /// The square that `m` names.
    pub open spec fn square(&self, m: Move) -> Square {
        self.board(m.0 as int, m.1 as int).cell(m.2 as int, m.3 as int)
    }

    /// Whether `p` has won the board in row `r`, column `c`.
    pub open spec fn holds(&self, p: Player, r: int, c: int) -> bool {
        self.board(r, c).outcome() == GameState::Winner(p)
    }

    /// Whether `p` has won all boards of row `r`.
    pub open spec fn holds_row(&self, p: Player, r: int) -> bool {
        self.holds(p, r, 0) && self.holds(p, r, 1) && self.holds(p, r, 2)
    }

    /// Whether `p` has won all boards of column `c`.
    pub open spec fn holds_col(&self, p: Player, c: int) -> bool {
        self.holds(p, 0, c) && self.holds(p, 1, c) && self.holds(p, 2, c)
    }

    /// Whether `p` has won three boards in a line.
    pub open spec fn has_line(&self, p: Player) -> bool {
        ||| exists|i: int| 0 <= i < 3 && #[trigger] self.holds_row(p, i)
        ||| exists|i: int| 0 <= i < 3 && #[trigger] self.holds_col(p, i)
        ||| (self.holds(p, 0, 0) && self.holds(p, 1, 1) && self.holds(p, 2, 2))
        ||| (self.holds(p, 0, 2) && self.holds(p, 1, 1) && self.holds(p, 2, 0))
    }

    /// Whether every board is locked.
    pub open spec fn all_finished(&self) -> bool {
        forall|r: int, c: int| 0 <= r < 3 && 0 <= c < 3 ==> self.board(r, c).is_finished()
    }

    /// The outcome of the game, read off the outcomes of the boards as a
    /// board's outcome is read off its squares: a tied board counts for
    /// nobody, and the game is tied once every board is locked and nobody
    /// has a line.
    pub open spec fn outcome(&self) -> GameState {
        if self.has_line(Player::O) {
            GameState::Winner(Player::O)
        } else if self.has_line(Player::X) {
            GameState::Winner(Player::X)
        } else if self.all_finished() {
            GameState::Tie
        } else {
            GameState::InProgress
        }
    }

    /// The board that the player to move is confined to: the one that the
    /// last move's cell names, as long as it is still in progress.
    pub open spec fn zone(&self) -> Option<(usize, usize)> {
        match self.last_move_cords {
            Some((x, y)) => if self.board(x as int, y as int).is_finished() {
                None
            } else {
                Some((x, y))
            },
            None => None,
        }
    }

    /// Whether the player to move is confined to a board other than `m`'s.
    pub open spec fn sends_elsewhere(&self, m: Move) -> bool {
        match self.zone() {
            Some((x, y)) => (m.0, m.1) != (x, y),
            None => false,
        }
    }

    /// The board in row `i`, column `j` once `m` has been made.
    pub open spec fn board_after(self, m: Move, i: int, j: int) -> Board {
        if i == m.0 && j == m.1 {
            self.board(i, j).with(m.2 as int, m.3 as int, Square::Occupied(self.current_player))
        } else {
            self.board(i, j)
        }
    }

    /// The game once the player to move has marked the square that `m`
    /// names: that square is theirs, the other player is to move, and the
    /// last move is `m`'s cell.
    pub open spec fn after(self, m: Move) -> Game {
        Game {
            boards: [
                [self.board_after(m, 0, 0), self.board_after(m, 0, 1), self.board_after(m, 0, 2)],
                [self.board_after(m, 1, 0), self.board_after(m, 1, 1), self.board_after(m, 1, 2)],
                [self.board_after(m, 2, 0), self.board_after(m, 2, 1), self.board_after(m, 2, 2)],
            ],
            current_player: self.current_player.other(),
            last_move_cords: Some((m.2, m.3)),
        }
    }

    /// What making `m` gives: the game after it, or the reason why it is
    /// refused. An occupied square is reported before a wrong board.
    pub open spec fn move_result(self, m: Move) -> Result<Game, InvalidMoveError> {
        if self.square(m) != Square::Empty {
            Err(InvalidMoveError::CellAlreadyOccupied)
        } else if self.sends_elsewhere(m) {
            Err(InvalidMoveError::InvalidBoard)
        } else {
            Ok(self.after(m))
        }
    }

    /// Whether this is the game before the first move.
    pub open spec fn is_initial(&self) -> bool {
        &&& self.current_player == Player::X
        &&& self.last_move_cords is None
        &&& forall|m: Move| in_range(m) ==> #[trigger] self.square(m) == Square::Empty
    }

    /// A new game: every square empty, `X` to move, no last move.
    pub fn new() -> (game: Self)
        ensures
            game.is_initial(),
            game.wf(),
    {
        let blank = Board { squares: [[Square::Empty; BOARD_SIZE]; BOARD_SIZE] };
        let game = Game {
            boards: [[blank; BOARD_SIZE]; BOARD_SIZE],
            current_player: Player::X,
            last_move_cords: None,
        };
        assert forall|m: Move| in_range(m) implies game.square(m) == Square::Empty by {
            assert(game.board(m.0 as int, m.1 as int) == blank);
        }
        game
    }

    /// Makes a move for the player to move, and hands the new game back.
    ///
    /// The move is refused, and the game left as it was, if the cell is
    /// occupied, or if the last move sends the player to another board that
    /// is still in progress.
    pub fn make_move(
        &mut self,
        board_row: usize,
        board_col: usize,
        cell_row: usize,
        cell_col: usize,
    ) -> (result: Result<Self, InvalidMoveError>)
        requires
            old(self).wf(),
            in_range((board_row, board_col, cell_row, cell_col)),
        ensures
            result == old(self).move_result((board_row, board_col, cell_row, cell_col)),
            *final(self) == (match result {
                Ok(game) => game,
                Err(_) => *old(self),
            }),
            final(self).wf(),
    {
        let ghost m: Move = (board_row, board_col, cell_row, cell_col);
        if self.boards[board_row][board_col].squares[cell_row][cell_col] != Square::Empty {
            return Err(InvalidMoveError::CellAlreadyOccupied);
        }
        if let Some((x, y)) = self.last_move_cords {
            if (board_row != x || board_col != y) && self.boards[x][y].get_winner()
                == GameState::InProgress {
                return Err(InvalidMoveError::InvalidBoard);
            }
        }
        let mut board = self.boards[board_row][board_col];
        board.set(cell_row, cell_col, Square::Occupied(self.current_player));
        self.boards[board_row][board_col] = board;
        self.current_player = self.current_player.opponent();
        self.last_move_cords = Some((cell_row, cell_col));
        proof {
            let next = old(self).after(m);
            assert forall|i: int| 0 <= i < 3 implies self.boards[i] == next.boards[i] by {
                assert forall|j: int| 0 <= j < 3 implies self.boards[i][j] == next.boards[i][j] by {
                    assert(next.boards[i][j] == old(self).board_after(m, i, j));
                }
                assert(self.boards[i] =~= next.boards[i]);
            }
            assert(self.boards =~= next.boards);
        }
        Ok(*self)
    }

    /// Whether `player` has won the board in row `r`, column `c`.
    fn board_won_by(&self, player: Player, r: usize, c: usize) -> (won: bool)
        requires
            r < 3,
            c < 3,
        ensures
            won == self.holds(player, r as int, c as int),
    {
        self.boards[r][c].get_winner() == GameState::Winner(player)
    }

    /// Whether `player` has won three boards in a line.
    pub fn check_winner(&self, player: Player) -> (won: bool)
        ensures
            won == self.has_line(player),
    {
        let mut i: usize = 0;
        while i < 3
            invariant
                i <= 3,
                forall|k: int| 0 <= k < i ==> !self.holds_row(player, k) && !self.holds_col(player, k),
            decreases 3 - i,
        {
            let row = self.board_won_by(player, i, 0) && self.board_won_by(player, i, 1)
                && self.board_won_by(player, i, 2);
            let col = self.board_won_by(player, 0, i) && self.board_won_by(player, 1, i)
                && self.board_won_by(player, 2, i);
            assert(row == self.holds_row(player, i as int));
            assert(col == self.holds_col(player, i as int));
            if row || col {
                return true;
            }
            i += 1;
        }
        let falling = self.board_won_by(player, 0, 0) && self.board_won_by(player, 1, 1)
            && self.board_won_by(player, 2, 2);
        let rising = self.board_won_by(player, 0, 2) && self.board_won_by(player, 1, 1)
            && self.board_won_by(player, 2, 0);
        falling || rising
    }

    /// Whether every board is locked.
    fn check_all_finished(&self) -> (done: bool)
        ensures
            done == self.all_finished(),
    {
        let mut r: usize = 0;
        while r < 3
            invariant
                r <= 3,
                forall|i: int, j: int| 0 <= i < r && 0 <= j < 3 ==> self.board(i, j).is_finished(),
            decreases 3 - r,
        {
            let mut c: usize = 0;
            while c < 3
                invariant
                    r < 3,
                    c <= 3,
                    forall|i: int, j: int|
                        0 <= i < r && 0 <= j < 3 ==> self.board(i, j).is_finished(),
                    forall|j: int| 0 <= j < c ==> self.board(r as int, j).is_finished(),
                decreases 3 - c,
            {
                if self.boards[r][c].get_winner() == GameState::InProgress {
                    assert(!self.board(r as int, c as int).is_finished());
                    return false;
                }
                c += 1;
            }
            r += 1;
        }
        true
    }

    /// The outcome of the game: the winner, if any, else a tie if every
    /// board is locked, else still in progress.
    pub fn get_winner(&self) -> (state: GameState)
        ensures
            state == self.outcome(),
    {
        if self.check_winner(Player::O) {
            return GameState::Winner(Player::O);
        }
        if self.check_winner(Player::X) {
            return GameState::Winner(Player::X);
        }
        if self.check_all_finished() {
            return GameState::Tie;
        }
        GameState::InProgress
    }
}

impl Default for Game {
    fn default() -> (game: Self)
        ensures
            game.is_initial(),
            game.wf(),
    {
        Game::new()
    }
}

impl PartialEq for Game {
    fn eq(&self, other: &Self) -> (same: bool) {
        if self.current_player != other.current_player {
            return false;
        }
        let same_last = match (self.last_move_cords, other.last_move_cords) {
            (Some((a, b)), Some((c, d))) => a == c && b == d,
            (None, None) => true,
            _ => false,
        };
        if !same_last {
            return false;
        }
        let mut r: usize = 0;
        while r < 3
            invariant
                r <= 3,
                forall|i: int, j: int| 0 <= i < r && 0 <= j < 3 ==> self.board(i, j) == other.board(i, j),
            decreases 3 - r,
        {
            let mut c: usize = 0;
            while c < 3
                invariant
                    r < 3,
                    c <= 3,
                    forall|i: int, j: int|
                        0 <= i < r && 0 <= j < 3 ==> self.board(i, j) == other.board(i, j),
                    forall|j: int| 0 <= j < c ==> self.board(r as int, j) == other.board(r as int, j),
                decreases 3 - c,
            {
                if self.boards[r][c] != other.boards[r][c] {
                    assert(self.board(r as int, c as int) != other.board(r as int, c as int));
                    return false;
                }
                c += 1;
            }
            r += 1;
        }
        proof {
            assert forall|i: int| 0 <= i < 3 implies self.boards[i] == other.boards[i] by {
                assert forall|j: int| 0 <= j < 3 implies self.boards[i][j] == other.boards[i][j] by {
                    assert(self.board(i, j) == other.board(i, j));
                }
                assert(self.boards[i] =~= other.boards[i]);
            }
            assert(self.boards =~= other.boards);
        }
        true
    }
}

impl Eq for Game {

}

impl vstd::std_specs::cmp::PartialEqSpecImpl for Game {
    open spec fn obeys_eq_spec() -> bool {
        true
    }

    open spec fn eq_spec(&self, other: &Self) -> bool {
        *self == *other
    }
}

/// Two games that agree in every square, in the player to move and in the
/// last move are one game.
pub proof fn lemma_games_equal(a: Game, b: Game)
    requires
        a.current_player == b.current_player,
        a.last_move_cords == b.last_move_cords,
        forall|m: Move| in_range(m) ==> a.square(m) == b.square(m),
    ensures
        a == b,
{
    assert forall|i: int| 0 <= i < 3 implies a.boards[i] == b.boards[i] by {
        assert forall|j: int| 0 <= j < 3 implies a.boards[i][j] == b.boards[i][j] by {
            assert forall|r: int, c: int| 0 <= r < 3 && 0 <= c < 3 implies a.boards[i][j].cell(r, c)
                == b.boards[i][j].cell(r, c) by {
                let m: Move = (i as usize, j as usize, r as usize, c as usize);
                assert(in_range(m));
                assert(a.square(m) == b.square(m));
            }
            lemma_boards_equal(a.boards[i][j], b.boards[i][j]);
        }
        assert(a.boards[i] =~= b.boards[i]);
    }
    assert(a.boards =~= b.boards);
}

} // verus!
