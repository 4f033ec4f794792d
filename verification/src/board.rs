//! Players, squares and the small 3x3 board with its outcome.
use vstd::prelude::*;

verus! {

/// The side length of a board, and of the grid of boards.
pub const BOARD_SIZE: usize = 3;

/// One of the two players.
#[derive(Copy, Clone, Eq, PartialEq, Hash, Debug, Structural)]
pub enum Player {
    X,
    O,
}

impl Player {
    /// The player who moves after this one.
    pub open spec fn other(self) -> Player {
        match self {
            Player::X => Player::O,
            Player::O => Player::X,
        }
    }

    /// The player who moves after this one.
    pub fn opponent(self) -> (p: Player)
        ensures
            p == self.other(),
    {
        match self {
            Player::X => Player::O,
            Player::O => Player::X,
        }
    }
}

/// What a cell of a board holds.
#[derive(Copy, Clone, Eq, PartialEq, Hash, Debug, Structural)]
pub enum Square {
    Empty,
    Occupied(Player),
}

impl Default for Square {
    fn default() -> (s: Self)
        ensures
            s == Square::Empty,
    {
        Square::Empty
    }
}

/// How far a board, or the whole game, has come.
#[derive(Copy, Clone, Eq, PartialEq, Hash, Debug, Structural)]
pub enum GameState {
    Tie,
    Winner(Player),
    InProgress,
}

/// A traditional 3x3 tic-tac-toe board.
#[derive(Copy, Clone, Hash, Debug)]
pub struct Board {
    /// The cells, by row and column.
    pub squares: [[Square; BOARD_SIZE]; BOARD_SIZE],
}

impl Board {
    /// The square in row `r`, column `c`.
    pub open spec fn cell(&self, r: int, c: int) -> Square {
        self.squares[r][c]
    }

    /// Whether `p` has marked the square in row `r`, column `c`.
    pub open spec fn owns(&self, p: Player, r: int, c: int) -> bool {
        self.cell(r, c) == Square::Occupied(p)
    }

    /// Whether `p` holds all of row `r`.
    pub open spec fn owns_row(&self, p: Player, r: int) -> bool {
        self.owns(p, r, 0) && self.owns(p, r, 1) && self.owns(p, r, 2)
    }

    /// Whether `p` holds all of column `c`.
    pub open spec fn owns_col(&self, p: Player, c: int) -> bool {
        self.owns(p, 0, c) && self.owns(p, 1, c) && self.owns(p, 2, c)
    }

    /// Whether `p` holds one of the eight lines: a row, a column or a diagonal.
    pub open spec fn has_line(&self, p: Player) -> bool {
        ||| exists|i: int| 0 <= i < 3 && #[trigger] self.owns_row(p, i)
        ||| exists|i: int| 0 <= i < 3 && #[trigger] self.owns_col(p, i)
        ||| (self.owns(p, 0, 0) && self.owns(p, 1, 1) && self.owns(p, 2, 2))
        ||| (self.owns(p, 0, 2) && self.owns(p, 1, 1) && self.owns(p, 2, 0))
    }

    /// Whether no square is empty.
    pub open spec fn is_full(&self) -> bool {
        forall|r: int, c: int| 0 <= r < 3 && 0 <= c < 3 ==> self.cell(r, c) != Square::Empty
    }

    /// The outcome of the board. A line decides it, `O`'s before `X`'s should
    /// both hold one; without a line the board is tied once it is full.
    pub open spec fn outcome(&self) -> GameState {
        if self.has_line(Player::O) {
            GameState::Winner(Player::O)
        } else if self.has_line(Player::X) {
            GameState::Winner(Player::X)
        } else if self.is_full() {
            GameState::Tie
        } else {
            GameState::InProgress
        }
    }

    /// Whether the board is locked: won or tied.
    pub open spec fn is_finished(&self) -> bool {
        self.outcome() != GameState::InProgress
    }

    /// The board with `s` in row `r`, column `c`, seen from `(i, j)`.
    pub open spec fn cell_after(self, r: int, c: int, s: Square, i: int, j: int) -> Square {
        if i == r && j == c {
            s
        } else {
            self.cell(i, j)
        }
    }

    /// The board with `s` in row `r`, column `c`, and every other square as it is.
    pub open spec fn with(self, r: int, c: int, s: Square) -> Board {
        Board {
            squares: [
                [
                    self.cell_after(r, c, s, 0, 0),
                    self.cell_after(r, c, s, 0, 1),
                    self.cell_after(r, c, s, 0, 2),
                ],
                [
                    self.cell_after(r, c, s, 1, 0),
                    self.cell_after(r, c, s, 1, 1),
                    self.cell_after(r, c, s, 1, 2),
                ],
                [
                    self.cell_after(r, c, s, 2, 0),
                    self.cell_after(r, c, s, 2, 1),
                    self.cell_after(r, c, s, 2, 2),
                ],
            ],
        }
    }

    /// Whether `player` has three in a row on this board.
    pub fn check_winner(&self, player: Player) -> (won: bool)
        ensures
            won == self.has_line(player),
    {
        let mark = Square::Occupied(player);
        let mut i: usize = 0;
        while i < 3
            invariant
                i <= 3,
                mark == Square::Occupied(player),
                forall|k: int| 0 <= k < i ==> !self.owns_row(player, k) && !self.owns_col(player, k),
            decreases 3 - i,
        {
            let row = self.squares[i][0] == mark && self.squares[i][1] == mark && self.squares[i][2]
                == mark;
            let col = self.squares[0][i] == mark && self.squares[1][i] == mark && self.squares[2][i]
                == mark;
            assert(row == self.owns_row(player, i as int));
            assert(col == self.owns_col(player, i as int));
            if row || col {
                return true;
            }
            i += 1;
        }
        let falling = self.squares[0][0] == mark && self.squares[1][1] == mark && self.squares[2][2]
            == mark;
        let rising = self.squares[0][2] == mark && self.squares[1][1] == mark && self.squares[2][0]
            == mark;
        falling || rising
    }

    /// Whether every square is taken.
    fn check_full(&self) -> (full: bool)
        ensures
            full == self.is_full(),
    {
        let mut r: usize = 0;
        while r < 3
            invariant
                r <= 3,
                forall|i: int, j: int| 0 <= i < r && 0 <= j < 3 ==> self.cell(i, j) != Square::Empty,
            decreases 3 - r,
        {
            let mut c: usize = 0;
            while c < 3
                invariant
                    r < 3,
                    c <= 3,
                    forall|i: int, j: int|
                        0 <= i < r && 0 <= j < 3 ==> self.cell(i, j) != Square::Empty,
                    forall|j: int| 0 <= j < c ==> self.cell(r as int, j) != Square::Empty,
                decreases 3 - c,
            {
                if self.squares[r][c] == Square::Empty {
                    assert(self.cell(r as int, c as int) == Square::Empty);
                    return false;
                }
                c += 1;
            }
            r += 1;
        }
        true
    }

    /// The outcome of the board: the winner, if any, else a tie if it is
    /// full, else still in progress.
    pub fn get_winner(&self) -> (state: GameState)
        ensures
            state == self.outcome(),
    {
        if self.check_winner(Player::O) {
            return GameState::Winner(Player::O);
        }
        if self.check_winner(Player::X) {
            return GameState::Winner(Player::X);
        }
        if self.check_full() {
            return GameState::Tie;
        }
        GameState::InProgress
    }

    /// Puts `s` in row `r`, column `c`.
    pub fn set(&mut self, r: usize, c: usize, s: Square)
        requires
            r < 3,
            c < 3,
        ensures
            *final(self) == old(self).with(r as int, c as int, s),
    {
        self.squares[r][c] = s;
        proof {
            lemma_boards_equal(*self, old(self).with(r as int, c as int, s));
        }
    }
}

impl Default for Board {
    fn default() -> (b: Self)
        ensures
            forall|r: int, c: int| 0 <= r < 3 && 0 <= c < 3 ==> b.cell(r, c) == Square::Empty,
    {
        Board { squares: [[Square::Empty; BOARD_SIZE]; BOARD_SIZE] }
    }
}

impl PartialEq for Board {
    fn eq(&self, other: &Self) -> (same: bool) {
        let mut same = true;
        let mut r: usize = 0;
        while r < 3
            invariant
                r <= 3,
                same == (forall|i: int, j: int|
                    0 <= i < r && 0 <= j < 3 ==> self.cell(i, j) == other.cell(i, j)),
            decreases 3 - r,
        {
            let mut c: usize = 0;
            while c < 3
                invariant
                    r < 3,
                    c <= 3,
                    same == ((forall|i: int, j: int|
                        0 <= i < r && 0 <= j < 3 ==> self.cell(i, j) == other.cell(i, j)) && (forall|
                        j: int,
                    |
                        0 <= j < c ==> self.cell(r as int, j) == other.cell(r as int, j))),
                decreases 3 - c,
            {
                assert(self.cell(r as int, c as int) == self.squares[r as int][c as int]);
                assert(other.cell(r as int, c as int) == other.squares[r as int][c as int]);
                if self.squares[r][c] != other.squares[r][c] {
                    same = false;
                }
                c += 1;
            }
            r += 1;
        }
        proof {
            if same {
                lemma_boards_equal(*self, *other);
            }
        }
        same
    }
}

impl Eq for Board {

}

impl vstd::std_specs::cmp::PartialEqSpecImpl for Board {
    open spec fn obeys_eq_spec() -> bool {
        true
    }

    open spec fn eq_spec(&self, other: &Self) -> bool {
        *self == *other
    }
}

/// Two boards whose squares agree are one board.
pub proof fn lemma_boards_equal(a: Board, b: Board)
    requires
        forall|r: int, c: int| 0 <= r < 3 && 0 <= c < 3 ==> a.cell(r, c) == b.cell(r, c),
    ensures
        a == b,
{
    assert forall|r: int| 0 <= r < 3 implies a.squares[r] == b.squares[r] by {
        assert forall|c: int| 0 <= c < 3 implies a.squares[r][c] == b.squares[r][c] by {
            assert(a.cell(r, c) == b.cell(r, c));
        }
        assert(a.squares[r] =~= b.squares[r]);
    }
    assert(a.squares =~= b.squares);
}

/// A board still in progress has an empty square.
pub proof fn lemma_open_board_has_room(b: Board) -> (at: (int, int))
    requires
        b.outcome() == GameState::InProgress,
    ensures
        0 <= at.0 < 3,
        0 <= at.1 < 3,
        b.cell(at.0, at.1) == Square::Empty,
{
    let (r, c) = choose|r: int, c: int| 0 <= r < 3 && 0 <= c < 3 && b.cell(r, c) == Square::Empty;
    (r, c)
}

} // verus!
