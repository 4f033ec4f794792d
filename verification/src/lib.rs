//! Ultimate tic-tac-toe: a rules engine and a Monte Carlo tree search over it.
//!
//! The game is a 3x3 grid of ordinary 3x3 tic-tac-toe boards. The cell a
//! player marks decides the board in which the opponent has to answer. A
//! board that has been won or drawn is locked: nobody plays in it again,
//! and a drawn board counts for nobody.
//!
//! **Game:** the whole 9x9 position. **Board:** one of its nine small
//! boards. **Square:** one cell of a board. Coordinates are `(row, col)`
//! pairs with both parts in `0..3`.
//!
//! The rules are in [`board`], [`game`] and [`moves`], and [`render`] gives
//! a game as text. [`playout`] plays a game to its end at random. [`tree`] keeps what the search learns, and
//! [`mcts`] holds it together with the number of playouts. A search
//! ([`search`]) is a number of rounds ([`round`]): down the tree
//! ([`selection`], [`descent`]), a random playout, and the outcome counted
//! on the way back ([`counting`]); at the end the best child of the root is
//! picked ([`best`]).
//!
//! The UCB1 score that selection goes by is a number with a logarithm and a
//! square root in it. The library gives the terms of that number
//! ([`Ucb1Terms`]) and asks its caller which of two scores is the higher.
pub mod best;
pub mod board;
pub mod counting;
pub mod descent;
pub mod errors;
pub mod game;
pub mod mcts;
pub mod moves;
pub mod playout;
pub mod render;
pub mod round;
pub mod search;
pub mod selection;
pub mod tree;

pub use board::{Board, GameState, Player, Square, BOARD_SIZE};
pub use errors::InvalidMoveError;
pub use game::{Game, Move};
pub use mcts::{MAX_PLAYOUTS, MTCS};
pub use moves::{apply_move, get_valid_moves};
pub use playout::simulate_game;
pub use selection::{Ucb1Score, Ucb1Terms};
pub use tree::{Registry, TreeData};
