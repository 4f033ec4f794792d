//! The ways in which a move can be refused.
use vstd::prelude::*;

verus! {

/// Making a move was not possible.
#[derive(Debug, Clone, Copy, PartialEq, Eq, Structural)]
pub enum InvalidMoveError {
    /// The specified cell is already occupied.
    CellAlreadyOccupied,
    /// The specified board does not match the coordinates of the opponent's
    /// last move.
    InvalidBoard,
}

impl InvalidMoveError {
    /// The text of `message`, as a sequence of characters.
    pub open spec fn message_spec(self) -> Seq<char> {
        match self {
            InvalidMoveError::CellAlreadyOccupied => "the specified cell is already occupied"@,
            InvalidMoveError::InvalidBoard =>
                "the specified board does not match the coordinates of the opponent's last move"@,
        }
    }

    /// A sentence for the player, one per kind of error.
    pub fn message(&self) -> (text: String)
        ensures
            text@ == self.message_spec(),
    {
        match self {
            InvalidMoveError::CellAlreadyOccupied => {
                "the specified cell is already occupied".to_owned()
            },
            InvalidMoveError::InvalidBoard => {
                "the specified board does not match the coordinates of the opponent's last move".to_owned()
            },
        }
    }
}

/// The two messages differ, so a message tells which error it was.
pub proof fn lemma_messages_differ()
    ensures
        InvalidMoveError::CellAlreadyOccupied.message_spec()
            != InvalidMoveError::InvalidBoard.message_spec(),
{
    reveal_strlit("the specified cell is already occupied");
    reveal_strlit(
        "the specified board does not match the coordinates of the opponent's last move",
    );
    assert(InvalidMoveError::CellAlreadyOccupied.message_spec().len() == 38);
    assert(InvalidMoveError::InvalidBoard.message_spec().len() == 78);
}

} // verus!
