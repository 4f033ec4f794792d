//! The game as text: thirteen lines in a grid of box-drawing characters.
use crate::board::{Player, Square};
use crate::game::Game;
use vstd::prelude::*;

verus! {

/// The character that stands for a square.
pub open spec fn glyph(s: Square) -> char {
    match s {
        Square::Empty => ' ',
        Square::Occupied(Player::X) => 'X',
        Square::Occupied(Player::O) => 'O',
    }
}

/// The character in column `col` of the rule that is line `line` of the
/// text: the top of the grid, its bottom, or a rule between two rows of
/// boards.
pub open spec fn rule_at(line: int, col: int) -> char {
    if col % 4 != 0 {
        '━'
    } else if line == 0 {
        if col == 0 {
            '┏'
        } else if col == 12 {
            '┓'
        } else {
            '┳'
        }
    } else if line == 12 {
        if col == 0 {
            '┗'
        } else if col == 12 {
            '┛'
        } else {
            '┻'
        }
    } else {
        if col == 0 {
            '┣'
        } else if col == 12 {
            '┫'
        } else {
            '╋'
        }
    }
}

impl Game {
    /// The character in column `col` of line `line` of the text. Every
    /// fourth line is a rule, and every line ends with a line feed. On the
    /// other lines every fourth column holds a bar, and between the bars
    /// stand the squares of one row of cells of one row of boards.
    pub open spec fn char_at(self, line: int, col: int) -> char {
        if col == 13 {
            '\n'
        } else if line % 4 == 0 {
            rule_at(line, col)
        } else if col % 4 == 0 {
            '┃'
        } else {
            glyph(self.board(line / 4, col / 4).cell(line % 4 - 1, col % 4 - 1))
        }
    }

    /// The game as text: 13 lines of 14 characters each.
    pub open spec fn text(self) -> Seq<char> {
        Seq::new(182, |k: int| self.char_at(k / 14, k % 14))
    }

    /// The character in column `col` of line `line` of the text.
    fn character(&self, line: usize, col: usize) -> (c: char)
        requires
            line < 13,
            col < 14,
        ensures
            c == self.char_at(line as int, col as int),
    {
        if col == 13 {
            '\n'
        } else if line % 4 == 0 {
            if col % 4 != 0 {
                '━'
            } else if line == 0 {
                if col == 0 {
                    '┏'
                } else if col == 12 {
                    '┓'
                } else {
                    '┳'
                }
            } else if line == 12 {
                if col == 0 {
                    '┗'
                } else if col == 12 {
                    '┛'
                } else {
                    '┻'
                }
            } else {
                if col == 0 {
                    '┣'
                } else if col == 12 {
                    '┫'
                } else {
                    '╋'
                }
            }
        } else if col % 4 == 0 {
            '┃'
        } else {
            match self.boards[line / 4][col / 4].squares[line % 4 - 1][col % 4 - 1] {
                Square::Empty => ' ',
                Square::Occupied(Player::X) => 'X',
                Square::Occupied(Player::O) => 'O',
            }
        }
    }

    /// The game as text, for a terminal: the nine boards in a grid, an `X`
    /// or an `O` in each square that is taken.
    pub fn render(&self) -> (text: String)
        ensures
            text@ == self.text(),
    {
        let mut text = String::new();
        let mut line: usize = 0;
        while line < 13
            invariant
                line <= 13,
                text@ == self.text().take(14 * line),
            decreases 13 - line,
        {
            let mut col: usize = 0;
            while col < 14
                invariant
                    line < 13,
                    col <= 14,
                    text@ == self.text().take(14 * line + col),
                decreases 14 - col,
            {
                let c = self.character(line, col);
                push_char(&mut text, c);
                proof {
                    let k = 14 * line + col;
                    assert(k / 14 == line && k % 14 == col);
                    assert(self.text().take(k + 1) =~= self.text().take(k).push(self.text()[k]));
                }
                col += 1;
            }
            line += 1;
        }
        proof {
            assert(self.text().take(182) =~= self.text());
        }
        text
    }
}

/// Adds `c` at the end of `text` with `String::push`. Believed of that
/// call: the text is what it was, with `c` after it.
#[verifier::external_body]
fn push_char(text: &mut String, c: char)
    ensures
        final(text)@ == old(text)@.push(c),
{
    text.push(c);
}

} // verus!
