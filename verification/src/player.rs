use vstd::prelude::*;
use vstd::string::StringExecFns;

verus! {

/// One of the two sides of the game.
#[derive(Debug, Clone, Copy, PartialEq, Eq, Structural)]
pub enum Player {
    X,
    O,
}

impl Player {
    /// The mark of the side as text.
    pub open spec fn text(self) -> Seq<char> {
        match self {
            Player::X => "X"@,
            Player::O => "O"@,
        }
    }

    /// The mark of the side between the terminal's colour codes.
    pub open spec fn pretty_text(self) -> Seq<char> {
        match self {
            Player::X => "\x1b[31mX\x1b[0m"@,
            Player::O => "\x1b[32mO\x1b[0m"@,
        }
    }

    /// The other side.
    pub open spec fn other(self) -> Player {
        match self {
            Player::X => Player::O,
            Player::O => Player::X,
        }
    }

    /// The mark of the side, coloured for a terminal: red for X, green
    /// for O.
    pub fn pretty(self) -> (r: String)
        ensures
            r@ == self.pretty_text(),
    {
        match self {
            Player::X => String::from_str("\x1b[31mX\x1b[0m"),
            Player::O => String::from_str("\x1b[32mO\x1b[0m"),
        }
    }

    /// The mark of the side as text: "X" or "O".
    pub fn to_string(&self) -> (r: String)
        ensures
            r@ == self.text(),
    {
        match self {
            Player::X => String::from_str("X"),
            Player::O => String::from_str("O"),
        }
    }

    /// The side that moves after this one.
    pub fn next(self) -> (r: Player)
        ensures
            r == self.other(),
    {
        match self {
            Player::X => Player::O,
            Player::O => Player::X,
        }
    }
}

} // verus!
