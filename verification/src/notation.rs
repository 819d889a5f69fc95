use vstd::prelude::*;
use crate::board::{MAX_SIZE, lemma_square_bound};
use crate::player::Player;
use crate::text::{to_chars, trim, trimmed};

verus! {

/// The characters a drawing of a board is made of.
pub open spec fn board_char(c: char) -> bool {
    c == '[' || c == ']' || c == ' ' || c == '\n' || c == 'X' || c == 'O'
}

/// The cell that the character at `i` of a drawing stands for, if it
/// stands for one: a blank right after an opening bracket is an empty
/// cell, and the letters X and O are marks.
pub open spec fn board_token(t: Seq<char>, i: int) -> Option<Option<Player>> {
    if t[i] == ' ' && i > 0 && t[i - 1] == '[' {
        Some(None)
    } else if t[i] == 'X' {
        Some(Some(Player::X))
    } else if t[i] == 'O' {
        Some(Some(Player::O))
    } else {
        None
    }
}

/// The cells drawn by the first `end` characters.
pub open spec fn drawn_cells(t: Seq<char>, end: int) -> Seq<Option<Player>>
    decreases end,
{
    if end <= 0 {
        Seq::empty()
    } else {
        match board_token(t, end - 1) {
            Some(cell) => drawn_cells(t, end - 1).push(cell),
            None => drawn_cells(t, end - 1),
        }
    }
}

/// The number of cells in the first row, as far as the first `end`
/// characters show it: the cells drawn before the first line break that
/// follows a cell, and 0 while there is no such line break.
pub open spec fn first_row(t: Seq<char>, end: int) -> nat
    decreases end,
{
    if end <= 0 {
        0
    } else {
        let before = first_row(t, end - 1);
        if before == 0 && drawn_cells(t, end - 1).len() > 0 && t[end - 1] == '\n' {
            drawn_cells(t, end - 1).len()
        } else {
            before
        }
    }
}

/// The cells of a drawing such as "[ ][X]", a line break, "[O][ ]": what
/// it draws, if it is made of the characters of a drawing and draws as
/// many cells as the square of its first row.
pub open spec fn board_drawing(t: Seq<char>) -> Option<Seq<Option<Player>>> {
    let cells = drawn_cells(t, t.len() as int);
    let side = first_row(t, t.len() as int);
    if (forall|i: int| 0 <= i < t.len() ==> board_char(#[trigger] t[i])) && cells.len() == side
        * side {
        Some(cells)
    } else {
        None
    }
}

/// The cell that a character of a cell line stands for.
pub open spec fn cell_mark(c: char) -> Option<Option<Player>> {
    if c == 'X' {
        Some(Some(Player::X))
    } else if c == 'O' {
        Some(Some(Player::O))
    } else if c == '_' {
        Some(None)
    } else {
        None
    }
}

/// `n` is the square of a whole number.
pub open spec fn is_square(n: nat) -> bool {
    exists|r: nat| #[trigger] (r * r) == n
}

/// The cells of a cell line such as "_X_O": one cell for each character,
/// if every character stands for a cell and their number is a square.
pub open spec fn cell_line(t: Seq<char>) -> Option<Seq<Option<Player>>> {
    if (forall|i: int| 0 <= i < t.len() ==> cell_mark(#[trigger] t[i]) is Some) && is_square(
        t.len(),
    ) {
        Some(Seq::new(t.len(), |i: int| cell_mark(t[i])->0))
    } else {
        None
    }
}

/// Reads the drawing of a board, leading and trailing white space aside.
/// Gives nothing for a text that is no drawing of a square board.
pub fn try_from_board_string(board: &str) -> (r: Option<Vec<Option<Player>>>)
    ensures
        r is Some <==> board_drawing(trimmed(board@)) is Some,
        r matches Some(cells) ==> Some(cells@) == board_drawing(trimmed(board@)),
{
    scan_board(&trim(&to_chars(board)))
}

/// Reads the drawing of a board from its characters.
pub(crate) fn scan_board(text: &Vec<char>) -> (r: Option<Vec<Option<Player>>>)
    ensures
        r is Some <==> board_drawing(text@) is Some,
        r matches Some(cells) ==> Some(cells@) == board_drawing(text@),
{
    let ghost t = text@;
    let mut cells: Vec<Option<Player>> = Vec::new();
    let mut prev_c = ' ';
    let mut board_size: usize = 0;
    let mut i: usize = 0;
    while i < text.len()
        invariant
            i <= text@.len(),
            t == text@,
            cells@ == drawn_cells(t, i as int),
            board_size == first_row(t, i as int),
            cells@.len() <= i,
            prev_c == (if i == 0 {
                ' '
            } else {
                t[i - 1]
            }),
            forall|j: int| 0 <= j < i ==> board_char(#[trigger] t[j]),
        decreases text@.len() - i,
    {
        let c = text[i];
        if board_size == 0 && cells.len() > 0 && c == '\n' {
            board_size = cells.len();
        }
        if c == ' ' && prev_c == '[' {
            cells.push(None);
        } else if c == 'X' {
            cells.push(Some(Player::X));
        } else if c == 'O' {
            cells.push(Some(Player::O));
        } else if !(c == '[' || c == ']' || c == ' ' || c == '\n') {
            return None;
        }
        prev_c = c;
        i = i + 1;
    }
    let side: u128 = board_size as u128;
    assert(side * side <= 0xffff_ffff_ffff_ffff * 0xffff_ffff_ffff_ffff) by (nonlinear_arith)
        requires
            0 <= side <= 0xffff_ffff_ffff_ffff,
    ;
    if cells.len() as u128 != side * side {
        return None;
    }
    Some(cells)
}

/// Reads the drawing of a board, leading and trailing white space aside.
pub fn from_board_string_to_state(board: &str) -> (cells: Vec<Option<Player>>)
    requires
        board_drawing(trimmed(board@)) is Some,
    ensures
        Some(cells@) == board_drawing(trimmed(board@)),
{
    try_from_board_string(board).unwrap()
}

/// Reads a cell line, leading and trailing white space aside. Gives
/// nothing for a text that is no cell line of a square board.
pub fn try_from_cell_string(cell_string: &str) -> (r: Option<Vec<Option<Player>>>)
    ensures
        r is Some <==> cell_line(trimmed(cell_string@)) is Some,
        r matches Some(cells) ==> Some(cells@) == cell_line(trimmed(cell_string@)),
{
    scan_cells(&trim(&to_chars(cell_string)))
}

/// Reads a cell line from its characters.
pub(crate) fn scan_cells(text: &Vec<char>) -> (r: Option<Vec<Option<Player>>>)
    ensures
        r is Some <==> cell_line(text@) is Some,
        r matches Some(cells) ==> Some(cells@) == cell_line(text@),
{
    let ghost t = text@;
    let mut cells: Vec<Option<Player>> = Vec::new();
    let mut i: usize = 0;
    while i < text.len()
        invariant
            i <= text@.len(),
            t == text@,
            cells@.len() == i,
            forall|j: int| 0 <= j < i ==> cell_mark(#[trigger] t[j]) == Some(cells@[j]),
        decreases text@.len() - i,
    {
        let c = text[i];
        if c == 'X' {
            cells.push(Some(Player::X));
        } else if c == 'O' {
            cells.push(Some(Player::O));
        } else if c == '_' {
            cells.push(None);
        } else {
            return None;
        }
        i = i + 1;
    }
    if !perfect_square(cells.len()) {
        return None;
    }
    Some(cells)
}

/// Reads a cell line, leading and trailing white space aside.
pub fn from_cell_string_to_state(cell_string: &str) -> (cells: Vec<Option<Player>>)
    requires
        cell_line(trimmed(cell_string@)) is Some,
    ensures
        Some(cells@) == cell_line(trimmed(cell_string@)),
{
    try_from_cell_string(cell_string).unwrap()
}

/// Whether `n` is the square of a whole number.
pub fn perfect_square(n: usize) -> (r: bool)
    ensures
        r == is_square(n as nat),
{
    let target: u128 = n as u128;
    let mut root: u128 = 0;
    while root * root < target
        invariant
            target == n,
            root <= target,
            root * root <= 0xffff_ffff_ffff_ffff * 0xffff_ffff_ffff_ffff,
            forall|q: nat| q < root ==> #[trigger] (q * q) < target,
        decreases target - root,
    {
        assert(root < target) by (nonlinear_arith)
            requires
                root * root < target,
                0 <= root,
        ;
        assert((root + 1) * (root + 1) <= 0xffff_ffff_ffff_ffff * 0xffff_ffff_ffff_ffff)
            by (nonlinear_arith)
            requires
                0 <= root < 0xffff_ffff_ffff_ffff,
        ;
        root = root + 1;
    }
    if root * root == target {
        assert(is_square(n as nat)) by {
            assert((root as nat) * (root as nat) == n as nat);
        }
        true
    } else {
        assert forall|q: nat| #[trigger] (q * q) != n as nat by {
            if q >= root {
                assert(q * q >= root * root) by (nonlinear_arith)
                    requires
                        q >= root,
                        root >= 0,
                ;
            }
        }
        false
    }
}

/// The side of the board that `len` cells fill, if they fill a square
/// board of a size that can be built.
pub fn side_length(len: usize) -> (r: Option<i16>)
    ensures
        match r {
            Some(n) => 0 <= n <= MAX_SIZE && n * n == len,
            None => forall|n: int| 0 <= n <= MAX_SIZE ==> #[trigger] (n * n) != len,
        },
{
    let mut n: i16 = 0;
    while n <= MAX_SIZE
        invariant
            0 <= n <= MAX_SIZE + 1,
            forall|q: int| 0 <= q < n ==> #[trigger] (q * q) != len,
        decreases MAX_SIZE + 1 - n,
    {
        proof {
            lemma_square_bound(n as int);
        }
        if (n * n) as usize == len {
            return Some(n);
        }
        n = n + 1;
    }
    None
}

} // verus!
