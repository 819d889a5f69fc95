use vstd::prelude::*;
use crate::board::{Board, BoardState, GameError};
use crate::player::Player;

verus! {

/// How a game stands after a move.
#[derive(Debug, Clone, Copy, PartialEq, Eq, Structural)]
pub enum Progress {
    /// The move has won the game for its mover.
    Won(Player),
    /// No cell is left and nobody has won.
    Tie,
    /// The game goes on with the move of the given side.
    Next(Player),
}

/// How the game stands on the board `b` after a move of `mover`: won if the
/// last move shows a winner, tied if it shows none and the board is full,
/// and open for the other side otherwise.
pub open spec fn progress_of(b: BoardState, mover: Player) -> Progress {
    match b.winner() {
        Some(w) => Progress::Won(w),
        None => if b.is_full() {
            Progress::Tie
        } else {
            Progress::Next(mover.other())
        },
    }
}

/// Makes the move `m` of `player` on the board and says how the game goes
/// on. An occupied cell is refused and the board stays as it was.
pub fn advance(board: &mut Board, m: i16, player: Player) -> (r: Result<Progress, GameError>)
    requires
        old(board).wf(),
        old(board)@.in_range(m as int),
    ensures
        final(board).wf(),
        r is Ok <==> old(board)@.vacant(m as int),
        match r {
            Ok(progress) => {
                &&& final(board)@ == old(board)@.place(m as int, player)
                &&& progress == progress_of(final(board)@, player)
            },
            Err(e) => e == GameError::InvalidMove && *final(board) == *old(board),
        },
{
    let winner = match board.apply_move(m, player) {
        Ok(winner) => winner,
        Err(e) => {
            return Err(e);
        },
    };
    match winner {
        Some(w) => Ok(Progress::Won(w)),
        None => {
            if board.is_tie() {
                Ok(Progress::Tie)
            } else {
                Ok(Progress::Next(player.next()))
            }
        },
    }
}

} // verus!
