use vstd::prelude::*;
use crate::board::{Board, BoardState, GameError, MAX_SIZE, lemma_cell_index, lemma_square_bound};
use crate::listing::{as_ints, indices_where, lemma_indices_where, lemma_indices_where_step};
use crate::player::Player;

verus! {

impl BoardState {
    /// The empty cells, in ascending order.
    pub open spec fn vacant_cells(self) -> Seq<int> {
        indices_where(self.cells.len(), |m: int| self.vacant(m))
    }

    /// How many cells hold a mark.
    pub open spec fn occupied_count(self) -> nat {
        self.cells.filter(|c: Option<Player>| c is Some).len()
    }

    /// The cell `m` is empty, and a mark of `player` on it wins at once.
    pub open spec fn wins_by(self, m: int, player: Player) -> bool {
        self.vacant(m) && self.place(m, player).wins_from(m)
    }

    /// A mark on the empty cell `m` would win at once, for `player` or for
    /// the other side.
    pub open spec fn tactical(self, m: int, player: Player) -> bool {
        self.wins_by(m, player.other()) || self.wins_by(m, player)
    }

    /// One of the up to eight cells around `m` holds a mark.
    pub open spec fn has_neighbour(self, m: int) -> bool {
        exists|dx: int, dy: int|
            -1 <= dx <= 1 && -1 <= dy <= 1 && !(dx == 0 && dy == 0) && (#[trigger] self.at(
                self.col(m) + dx,
                self.row(m) + dy,
            )) is Some
    }

    /// The empty cells on which the opponent of `player` would win at once,
    /// in ascending order.
    pub open spec fn blocking_moves(self, player: Player) -> Seq<int> {
        indices_where(self.cells.len(), |m: int| self.wins_by(m, player.other()))
    }

    /// `m` is the lowest cell on which `player` wins at once.
    pub open spec fn first_win(self, m: int, player: Player) -> bool {
        &&& self.wins_by(m, player)
        &&& forall|j: int| 0 <= j < m ==> !self.wins_by(j, player)
    }

    /// No cell wins at once for `player`.
    pub open spec fn no_win(self, player: Player) -> bool {
        forall|j: int| 0 <= j < self.cells.len() ==> !self.wins_by(j, player)
    }

    /// The same board with no move to take back.
    pub open spec fn settled(self) -> BoardState {
        BoardState { last_move: None, ..self }
    }

    /// The board after the moves `ms`, made in turn by `player` and by the
    /// other side.
    pub open spec fn after_moves(self, player: Player, ms: Seq<int>) -> BoardState
        decreases ms.len(),
    {
        if ms.len() == 0 {
            self
        } else {
            self.after_moves(player, ms.drop_last()).place(ms.last(), mover(player, ms.len() - 1))
        }
    }

    /// The moves `ms`, made in turn by `player` and by the other side, lead
    /// from this board to the board `end`: each of them marks a cell that
    /// is empty when it is made, and none but the last shows a winner.
    pub open spec fn played_out(self, player: Player, ms: Seq<int>, end: BoardState) -> bool {
        &&& end == self.after_moves(player, ms)
        &&& forall|i: int|
            0 <= i < ms.len() ==> self.after_moves(player, #[trigger] ms.take(i)).vacant(ms[i])
        &&& forall|i: int|
            0 < i < ms.len() ==> self.after_moves(player, #[trigger] ms.take(i)).winner() is None
    }

    /// The outcome `winner` belongs to the board: it is the winner that the
    /// last move shows, or nobody on a full board whose last move, if one
    /// was made, shows none.
    pub open spec fn ends_with(self, moves_made: nat, winner: Option<Player>) -> bool {
        match winner {
            Some(w) => moves_made > 0 && self.winner() == Some(w),
            None => self.is_full() && (moves_made > 0 ==> self.winner() is None),
        }
    }
}

/// The side that makes the move number `i`, counted from 0, where `player`
/// makes the first.
pub open spec fn mover(player: Player, i: int) -> Player {
    if i % 2 == 0 {
        player
    } else {
        player.other()
    }
}

/// A board for the search: it can list the moves, and probe a move by
/// making it and taking it back.
pub struct BotBoard {
    board: Board,
    x_list: Vec<i16>,
    y_list: Vec<i16>,
}

impl View for BotBoard {
    type V = BoardState;

    closed spec fn view(&self) -> BoardState {
        self.board@
    }
}

impl BotBoard {
    /// The board inside is well formed, and the coordinate tables hold
    /// column and row of every index.
    pub closed spec fn tables_wf(&self) -> bool {
        &&& self.board.wf()
        &&& self.x_list@.len() == self.board@.size * self.board@.size
        &&& self.y_list@.len() == self.board@.size * self.board@.size
        &&& forall|i: int|
            0 <= i < self.x_list@.len() ==> (#[trigger] self.x_list@[i]) as int
                == self.board@.col(i)
        &&& forall|i: int|
            0 <= i < self.y_list@.len() ==> (#[trigger] self.y_list@[i]) as int
                == self.board@.row(i)
    }

    /// The invariant of a search board.
    pub open spec fn wf(&self) -> bool {
        self@.wf() && self.tables_wf()
    }

    /// A search board on the given position.
    pub fn new(board: Board) -> (b: BotBoard)
        requires
            board.wf(),
        ensures
            b.wf(),
            b@ == board@,
    {
        let n = board.n();
        proof {
            lemma_square_bound(n as int);
        }
        let total: i16 = n * n;
        let mut x_list: Vec<i16> = Vec::new();
        let mut y_list: Vec<i16> = Vec::new();
        let mut i: i16 = 0;
        while i < total
            invariant
                0 <= i <= total,
                total == n * n,
                0 <= n <= MAX_SIZE,
                x_list@.len() == i,
                y_list@.len() == i,
                forall|j: int| 0 <= j < i ==> (#[trigger] x_list@[j]) as int == j % (n as int),
                forall|j: int| 0 <= j < i ==> (#[trigger] y_list@[j]) as int == j / (n as int),
            decreases total - i,
        {
            assert(n > 0) by (nonlinear_arith)
                requires
                    0 <= i < n * n,
                    0 <= n,
            ;
            x_list.push(i % n);
            y_list.push(i / n);
            i = i + 1;
        }
        BotBoard { board, x_list, y_list }
    }

    /// The board with the position at hand.
    pub fn board(&self) -> (r: &Board)
        ensures
            r@ == self@,
            self.wf() ==> r.wf(),
    {
        &self.board
    }

    /// Puts another position of the same size on the board.
    pub fn update_board(&mut self, board: Board)
        requires
            old(self).wf(),
            board.wf(),
            board@.size == old(self)@.size,
        ensures
            final(self).wf(),
            final(self)@ == board@,
    {
        self.board = board;
    }

    /// Marks the cell `m` for `player` and says who has won by it, if
    /// anyone. An occupied cell is refused and the board stays as it was.
    pub fn apply_move(&mut self, m: i16, player: Player) -> (r: Result<Option<Player>, GameError>)
        requires
            old(self).wf(),
            old(self)@.in_range(m as int),
        ensures
            final(self).wf(),
            r is Ok <==> old(self)@.vacant(m as int),
            match r {
                Ok(w) => {
                    &&& final(self)@ == old(self)@.place(m as int, player)
                    &&& w == final(self)@.winner_from(m as int)
                    &&& w is Some ==> w == Some(player)
                },
                Err(e) => e == GameError::InvalidMove && final(self)@ == old(self)@,
            },
    {
        self.board.apply_move(m, player)
    }

    /// The empty cells, in ascending order.
    pub fn legal_moves(&self) -> (moves: Vec<i16>)
        requires
            self.wf(),
        ensures
            as_ints(moves@) == self@.vacant_cells(),
            moves@.len() + self@.occupied_count() == self@.size * self@.size,
    {
        let cells = self.board.cells();
        let ghost b = self@;
        let ghost vacant = |m: int| b.vacant(m);
        let ghost some = |c: Option<Player>| c is Some;
        let mut moves: Vec<i16> = Vec::with_capacity(cells.len());
        let mut m: usize = 0;
        proof {
            lemma_square_bound(b.size);
            lemma_indices_where_step(0, vacant);
            reveal(Seq::filter);
        }
        while m < cells.len()
            invariant
                m <= cells@.len(),
                cells@ == b.cells,
                b.cells.len() <= 32761,
                vacant == (|m: int| b.vacant(m)),
                some == (|c: Option<Player>| c is Some),
                as_ints(moves@) == indices_where(m as nat, vacant),
                moves@.len() + b.cells.take(m as int).filter(some).len() == m,
            decreases cells@.len() - m,
        {
            proof {
                lemma_indices_where_step(m as nat, vacant);
                reveal(Seq::filter);
                assert(b.cells.take(m + 1).drop_last() =~= b.cells.take(m as int));
            }
            if cells[m].is_none() {
                moves.push(m as i16);
            }
            m = m + 1;
        }
        assert(b.cells.take(m as int) =~= b.cells);
        moves
    }
    /// Whether a mark on the empty cell `m` would win at once, for the
    /// opponent of `player` or for `player`. Both marks are made and taken
    /// back: the cells stay as they were, and no move is left to take back.
    pub fn is_tactical_move(&mut self, m: i16, player: Player) -> (r: bool)
        requires
            old(self).wf(),
            old(self)@.vacant(m as int),
        ensures
            final(self).wf(),
            final(self)@ == old(self)@.settled(),
            r == old(self)@.tactical(m as int, player),
    {
        let next_winner = self.probe(m, player.next());
        if next_winner {
            return true;
        }
        self.probe(m, player)
    }

    /// Marks the empty cell `m` for `player`, notes whether that wins, and
    /// takes the mark back.
    fn probe(&mut self, m: i16, player: Player) -> (r: bool)
        requires
            old(self).wf(),
            old(self)@.vacant(m as int),
        ensures
            final(self).wf(),
            final(self)@ == old(self)@.settled(),
            r == old(self)@.wins_by(m as int, player),
    {
        let ghost b = self@;
        let winner = match self.board.apply_move(m, player) {
            Ok(w) => w,
            Err(_) => None,
        };
        let _ = self.board.undo_last_move();
        proof {
            assert(self@.cells =~= b.cells);
        }
        winner.is_some()
    }

    /// Whether one of the up to eight cells around `m` holds a mark.
    pub fn has_neighbour(&mut self, m: i16) -> (r: bool)
        requires
            old(self).wf(),
            old(self)@.in_range(m as int),
        ensures
            *final(self) == *old(self),
            r == old(self)@.has_neighbour(m as int),
    {
        let cells = self.board.cells();
        let n = self.board.n();
        let ghost b = self@;
        proof {
            lemma_square_bound(n as int);
            b.lemma_anchor(m as int);
        }
        let x = self.x_list[m as usize];
        let y = self.y_list[m as usize];
        let mut dy: i16 = -1;
        while dy <= 1
            invariant
                -1 <= dy <= 2,
                *self == *old(self),
                b == old(self)@,
                b.wf(),
                b.size == n,
                cells@ == b.cells,
                x == b.col(m as int),
                y == b.row(m as int),
                0 <= x < n,
                0 <= y < n,
                forall|ex: int, ey: int|
                    -1 <= ex <= 1 && -1 <= ey < dy && !(ex == 0 && ey == 0) ==> (#[trigger] b.at(
                        x + ex,
                        y + ey,
                    )) is None,
            decreases 2 - dy,
        {
            let ny = y + dy;
            if !(ny < 0 || ny >= n) {
                let mut dx: i16 = -1;
                while dx <= 1
                    invariant
                        -1 <= dx <= 2,
                        -1 <= dy <= 1,
                        *self == *old(self),
                        b == old(self)@,
                        b.wf(),
                        b.size == n,
                        cells@ == b.cells,
                        x == b.col(m as int),
                        y == b.row(m as int),
                        0 <= x < n,
                        0 <= y < n,
                        ny == y + dy,
                        0 <= ny < n,
                        forall|ex: int|
                            -1 <= ex < dx && !(ex == 0 && dy == 0) ==> (#[trigger] b.at(
                                x + ex,
                                y + dy,
                            )) is None,
                    decreases 2 - dx,
                {
                    let nx = x + dx;
                    if !((nx < 0 || nx >= n) || dx == 0 && dy == 0) {
                        proof {
                            lemma_cell_index(nx as int, ny as int, n as int);
                        }
                        if cells[(ny * n + nx) as usize].is_some() {
                            assert(b.at(b.col(m as int) + dx, b.row(m as int) + dy) is Some);
                            return true;
                        }
                    }
                    dx = dx + 1;
                }
            }
            dy = dy + 1;
        }
        false
    }

    /// Looks for the moves that end the game at once. The first empty cell
    /// on which `player` wins is returned alone. Where there is none, the
    /// empty cells on which the opponent would win are returned, in
    /// ascending order. The cells stay as they were; if any cell was empty,
    /// no move is left to take back.
    pub fn terminating_moves(&mut self, player: Player) -> (r: (Option<i16>, Vec<i16>))
        requires
            old(self).wf(),
        ensures
            final(self).wf(),
            final(self)@ == (if old(self)@.is_full() {
                old(self)@
            } else {
                old(self)@.settled()
            }),
            match r.0 {
                Some(m) => old(self)@.first_win(m as int, player) && r.1@.len() == 0,
                None => old(self)@.no_win(player) && as_ints(r.1@) == old(self)@.blocking_moves(
                    player,
                ),
            },
    {
        let ghost b = self@;
        let ghost blocks = |j: int| b.wins_by(j, player.other());
        let mut blocking_moves: Vec<i16> = Vec::new();
        let len = self.board.cells().len();
        let mut i: usize = 0;
        proof {
            lemma_square_bound(b.size);
            lemma_indices_where_step(0, blocks);
        }
        while i < len
            invariant
                i <= len,
                len == b.cells.len(),
                len <= 32761,
                b == old(self)@,
                b.wf(),
                self.wf(),
                self@.cells == b.cells,
                self@.size == b.size,
                self@.win_length == b.win_length,
                self@.last_move == (if forall|j: int| 0 <= j < i ==> (#[trigger] b.cells[j]) is Some {
                    b.last_move
                } else {
                    None
                }),
                blocks == (|j: int| b.wins_by(j, player.other())),
                forall|j: int| 0 <= j < i ==> !b.wins_by(j, player),
                as_ints(blocking_moves@) == indices_where(i as nat, blocks),
            decreases len - i,
        {
            proof {
                lemma_indices_where_step(i as nat, blocks);
            }
            if self.board.cells()[i].is_none() {
                let m = i as i16;
                if self.probe(m, player) {
                    return (Some(m), Vec::new());
                }
                if self.probe(m, player.next()) {
                    blocking_moves.push(m);
                    assert(as_ints(blocking_moves@) =~= indices_where(i as nat, blocks).push(
                        i as int,
                    ));
                }
            }
            i = i + 1;
        }
        (None, blocking_moves)
    }
}

/// The empty cells among the first `len`, and the marks among them, are
/// `len` together.
proof fn lemma_vacant_and_marked(b: BoardState, len: nat)
    requires
        len <= b.cells.len(),
    ensures
        indices_where(len, |m: int| b.vacant(m)).len() + b.cells.take(len as int).filter(
            |c: Option<Player>| c is Some,
        ).len() == len,
    decreases len,
{
    let vacant = |m: int| b.vacant(m);
    reveal(Seq::filter);
    if len == 0 {
        lemma_indices_where_step(0, vacant);
    } else {
        let prev = (len - 1) as nat;
        lemma_vacant_and_marked(b, prev);
        lemma_indices_where_step(prev, vacant);
        assert(b.cells.take(len as int).drop_last() =~= b.cells.take(prev as int));
    }
}

/// The number of legal moves and the number of marks add up to the number
/// of cells.
pub proof fn law_moves_and_marks_fill_the_board(b: BoardState)
    requires
        b.wf(),
    ensures
        b.vacant_cells().len() + b.occupied_count() == b.size * b.size,
{
    lemma_vacant_and_marked(b, b.cells.len());
    assert(b.cells.take(b.cells.len() as int) =~= b.cells);
}

/// The legal moves are exactly the empty cells, each once, in ascending
/// order.
pub proof fn law_legal_moves_are_the_empty_cells(b: BoardState)
    ensures
        forall|m: int| b.vacant_cells().contains(m) <==> b.vacant(m),
        forall|i: int, j: int|
            0 <= i < j < b.vacant_cells().len() ==> b.vacant_cells()[i] < b.vacant_cells()[j],
{
    lemma_indices_where(b.cells.len(), |m: int| b.vacant(m));
}

/// A winning move is found if and only if some empty cell wins at once for
/// the player, and it is then the lowest such cell.
pub proof fn law_winning_move(b: BoardState, player: Player)
    ensures
        (exists|m: int| b.first_win(m, player)) <==> (exists|m: int| b.wins_by(m, player)),
        b.no_win(player) <==> !(exists|m: int| b.wins_by(m, player)),
        forall|m: int, w: int| b.first_win(m, player) && b.wins_by(w, player) ==> m <= w,
{
    if exists|m: int| b.wins_by(m, player) {
        let m = choose|m: int| b.wins_by(m, player);
        lemma_least_win(b, player, m);
    }
}

/// Below a cell that wins lies a lowest cell that wins.
proof fn lemma_least_win(b: BoardState, player: Player, m: int)
    requires
        b.wins_by(m, player),
    ensures
        exists|w: int| b.first_win(w, player),
    decreases m,
{
    if forall|j: int| 0 <= j < m ==> !b.wins_by(j, player) {
        assert(b.first_win(m, player));
    } else {
        let j = choose|j: int| 0 <= j < m && b.wins_by(j, player);
        lemma_least_win(b, player, j);
    }
}

/// The blocking moves are exactly the empty cells on which the opponent
/// would win at once, each once, in ascending order.
pub proof fn law_blocking_moves(b: BoardState, player: Player)
    ensures
        forall|m: int|
            b.blocking_moves(player).contains(m) <==> b.wins_by(m, player.other()),
        forall|i: int, j: int|
            0 <= i < j < b.blocking_moves(player).len() ==> b.blocking_moves(player)[i]
                < b.blocking_moves(player)[j],
{
    lemma_indices_where(b.cells.len(), |m: int| b.wins_by(m, player.other()));
}

/// A move is tactical for one side exactly if it is tactical for the other:
/// it is a move on which either side would win at once.
pub proof fn law_tactical_for_both_sides(b: BoardState, m: int, player: Player)
    ensures
        b.tactical(m, player) == b.tactical(m, player.other()),
        b.tactical(m, player) <==> b.wins_by(m, Player::X) || b.wins_by(m, Player::O),
{
}

/// Whether a cell has a neighbour does not depend on the move that can be
/// taken back.
pub proof fn lemma_settled_neighbour(b: BoardState, m: int)
    ensures
        b.settled().has_neighbour(m) == b.has_neighbour(m),
{
    let s = b.settled();
    if b.has_neighbour(m) {
        let (dx, dy) = choose|dx: int, dy: int|
            -1 <= dx <= 1 && -1 <= dy <= 1 && !(dx == 0 && dy == 0) && (#[trigger] b.at(
                b.col(m) + dx,
                b.row(m) + dy,
            )) is Some;
        assert(s.at(s.col(m) + dx, s.row(m) + dy) is Some);
    }
    if s.has_neighbour(m) {
        let (dx, dy) = choose|dx: int, dy: int|
            -1 <= dx <= 1 && -1 <= dy <= 1 && !(dx == 0 && dy == 0) && (#[trigger] s.at(
                s.col(m) + dx,
                s.row(m) + dy,
            )) is Some;
        assert(b.at(b.col(m) + dx, b.row(m) + dy) is Some);
    }
}

/// One more move on an empty cell, after moves of which the last showed no
/// winner, is played out as well.
pub proof fn lemma_played_push(b: BoardState, player: Player, ms: Seq<int>, mid: BoardState, m: int)
    requires
        b.played_out(player, ms, mid),
        ms.len() > 0 ==> mid.winner() is None,
        mid.vacant(m),
    ensures
        b.played_out(player, ms.push(m), mid.place(m, mover(player, ms.len() as int))),
{
    let more = ms.push(m);
    assert(more.drop_last() =~= ms);
    assert forall|i: int| 0 <= i < more.len() implies b.after_moves(
        player,
        #[trigger] more.take(i),
    ).vacant(more[i]) by {
        if i < ms.len() {
            assert(more.take(i) =~= ms.take(i));
        } else {
            assert(more.take(i) =~= ms);
        }
    }
    assert forall|i: int| 0 < i < more.len() implies b.after_moves(
        player,
        #[trigger] more.take(i),
    ).winner() is None by {
        if i < ms.len() {
            assert(more.take(i) =~= ms.take(i));
        } else {
            assert(more.take(i) =~= ms);
        }
    }
}

/// Moves played out from a board that earlier moves led to are played out
/// from the board at the start, if the board between shows no winner.
pub proof fn lemma_played_on(
    b: BoardState,
    player: Player,
    first: Seq<int>,
    mid: BoardState,
    then: Seq<int>,
    end: BoardState,
)
    requires
        b.played_out(player, first, mid),
        mid.played_out(mover(player, first.len() as int), then, end),
        first.len() > 0 && then.len() > 0 ==> mid.winner() is None,
    ensures
        b.played_out(player, first + then, end),
    decreases then.len(),
{
    let next = mover(player, first.len() as int);
    if then.len() == 0 {
        assert(first + then =~= first);
    } else {
        let pre = then.drop_last();
        let m = then.last();
        let before = mid.after_moves(next, pre);
        assert(then.take(pre.len() as int) =~= pre);
        assert forall|i: int| 0 <= i < pre.len() implies mid.after_moves(
            next,
            #[trigger] pre.take(i),
        ).vacant(pre[i]) by {
            assert(pre.take(i) =~= then.take(i));
        }
        assert forall|i: int| 0 < i < pre.len() implies mid.after_moves(
            next,
            #[trigger] pre.take(i),
        ).winner() is None by {
            assert(pre.take(i) =~= then.take(i));
        }
        lemma_played_on(b, player, first, mid, pre, before);
        assert(player.other().other() == player);
        assert(mover(next, pre.len() as int) == mover(player, (first + pre).len() as int));
        lemma_played_push(b, player, first + pre, before, m);
        assert((first + pre).push(m) =~= first + then);
    }
}

} // verus!
