use vstd::prelude::*;
use vstd::string::StringExecFns;
use crate::player::Player;

verus! {

/// Largest side length a board can have: the square of the side has to fit
/// in the `i16` that indexes the cells.
pub const MAX_SIZE: i16 = 181;

/// Why a move on the board was refused.
#[derive(Debug, Clone, Copy, PartialEq, Eq, Structural)]
pub enum GameError {
    InvalidMove,
}

impl GameError {
    /// The name of the error.
    pub fn to_string(&self) -> (r: String)
        ensures
            r@ == "InvalidMove"@,
    {
        String::from_str("InvalidMove")
    }
}

/// The mathematical content of a board: side length, marks needed in a row,
/// the cells in row-major order and the move that can still be taken back.
pub struct BoardState {
    pub size: int,
    pub win_length: int,
    pub cells: Seq<Option<Player>>,
    pub last_move: Option<int>,
}

impl BoardState {
    /// The state is a square grid of a representable size, and the recorded
    /// last move, if any, points at a marked cell.
    pub open spec fn wf(self) -> bool {
        &&& 0 <= self.size <= MAX_SIZE
        &&& self.cells.len() == self.size * self.size
        &&& self.last_move matches Some(m) ==> self.marked(m)
    }

    /// The empty board of side `n`.
    pub open spec fn empty(n: int, k: int) -> BoardState {
        BoardState {
            size: n,
            win_length: k,
            cells: Seq::new((n * n) as nat, |i: int| None::<Player>),
            last_move: None,
        }
    }

    /// `m` is the index of a cell.
    pub open spec fn in_range(self, m: int) -> bool {
        0 <= m < self.cells.len()
    }

    /// `m` is an empty cell.
    pub open spec fn vacant(self, m: int) -> bool {
        self.in_range(m) && self.cells[m] is None
    }

    /// `m` is a cell that holds a mark.
    pub open spec fn marked(self, m: int) -> bool {
        self.in_range(m) && self.cells[m] is Some
    }

    /// No cell is empty.
    pub open spec fn is_full(self) -> bool {
        forall|i: int| 0 <= i < self.cells.len() ==> (#[trigger] self.cells[i]) is Some
    }

    /// Column of cell `m`.
    pub open spec fn col(self, m: int) -> int {
        m % self.size
    }

    /// Row of cell `m`.
    pub open spec fn row(self, m: int) -> int {
        m / self.size
    }

    /// What stands at column `x`, row `y`; nothing outside the grid.
    pub open spec fn at(self, x: int, y: int) -> Option<Player> {
        if 0 <= x < self.size && 0 <= y < self.size {
            self.cells[y * self.size + x]
        } else {
            None
        }
    }

    /// Column of the point `j` steps from cell `m` along axis `d`: axis 0
    /// runs along the row, 1 along the column, 2 and 3 along the two
    /// diagonals.
    pub open spec fn along_x(self, m: int, d: int, j: int) -> int {
        if d == 1 {
            self.col(m)
        } else {
            self.col(m) + j
        }
    }

    /// Row of the point `j` steps from cell `m` along axis `d`.
    pub open spec fn along_y(self, m: int, d: int, j: int) -> int {
        if d == 0 {
            self.row(m)
        } else if d == 3 {
            self.row(m) - j
        } else {
            self.row(m) + j
        }
    }

    /// What stands `j` steps from cell `m` along axis `d`. Nothing stands
    /// beyond the edge.
    pub open spec fn along(self, m: int, d: int, j: int) -> Option<Player> {
        self.at(self.along_x(m, d, j), self.along_y(m, d, j))
    }

    /// The cells from step `lo` to step `hi` along axis `d`, a stretch that
    /// contains `m` itself, all hold what `m` holds.
    pub open spec fn run(self, m: int, d: int, lo: int, hi: int) -> bool {
        &&& lo <= 0 <= hi
        &&& forall|j: int| lo <= j <= hi ==> #[trigger] self.along(m, d, j) == self.cells[m]
    }

    /// A run through `m` along axis `d` is long enough to win: it has at
    /// least `win_length` cells.
    pub open spec fn wins_along(self, m: int, d: int) -> bool {
        exists|lo: int, hi: int| #[trigger] self.run(m, d, lo, hi) && hi - lo + 1 >= self.win_length
    }

    /// The mark on `m` is part of a winning run.
    pub open spec fn wins_from(self, m: int) -> bool {
        &&& self.marked(m)
        &&& (self.wins_along(m, 0) || self.wins_along(m, 1) || self.wins_along(m, 2)
            || self.wins_along(m, 3))
    }

    /// The winner that the cell `m` shows, if it shows one.
    pub open spec fn winner_from(self, m: int) -> Option<Player> {
        if self.wins_from(m) {
            self.cells[m]
        } else {
            None
        }
    }

    /// The winner that the last move shows, if there is one.
    pub open spec fn winner(self) -> Option<Player> {
        match self.last_move {
            Some(m) => self.winner_from(m),
            None => None,
        }
    }

    /// A cell is what stands at its own column and row.
    pub proof fn lemma_anchor(self, m: int)
        requires
            self.wf(),
            self.in_range(m),
        ensures
            0 <= self.col(m) < self.size,
            0 <= self.row(m) < self.size,
            self.row(m) * self.size + self.col(m) == m,
            self.at(self.col(m), self.row(m)) == self.cells[m],
            forall|d: int| 0 <= d < 4 ==> #[trigger] self.along(m, d, 0) == self.cells[m],
    {
        let n = self.size;
        assert(n > 0) by (nonlinear_arith)
            requires
                0 <= m < n * n,
                0 <= n,
        ;
        vstd::arithmetic::div_mod::lemma_fundamental_div_mod(m, n);
        vstd::arithmetic::div_mod::lemma_mod_bound(m, n);
        assert(0 <= m / n < n) by (nonlinear_arith)
            requires
                0 <= m < n * n,
                0 < n,
                m == n * (m / n) + m % n,
                0 <= m % n < n,
        ;
    }

    /// What a cell looks like in a drawing: its mark, or a blank.
    pub open spec fn cell_text(cell: Option<Player>) -> Seq<char> {
        match cell {
            Some(p) => p.text(),
            None => " "@,
        }
    }

    /// The drawing of the first `end` cells: each cell between brackets,
    /// and a line break behind each full row.
    pub open spec fn drawn_upto(self, end: int) -> Seq<char>
        decreases end,
    {
        if end <= 0 {
            Seq::empty()
        } else {
            let drawn = self.drawn_upto(end - 1) + "["@ + Self::cell_text(self.cells[end - 1])
                + "]"@;
            if end % self.size == 0 {
                drawn + "\n"@
            } else {
                drawn
            }
        }
    }

    /// The drawing of the board: its rows, each on a line, and an empty
    /// line behind them.
    pub open spec fn drawing(self) -> Seq<char> {
        self.drawn_upto(self.cells.len() as int) + "\n"@
    }

    /// The board after `player` marks the cell `m`.
    pub open spec fn place(self, m: int, player: Player) -> BoardState {
        BoardState { cells: self.cells.update(m, Some(player)), last_move: Some(m), ..self }
    }

    /// The board after the recorded last move is taken back.
    pub open spec fn undo(self) -> BoardState {
        match self.last_move {
            Some(m) => BoardState { cells: self.cells.update(m, None), last_move: None, ..self },
            None => self,
        }
    }
}

/// An n by n grid of cells for a k-in-a-row game.
pub struct Board {
    n: i16,
    k: i8,
    cells: Vec<Option<Player>>,
    last_move: Option<i16>,
    x_list: Vec<i16>,
    y_list: Vec<i16>,
}

impl View for Board {
    type V = BoardState;

    closed spec fn view(&self) -> BoardState {
        BoardState {
            size: self.n as int,
            win_length: self.k as int,
            cells: self.cells@,
            last_move: match self.last_move {
                Some(m) => Some(m as int),
                None => None,
            },
        }
    }
}

impl Clone for Board {
    /// A copy with the same content; a well-formed board gives a
    /// well-formed copy.
    fn clone(&self) -> (r: Self)
        ensures
            r@ == self@,
            self.wf() ==> r.wf(),
    {
        let r = Board {
            n: self.n,
            k: self.k,
            cells: self.cells.clone(),
            last_move: self.last_move,
            x_list: self.x_list.clone(),
            y_list: self.y_list.clone(),
        };
        r
    }
}

impl Board {
    /// The coordinate tables hold column and row of every index.
    pub closed spec fn tables_wf(&self) -> bool {
        &&& self.x_list@.len() == self.cells@.len()
        &&& self.y_list@.len() == self.cells@.len()
        &&& forall|i: int|
            0 <= i < self.cells@.len() ==> (#[trigger] self.x_list@[i]) as int == i % (self.n as int)
        &&& forall|i: int|
            0 <= i < self.cells@.len() ==> (#[trigger] self.y_list@[i]) as int == i / (self.n as int)
    }

    /// The invariant of a board.
    pub open spec fn wf(&self) -> bool {
        self@.wf() && self.tables_wf()
    }

    /// An empty board of side `n` on which `k` in a row win.
    pub fn new(n: i16, k: i8) -> (b: Board)
        requires
            0 <= n <= MAX_SIZE,
        ensures
            b.wf(),
            b@ == BoardState::empty(n as int, k as int),
    {
        proof {
            lemma_square_bound(n as int);
        }
        let len: usize = (n * n) as usize;
        let mut cells: Vec<Option<Player>> = Vec::with_capacity(len);
        let mut i: usize = 0;
        while i < len
            invariant
                i <= len,
                cells@.len() == i,
                forall|j: int| 0 <= j < i ==> (#[trigger] cells@[j]) is None,
            decreases len - i,
        {
            cells.push(None);
            i = i + 1;
        }
        let b = Board::new_from_state(n, k, cells);
        assert(b@.cells =~= BoardState::empty(n as int, k as int).cells);
        b
    }

    /// A board of side `n` with the given cells, in row-major order, and no
    /// move to take back.
    pub fn new_from_state(n: i16, k: i8, cells: Vec<Option<Player>>) -> (b: Board)
        requires
            0 <= n <= MAX_SIZE,
            cells@.len() == n * n,
        ensures
            b.wf(),
            b@ == (BoardState {
                size: n as int,
                win_length: k as int,
                cells: cells@,
                last_move: None,
            }),
    {
        proof {
            lemma_square_bound(n as int);
        }
        let total: i16 = n * n;
        let mut x_list: Vec<i16> = Vec::with_capacity(cells.len());
        let mut y_list: Vec<i16> = Vec::with_capacity(cells.len());
        let mut i: i16 = 0;
        while i < total
            invariant
                0 <= i <= total,
                total == n * n,
                0 <= n <= MAX_SIZE,
                x_list@.len() == i,
                y_list@.len() == i,
                forall|j: int| 0 <= j < i ==> (#[trigger] x_list@[j]) as int == j % (n as int),
                forall|j: int| 0 <= j < i ==> (#[trigger] y_list@[j]) as int == j / (n as int),
            decreases total - i,
        {
            assert(n > 0) by (nonlinear_arith)
                requires
                    0 <= i < n * n,
                    0 <= n,
            ;
            x_list.push(i % n);
            y_list.push(i / n);
            i = i + 1;
        }
        Board { n, k, cells, last_move: None, x_list, y_list }
    }

    /// The cells in row-major order.
    pub fn cells(&self) -> (c: &[Option<Player>])
        ensures
            c@ == self@.cells,
    {
        self.cells.as_slice()
    }

    /// The side length.
    pub fn n(&self) -> (n: i16)
        ensures
            n == self@.size,
    {
        self.n
    }

    /// Whether no empty cell is left.
    pub fn is_tie(&self) -> (r: bool)
        ensures
            r == self@.is_full(),
    {
        let mut i: usize = 0;
        while i < self.cells.len()
            invariant
                i <= self.cells@.len(),
                forall|j: int| 0 <= j < i ==> (#[trigger] self.cells@[j]) is Some,
            decreases self.cells@.len() - i,
        {
            if self.cells[i].is_none() {
                return false;
            }
            i = i + 1;
        }
        true
    }

    /// The drawing of the board as text, for a terminal or a file.
    pub fn render(&self) -> (r: String)
        requires
            self.wf(),
        ensures
            r@ == self@.drawing(),
    {
        let mut out = String::new();
        let mut i: usize = 0;
        while i < self.cells.len()
            invariant
                self.wf(),
                i <= self.cells@.len(),
                out@ == self@.drawn_upto(i as int),
            decreases self.cells@.len() - i,
        {
            proof {
                self@.lemma_anchor(i as int);
            }
            out.append("[");
            match self.cells[i] {
                Some(p) => {
                    let mark = p.to_string();
                    out.append(mark.as_str());
                },
                None => {
                    out.append(" ");
                },
            }
            out.append("]");
            if (i + 1) % (self.n as usize) == 0 {
                out.append("\n");
            }
            i = i + 1;
        }
        out.append("\n");
        out
    }

    /// Marks the cell `m` for `player` and says who has won by it, if
    /// anyone. An occupied cell is refused and the board stays as it was.
    pub fn apply_move(&mut self, m: i16, player: Player) -> (r: Result<Option<Player>, GameError>)
        requires
            old(self).wf(),
            old(self)@.in_range(m as int),
        ensures
            final(self).wf(),
            r is Ok <==> old(self)@.vacant(m as int),
            match r {
                Ok(w) => {
                    &&& final(self)@ == old(self)@.place(m as int, player)
                    &&& w == final(self)@.winner_from(m as int)
                    &&& w is Some ==> w == Some(player)
                },
                Err(e) => e == GameError::InvalidMove && *final(self) == *old(self),
            },
    {
        match self.make_move(m, player) {
            Ok(()) => {},
            Err(e) => {
                return Err(e);
            },
        }
        let winner = self.check_winner();
        Ok(winner)
    }

    /// Takes the last move back. Fails when no move is recorded.
    pub fn undo_last_move(&mut self) -> (r: Result<(), GameError>)
        requires
            old(self).wf(),
        ensures
            final(self).wf(),
            r is Ok <==> old(self)@.last_move is Some,
            r is Err ==> r == Err::<(), GameError>(GameError::InvalidMove) && *final(self) == *old(
                self,
            ),
            final(self)@ == old(self)@.undo(),
    {
        let last_move = match self.last_move {
            Some(m) => m,
            None => {
                return Err(GameError::InvalidMove);
            },
        };
        self.cells.set(last_move as usize, None);
        self.last_move = None;
        Ok(())
    }

    /// Marks the cell without looking for a winner.
    fn make_move(&mut self, m: i16, player: Player) -> (r: Result<(), GameError>)
        requires
            old(self).wf(),
            old(self)@.in_range(m as int),
        ensures
            final(self).wf(),
            r is Ok <==> old(self)@.vacant(m as int),
            r is Ok ==> final(self)@ == old(self)@.place(m as int, player),
            r is Err ==> r == Err::<(), GameError>(GameError::InvalidMove) && *final(self) == *old(
                self,
            ),
    {
        if self.cells[m as usize].is_some() {
            return Err(GameError::InvalidMove);
        }
        self.cells.set(m as usize, Some(player));
        self.last_move = Some(m);
        Ok(())
    }

    /// The winner that the last move shows, if there is one.
    pub fn check_winner(&self) -> (w: Option<Player>)
        requires
            self.wf(),
        ensures
            w == self@.winner(),
    {
        let last_move = match self.last_move {
            Some(m) => m,
            None => {
                return None;
            },
        };
        self.check_winner_from(last_move)
    }

    /// The owner of cell `m` if that mark is part of a run of at least `k`
    /// equal marks along a row, a column or a diagonal; nobody otherwise.
    /// The mark itself counts, so with `k` of one or less every mark wins.
    pub fn check_winner_from(&self, m: i16) -> (w: Option<Player>)
        requires
            self.wf(),
            self@.in_range(m as int),
        ensures
            w == self@.winner_from(m as int),
            w is Some ==> w == self@.cells[m as int],
    {
        let p = self.cells[m as usize];
        if p.is_none() {
            return None;
        }
        proof {
            self@.lemma_anchor(m as int);
        }
        if self.k <= 1 {
            assert(self@.run(m as int, 0, 0, 0));
            return p;
        }
        let mut d: usize = 0;
        while d < 4
            invariant
                d <= 4,
                self.wf(),
                self@.win_length >= 2,
                self@.marked(m as int),
                p == self@.cells[m as int],
                self@.along(m as int, 0, 0) == self@.cells[m as int],
                self@.along(m as int, 1, 0) == self@.cells[m as int],
                self@.along(m as int, 2, 0) == self@.cells[m as int],
                self@.along(m as int, 3, 0) == self@.cells[m as int],
                forall|e: int| 0 <= e < d ==> !self@.wins_along(m as int, e),
            decreases 4 - d,
        {
            let (dx, dy) = axis_step(d);
            let (back, won) = self.ray(m, -dx, -dy, 1, Ghost(d as int), Ghost(-1));
            if won {
                assert forall|j: int| -(back - 1) <= j <= 0 implies #[trigger] self@.along(
                    m as int,
                    d as int,
                    j,
                ) == self@.cells[m as int] by {
                    if j < 0 {
                        assert(j == toward(-1, -j));
                    }
                }
                assert(self@.run(m as int, d as int, -(back - 1), 0));
                return p;
            }
            let (count, won) = self.ray(m, dx, dy, back, Ghost(d as int), Ghost(1));
            if won {
                assert forall|j: int| -(back - 1) <= j <= count - back implies #[trigger] self@.along(
                    m as int,
                    d as int,
                    j,
                ) == self@.cells[m as int] by {
                    if j < 0 {
                        assert(j == toward(-1, -j));
                    } else if j > 0 {
                        assert(j == toward(1, j));
                    }
                }
                assert(self@.run(m as int, d as int, -(back - 1), count - back));
                return p;
            }
            proof {
                let b = self@;
                let a = back - 1;
                let f = count - back;
                assert(toward(-1, a + 1) == -(a + 1) && toward(1, f + 1) == f + 1);
                assert forall|lo: int, hi: int| #[trigger]
                    b.run(m as int, d as int, lo, hi) implies hi - lo + 1 < b.win_length by {
                    if lo <= -(a + 1) {
                        assert(b.along(m as int, d as int, -(a + 1)) == b.cells[m as int]);
                    }
                    if hi >= f + 1 {
                        assert(b.along(m as int, d as int, f + 1) == b.cells[m as int]);
                    }
                }
            }
            d = d + 1;
        }
        None
    }

    /// Walks from cell `m` along axis `d`, forward for `sign` 1 and backward
    /// for -1, over the cells that hold what `m` holds, counting on from
    /// `start`. Stops with `true` as soon as the count reaches `k`, and with
    /// `false` at the first cell that differs or lies beyond the edge.
    fn ray(&self, m: i16, dx: i16, dy: i16, start: i8, Ghost(d): Ghost<int>, Ghost(sign): Ghost<
        int,
    >) -> (r: (i8, bool))
        requires
            self.wf(),
            self@.marked(m as int),
            0 <= d < 4,
            sign == 1 || sign == -1,
            dx == self@.along_x(m as int, d, toward(sign, 1)) - self@.col(m as int),
            dy == self@.along_y(m as int, d, toward(sign, 1)) - self@.row(m as int),
            start == 1 || 1 <= start < self@.win_length,
        ensures
            r.0 >= start,
            forall|j: int|
                1 <= j <= r.0 - start ==> #[trigger] self@.along(m as int, d, toward(sign, j))
                    == self@.cells[m as int],
            r.1 ==> r.0 > start && r.0 >= self@.win_length,
            !r.1 ==> self@.along(m as int, d, toward(sign, r.0 - start + 1)) != self@.cells[m as int],
            !r.1 ==> r.0 == start || r.0 < self@.win_length,
    {
        proof {
            self@.lemma_anchor(m as int);
        }
        let p = self.cells[m as usize];
        let x = self.x_list[m as usize];
        let y = self.y_list[m as usize];
        let mut count = start;
        let mut nx = x + dx;
        let mut ny = y + dy;
        let ghost steps: int = 1;
        while nx >= 0 && ny >= 0 && nx < self.n && ny < self.n
            invariant
                self.wf(),
                self@.marked(m as int),
                p == self@.cells[m as int],
                0 <= d < 4,
                sign == 1 || sign == -1,
                dx == self@.along_x(m as int, d, toward(sign, 1)) - self@.col(m as int),
                dy == self@.along_y(m as int, d, toward(sign, 1)) - self@.row(m as int),
                steps >= 1,
                count == start + steps - 1,
                count == start || count < self@.win_length,
                start == 1 || 1 <= start < self@.win_length,
                nx == self@.along_x(m as int, d, toward(sign, steps)),
                ny == self@.along_y(m as int, d, toward(sign, steps)),
                -1 <= nx <= self.n,
                -1 <= ny <= self.n,
                forall|j: int|
                    1 <= j < steps ==> #[trigger] self@.along(m as int, d, toward(sign, j))
                        == self@.cells[m as int],
            decreases
                    if dx > 0 {
                        self.n - nx
                    } else if dx < 0 {
                        nx + 1
                    } else if dy > 0 {
                        self.n - ny
                    } else {
                        ny + 1
                    },
        {
            proof {
                lemma_cell_index(nx as int, ny as int, self.n as int);
            }
            let n_idx = ny * self.n + nx;
            if self.cells[n_idx as usize] != p {
                return (count, false);
            }
            count = count + 1;
            if count >= self.k {
                proof {
                    steps = steps + 1;
                }
                return (count, true);
            }
            nx = nx + dx;
            ny = ny + dy;
            proof {
                steps = steps + 1;
            }
        }
        (count, false)
    }
}

/// The square of a side up to `MAX_SIZE` fits in an `i16`.
pub proof fn lemma_square_bound(n: int)
    requires
        0 <= n <= MAX_SIZE,
    ensures
        0 <= n * n <= 32761,
{
    assert(0 <= n * n <= 32761) by (nonlinear_arith)
        requires
            0 <= n <= 181,
    ;
}

/// The step count `j` taken forward for `sign` 1 and backward otherwise.
pub open spec fn toward(sign: int, j: int) -> int {
    if sign == 1 {
        j
    } else {
        -j
    }
}

/// Step that leads along axis `d` from one cell to the next.
fn axis_step(d: usize) -> (r: (i16, i16))
    requires
        d < 4,
    ensures
        r.0 == (if d == 1 { 0int } else { 1int }),
        r.1 == (if d == 0 { 0int } else if d == 3 { -1int } else { 1int }),
{
    if d == 0 {
        (1, 0)
    } else if d == 1 {
        (0, 1)
    } else if d == 2 {
        (1, 1)
    } else {
        (1, -1)
    }
}

/// Row-major index of a point of the grid.
pub proof fn lemma_cell_index(x: int, y: int, n: int)
    requires
        0 <= x < n,
        0 <= y < n,
        n <= MAX_SIZE,
    ensures
        0 <= y * n <= 32580,
        0 <= y * n + x < n * n,
        (y * n + x) % n == x,
        (y * n + x) / n == y,
{
    assert(0 <= y * n <= 32580 && y * n + x < n * n) by (nonlinear_arith)
        requires
            0 <= x < n,
            0 <= y < n,
            n <= 181,
    ;
    vstd::arithmetic::div_mod::lemma_fundamental_div_mod_converse(y * n + x, n, y, x);
}

/// Making a legal move and taking it back restores the cells, and leaves
/// no move to take back.
pub proof fn law_apply_undo_restores_cells(b: BoardState, m: int, player: Player)
    requires
        b.wf(),
        b.vacant(m),
    ensures
        b.place(m, player).undo().cells == b.cells,
        b.place(m, player).undo().last_move is None,
        b.place(m, player).undo().wf(),
{
}

/// On a board with no move to take back, making a legal move and taking
/// it back restores the whole board.
pub proof fn law_apply_undo_round_trip(b: BoardState, m: int, player: Player)
    requires
        b.wf(),
        b.vacant(m),
        b.last_move is None,
    ensures
        b.place(m, player).undo() == b,
{
    law_apply_undo_restores_cells(b, m, player);
}

/// A cell shows a winner only if a run of at least `win_length` equal
/// marks goes through it.
pub proof fn law_winner_has_line(b: BoardState, m: int)
    requires
        b.wf(),
        b.in_range(m),
        b.winner_from(m) is Some,
    ensures
        b.winner_from(m) == b.cells[m],
        exists|d: int, lo: int, hi: int|
            0 <= d < 4 && #[trigger] b.run(m, d, lo, hi) && hi - lo + 1 >= b.win_length,
{
    let d = if b.wins_along(m, 0) {
        0int
    } else if b.wins_along(m, 1) {
        1int
    } else if b.wins_along(m, 2) {
        2int
    } else {
        3int
    };
    assert(b.wins_along(m, d));
}

/// Where every run through a cell is shorter than `win_length`, the cell
/// shows no winner.
pub proof fn law_short_lines_do_not_win(b: BoardState, m: int)
    requires
        b.wf(),
        b.in_range(m),
        forall|d: int, lo: int, hi: int|
            0 <= d < 4 && #[trigger] b.run(m, d, lo, hi) ==> hi - lo + 1 < b.win_length,
    ensures
        b.winner_from(m) is None,
{
    if b.winner_from(m) is Some {
        law_winner_has_line(b, m);
    }
}

/// A mark that is part of `win_length` equal marks in a row, along a row,
/// a column or a diagonal, shows its owner as the winner. The mark itself
/// counts: where one mark is enough, every mark wins.
pub proof fn law_full_line_wins(b: BoardState, m: int, d: int, lo: int, hi: int)
    requires
        b.wf(),
        b.marked(m),
        0 <= d < 4,
        b.run(m, d, lo, hi),
        hi - lo + 1 == b.win_length,
    ensures
        b.winner_from(m) == b.cells[m],
{
    assert(b.wins_along(m, d));
}

} // verus!
