use vstd::prelude::*;
use crate::board::BoardState;
use crate::listing::{as_ints, distinct, lemma_indices_where, lemma_swap_remove};
use crate::player::Player;

verus! {

/// Rewards are counted in tenths: a simulation won by the node's mover
/// adds ten to the node's reward.
pub const WIN_VALUE: u64 = 10;

/// A drawn simulation adds six tenths.
pub const DRAW_VALUE: u64 = 6;

/// The content of a node of the search tree.
pub struct NodeView {
    pub parent: Option<usize>,
    pub children: Seq<usize>,
    pub game_move: Option<i16>,
    pub reward: u64,
    pub visits: u32,
    pub untried_moves: Seq<i16>,
    pub player: Player,
}

impl NodeView {
    /// A move is left to try, and the node has fewer children than twice
    /// the square root of its visits.
    pub open spec fn can_expand(self) -> bool {
        self.untried_moves.len() > 0 && self.children.len() * self.children.len() < 4
            * self.visits
    }

    /// What a simulation with the given outcome adds to the node's reward.
    pub open spec fn gain(self, winner: Option<Player>) -> u64 {
        match winner {
            Some(p) => if p == self.player {
                WIN_VALUE
            } else {
                0
            },
            None => DRAW_VALUE,
        }
    }

    /// The node after a simulation with the given outcome passed through it.
    pub open spec fn visited(self, winner: Option<Player>) -> NodeView {
        NodeView {
            visits: (self.visits + 1) as u32,
            reward: (self.reward + self.gain(winner)) as u64,
            ..self
        }
    }
}

/// `c` is a later node whose parent is `i`.
pub open spec fn child_ok(t: Seq<NodeView>, i: int, c: usize) -> bool {
    i < c < t.len() && t[c as int].parent == Some(i as usize)
}

/// The node `i` fits into the tree: only the root, node 0, lacks a parent
/// and a move; a parent comes before its children and lists each of them;
/// the moves left to try differ from each other and from the children's
/// moves; the reward is at most a win for each visit.
pub open spec fn node_ok(t: Seq<NodeView>, i: int) -> bool {
    let n = t[i];
    &&& i == 0 ==> n.parent is None && n.game_move is None
    &&& i > 0 ==> n.parent is Some && n.parent->0 < i && n.game_move is Some && t[n.parent->0 as int].children.contains(
        i as usize,
    )
    &&& n.reward <= WIN_VALUE * n.visits
    &&& distinct(n.untried_moves)
    &&& forall|c: int| 0 <= c < n.children.len() ==> child_ok(t, i, #[trigger] n.children[c])
    &&& forall|c: int, u: int|
        0 <= c < n.children.len() && 0 <= u < n.untried_moves.len() ==> t[(
        #[trigger] n.children[c]) as int].game_move != Some(#[trigger] n.untried_moves[u])
}

/// The arena holds a tree with its root at index 0.
pub open spec fn tree_wf(t: Seq<NodeView>) -> bool {
    &&& t.len() >= 1
    &&& forall|i: int| 0 <= i < t.len() ==> #[trigger] node_ok(t, i)
}

/// The side that moves in the position of the node `i`: at the root the
/// root's own side, below it the other side than the node's mover.
pub open spec fn side_to_move(t: Seq<NodeView>, i: int) -> Player {
    if i == 0 {
        t[0].player
    } else {
        t[i].player.other()
    }
}

/// The mover of the node `i` is the side that moves in its parent's
/// position.
pub open spec fn mover_ok(t: Seq<NodeView>, i: int) -> bool {
    i > 0 ==> t[i].player == side_to_move(t, t[i].parent->0 as int)
}

/// The sides alternate down every path of the tree.
pub open spec fn movers_alternate(t: Seq<NodeView>) -> bool {
    forall|i: int| 0 <= i < t.len() ==> #[trigger] mover_ok(t, i)
}

/// `i` lies on the way from the node `from` up to the root.
pub open spec fn on_path(t: Seq<NodeView>, from: int, i: int) -> bool
    decreases from,
{
    i == from || (0 < from < t.len() && t[from].parent is Some && t[from].parent->0 < from
        && on_path(t, t[from].parent->0 as int, i))
}

/// The way up from every node of a tree ends at the root.
pub proof fn lemma_path_reaches_root(t: Seq<NodeView>, from: int)
    requires
        tree_wf(t),
        0 <= from < t.len(),
    ensures
        on_path(t, from, 0),
    decreases from,
{
    if from != 0 {
        assert(node_ok(t, from));
        lemma_path_reaches_root(t, t[from].parent->0 as int);
    }
}

/// The way up from a node leads over earlier nodes only.
pub proof fn lemma_on_path_below(t: Seq<NodeView>, from: int, i: int)
    requires
        on_path(t, from, i),
    ensures
        i <= from,
    decreases from,
{
    if i != from {
        lemma_on_path_below(t, t[from].parent->0 as int, i);
    }
}

/// The way up from `from` that has reached `at` goes on to the parent of
/// `at`.
pub proof fn lemma_on_path_step(t: Seq<NodeView>, from: int, at: int)
    requires
        on_path(t, from, at),
        0 < at < t.len(),
        t[at].parent is Some,
        t[at].parent->0 < at,
    ensures
        on_path(t, from, t[at].parent->0 as int),
    decreases from,
{
    let parent = t[at].parent->0 as int;
    if at != from {
        lemma_on_path_step(t, t[from].parent->0 as int, at);
    } else {
        assert(on_path(t, parent, parent));
    }
}

/// What the expansion by the untried move at the place `k` does to a node
/// and to the board. `before` and `after` are the node, `child` the new
/// node at index `child_index`, `board` the position on which the move is
/// made for `player`, and `played` the position after it.
pub open spec fn expanded_at(
    before: NodeView,
    after: NodeView,
    child: NodeView,
    node_index: usize,
    child_index: usize,
    board: BoardState,
    played: BoardState,
    player: Player,
    k: int,
) -> bool {
    &&& 0 <= k < before.untried_moves.len()
    &&& played == board.place(before.untried_moves[k] as int, player)
    &&& after == (NodeView {
        children: before.children.push(child_index),
        untried_moves: before.untried_moves.update(k, before.untried_moves.last()).drop_last(),
        ..before
    })
    &&& child == (NodeView {
        parent: Some(node_index),
        children: Seq::empty(),
        game_move: Some(before.untried_moves[k]),
        reward: 0,
        visits: 0,
        untried_moves: child.untried_moves,
        player,
    })
    &&& as_ints(child.untried_moves) == played.vacant_cells()
}

/// What an expansion does to a node and to the board: it expands by one
/// of the untried moves, and by a tactical one if any of them is tactical.
pub open spec fn expanded(
    before: NodeView,
    after: NodeView,
    child: NodeView,
    node_index: usize,
    child_index: usize,
    board: BoardState,
    played: BoardState,
    player: Player,
) -> bool {
    exists|k: int|
        #[trigger] expanded_at(
            before,
            after,
            child,
            node_index,
            child_index,
            board,
            played,
            player,
            k,
        ) && ((exists|u: int|
            0 <= u < before.untried_moves.len() && board.tactical(
                (#[trigger] before.untried_moves[u]) as int,
                player,
            )) ==> board.tactical(before.untried_moves[k] as int, player))
}

/// How many places a draw for an expansion chooses from: the tactical
/// places if there are any; else the neighbouring places, if there are any
/// and the coin fell for them; else all `count` places of the untried
/// moves.
pub open spec fn drawn_from(
    tactical: Seq<usize>,
    neighbours: Seq<usize>,
    count: usize,
    coin: bool,
) -> nat {
    if tactical.len() > 0 {
        tactical.len()
    } else if neighbours.len() > 0 && coin {
        neighbours.len()
    } else {
        count as nat
    }
}

/// The place, among the untried moves, that the draw `draw` picks for an
/// expansion, from the list that `drawn_from` measures.
pub open spec fn chosen_place(
    tactical: Seq<usize>,
    neighbours: Seq<usize>,
    coin: bool,
    draw: usize,
) -> usize {
    if tactical.len() > 0 {
        tactical[draw as int]
    } else if neighbours.len() > 0 && coin {
        neighbours[draw as int]
    } else {
        draw
    }
}

/// The move at the place `u` of `moves` stands next to a mark, and neither
/// it nor a move before it is tactical.
pub open spec fn is_neighbour_candidate(
    moves: Seq<i16>,
    board: BoardState,
    player: Player,
    u: int,
) -> bool {
    &&& board.has_neighbour(moves[u] as int)
    &&& forall|v: int| 0 <= v <= u ==> !board.tactical((#[trigger] moves[v]) as int, player)
}

/// `tactical` lists the places of the tactical moves among `moves`, and
/// `neighbours` the places of the moves next to a mark that stand before
/// every tactical move, each list in ascending order.
pub open spec fn sorted_out(
    moves: Seq<i16>,
    board: BoardState,
    player: Player,
    tactical: Seq<usize>,
    neighbours: Seq<usize>,
) -> bool {
    &&& forall|i: int, j: int| 0 <= i < j < tactical.len() ==> tactical[i] < tactical[j]
    &&& forall|i: int, j: int| 0 <= i < j < neighbours.len() ==> neighbours[i] < neighbours[j]
    &&& forall|j: int|
        0 <= j < tactical.len() ==> (#[trigger] tactical[j]) < moves.len() && board.tactical(
            moves[tactical[j] as int] as int,
            player,
        )
    &&& forall|u: int|
        0 <= u < moves.len() && board.tactical((#[trigger] moves[u]) as int, player)
            ==> tactical.contains(u as usize)
    &&& forall|j: int|
        0 <= j < neighbours.len() ==> (#[trigger] neighbours[j]) < moves.len()
            && is_neighbour_candidate(moves, board, player, neighbours[j] as int)
    &&& forall|u: int|
        0 <= u < moves.len() && #[trigger] is_neighbour_candidate(moves, board, player, u)
            ==> neighbours.contains(u as usize)
}

/// The node `i` agrees with the position `base` under analysis, where
/// `taken[i]` holds the cells marked on the way from the root to the node:
/// the node's move was open before it, and the moves left to try are open
/// after it.
pub open spec fn node_fits(t: Seq<NodeView>, base: BoardState, taken: Seq<Set<int>>, i: int) -> bool {
    let n = t[i];
    &&& i == 0 ==> forall|j: int| !(#[trigger] taken[i].contains(j))
    &&& i > 0 ==> {
        let p = n.parent->0 as int;
        let m = n.game_move->0 as int;
        &&& base.vacant(m)
        &&& !taken[p].contains(m)
        &&& taken[i] == taken[p].insert(m)
    }
    &&& forall|u: int|
        0 <= u < n.untried_moves.len() ==> base.vacant((#[trigger] n.untried_moves[u]) as int)
            && !taken[i].contains(n.untried_moves[u] as int)
}

/// Every node of the tree agrees with the position under analysis.
pub open spec fn fits(t: Seq<NodeView>, base: BoardState, taken: Seq<Set<int>>) -> bool {
    &&& taken.len() == t.len()
    &&& forall|i: int| 0 <= i < t.len() ==> #[trigger] node_fits(t, base, taken, i)
}

/// `sim` is the position `base` with marks on the cells of `taken`.
pub open spec fn board_at(sim: BoardState, base: BoardState, taken: Set<int>) -> bool {
    &&& sim.size == base.size
    &&& sim.win_length == base.win_length
    &&& sim.cells.len() == base.cells.len()
    &&& forall|j: int|
        0 <= j < base.cells.len() ==> ((#[trigger] sim.cells[j]) is None <==> base.cells[j] is None
            && !taken.contains(j))
}

/// Recording visits leaves the tree in agreement with the position.
pub proof fn lemma_fits_after_visits(
    t0: Seq<NodeView>,
    t1: Seq<NodeView>,
    base: BoardState,
    taken: Seq<Set<int>>,
    winner: Option<Player>,
)
    requires
        fits(t0, base, taken),
        t1.len() == t0.len(),
        forall|i: int|
            0 <= i < t0.len() ==> #[trigger] t1[i] == t0[i] || t1[i] == t0[i].visited(winner),
    ensures
        fits(t1, base, taken),
{
    assert forall|i: int| 0 <= i < t1.len() implies #[trigger] node_fits(t1, base, taken, i) by {
        assert(node_fits(t0, base, taken, i));
    }
}

/// Recording visits leaves the movers as they were.
pub proof fn lemma_movers_after_visits(
    t0: Seq<NodeView>,
    t1: Seq<NodeView>,
    winner: Option<Player>,
)
    requires
        movers_alternate(t0),
        tree_wf(t0),
        t1.len() == t0.len(),
        forall|i: int|
            0 <= i < t0.len() ==> #[trigger] t1[i] == t0[i] || t1[i] == t0[i].visited(winner),
    ensures
        movers_alternate(t1),
{
    assert forall|i: int| 0 <= i < t1.len() implies #[trigger] mover_ok(t1, i) by {
        assert(mover_ok(t0, i));
        assert(node_ok(t0, i));
        if i > 0 {
            assert(t1[t0[i].parent->0 as int].player == t0[t0[i].parent->0 as int].player);
        }
    }
}

/// An expansion on the board that shows the node's position leaves the
/// tree in agreement with the position under analysis.
pub proof fn lemma_fits_after_expand(
    t0: Seq<NodeView>,
    t1: Seq<NodeView>,
    base: BoardState,
    taken: Seq<Set<int>>,
    node_index: usize,
    child_index: usize,
    sim: BoardState,
    played: BoardState,
    player: Player,
)
    requires
        tree_wf(t0),
        fits(t0, base, taken),
        base.wf(),
        node_index < t0.len(),
        child_index == t0.len(),
        t1.len() == t0.len() + 1,
        board_at(sim, base, taken[node_index as int]),
        forall|i: int| 0 <= i < t0.len() && i != node_index ==> #[trigger] t1[i] == t0[i],
        expanded(
            t0[node_index as int],
            t1[node_index as int],
            t1[child_index as int],
            node_index,
            child_index,
            sim,
            played,
            player,
        ),
    ensures
        fits(
            t1,
            base,
            taken.push(
                taken[node_index as int].insert(t1[child_index as int].game_move->0 as int),
            ),
        ),
        board_at(
            played,
            base,
            taken[node_index as int].insert(t1[child_index as int].game_move->0 as int),
        ),
{
    let m = t1[child_index as int].game_move->0;
    let here = taken[node_index as int];
    let grown = taken.push(here.insert(m as int));
    let moves0 = t0[node_index as int].untried_moves;
    let k = choose|k: int|
        #[trigger] expanded_at(
            t0[node_index as int],
            t1[node_index as int],
            t1[child_index as int],
            node_index,
            child_index,
            sim,
            played,
            player,
            k,
        );
    assert(node_ok(t0, node_index as int));
    assert(node_fits(t0, base, taken, node_index as int));
    lemma_swap_remove(moves0, k);
    lemma_indices_where(played.cells.len(), |j: int| played.vacant(j));
    assert forall|i: int| 0 <= i < t1.len() implies #[trigger] node_fits(t1, base, grown, i) by {
        let n = t1[i];
        if i == child_index {
            assert forall|u: int| 0 <= u < n.untried_moves.len() implies base.vacant(
                (#[trigger] n.untried_moves[u]) as int,
            ) && !grown[i].contains(n.untried_moves[u] as int) by {
                assert(played.vacant(as_ints(n.untried_moves)[u]));
            }
        } else {
            assert(node_fits(t0, base, taken, i));
            assert(node_ok(t0, i));
        }
    }
}

/// The child at the place `k` of the root's list has the most visits of
/// the root's children, and is the last of those that have as many.
pub open spec fn last_most_visited(t: Seq<NodeView>, k: int) -> bool {
    &&& 0 <= k < t[0].children.len()
    &&& forall|j: int|
        0 <= j < t[0].children.len() ==> t[(#[trigger] t[0].children[j]) as int].visits
            <= t[t[0].children[k] as int].visits
    &&& forall|j: int|
        k < j < t[0].children.len() ==> t[(#[trigger] t[0].children[j]) as int].visits
            < t[t[0].children[k] as int].visits
}

/// `c` is the last of the root's children with the most visits.
pub open spec fn most_visited(t: Seq<NodeView>, c: usize) -> bool {
    exists|k: int| #[trigger] last_most_visited(t, k) && t[0].children[k] == c
}

/// What every answer of the bot to the position `b` meets: `m` is an
/// empty cell; it is the first cell on which `player` wins at once, if
/// there is one; and if there is none, but cells on which the opponent
/// would win at once, it is one of those.
pub open spec fn answers(b: BoardState, player: Player, m: int) -> bool {
    &&& b.vacant(m)
    &&& forall|w: int| b.first_win(w, player) ==> m == w
    &&& b.no_win(player) && b.blocking_moves(player).len() > 0 ==> b.blocking_moves(
        player,
    ).contains(m)
}

/// The position forces the answer: a cell wins at once, or exactly one
/// cell stops the opponent from winning at once. No search is made then.
pub open spec fn forced(b: BoardState, player: Player) -> bool {
    !b.no_win(player) || b.blocking_moves(player).len() == 1
}

/// The tree `t` of a search on `b` points at the move `m`: the move of
/// the most visited child of the root, or the first empty cell where the
/// root has no child.
pub open spec fn found_by(t: Seq<NodeView>, b: BoardState, m: int) -> bool {
    if t[0].children.len() == 0 {
        b.vacant_cells().len() > 0 && m == b.vacant_cells()[0]
    } else {
        exists|c: usize| #[trigger] most_visited(t, c) && t[c as int].game_move == Some(m as i16)
    }
}

/// What holds after a search for `player` on `b` that left the tree `t`
/// and answered `m`. The tree is well formed and has the player at its
/// root; its moves are empty cells of `b`, none of them twice on a way
/// down, made by the two sides in turn. The answer is the move that the
/// tree points at, unless moves block and that move is none of them: then
/// the answer is one of the blocking moves.
pub open spec fn searched(t: Seq<NodeView>, b: BoardState, player: Player, m: int) -> bool {
    &&& tree_wf(t)
    &&& movers_alternate(t)
    &&& t[0].player == player
    &&& agrees(t, b)
    &&& exists|found: int|
        #[trigger] found_by(t, b, found) && (if b.blocking_moves(player).len() > 0
            && !b.blocking_moves(player).contains(found) {
            b.blocking_moves(player).contains(m)
        } else {
            m == found
        })
}

/// The moves that lead from the root to the node `i`, in the order in
/// which they are made.
pub open spec fn path_moves(t: Seq<NodeView>, i: int) -> Seq<int>
    decreases i,
{
    if 0 < i < t.len() && t[i].parent is Some && t[i].parent->0 < i && t[i].game_move is Some {
        path_moves(t, t[i].parent->0 as int).push(t[i].game_move->0 as int)
    } else {
        Seq::empty()
    }
}

/// The way to a node stays the same where the nodes up to it keep their
/// parents and moves.
pub proof fn lemma_path_moves_kept(t0: Seq<NodeView>, t1: Seq<NodeView>, i: int)
    requires
        0 <= i < t0.len() <= t1.len(),
        forall|j: int|
            0 <= j <= i ==> (#[trigger] t1[j]).parent == t0[j].parent && t1[j].game_move
                == t0[j].game_move,
    ensures
        path_moves(t1, i) == path_moves(t0, i),
    decreases i,
{
    if 0 < i && t0[i].parent is Some && t0[i].parent->0 < i && t0[i].game_move is Some {
        assert(t1[i].parent == t0[i].parent);
        lemma_path_moves_kept(t0, t1, t0[i].parent->0 as int);
    } else {
        assert(t1[i].parent == t0[i].parent && t1[i].game_move == t0[i].game_move);
    }
}

/// The tree `t1` is the tree `t0` after the outcome `winner` of a
/// simulation was recorded from the node `from` up to the root: each node
/// on that way has one more visit and the gain of its own mover, and the
/// others are as they were.
pub open spec fn recorded(t0: Seq<NodeView>, t1: Seq<NodeView>, from: int, winner: Option<Player>) -> bool {
    &&& t1.len() == t0.len()
    &&& forall|i: int|
        0 <= i < t0.len() ==> #[trigger] t1[i] == (if on_path(t0, from, i) {
            t0[i].visited(winner)
        } else {
            t0[i]
        })
}

/// The tree `t1` is the tree `t0` with one more node, the last, which
/// expands the node `node` in the position that the way to `node` leads to
/// from the position `base`, where `player` moves first.
pub open spec fn grown_at(
    t0: Seq<NodeView>,
    t1: Seq<NodeView>,
    base: BoardState,
    player: Player,
    node: int,
) -> bool {
    let at = base.after_moves(player, path_moves(t0, node));
    let child = t1[t0.len() as int];
    &&& 0 <= node < t0.len()
    &&& t1.len() == t0.len() + 1
    &&& forall|i: int| 0 <= i < t0.len() && i != node ==> #[trigger] t1[i] == t0[i]
    &&& expanded(
        t0[node],
        t1[node],
        child,
        node as usize,
        t0.len() as usize,
        at,
        at.place(child.game_move->0 as int, side_to_move(t0, node)),
        side_to_move(t0, node),
    )
}

/// The tree `t1` is the tree `t0`, or `t0` after one expansion.
pub open spec fn grown_from(t0: Seq<NodeView>, t1: Seq<NodeView>, base: BoardState, player: Player) -> bool {
    t1 == t0 || exists|node: int| #[trigger] grown_at(t0, t1, base, player, node)
}

/// One round of the search for `player` on the position `base` leads from
/// the tree `t0` to the tree `t1` and leaves the board `end`.
///
/// The tree is grown by at most one expansion, which gives `grown`. The
/// board shows the moves on the way from the root to the node `leaf`,
/// followed by the moves `ms` of the playout, made in turn from `player`
/// on, each on an empty cell, none but the last showing a winner. The
/// outcome `winner` is the one that the board shows, and it is recorded
/// from the node `from` up to the root. That node is `leaf`, except where
/// the move of the new node `leaf` has won at once: then it is the parent
/// of `leaf`.
pub open spec fn round_of(
    t0: Seq<NodeView>,
    base: BoardState,
    player: Player,
    grown: Seq<NodeView>,
    leaf: int,
    from: int,
    ms: Seq<int>,
    winner: Option<Player>,
    t1: Seq<NodeView>,
    end: BoardState,
) -> bool {
    &&& grown_from(t0, grown, base, player)
    &&& 0 <= leaf < grown.len()
    &&& base.played_out(player, path_moves(grown, leaf) + ms, end)
    &&& end.ends_with((path_moves(grown, leaf) + ms).len(), winner)
    &&& from == leaf || (leaf == t0.len() && grown.len() == t0.len() + 1 && ms.len() == 0
        && winner is Some && grown[leaf].parent == Some(from as usize))
    &&& recorded(grown, t1, from, winner)
}

/// The tree `t` agrees with the position `base`: its moves are empty
/// cells of `base`, and none is made twice on a way down.
pub open spec fn agrees(t: Seq<NodeView>, base: BoardState) -> bool {
    exists|taken: Seq<Set<int>>| #[trigger] fits(t, base, taken)
}

/// The child `c` of the node `i` has no visit, and every child that the
/// node lists behind it has one.
pub open spec fn last_unvisited(t: Seq<NodeView>, i: int, c: usize) -> bool {
    exists|k: int|
        0 <= k < t[i].children.len() && #[trigger] t[i].children[k] == c && t[c as int].visits == 0
            && forall|j: int|
            k < j < t[i].children.len() ==> t[(#[trigger] t[i].children[j]) as int].visits > 0
}

/// Every child of the node `i` has a visit.
pub open spec fn all_visited(t: Seq<NodeView>, i: int) -> bool {
    forall|j: int| 0 <= j < t[i].children.len() ==> t[(#[trigger] t[i].children[j]) as int].visits > 0
}

} // verus!
