use vstd::prelude::*;
use vstd::string::StringExecFns;
use std::time::Duration;
use crate::board::{Board, lemma_square_bound};
use crate::bot_board::{
    BotBoard, lemma_played_on, lemma_played_push, lemma_settled_neighbour, mover,
};
use crate::chance::{random_chance, random_index, random_pick};
use crate::clock::{now, out_of_time};
use crate::listing::{
    as_ints, distinct, lemma_distinct_ascending, lemma_indices_where, lemma_swap_remove,
};
use crate::player::Player;
use crate::tree::{
    agrees, all_visited, answers, board_at, child_ok, chosen_place, DRAW_VALUE, drawn_from,
    expanded, expanded_at, fits, forced, found_by, grown_at, grown_from, is_neighbour_candidate,
    last_most_visited, last_unvisited, lemma_fits_after_expand, lemma_fits_after_visits,
    lemma_movers_after_visits, lemma_on_path_below, lemma_on_path_step, lemma_path_moves_kept,
    lemma_path_reaches_root, most_visited, mover_ok, movers_alternate, node_fits, node_ok,
    NodeView, on_path, path_moves, round_of, searched, side_to_move, sorted_out, tree_wf,
    WIN_VALUE,
};

verus! {

/// Why the search gave no move.
#[derive(Debug, Clone, Copy, PartialEq, Eq, Structural)]
pub enum BotError {
    NoMoreMoves,
}

impl BotError {
    /// The name of the error.
    pub fn to_string(&self) -> (r: String)
        ensures
            r@ == "NoMoreMoves"@,
    {
        String::from_str("NoMoreMoves")
    }
}

/// With a chance of three in five an expansion prefers a move next to a
/// mark, where no tactical move is open.
pub const NEIGHBOUR_CHANCE_NUMERATOR: u32 = 3;

/// The chance's denominator.
pub const NEIGHBOUR_CHANCE_DENOMINATOR: u32 = 5;

/// No node is visited more often than this, so a search ends after that
/// many simulations even if time is left.
pub const MAX_VISITS: u32 = 4294967295;

/// A node of the search tree. Nodes live in an arena and name each other
/// by index.
pub struct Node {
    parent: Option<usize>,
    children: Vec<usize>,
    game_move: Option<i16>,
    reward: u64,
    visits: u32,
    untried_moves: Vec<i16>,
    player: Player,
}

impl View for Node {
    type V = NodeView;

    closed spec fn view(&self) -> NodeView {
        NodeView {
            parent: self.parent,
            children: self.children@,
            game_move: self.game_move,
            reward: self.reward,
            visits: self.visits,
            untried_moves: self.untried_moves@,
            player: self.player,
        }
    }
}

impl Node {
    /// A root: no parent, no move, nothing tried or left to try, with `p`
    /// as the side about to move.
    pub fn new(p: Player) -> (node: Node)
        ensures
            node@ == (NodeView {
                parent: None,
                children: Seq::empty(),
                game_move: None,
                reward: 0,
                visits: 0,
                untried_moves: Seq::empty(),
                player: p,
            }),
    {
        Node {
            parent: None,
            children: Vec::new(),
            reward: 0,
            visits: 0,
            untried_moves: Vec::new(),
            game_move: None,
            player: p,
        }
    }

    /// The node's parent; the root has none.
    pub fn parent(&self) -> (r: Option<usize>)
        ensures
            r == self@.parent,
    {
        self.parent
    }

    /// The node's children, oldest first.
    pub fn children(&self) -> (r: &Vec<usize>)
        ensures
            r@ == self@.children,
    {
        &self.children
    }

    /// The move that led to the node; the root has none.
    pub fn game_move(&self) -> (r: Option<i16>)
        ensures
            r == self@.game_move,
    {
        self.game_move
    }

    /// The reward gathered by the node's mover, in tenths of a win.
    pub fn reward(&self) -> (r: u64)
        ensures
            r == self@.reward,
    {
        self.reward
    }

    /// How many simulations passed through the node.
    pub fn visits(&self) -> (r: u32)
        ensures
            r == self@.visits,
    {
        self.visits
    }

    /// The moves that have no child yet.
    pub fn untried_moves(&self) -> (r: &Vec<i16>)
        ensures
            r@ == self@.untried_moves,
    {
        &self.untried_moves
    }

    /// The side that made the node's move; at the root, the side about to
    /// move.
    pub fn player(&self) -> (r: Player)
        ensures
            r == self@.player,
    {
        self.player
    }

    /// Whether the node may get another child: a move is left to try, and
    /// the children are fewer than twice the square root of the visits.
    pub fn can_expand(&self) -> (r: bool)
        ensures
            r == self@.can_expand(),
    {
        let children: u128 = self.children.len() as u128;
        assert(children * children <= 0xffff_ffff_ffff_ffff * 0xffff_ffff_ffff_ffff)
            by (nonlinear_arith)
            requires
                0 <= children <= 0xffff_ffff_ffff_ffff,
        ;
        self.untried_moves.len() > 0 && children * children < 4 * (self.visits as u128)
    }
}

/// The views of the nodes of an arena.
pub open spec fn views(nodes: Seq<Node>) -> Seq<NodeView> {
    Seq::new(nodes.len(), |i: int| nodes[i]@)
}

/// Plays the connection game by a time-bounded Monte-Carlo tree search.
pub struct Bot {
    nodes: Vec<Node>,
    thinking_time: Duration,
    turn: usize,
}

impl View for Bot {
    type V = Seq<NodeView>;

    closed spec fn view(&self) -> Seq<NodeView> {
        views(self.nodes@)
    }
}

impl Bot {
    /// A bot that thinks for `thinking_time` on each move. Its tree is
    /// empty until a search plants a root.
    pub fn new(thinking_time: Duration) -> (bot: Bot)
        ensures
            bot@.len() == 0,
            bot.budget() == thinking_time,
            bot.marks() == 0,
    {
        Bot { nodes: Vec::new(), thinking_time, turn: 0 }
    }

    /// The arena of the last search.
    pub fn nodes(&self) -> (r: &Vec<Node>)
        ensures
            views(r@) == self@,
    {
        &self.nodes
    }

    /// The time the bot may think on a move.
    pub closed spec fn budget(&self) -> Duration {
        self.thinking_time
    }

    /// The number of marks on the board of the last search.
    pub closed spec fn marks(&self) -> usize {
        self.turn
    }

    /// How many marks stood on the board of the last search.
    pub fn turn(&self) -> (r: usize)
        ensures
            r == self.marks(),
    {
        self.turn
    }

    /// How many simulations the last search ran.
    pub fn iterations(&self) -> (r: u32)
        ensures
            r == (if self@.len() == 0 {
                0
            } else {
                self@[0].visits
            }),
    {
        if self.nodes.len() == 0 {
            0
        } else {
            self.nodes[0].visits
        }
    }

    /// Records the outcome of a simulation on every node from
    /// `node_index` up to the root: one more visit, and the gain of the
    /// node's own mover.
    pub fn backpropagate(&mut self, node_index: usize, winner: Option<Player>)
        requires
            tree_wf(old(self)@),
            node_index < old(self)@.len(),
            forall|i: int| 0 <= i < old(self)@.len() ==> (#[trigger] old(self)@[i]).visits < MAX_VISITS,
        ensures
            final(self)@.len() == old(self)@.len(),
            forall|i: int|
                0 <= i < old(self)@.len() ==> #[trigger] final(self)@[i] == (if on_path(
                    old(self)@,
                    node_index as int,
                    i,
                ) {
                    old(self)@[i].visited(winner)
                } else {
                    old(self)@[i]
                }),
            tree_wf(final(self)@),
            final(self).budget() == old(self).budget(),
            final(self).marks() == old(self).marks(),
    {
        let ghost t0 = self@;
        let mut current = node_index;
        loop
            invariant_except_break
                current < t0.len(),
                on_path(t0, node_index as int, current as int),
                forall|i: int|
                    0 <= i < t0.len() ==> #[trigger] self@[i] == (if on_path(t0, node_index as int, i)
                        && !on_path(t0, current as int, i) {
                        t0[i].visited(winner)
                    } else {
                        t0[i]
                    }),
            invariant
                t0 == old(self)@,
                tree_wf(t0),
                node_index < t0.len(),
                self@.len() == t0.len(),
                self.budget() == old(self).budget(),
                self.marks() == old(self).marks(),
                forall|i: int| 0 <= i < t0.len() ==> (#[trigger] t0[i]).visits < MAX_VISITS,
            ensures
                forall|i: int|
                    0 <= i < t0.len() ==> #[trigger] self@[i] == (if on_path(t0, node_index as int, i) {
                        t0[i].visited(winner)
                    } else {
                        t0[i]
                    }),
            decreases current,
        {
            let ghost before = self@;
            assert(node_ok(t0, current as int));
            assert(before[current as int] == t0[current as int]);
            assert(self.nodes@[current as int]@ == t0[current as int]);
            self.nodes[current].visits = self.nodes[current].visits + 1;
            let val = match winner {
                Some(p) => {
                    if p == self.nodes[current].player {
                        WIN_VALUE
                    } else {
                        0
                    }
                },
                None => DRAW_VALUE,
            };
            self.nodes[current].reward = self.nodes[current].reward + val;
            proof {
                assert(self@[current as int] == t0[current as int].visited(winner));
                assert forall|i: int| 0 <= i < t0.len() && i != current implies #[trigger] self@[i]
                    == before[i] by {
                    assert(self.nodes@[i]@ == before[i]);
                }
            }
            match self.nodes[current].parent {
                None => {
                    proof {
                        assert forall|i: int| 0 <= i < t0.len() implies #[trigger] self@[i] == (
                        if on_path(t0, node_index as int, i) {
                            t0[i].visited(winner)
                        } else {
                            t0[i]
                        }) by {
                            assert(self@[i] == if i == current { t0[i].visited(winner) } else { before[i] });
                            assert(on_path(t0, current as int, i) <==> i == current);
                        }
                    }
                    break ;
                },
                Some(parent) => {
                    proof {
                        assert forall|i: int| 0 <= i < t0.len() implies #[trigger] self@[i] == (
                        if on_path(t0, node_index as int, i) && !on_path(t0, parent as int, i) {
                            t0[i].visited(winner)
                        } else {
                            t0[i]
                        }) by {
                            assert(self@[i] == if i == current { t0[i].visited(winner) } else { before[i] });
                            assert(on_path(t0, current as int, i) <==> (i == current || on_path(
                                t0,
                                parent as int,
                                i,
                            )));
                            if on_path(t0, parent as int, i) {
                                lemma_on_path_below(t0, parent as int, i);
                            }
                        }
                        lemma_on_path_step(t0, node_index as int, current as int);
                    }
                    current = parent;
                },
            }
        }
        proof {
            let t1 = self@;
            assert forall|i: int| 0 <= i < t1.len() implies #[trigger] node_ok(t1, i) by {
                assert(node_ok(t0, i));
                let n = t1[i];
                assert forall|c: int| 0 <= c < n.children.len() implies child_ok(
                    t1,
                    i,
                    #[trigger] n.children[c],
                ) by {
                    assert(child_ok(t0, i, t0[i].children[c]));
                }
                assert(n.reward <= WIN_VALUE * n.visits) by {
                    assert(t0[i].gain(winner) <= WIN_VALUE);
                }
            }
        }
    }

    /// Sorts out the untried moves of the node `node_index` for an
    /// expansion by `player`. The first list holds the places, among the
    /// untried moves, of the tactical ones. The second holds the places of
    /// the moves next to a mark that are not tactical and stand before the
    /// first tactical one. Both lists ascend. The moves are probed on the
    /// board: its cells stay as they were.
    pub fn candidates(&self, node_index: usize, board: &mut BotBoard, player: Player) -> (r: (
        Vec<usize>,
        Vec<usize>,
    ))
        requires
            node_index < self@.len(),
            old(board).wf(),
            forall|u: int|
                0 <= u < self@[node_index as int].untried_moves.len() ==> old(board)@.vacant(
                    (#[trigger] self@[node_index as int].untried_moves[u]) as int,
                ),
        ensures
            final(board).wf(),
            final(board)@ == (if self@[node_index as int].untried_moves.len() == 0 {
                old(board)@
            } else {
                old(board)@.settled()
            }),
            sorted_out(self@[node_index as int].untried_moves, old(board)@, player, r.0@, r.1@),
    {
        let ghost b0 = board@;
        let ghost moves = self@[node_index as int].untried_moves;
        assert(self.nodes@[node_index as int]@ == self@[node_index as int]);
        let count = self.nodes[node_index].untried_moves.len();
        let mut tactical: Vec<usize> = Vec::new();
        let mut neighbours: Vec<usize> = Vec::new();
        let mut i: usize = 0;
        while i < count
            invariant
                i <= count,
                count == moves.len(),
                node_index < self.nodes@.len(),
                moves == self.nodes@[node_index as int]@.untried_moves,
                board.wf(),
                board@ == (if i == 0 {
                    b0
                } else {
                    b0.settled()
                }),
                forall|u: int| 0 <= u < moves.len() ==> b0.vacant((#[trigger] moves[u]) as int),
                sorted_out(moves.take(i as int), b0, player, tactical@, neighbours@),
            decreases count - i,
        {
            let m = self.nodes[node_index].untried_moves[i];
            let ghost seen = moves.take(i as int);
            let ghost more = moves.take(i + 1);
            let ghost old_tactical = tactical@;
            let ghost old_neighbours = neighbours@;
            assert(b0.vacant(moves[i as int] as int));
            assert(board@.place(m as int, player) == b0.place(m as int, player));
            assert(board@.place(m as int, player.other()) == b0.place(m as int, player.other()));
            proof {
                lemma_settled_neighbour(b0, m as int);
            }
            if board.is_tactical_move(m, player) {
                tactical.push(i);
            } else if tactical.len() == 0 && board.has_neighbour(m) {
                neighbours.push(i);
            }
            proof {
                assert forall|u: int| 0 <= u < i implies #[trigger] more[u] == seen[u] by {}
                assert(more[i as int] == moves[i as int]);
                assert forall|j: int| 0 <= j < old_tactical.len() implies tactical@[j]
                    == old_tactical[j] by {}
                assert forall|j: int| 0 <= j < old_neighbours.len() implies neighbours@[j]
                    == old_neighbours[j] by {}
                assert forall|u: int|
                    0 <= u < more.len() && b0.tactical(
                        more[u] as int,
                        player,
                    ) implies tactical@.contains(u as usize) by {
                    if u < i {
                        assert(b0.tactical(seen[u] as int, player));
                        assert(old_tactical.contains(u as usize));
                        let j = choose|j: int|
                            0 <= j < old_tactical.len() && old_tactical[j] == u as usize;
                        assert(tactical@[j] == u as usize);
                    } else {
                        assert(tactical@[tactical@.len() - 1] == u as usize);
                    }
                }
                assert forall|u: int|
                    0 <= u < more.len() && is_neighbour_candidate(
                        more,
                        b0,
                        player,
                        u,
                    ) implies neighbours@.contains(u as usize) by {
                    if u < i {
                        assert forall|v: int| 0 <= v <= u implies !b0.tactical(
                            (#[trigger] seen[v]) as int,
                            player,
                        ) by {
                            assert(!b0.tactical(more[v] as int, player));
                        }
                        assert(is_neighbour_candidate(seen, b0, player, u));
                        assert(old_neighbours.contains(u as usize));
                        let j = choose|j: int|
                            0 <= j < old_neighbours.len() && old_neighbours[j] == u as usize;
                        assert(neighbours@[j] == u as usize);
                    } else {
                        if old_tactical.len() > 0 {
                            let v = old_tactical[0] as int;
                            assert(b0.tactical(seen[v] as int, player));
                            assert(!b0.tactical(more[v] as int, player));
                        }
                        assert(neighbours@[neighbours@.len() - 1] == u as usize);
                    }
                }
                assert forall|j: int| 0 <= j < neighbours@.len() implies is_neighbour_candidate(
                    more,
                    b0,
                    player,
                    (#[trigger] neighbours@[j]) as int,
                ) by {
                    let u = neighbours@[j] as int;
                    if j < old_neighbours.len() {
                        assert(is_neighbour_candidate(seen, b0, player, old_neighbours[j] as int));
                        assert forall|v: int| 0 <= v <= u implies !b0.tactical(
                            (#[trigger] more[v]) as int,
                            player,
                        ) by {
                            assert(!b0.tactical(seen[v] as int, player));
                        }
                    } else {
                        assert forall|v: int| 0 <= v <= u implies !b0.tactical(
                            (#[trigger] more[v]) as int,
                            player,
                        ) by {
                            if v < i && b0.tactical(seen[v] as int, player) {
                                assert(old_tactical.contains(v as usize));
                            }
                        }
                    }
                }
            }
            i = i + 1;
        }
        assert(moves.take(count as int) =~= moves);
        (tactical, neighbours)
    }

    /// Gives the node `node_index` a child for the untried move at the
    /// place `idx`. The move is made on the board for `player` and leaves
    /// the untried moves, the last of which takes its place. The child
    /// records the move, the mover and the moves then open. Returns the
    /// child's index and who has won by the move.
    pub fn expand_with(
        &mut self,
        node_index: usize,
        board: &mut BotBoard,
        player: Player,
        idx: usize,
    ) -> (r: (usize, Option<Player>))
        requires
            tree_wf(old(self)@),
            node_index < old(self)@.len(),
            old(board).wf(),
            idx < old(self)@[node_index as int].untried_moves.len(),
            old(board)@.vacant(old(self)@[node_index as int].untried_moves[idx as int] as int),
        ensures
            final(board).wf(),
            tree_wf(final(self)@),
            r.0 == old(self)@.len(),
            final(self)@.len() == old(self)@.len() + 1,
            forall|i: int|
                0 <= i < old(self)@.len() && i != node_index ==> #[trigger] final(self)@[i] == old(
                    self,
                )@[i],
            expanded_at(
                old(self)@[node_index as int],
                final(self)@[node_index as int],
                final(self)@[r.0 as int],
                node_index,
                r.0,
                old(board)@,
                final(board)@,
                player,
                idx as int,
            ),
            r.1 == final(board)@.winner(),
            final(self).budget() == old(self).budget(),
            final(self).marks() == old(self).marks(),
    {
        let ghost t0 = self@;
        let ghost moves0 = t0[node_index as int].untried_moves;
        assert(self.nodes@[node_index as int]@ == t0[node_index as int]);
        let m = self.nodes[node_index].untried_moves.swap_remove(idx);
        let winner = board.apply_move(m, player).unwrap();
        let child_index = self.nodes.len();
        let child = Node {
            parent: Some(node_index),
            game_move: Some(m),
            children: Vec::new(),
            reward: 0,
            visits: 0,
            untried_moves: board.legal_moves(),
            player,
        };
        let ghost child_view = child@;
        self.nodes.push(child);
        self.nodes[node_index].children.push(child_index);
        proof {
            let t1 = self@;
            let left = moves0.update(idx as int, moves0.last()).drop_last();
            assert(t1.len() == t0.len() + 1);
            assert(t1[child_index as int] == child_view);
            assert(t1[node_index as int].untried_moves == left);
            assert(t1[node_index as int].children == t0[node_index as int].children.push(
                child_index,
            ));
            assert forall|i: int| 0 <= i < t0.len() && i != node_index implies #[trigger] t1[i]
                == t0[i] by {
                assert(self.nodes@[i]@ == t0[i]);
            }
            assert(node_ok(t0, node_index as int));
            lemma_swap_remove(moves0, idx as int);
            lemma_indices_where(board@.cells.len(), |j: int| board@.vacant(j));
            lemma_distinct_ascending(child_view.untried_moves);
            assert forall|i: int| 0 <= i < t1.len() implies #[trigger] node_ok(t1, i) by {
                let n = t1[i];
                if i == child_index {
                    let listed = t1[node_index as int].children;
                    assert(listed[listed.len() - 1] == child_index);
                } else {
                    assert(node_ok(t0, i));
                    if i > 0 {
                        let p = t0[i].parent->0 as int;
                        let k = choose|k: int|
                            0 <= k < t0[p].children.len() && t0[p].children[k] == i as usize;
                        assert(t1[p].children[k] == i as usize);
                    }
                    assert forall|c: int| 0 <= c < n.children.len() implies child_ok(
                        t1,
                        i,
                        #[trigger] n.children[c],
                    ) by {
                        if i == node_index && c == n.children.len() - 1 {
                        } else {
                            assert(child_ok(t0, i, t0[i].children[c]));
                        }
                    }
                    assert forall|c: int, u: int|
                        0 <= c < n.children.len() && 0 <= u < n.untried_moves.len() implies t1[(
                    #[trigger] n.children[c]) as int].game_move != Some(
                        #[trigger] n.untried_moves[u],
                    ) by {
                        if i == node_index {
                            assert(moves0.contains(left[u]));
                            let k = choose|k: int| 0 <= k < moves0.len() && moves0[k] == left[u];
                            if c == n.children.len() - 1 {
                            } else {
                                assert(child_ok(t0, i, t0[i].children[c]));
                                assert(t0[t0[i].children[c] as int].game_move != Some(moves0[k]));
                            }
                        } else {
                            assert(child_ok(t0, i, t0[i].children[c]));
                        }
                    }
                }
            }
        }
        (child_index, winner)
    }

    /// Gives the node `node_index` one more child. The move is taken from
    /// the node's untried moves: a tactical one if any is tactical,
    /// otherwise, with the neighbour chance, one next to a mark if there is
    /// one, otherwise any. It is made on the board for `player`, leaves the
    /// untried moves, and the child records it together with the moves then
    /// open. Returns the child's index and who has won by the move.
    pub fn expand(&mut self, node_index: usize, board: &mut BotBoard, player: Player) -> (r: (
        usize,
        Option<Player>,
    ))
        requires
            tree_wf(old(self)@),
            node_index < old(self)@.len(),
            old(board).wf(),
            old(self)@[node_index as int].untried_moves.len() > 0,
            forall|u: int|
                0 <= u < old(self)@[node_index as int].untried_moves.len() ==> old(board)@.vacant(
                    (#[trigger] old(self)@[node_index as int].untried_moves[u]) as int,
                ),
        ensures
            final(board).wf(),
            tree_wf(final(self)@),
            r.0 == old(self)@.len(),
            final(self)@.len() == old(self)@.len() + 1,
            forall|i: int|
                0 <= i < old(self)@.len() && i != node_index ==> #[trigger] final(self)@[i] == old(
                    self,
                )@[i],
            expanded(
                old(self)@[node_index as int],
                final(self)@[node_index as int],
                final(self)@[r.0 as int],
                node_index,
                r.0,
                old(board)@,
                final(board)@,
                player,
            ),
            r.1 == final(board)@.winner(),
            final(self).budget() == old(self).budget(),
            final(self).marks() == old(self).marks(),
    {
        let ghost b0 = board@;
        let ghost moves = self@[node_index as int].untried_moves;
        assert(self.nodes@[node_index as int]@ == self@[node_index as int]);
        let count = self.nodes[node_index].untried_moves.len();
        let (tactical, neighbours) = self.candidates(node_index, board, player);
        let coin = tactical.len() == 0 && neighbours.len() > 0 && random_chance(
            NEIGHBOUR_CHANCE_NUMERATOR,
            NEIGHBOUR_CHANCE_DENOMINATOR,
        );
        let draw = random_index(places_to_draw_from(&tactical, &neighbours, count, coin));
        let idx = place_to_expand(&tactical, &neighbours, count, coin, draw);
        proof {
            assert(b0.vacant(moves[idx as int] as int));
            assert(board@.place(moves[idx as int] as int, player) == b0.place(
                moves[idx as int] as int,
                player,
            ));
            if exists|u: int| 0 <= u < moves.len() && b0.tactical((#[trigger] moves[u]) as int, player) {
                let u = choose|u: int|
                    0 <= u < moves.len() && b0.tactical((#[trigger] moves[u]) as int, player);
                assert(tactical@.contains(u as usize));
            }
        }
        let ghost t0 = self@;
        let r = self.expand_with(node_index, board, player, idx);
        assert(expanded_at(
            t0[node_index as int],
            self@[node_index as int],
            self@[r.0 as int],
            node_index,
            r.0,
            b0,
            board@,
            player,
            idx as int,
        ));
        r
    }

    /// Plays the position out: the sides alternate, starting with `player`,
    /// each marking an empty cell drawn at random, until a move wins or no
    /// cell is left. Returns the winner, and nobody after a tie.
    pub fn rollout(&self, board: &mut BotBoard, player: Player) -> (winner: Option<Player>)
        requires
            old(board).wf(),
        ensures
            final(board).wf(),
            final(board)@.size == old(board)@.size,
            final(board)@.win_length == old(board)@.win_length,
            forall|j: int|
                old(board)@.marked(j) ==> (#[trigger] final(board)@.cells[j]) == old(board)@.cells[j],
            old(board)@.is_full() ==> winner is None && final(board)@ == old(board)@,
            exists|ms: Seq<int>| #[trigger]
                old(board)@.played_out(player, ms, final(board)@) && final(board)@.ends_with(
                    ms.len(),
                    winner,
                ),
    {
        let ghost b0 = board@;
        let ghost mut ms: Seq<int> = Seq::empty();
        let mut side = player;
        let mut moves = board.legal_moves();
        proof {
            let ghost b = board@;
            lemma_square_bound(b.size);
            lemma_indices_where(b.cells.len(), |j: int| b.vacant(j));
            lemma_distinct_ascending(moves@);
            assert forall|u: int| 0 <= u < moves@.len() implies b.vacant(
                (#[trigger] moves@[u]) as int,
            ) by {
                assert(b.vacant(as_ints(moves@)[u]));
            }
            assert forall|j: int| b.vacant(j) implies moves@.contains(j as i16) by {
                let s = as_ints(moves@);
                assert(s.contains(j));
                let u = choose|u: int| 0 <= u < s.len() && s[u] == j;
                assert(moves@[u] == j as i16);
            }
        }
        loop
            invariant
                board.wf(),
                board@.size == old(board)@.size,
                board@.win_length == old(board)@.win_length,
                board@.cells.len() == old(board)@.cells.len(),
                b0 == old(board)@,
                b0.played_out(player, ms, board@),
                ms.len() > 0 ==> board@.winner() is None,
                side == mover(player, ms.len() as int),
                forall|j: int|
                    old(board)@.marked(j) ==> (#[trigger] board@.cells[j]) == old(board)@.cells[j],
                distinct(moves@),
                forall|u: int| 0 <= u < moves@.len() ==> board@.vacant((#[trigger] moves@[u]) as int),
                forall|j: int| board@.vacant(j) ==> moves@.contains(j as i16),
            decreases moves@.len(),
        {
            if moves.len() == 0 {
                proof {
                    assert forall|j: int| 0 <= j < board@.cells.len() implies (
                    #[trigger] board@.cells[j]) is Some by {
                        if board@.cells[j] is None {
                            assert(board@.vacant(j));
                            assert(moves@.contains(j as i16));
                        }
                    }
                    if ms.len() > 0 {
                        assert(b0.after_moves(player, ms.take(0)).vacant(ms[0]));
                    }
                    assert(board@.ends_with(ms.len(), None));
                }
                return None;
            }
            let idx = random_index(moves.len());
            let ghost before = board@;
            let ghost listed = moves@;
            let winner = board.apply_move(moves[idx], side).unwrap();
            proof {
                lemma_played_push(b0, player, ms, before, listed[idx as int] as int);
                ms = ms.push(listed[idx as int] as int);
                assert(player.other().other() == player);
                lemma_square_bound(before.size);
                assert forall|j: int| old(board)@.marked(j) implies (#[trigger] board@.cells[j])
                    == old(board)@.cells[j] by {
                    assert(before.cells[j] == old(board)@.cells[j]);
                }
            }
            if winner.is_some() {
                proof {
                    assert(b0.after_moves(player, ms.take(0)).vacant(ms[0]));
                    assert(board@.ends_with(ms.len(), winner));
                }
                return winner;
            }
            moves.swap_remove(idx);
            proof {
                lemma_swap_remove(listed, idx as int);
                assert forall|j: int| board@.vacant(j) implies moves@.contains(j as i16) by {
                    assert(before.vacant(j));
                    assert(listed.contains(j as i16));
                }
                assert forall|u: int| 0 <= u < moves@.len() implies board@.vacant(
                    (#[trigger] moves@[u]) as int,
                ) by {
                    assert(moves@.contains(moves@[u]));
                    assert(listed.contains(moves@[u]));
                    let k = choose|k: int| 0 <= k < listed.len() && listed[k] == moves@[u];
                    assert(before.vacant(listed[k] as int));
                }
            }
            side = side.next();
        }
    }

    /// The last child of the node `node_index` that has no visit yet, if
    /// there is one. Such a child is tried before any other is chosen.
    pub fn unvisited_child(&self, node_index: usize) -> (r: Option<usize>)
        requires
            tree_wf(self@),
            node_index < self@.len(),
        ensures
            match r {
                Some(c) => last_unvisited(self@, node_index as int, c),
                None => all_visited(self@, node_index as int),
            },
    {
        let ghost t = self@;
        assert(self.nodes@[node_index as int]@ == t[node_index as int]);
        assert(node_ok(t, node_index as int));
        let mut k: usize = self.nodes[node_index].children.len();
        while k > 0
            invariant
                t == self@,
                tree_wf(t),
                node_ok(t, node_index as int),
                node_index < t.len(),
                self.nodes@[node_index as int]@ == t[node_index as int],
                k <= t[node_index as int].children.len(),
                forall|j: int|
                    k <= j < t[node_index as int].children.len() ==> t[(
                    #[trigger] t[node_index as int].children[j]) as int].visits > 0,
            decreases k,
        {
            k = k - 1;
            let c = self.nodes[node_index].children[k];
            assert(child_ok(t, node_index as int, t[node_index as int].children[k as int]));
            assert(self.nodes@[c as int]@ == t[c as int]);
            if self.nodes[c].visits == 0 {
                return Some(c);
            }
        }
        None
    }

    /// The child `choice` where it is a child of the node `node_index`,
    /// and the node's first child where it is none.
    pub fn child_or_first(&self, node_index: usize, choice: usize) -> (r: usize)
        requires
            tree_wf(self@),
            node_index < self@.len(),
            self@[node_index as int].children.len() > 0,
        ensures
            r == (if choice < self@.len() && self@[choice as int].parent == Some(node_index) {
                choice
            } else {
                self@[node_index as int].children[0]
            }),
            child_ok(self@, node_index as int, r),
    {
        let ghost t = self@;
        assert(self.nodes@[node_index as int]@ == t[node_index as int]);
        assert(node_ok(t, node_index as int));
        assert(child_ok(t, node_index as int, t[node_index as int].children[0]));
        if choice < self.nodes.len() {
            assert(self.nodes@[choice as int]@ == t[choice as int]);
            assert(node_ok(t, choice as int));
            if self.nodes[choice].parent == Some(node_index) {
                return choice;
            }
        }
        self.nodes[node_index].children[0]
    }

    /// The child of the node `node_index` that a round descends to: the
    /// last child without a visit, or else the child that `select_child`
    /// names, or the first child where that is no child of the node.
    pub fn child_to_visit<F: Fn(&Vec<Node>, usize) -> usize>(
        &self,
        node_index: usize,
        select_child: &F,
    ) -> (r: usize)
        requires
            tree_wf(self@),
            node_index < self@.len(),
            self@[node_index as int].children.len() > 0,
            askable(*select_child),
        ensures
            child_ok(self@, node_index as int, r),
            !all_visited(self@, node_index as int) ==> last_unvisited(self@, node_index as int, r),
    {
        match self.unvisited_child(node_index) {
            Some(child) => {
                proof {
                    let t = self@;
                    let k = choose|k: int|
                        0 <= k < t[node_index as int].children.len()
                            && #[trigger] t[node_index as int].children[k] == child
                            && t[child as int].visits == 0;
                    assert(node_ok(t, node_index as int));
                    assert(child_ok(t, node_index as int, t[node_index as int].children[k]));
                }
                child
            },
            None => {
                let choice = select_child(&self.nodes, node_index);
                self.child_or_first(node_index, choice)
            },
        }
    }

    /// One round of the search on a board that shows the position under
    /// analysis, in which `player` moves. The round walks down the tree
    /// while the node at hand cannot get a child and has children: to the
    /// last child without a visit, or else to the child that
    /// `select_child` names, or to the first child where that is no child
    /// of the node. The node reached gets a child if it can have one. Then
    /// the position is played out, and the outcome is recorded from the
    /// node reached up to the root. A move that wins on the way down ends
    /// the round at once, and so does a new child whose move wins: its
    /// outcome is recorded from its parent.
    pub fn simulate<F: Fn(&Vec<Node>, usize) -> usize>(
        &mut self,
        board: &mut BotBoard,
        player: Player,
        select_child: &F,
    )
        requires
            tree_wf(old(self)@),
            agrees(old(self)@, old(board)@),
            movers_alternate(old(self)@),
            old(self)@[0].player == player,
            old(board).wf(),
            askable(*select_child),
            forall|i: int| 0 <= i < old(self)@.len() ==> (#[trigger] old(self)@[i]).visits < MAX_VISITS,
        ensures
            tree_wf(final(self)@),
            agrees(final(self)@, old(board)@),
            movers_alternate(final(self)@),
            final(self)@[0].player == player,
            final(self)@[0].visits == old(self)@[0].visits + 1,
            final(self).budget() == old(self).budget(),
            final(self).marks() == old(self).marks(),
            final(board).wf(),
            final(board)@.size == old(board)@.size,
            final(self)@.len() >= old(self)@.len(),
            forall|i: int|
                0 <= i < old(self)@.len() ==> (#[trigger] final(self)@[i]).visits <= old(self)@[i].visits
                    + 1,
            forall|i: int|
                old(self)@.len() <= i < final(self)@.len() ==> (#[trigger] final(self)@[i]).visits
                    <= 1,
            exists|grown: Seq<NodeView>, leaf: int, from: int, ms: Seq<int>, winner: Option<Player>|
                #[trigger] round_of(
                    old(self)@,
                    old(board)@,
                    player,
                    grown,
                    leaf,
                    from,
                    ms,
                    winner,
                    final(self)@,
                    final(board)@,
                ),
    {
        let ghost t0 = self@;
        let ghost base = board@;
        let ghost taken = choose|taken: Seq<Set<int>>| fits(t0, base, taken);
        let mut current_player = player;
        let mut current: usize = 0;
        assert(node_fits(t0, base, taken, 0));
        assert(path_moves(t0, 0) =~= Seq::<int>::empty());
        assert(mover(player, 0) == player);
        while !self.nodes[current].can_expand() && self.nodes[current].children.len() > 0
            invariant
                self@ == t0,
                t0 == old(self)@,
                base == old(board)@,
                self.budget() == old(self).budget(),
                self.marks() == old(self).marks(),
                tree_wf(t0),
                fits(t0, base, taken),
                movers_alternate(t0),
                t0[0].player == player,
                current_player == side_to_move(t0, current as int),
                current_player == mover(player, path_moves(t0, current as int).len() as int),
                base.wf(),
                current < t0.len(),
                board.wf(),
                board_at(board@, base, taken[current as int]),
                base.played_out(player, path_moves(t0, current as int), board@),
                path_moves(t0, current as int).len() > 0 ==> board@.winner() is None,
                askable(*select_child),
                forall|i: int| 0 <= i < t0.len() ==> (#[trigger] t0[i]).visits < MAX_VISITS,
            decreases t0.len() - current,
        {
            assert(self.nodes@[current as int]@ == t0[current as int]);
            let next = self.child_to_visit(current, select_child);
            proof {
                assert(self.nodes@[next as int]@ == t0[next as int]);
                assert(node_ok(t0, next as int));
                assert(node_fits(t0, base, taken, next as int));
                assert(mover_ok(t0, next as int));
            }
            let game_move = self.nodes[next].game_move.unwrap();
            let ghost before = board@;
            let ghost path = path_moves(t0, current as int);
            assert(before.cells[game_move as int] is None);
            let winner = board.apply_move(game_move, current_player).unwrap();
            proof {
                assert(board_at(board@, base, taken[next as int]));
                assert(path_moves(t0, next as int) == path.push(game_move as int));
                lemma_played_push(base, player, path, before, game_move as int);
                assert(player.other().other() == player);
            }
            current = next;
            if winner.is_some() {
                self.backpropagate(current, winner);
                proof {
                    lemma_fits_after_visits(t0, self@, base, taken, winner);
                    lemma_movers_after_visits(t0, self@, winner);
                    lemma_path_reaches_root(t0, current as int);
                    let way = path_moves(t0, current as int);
                    assert(way + Seq::<int>::empty() =~= way);
                    assert(round_of(
                        t0,
                        base,
                        player,
                        t0,
                        current as int,
                        current as int,
                        Seq::<int>::empty(),
                        winner,
                        self@,
                        board@,
                    ));
                }
                return ;
            }
            current_player = current_player.next();
        }
        let ghost mut taken = taken;
        assert(self.nodes@[current as int]@ == t0[current as int]);
        if self.nodes[current].can_expand() {
            let ghost sim = board@;
            let ghost path = path_moves(t0, current as int);
            let ghost parent = current;
            proof {
                assert(node_fits(t0, base, taken, current as int));
                assert forall|u: int|
                    0 <= u < t0[current as int].untried_moves.len() implies sim.vacant(
                    (#[trigger] t0[current as int].untried_moves[u]) as int,
                ) by {
                    let m = t0[current as int].untried_moves[u] as int;
                    assert(base.vacant(m));
                    assert(sim.cells[m] is None);
                }
            }
            let (new_index, winner) = self.expand(current, board, current_player);
            proof {
                let t1 = self@;
                let m = t1[new_index as int].game_move->0;
                let grown = taken.push(taken[current as int].insert(m as int));
                lemma_fits_after_expand(
                    t0,
                    t1,
                    base,
                    taken,
                    current,
                    new_index,
                    sim,
                    board@,
                    current_player,
                );
                taken = grown;
                assert forall|i: int| 0 <= i < t1.len() implies #[trigger] mover_ok(t1, i) by {
                    if i < t0.len() {
                        assert(mover_ok(t0, i));
                        assert(node_ok(t0, i));
                    }
                }
                let k = choose|k: int|
                    #[trigger] expanded_at(
                        t0[current as int],
                        t1[current as int],
                        t1[new_index as int],
                        current,
                        new_index,
                        sim,
                        board@,
                        current_player,
                        k,
                    );
                assert(m == t0[current as int].untried_moves[k]);
                assert(sim.vacant(t0[current as int].untried_moves[k] as int));
                assert(sim == base.after_moves(player, path));
                assert(grown_at(t0, t1, base, player, current as int));
                assert forall|j: int| 0 <= j <= current implies (#[trigger] t1[j]).parent
                    == t0[j].parent && t1[j].game_move == t0[j].game_move by {}
                lemma_path_moves_kept(t0, t1, current as int);
                assert(node_ok(t1, new_index as int));
                assert(path_moves(t1, new_index as int) == path.push(m as int));
                lemma_played_push(base, player, path, sim, m as int);
                assert(player.other().other() == player);
            }
            let ghost t1 = self@;
            if winner.is_some() {
                self.backpropagate(current, winner);
                proof {
                    lemma_fits_after_visits(t1, self@, base, taken, winner);
                    lemma_movers_after_visits(t1, self@, winner);
                    lemma_path_reaches_root(t1, current as int);
                    let way = path_moves(t1, new_index as int);
                    assert(way + Seq::<int>::empty() =~= way);
                    assert(round_of(
                        t0,
                        base,
                        player,
                        t1,
                        new_index as int,
                        parent as int,
                        Seq::<int>::empty(),
                        winner,
                        self@,
                        board@,
                    ));
                }
                return ;
            }
            current = new_index;
            current_player = current_player.next();
        }
        let ghost t2 = self@;
        let ghost reached = board@;
        let ghost way = path_moves(t2, current as int);
        assert(grown_from(t0, t2, base, player));
        assert(base.played_out(player, way, reached));
        assert(way.len() > 0 ==> reached.winner() is None);
        assert(current_player == mover(player, way.len() as int));
        let winner = self.rollout(board, current_player);
        self.backpropagate(current, winner);
        proof {
            lemma_fits_after_visits(t2, self@, base, taken, winner);
            lemma_movers_after_visits(t2, self@, winner);
            lemma_path_reaches_root(t2, current as int);
            let ms = choose|ms: Seq<int>| #[trigger]
                reached.played_out(current_player, ms, board@) && board@.ends_with(ms.len(), winner);
            lemma_played_on(base, player, way, reached, ms, board@);
            assert(round_of(
                t0,
                base,
                player,
                t2,
                current as int,
                current as int,
                ms,
                winner,
                self@,
                board@,
            ));
        }
    }

    /// Empties the arena and plants a root for the side about to move,
    /// with the given moves left to try.
    pub fn plant_root(&mut self, player: Player, untried_moves: Vec<i16>)
        requires
            distinct(untried_moves@),
        ensures
            final(self)@.len() == 1,
            final(self)@[0] == (NodeView {
                parent: None,
                children: Seq::empty(),
                game_move: None,
                reward: 0,
                visits: 0,
                untried_moves: untried_moves@,
                player,
            }),
            tree_wf(final(self)@),
            movers_alternate(final(self)@),
            final(self).budget() == old(self).budget(),
            final(self).marks() == old(self).marks(),
    {
        self.nodes.clear();
        let mut root = Node::new(player);
        root.untried_moves = untried_moves;
        self.nodes.push(root);
        assert(node_ok(self@, 0));
        assert(mover_ok(self@, 0));
    }

    /// The child of the root with the most visits, the last of them where
    /// several have as many; none where the root has no child.
    pub fn most_visited_child(&self) -> (r: Option<usize>)
        requires
            tree_wf(self@),
        ensures
            r is None <==> self@[0].children.len() == 0,
            r matches Some(c) ==> most_visited(self@, c),
    {
        let ghost t = self@;
        assert(self.nodes@[0]@ == t[0]);
        assert(node_ok(t, 0));
        let count = self.nodes[0].children.len();
        if count == 0 {
            return None;
        }
        let mut best = self.nodes[0].children[0];
        let ghost mut at: int = 0;
        let mut i: usize = 1;
        assert(child_ok(t, 0, t[0].children[0]));
        while i < count
            invariant
                1 <= i <= count,
                t == self@,
                tree_wf(t),
                node_ok(t, 0),
                count == t[0].children.len(),
                self.nodes@.len() == t.len(),
                self.nodes@[0]@ == t[0],
                best < t.len(),
                0 <= at < i,
                t[0].children[at] == best,
                forall|k: int| 0 <= k < i ==> t[(#[trigger] t[0].children[k]) as int].visits
                    <= t[best as int].visits,
                forall|k: int| at < k < i ==> t[(#[trigger] t[0].children[k]) as int].visits
                    < t[best as int].visits,
            decreases count - i,
        {
            let c = self.nodes[0].children[i];
            assert(child_ok(t, 0, t[0].children[i as int]));
            assert(self.nodes@[c as int]@ == t[c as int]);
            assert(self.nodes@[best as int]@ == t[best as int]);
            if self.nodes[c].visits >= self.nodes[best].visits {
                best = c;
                proof {
                    at = i as int;
                }
            }
            i = i + 1;
        }
        assert(last_most_visited(t, at));
        Some(best)
    }

    /// Finds a move for `player` on the given position. A new round of the
    /// search begins only while the bot's thinking time has not run out.
    /// On its way down the tree a round tries every child of a node once
    /// before it asks `select_child`, for the arena and the node, which
    /// child to descend to.
    ///
    /// A move that wins at once is returned without any search, and so is
    /// the only move that stops the opponent from winning at once. After a
    /// search the most visited child of the root gives the move; where the
    /// root has no child yet, the first open cell stands in. Where several
    /// moves block and the move found is none of them, one of them is drawn
    /// in its place. A board without an empty cell gives `NoMoreMoves`.
    pub fn find_next_move<F: Fn(&Vec<Node>, usize) -> usize>(
        &mut self,
        position: &Board,
        player: Player,
        select_child: F,
    ) -> (r: Result<i16, BotError>)
        requires
            position.wf(),
            askable(select_child),
        ensures
            r is Err <==> position@.is_full(),
            r is Err ==> r == Err::<i16, BotError>(BotError::NoMoreMoves),
            r matches Ok(m) ==> answers(position@, player, m as int),
            r is Err || forced(position@, player) ==> final(self)@.len() == 0,
            r matches Ok(m) ==> !forced(position@, player) ==> searched(
                final(self)@,
                position@,
                player,
                m as int,
            ),
            final(self).budget() == old(self).budget(),
            final(self).marks() == position@.occupied_count(),
    {
        let ghost base = position@;
        self.nodes.clear();
        let mut board = BotBoard::new(position.clone());
        let legal_moves = board.legal_moves();
        proof {
            lemma_square_bound(base.size);
        }
        self.turn = position.cells().len() - legal_moves.len();
        let (winning_move, blocking_moves) = board.terminating_moves(player);
        proof {
            lemma_indices_where(base.cells.len(), |j: int| base.vacant(j));
            lemma_indices_where(base.cells.len(), |j: int| base.wins_by(j, player.other()));
            lemma_distinct_ascending(legal_moves@);
            if base.is_full() {
                if legal_moves@.len() > 0 {
                    assert(base.vacant(as_ints(legal_moves@)[0]));
                }
            } else {
                let j = choose|j: int| 0 <= j < base.cells.len() && base.cells[j] is None;
                assert(base.vacant(j));
                assert(as_ints(legal_moves@).contains(j));
            }
        }
        if let Some(m) = winning_move {
            return Ok(m);
        }
        if blocking_moves.len() == 1 {
            proof {
                let s = as_ints(blocking_moves@);
                assert(s[0] == blocking_moves@[0] as int);
                assert(base.wins_by(s[0], player.other()));
            }
            return Ok(blocking_moves[0]);
        }
        if legal_moves.len() == 0 {
            return Err(BotError::NoMoreMoves);
        }
        let first_open = legal_moves[0];
        proof {
            assert(as_ints(legal_moves@)[0] == first_open as int);
            assert forall|u: int| 0 <= u < legal_moves@.len() implies base.vacant(
                (#[trigger] legal_moves@[u]) as int,
            ) by {
                assert(base.vacant(as_ints(legal_moves@)[u]));
            }
        }
        self.plant_root(player, legal_moves);
        assert(fits(self@, base, seq![Set::<int>::empty()])) by {
            assert(node_fits(self@, base, seq![Set::<int>::empty()], 0));
        }
        let mut iterations: u32 = 0;
        let start = now();
        while iterations < MAX_VISITS && !out_of_time(&start, &self.thinking_time)
            invariant
                base == position@,
                position.wf(),
                tree_wf(self@),
                agrees(self@, base),
                movers_alternate(self@),
                self@[0].player == player,
                self@[0].visits == iterations,
                self.budget() == old(self).budget(),
                self.marks() == base.occupied_count(),
                board.wf(),
                board@.size == base.size,
                askable(select_child),
                forall|i: int| 0 <= i < self@.len() ==> (#[trigger] self@[i]).visits <= iterations,
            decreases MAX_VISITS - iterations,
        {
            iterations = iterations + 1;
            board.update_board(position.clone());
            self.simulate(&mut board, player, &select_child);
        }
        let ghost t = self@;
        let ghost taken = choose|taken: Seq<Set<int>>| fits(t, base, taken);
        let found = match self.most_visited_child() {
            Some(best) => {
                proof {
                    let k = choose|k: int|
                        #[trigger] last_most_visited(t, k) && t[0].children[k] == best;
                    assert(node_ok(t, 0));
                    assert(child_ok(t, 0, t[0].children[k]));
                    assert(self.nodes@[best as int]@ == t[best as int]);
                    assert(node_ok(t, best as int));
                    assert(node_fits(t, base, taken, best as int));
                }
                self.nodes[best].game_move.unwrap()
            },
            None => first_open,
        };
        assert(found_by(t, base, found as int));
        let mut best_move = found;
        if blocking_moves.len() > 0 && !holds(&blocking_moves, best_move) {
            best_move = random_pick(&blocking_moves).unwrap();
            proof {
                let s = as_ints(blocking_moves@);
                let k = choose|k: int|
                    0 <= k < blocking_moves@.len() && blocking_moves@[k] == best_move;
                assert(s[k] == best_move as int);
                assert(base.wins_by(s[k], player.other()));
                if s.contains(found as int) {
                    let w = choose|w: int| 0 <= w < s.len() && s[w] == found as int;
                    assert(blocking_moves@[w] == found);
                }
            }
        }
        proof {
            if blocking_moves@.len() > 0 {
                let s = as_ints(blocking_moves@);
                let k = choose|k: int|
                    0 <= k < blocking_moves@.len() && blocking_moves@[k] == best_move;
                assert(s[k] == best_move as int);
            }
            assert(searched(t, base, player, best_move as int));
        }
        Ok(best_move)
    }
}

/// How many places a draw for an expansion chooses from: the tactical
/// places if there are any; else the neighbouring places, if there are any
/// and the coin fell for them; else all `count` places of the untried
/// moves.
pub fn places_to_draw_from(
    tactical: &Vec<usize>,
    neighbours: &Vec<usize>,
    count: usize,
    coin: bool,
) -> (len: usize)
    ensures
        len == drawn_from(tactical@, neighbours@, count, coin),
{
    if tactical.len() > 0 {
        tactical.len()
    } else if neighbours.len() > 0 && coin {
        neighbours.len()
    } else {
        count
    }
}

/// The place, among the untried moves, that an expansion takes: the drawn
/// one of the tactical places if there are any; else the drawn one of the
/// neighbouring places, if there are any and the coin fell for them; else
/// the drawn place itself.
pub fn place_to_expand(
    tactical: &Vec<usize>,
    neighbours: &Vec<usize>,
    count: usize,
    coin: bool,
    draw: usize,
) -> (idx: usize)
    requires
        draw < drawn_from(tactical@, neighbours@, count, coin),
    ensures
        idx == chosen_place(tactical@, neighbours@, coin, draw),
{
    if tactical.len() > 0 {
        tactical[draw]
    } else if neighbours.len() > 0 && coin {
        neighbours[draw]
    } else {
        draw
    }
}

/// `select_child` can be asked about every node of every well-formed
/// tree that has children, each of them with a visit.
pub open spec fn askable<F: Fn(&Vec<Node>, usize) -> usize>(select_child: F) -> bool {
    forall|nodes: &Vec<Node>, i: usize|
        tree_wf(views(nodes@)) && i < nodes@.len() && views(nodes@)[i as int].children.len() > 0
            && all_visited(views(nodes@), i as int) ==> call_requires(select_child, (nodes, i))
}

/// Whether `m` occurs in `list`.
fn holds(list: &Vec<i16>, m: i16) -> (r: bool)
    ensures
        r == list@.contains(m),
{
    let mut i: usize = 0;
    while i < list.len()
        invariant
            i <= list@.len(),
            forall|k: int| 0 <= k < i ==> list@[k] != m,
        decreases list@.len() - i,
    {
        if list[i] == m {
            return true;
        }
        i = i + 1;
    }
    false
}

} // verus!
