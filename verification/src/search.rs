//! Monte Carlo tree search over positions.
//!
//! The tree lives in a table; a node is named by its index there, the root
//! by 0, and every node comes after its parent. The statistics of a node are
//! kept as whole numbers: the visits, the sum of the rewards and the sum of
//! their squares. How the descent chooses among the children of a node is
//! left to a `Selector`.
use crate::bitboard::{is_game, lemma_after_legal, BitBoard};
use crate::clock::{budget_spent, poll_due, Stopwatch};
use crate::flood::lemma_listed_moves;
use crate::grid::{lemma_no_bits, set_bits};
use crate::random::RandomSource;
use crate::rules::{is_legal_move, legal_mask};
use std::collections::VecDeque;
use vstd::prelude::*;

verus! {

/// The name of a node: its index in the table.
pub type NodeId = usize;

/// The most visits that a tree takes.
pub const MAX_VISITS: usize = 0x7fff_ffff;

/// What the playouts through one node have brought.
#[derive(Clone, Copy, Debug)]
pub struct Stats {
    /// The number of playouts.
    pub n: usize,
    /// The sum of their rewards.
    pub q: i64,
    /// The sum of the squares of their rewards.
    pub squares: u128,
}

/// How the descent chooses among the children of a node that has been tried
/// in every move.
pub trait Selector {
    /// The index in `children` of the child to descend into, given the
    /// visits of the parent. An index beyond the children is read as 0.
    fn select(&self, parent_visits: usize, children: &Vec<Stats>) -> usize;
}

/// Whether the mean reward of `a` is above that of `b`, both with visits:
/// the quotients of sum and visits, compared without rounding.
pub open spec fn mean_above(a: Stats, b: Stats) -> bool {
    a.q * b.n > b.q * a.n
}

/// Whether `j` is the first among the visited entries of `stats` with the
/// highest mean reward.
pub open spec fn is_best(stats: Seq<Stats>, j: int) -> bool {
    &&& 0 <= j < stats.len()
    &&& stats[j].n > 0
    &&& forall|k: int|
        0 <= k < stats.len() && (#[trigger] stats[k]).n > 0 ==> !mean_above(stats[k], stats[j]) && (k
            < j ==> mean_above(stats[j], stats[k]))
}

/// If the mean of `a` is above that of `b`, and that of `c` is not above
/// that of `b`, then the mean of `a` is above that of `c`.
pub proof fn lemma_mean_order(a: Stats, b: Stats, c: Stats)
    requires
        a.n > 0,
        b.n > 0,
        c.n > 0,
        mean_above(a, b),
        !mean_above(c, b),
    ensures
        mean_above(a, c),
{
    let (qa, na) = (a.q as int, a.n as int);
    let (qb, nb) = (b.q as int, b.n as int);
    let (qc, nc) = (c.q as int, c.n as int);
    assert(qa * nb * nc > qb * na * nc) by (nonlinear_arith)
        requires
            qa * nb > qb * na,
            nc > 0,
    ;
    assert(qb * nc * na >= qc * nb * na) by (nonlinear_arith)
        requires
            qc * nb <= qb * nc,
            na > 0,
    ;
    assert(qa * nc > qc * na) by (nonlinear_arith)
        requires
            qa * nb * nc > qb * na * nc,
            qb * nc * na >= qc * nb * na,
            nb > 0,
    ;
}

/// The product of a sum of rewards and a number of visits fits 128 bits.
pub proof fn lemma_product_fits(q: i64, n: usize)
    ensures
        -0x8000_0000_0000_0000_0000_0000_0000_0000 <= q * n
            <= 0x7fff_ffff_ffff_ffff_ffff_ffff_ffff_ffff,
{
    assert(-0x8000_0000_0000_0000 * 0x1_0000_0000_0000_0000 <= q * n <= 0x8000_0000_0000_0000
        * 0xffff_ffff_ffff_ffff) by (nonlinear_arith)
        requires
            -0x8000_0000_0000_0000 <= q < 0x8000_0000_0000_0000,
            0 <= n <= 0xffff_ffff_ffff_ffff,
    ;
}

/// The first among the visited entries of `stats` with the highest mean
/// reward, if any entry has visits.
pub fn best_mean(stats: &Vec<Stats>) -> (best: Option<usize>)
    ensures
        best is None <==> forall|k: int| 0 <= k < stats.len() ==> (#[trigger] stats[k]).n == 0,
        best matches Some(j) ==> is_best(stats@, j as int),
{
    let mut best: Option<usize> = None;
    let mut i: usize = 0;
    while i < stats.len()
        invariant
            i <= stats.len(),
            best is None <==> forall|k: int| 0 <= k < i ==> (#[trigger] stats[k]).n == 0,
            best matches Some(j) ==> is_best(stats@.take(i as int), j as int),
        decreases stats.len() - i,
    {
        let ghost seen = stats@.take(i as int);
        let ghost more = stats@.take(i as int + 1);
        let child = stats[i];
        if child.n > 0 {
            match best {
                None => {
                    assert(forall|k: int| 0 <= k < i ==> more[k] == seen[k]);
                    best = Some(i);
                    assert forall|k: int|
                        0 <= k < more.len() && (#[trigger] more[k]).n > 0 implies k == i by {
                        if k < i {
                            assert(stats[k].n == 0);
                        }
                    }
                    assert(is_best(more, i as int));
                },
                Some(j) => {
                    let top = stats[j];
                    assert(seen[j as int] == top);
                    proof {
                        lemma_product_fits(child.q, top.n);
                        lemma_product_fits(top.q, child.n);
                    }
                    let val = (child.q as i128) * (top.n as i128);
                    let max = (top.q as i128) * (child.n as i128);
                    if val > max {
                        best = Some(i);
                        assert forall|k: int|
                            0 <= k < more.len() && (#[trigger] more[k]).n > 0 implies !mean_above(
                            more[k],
                            more[i as int],
                        ) && (k < i ==> mean_above(more[i as int], more[k])) by {
                            if k < i {
                                assert(seen[k] == more[k]);
                                lemma_mean_order(child, top, seen[k]);
                            }
                        }
                    } else {
                        assert forall|k: int|
                            0 <= k < more.len() && (#[trigger] more[k]).n > 0 implies !mean_above(
                            more[k],
                            more[j as int],
                        ) && (k < j ==> mean_above(more[j as int], more[k])) by {
                            if k < i {
                                assert(seen[k] == more[k]);
                            }
                        }
                    }
                },
            }
        } else {
            match best {
                None => {},
                Some(j) => {
                    assert forall|k: int|
                        0 <= k < more.len() && (#[trigger] more[k]).n > 0 implies !mean_above(
                        more[k],
                        more[j as int],
                    ) && (k < j ==> mean_above(more[j as int], more[k])) by {
                        assert(seen[k] == more[k]);
                    }
                },
            }
        }
        i += 1;
    }
    assert(stats@.take(stats.len() as int) == stats@);
    best
}

/// The choice of the child with the highest mean reward, the first of them
/// among equals; the first child where none has visits.
pub struct Greedy;

impl Selector for Greedy {
    fn select(&self, parent_visits: usize, children: &Vec<Stats>) -> (index: usize)
        ensures
            is_best(children@, index as int) || (index == 0 && forall|k: int|
                0 <= k < children.len() ==> (#[trigger] children[k]).n == 0),
    {
        match best_mean(children) {
            Some(j) => j,
            None => 0,
        }
    }
}

/// The reward as a node sees it that lies `hops` steps above the node of
/// the simulation: turned at every step.
pub open spec fn signed(reward: int, hops: nat) -> int {
    if hops % 2 == 0 {
        reward
    } else {
        -reward
    }
}

/// Whether `reward` is the result of a game played from `state` to its end,
/// for the side that is to move in `state`.
pub open spec fn playout_result(state: BitBoard, reward: int) -> bool {
    exists|line: Seq<BitBoard>|
        is_game(line) && line[0] == state && #[trigger] line.last().ended() && reward
            == line.last().score_for(state.player as int)
}

/// Whether `total` is the sum of the results of `count` games played from
/// `state` to their end.
pub open spec fn playout_sum(state: BitBoard, count: int, total: int) -> bool
    decreases count,
{
    if count <= 0 {
        total == 0
    } else {
        exists|reward: int| #[trigger]
            playout_result(state, reward) && playout_sum(state, count - 1, total - reward)
    }
}

/// The square of a reward does not depend on its sign.
pub proof fn lemma_signed_square(reward: int, hops: nat)
    ensures
        signed(reward, hops) * signed(reward, hops) == reward * reward,
{
    assert((-reward) * (-reward) == reward * reward) by (nonlinear_arith);
}

/// One more visit with a reward within the bound keeps the sums within what
/// the visits can have brought, and within 64 and 128 bits.
pub proof fn lemma_stats_step(n: int, b: int, q: int, squares: int, reward: int)
    requires
        0 <= n < MAX_VISITS,
        0 <= b <= 0x7fff_ffff,
        -(n * b) <= q <= n * b,
        0 <= squares <= n * b * b,
        -b <= reward <= b,
    ensures
        -((n + 1) * b) <= q + reward <= (n + 1) * b,
        0 <= reward * reward <= b * b,
        squares + reward * reward <= (n + 1) * b * b,
        (n + 1) * b <= 0x4000_0000_0000_0000,
        b * b <= 0x4000_0000_0000_0000,
        (n + 1) * b * b <= 0x2000_0000_0000_0000_0000_0000,
{
    assert((n + 1) * b == n * b + b) by (nonlinear_arith);
    assert((n + 1) * b * b == n * b * b + b * b) by (nonlinear_arith);
    assert(0 <= reward * reward <= b * b) by (nonlinear_arith)
        requires
            -b <= reward <= b,
    ;
    assert((n + 1) * b <= 0x8000_0000 * 0x8000_0000) by (nonlinear_arith)
        requires
            0 <= n + 1 <= 0x8000_0000,
            0 <= b <= 0x8000_0000,
    ;
    assert(b * b <= 0x8000_0000 * 0x8000_0000) by (nonlinear_arith)
        requires
            0 <= b <= 0x8000_0000,
    ;
    assert((n + 1) * b * b == (n + 1) * (b * b)) by (nonlinear_arith);
    assert((n + 1) * (b * b) <= 0x8000_0000 * 0x4000_0000_0000_0000) by (nonlinear_arith)
        requires
            0 <= n + 1 <= 0x8000_0000,
            0 <= b * b <= 0x4000_0000_0000_0000,
    ;
}

/// One explored position.
pub struct Node {
    /// The node that this one was made from; none for the root.
    pub parent: Option<NodeId>,
    /// The position.
    pub state: BitBoard,
    /// The move that led here from the parent; 0 at the root and after a
    /// pass.
    pub action: u64,
    /// The legal moves not yet tried, taken from the back.
    pub untried: VecDeque<u64>,
    /// The nodes made from this one, in the order of their making.
    pub children: Vec<NodeId>,
    /// The number of playouts that went through this node.
    pub n: usize,
    /// The sum of their rewards, seen from the side that moved into this
    /// node.
    pub q: i64,
    /// The sum of the squares of their rewards.
    pub squares: u128,
}

impl Node {
    /// The legal moves of the side to move, by rising value.
    pub open spec fn moves(&self) -> Seq<u64> {
        set_bits(legal_mask(self.state.mover(), self.state.waiting()), 64)
    }

    /// A node without visits or children, with every legal move of `state`
    /// still to try.
    pub fn new(parent: Option<NodeId>, state: BitBoard, action: u64) -> (node: Self)
        requires
            state.has_side(),
        ensures
            node.parent == parent,
            node.state == state,
            node.action == action,
            node.untried@ == node.moves(),
            node.children@ == Seq::<NodeId>::empty(),
            node.n == 0,
            node.q == 0,
            node.squares == 0,
    {
        let (player, opponent) = state.curr_board();
        let legal_moves = state.legal_moves(player, opponent);
        let mut untried: VecDeque<u64> = VecDeque::new();
        let mut i: usize = 0;
        while i < legal_moves.len()
            invariant
                i <= legal_moves.len(),
                untried@ == legal_moves@.take(i as int),
            decreases legal_moves.len() - i,
        {
            untried.push_back(legal_moves[i]);
            assert(legal_moves@.take(i as int + 1) == legal_moves@.take(i as int).push(
                legal_moves[i as int],
            ));
            i += 1;
        }
        assert(legal_moves@.take(legal_moves.len() as int) == legal_moves@);
        Self { parent, state, action, untried, children: Vec::new(), n: 0, q: 0, squares: 0 }
    }

    /// Whether a legal move is still to try.
    pub fn is_not_fully_expanded(&self) -> (open: bool)
        ensures
            open == (self.untried.len() != 0),
    {
        self.untried.len() != 0
    }

    /// Whether the side to move has no legal move.
    pub fn no_legal_moves(&self) -> (stuck: bool)
        requires
            self.state.has_side(),
        ensures
            stuck == !self.state.can_move(),
    {
        let (player, opponent) = self.state.curr_board();
        self.state.legal_move_bits(player, opponent) == 0
    }

    /// The statistics of the node.
    pub fn stats(&self) -> (stats: Stats)
        ensures
            stats.n == self.n,
            stats.q == self.q,
            stats.squares == self.squares,
    {
        Stats { n: self.n, q: self.q, squares: self.squares }
    }
}

/// A search: the table of nodes, the choice among children, the number of
/// playouts for each new node and the random source of the playouts.
pub struct MCTS<S: Selector> {
    pub table: Vec<Node>,
    pub selector: S,
    pub playout: i32,
    pub source: RandomSource,
}

impl<S: Selector> MCTS<S> {
    /// The most that one simulation brings, for or against.
    pub open spec fn bound(&self) -> int {
        if self.playout > 0 {
            self.playout as int
        } else {
            0
        }
    }

    /// Whether child `j` of node `i` comes after it in the table, names it
    /// as its parent, and holds the position after the move that it stands
    /// for: the move `j` places from the back of the legal moves, or, where
    /// the side to move has none, the pass.
    pub open spec fn child_wf(&self, i: int, j: int) -> bool {
        let node = self.table[i];
        let c = node.children[j] as int;
        let child = self.table[c];
        let moves = node.moves();
        &&& i < c < self.table.len()
        &&& child.parent == Some(i as usize)
        &&& if moves.len() > 0 {
            child.action == moves[moves.len() - 1 - j] && node.state.after(child.action, child.state)
        } else {
            child.action == 0 && node.state.passed(child.state)
        }
    }

    /// Whether node `i` is sound: its position is one of the game; it has a
    /// parent before it unless it is the root; its untried moves are the
    /// first of its legal moves and its children stand for the others, in
    /// turn from the back; a node that cannot move has at most the one child
    /// of the pass, and a node whose game is over has none; and its sums are
    /// within what its visits can have brought.
    pub open spec fn node_wf(&self, i: int) -> bool {
        let node = self.table[i];
        let moves = node.moves();
        &&& node.state.wf()
        &&& (i == 0) == (node.parent is None)
        &&& (node.parent matches Some(p) ==> p < i)
        &&& node.untried.len() <= moves.len()
        &&& node.untried@ == moves.take(node.untried.len() as int)
        &&& if moves.len() > 0 {
            node.children.len() + node.untried.len() == moves.len()
        } else {
            node.children.len() <= 1
        }
        &&& (node.state.ended() ==> node.children.len() == 0)
        &&& forall|j: int| 0 <= j < node.children.len() ==> #[trigger] self.child_wf(i, j)
        &&& node.n <= self.table[0].n
        &&& -(node.n * self.bound()) <= node.q <= node.n * self.bound()
        &&& node.squares <= node.n * self.bound() * self.bound()
    }

    /// Whether the tree is sound: it has a root, and every node is sound.
    pub open spec fn wf(&self) -> bool {
        &&& self.table.len() >= 1
        &&& self.table[0].n <= MAX_VISITS
        &&& forall|i: int| 0 <= i < self.table.len() ==> #[trigger] self.node_wf(i)
    }

    /// Whether `other` has the nodes of this tree as they are here, but for
    /// the children and the untried moves of the node `but`.
    pub open spec fn kept_in(&self, other: &Self, but: int) -> bool {
        &&& self.table.len() <= other.table.len()
        &&& self.playout == other.playout
        &&& forall|i: int|
            0 <= i < self.table.len() ==> {
                let old_node = #[trigger] self.table[i];
                let new_node = other.table[i];
                &&& new_node.parent == old_node.parent
                &&& new_node.state == old_node.state
                &&& new_node.action == old_node.action
                &&& new_node.n == old_node.n
                &&& new_node.q == old_node.q
                &&& new_node.squares == old_node.squares
                &&& (i != but ==> new_node.children@ == old_node.children@ && new_node.untried@
                    == old_node.untried@)
            }
    }

    /// A search without nodes, with `playout` playouts for each new node and
    /// with the random source of the running thread.
    pub fn new(selector: S, playout: i32) -> (search: Self)
        ensures
            search.table.len() == 0,
            search.playout == playout,
            search.source is Thread,
    {
        Self { table: Vec::new(), selector, playout, source: RandomSource::thread() }
    }

    /// A search without nodes that draws its playouts from `source`.
    pub fn with_source(selector: S, playout: i32, source: RandomSource) -> (search: Self)
        ensures
            search.table.len() == 0,
            search.playout == playout,
            search.source == source,
    {
        Self { table: Vec::new(), selector, playout, source }
    }

    /// The name that the next new node gets: the names are given in turn,
    /// from 0 on.
    pub fn gen_id(&self) -> (id: NodeId)
        ensures
            id == self.table.len(),
    {
        self.table.len()
    }

    /// Drops every node and makes `state` the root of a new tree.
    pub fn start(&mut self, state: BitBoard) -> (root: NodeId)
        requires
            state.wf(),
        ensures
            root == 0,
            final(self).wf(),
            final(self).table.len() == 1,
            final(self).table[0].parent is None,
            final(self).table[0].state == state,
            final(self).table[0].action == 0,
            final(self).table[0].n == 0,
            final(self).table[0].q == 0,
            final(self).table[0].squares == 0,
            final(self).table[0].children.len() == 0,
            final(self).table[0].untried@ == final(self).table[0].moves(),
            final(self).playout == old(self).playout,
    {
        let v_0 = Node::new(None, state, 0);
        self.table = Vec::new();
        let root_id = self.gen_id();
        self.table.push(v_0);
        proof {
            lemma_ended_cannot_move(state);
            assert(self.table[0].moves().take(self.table[0].moves().len() as int)
                == self.table[0].moves());
            assert(self.node_wf(0)) by {
                assert(0 * self.bound() == 0) by (nonlinear_arith);
                assert(0 * self.bound() * self.bound() == 0) by (nonlinear_arith);
            }
        }
        0
    }

    /// Tries the last untried move of node `id`: the position after it
    /// becomes a new node, the newest child of `id`.
    pub fn expand(&mut self, id: NodeId) -> (new_id: NodeId)
        requires
            old(self).wf(),
            id < old(self).table.len(),
            old(self).table[id as int].untried.len() > 0,
        ensures
            final(self).wf(),
            new_id == old(self).table.len(),
            final(self).table.len() == old(self).table.len() + 1,
            old(self).kept_in(final(self), id as int),
            final(self).table[id as int].children@ == old(self).table[id as int].children@.push(
                new_id,
            ),
            final(self).table[id as int].untried@ == old(self).table[id as int].untried@.drop_last(),
            final(self).table[new_id as int].parent == Some(id),
            final(self).table[new_id as int].action == old(self).table[id as int].untried@.last(),
            old(self).table[id as int].state.after(
                final(self).table[new_id as int].action,
                final(self).table[new_id as int].state,
            ),
            final(self).table[new_id as int].n == 0,
            final(self).table[new_id as int].q == 0,
            final(self).table[new_id as int].squares == 0,
            final(self).table[new_id as int].children.len() == 0,
    {
        let new_id = self.gen_id();
        let ghost before = *self;
        let ghost moves = self.table[id as int].moves();
        proof {
            assert(self.node_wf(id as int));
            lemma_listed_moves(
                self.table[id as int].state.mover(),
                self.table[id as int].state.waiting(),
            );
        }
        let a = self.table[id].untried.pop_back().unwrap();
        let state = self.table[id].state;
        proof {
            assert(a == moves[before.table[id as int].untried.len() - 1]);
            lemma_move_keeps_wf(state, a);
        }
        let new_state = state.play(a);
        let vp = Node::new(Some(id), new_state, a);
        self.table[id].children.push(new_id);
        self.table.push(vp);
        proof {
            lemma_ended_cannot_move(new_state);
            lemma_ended_cannot_move(state);
            let after = *self;
            assert(after.bound() == before.bound());
            assert forall|i: int| 0 <= i < after.table.len() implies #[trigger] after.node_wf(
                i,
            ) by {
                if i == new_id {
                    assert(after.table[i].moves().take(after.table[i].moves().len() as int)
                        == after.table[i].moves());
                    assert(0 * after.bound() == 0) by (nonlinear_arith);
                    assert(0 * after.bound() * after.bound() == 0) by (nonlinear_arith);
                } else {
                    assert(before.node_wf(i));
                    let node = after.table[i];
                    if i == id {
                        assert(node.untried@ == moves.take(node.untried.len() as int));
                    }
                    assert forall|j: int| 0 <= j < node.children.len() implies #[trigger]
                        after.child_wf(i, j) by {
                        if i == id && j == node.children.len() - 1 {
                        } else {
                            assert(before.child_wf(i, j));
                        }
                    }
                }
            }
        }
        new_id
    }

    /// Whether `node` is `from` or comes from it by way of children.
    pub open spec fn descends(&self, node: int, from: int) -> bool
        decreases node,
    {
        node == from || (0 < node < self.table.len() && match self.table[node].parent {
            Some(p) => p < node && self.descends(p as int, from),
            None => false,
        })
    }

    /// Whether `other` is this tree grown by at most one node: the nodes of
    /// this tree are in `other` with their parents, positions, moves and
    /// statistics, and with their children first among their children there.
    pub open spec fn grown_into(&self, other: &Self) -> bool {
        &&& self.table.len() <= other.table.len() <= self.table.len() + 1
        &&& self.playout == other.playout
        &&& forall|i: int|
            0 <= i < self.table.len() ==> {
                let old_node = #[trigger] self.table[i];
                let new_node = other.table[i];
                &&& new_node.parent == old_node.parent
                &&& new_node.state == old_node.state
                &&& new_node.action == old_node.action
                &&& new_node.n == old_node.n
                &&& new_node.q == old_node.q
                &&& new_node.squares == old_node.squares
                &&& old_node.children.len() <= new_node.children.len()
                &&& new_node.children@.take(old_node.children.len() as int) == old_node.children@
            }
    }

    /// A node that descends from another in a tree does so in the grown tree.
    pub proof fn lemma_descends_grown(&self, other: &Self, node: int, from: int)
        requires
            self.grown_into(other),
            0 <= node < self.table.len(),
            self.descends(node, from),
        ensures
            other.descends(node, from),
        decreases node,
    {
        if node != from {
            let p = self.table[node].parent->0;
            self.lemma_descends_grown(other, p as int, from);
        }
    }

    /// The statistics of the children of node `id`, in their order.
    pub fn child_stats(&self, id: NodeId) -> (stats: Vec<Stats>)
        requires
            self.wf(),
            id < self.table.len(),
        ensures
            stats.len() == self.table[id as int].children.len(),
            forall|j: int|
                0 <= j < stats.len() ==> {
                    let child = self.table[self.table[id as int].children[j] as int];
                    (#[trigger] stats[j]).n == child.n && stats[j].q == child.q && stats[j].squares
                        == child.squares
                },
    {
        let mut stats: Vec<Stats> = Vec::new();
        let mut j: usize = 0;
        assert(self.node_wf(id as int));
        while j < self.table[id].children.len()
            invariant
                self.wf(),
                id < self.table.len(),
                j <= self.table[id as int].children.len(),
                stats.len() == j,
                forall|k: int|
                    0 <= k < j ==> {
                        let child = self.table[self.table[id as int].children[k] as int];
                        (#[trigger] stats[k]).n == child.n && stats[k].q == child.q
                            && stats[k].squares == child.squares
                    },
            decreases self.table[id as int].children.len() - j,
        {
            assert(self.node_wf(id as int));
            assert(self.child_wf(id as int, j as int));
            let child_id = self.table[id].children[j];
            stats.push(self.table[child_id].stats());
            j += 1;
        }
        stats
    }

    /// Child `j` of node `i`.
    pub open spec fn child(&self, i: int, j: int) -> int {
        self.table[i].children[j] as int
    }

    /// The statistics of node `i`.
    pub open spec fn stats_of(&self, i: int) -> Stats {
        Stats { n: self.table[i].n, q: self.table[i].q, squares: self.table[i].squares }
    }

    /// Whether no child of node `i` has visits.
    pub open spec fn unvisited(&self, i: int) -> bool {
        forall|j: int|
            0 <= j < self.table[i].children.len() ==> self.table[#[trigger] self.child(i, j)].n == 0
    }

    /// Whether child `j` of node `i` is the first among the visited children
    /// of that node with the highest mean reward.
    pub open spec fn is_best_child(&self, i: int, j: int) -> bool {
        &&& 0 <= j < self.table[i].children.len()
        &&& self.table[self.child(i, j)].n > 0
        &&& forall|k: int|
            0 <= k < self.table[i].children.len() && self.table[#[trigger] self.child(i, k)].n > 0
                ==> !mean_above(self.stats_of(self.child(i, k)), self.stats_of(self.child(i, j)))
                && (k < j ==> mean_above(
                self.stats_of(self.child(i, j)),
                self.stats_of(self.child(i, k)),
            ))
    }

    /// The child of node `id` with the highest mean reward among those with
    /// visits, the first of them among equals; none if no child has visits.
    pub fn best_child(&self, id: NodeId) -> (best: Option<NodeId>)
        requires
            self.wf(),
            id < self.table.len(),
        ensures
            best is None <==> self.unvisited(id as int),
            best matches Some(c) ==> exists|j: int|
                c == self.child(id as int, j) && #[trigger] self.is_best_child(id as int, j),
    {
        let stats = self.child_stats(id);
        let best = best_mean(&stats);
        proof {
            assert forall|k: int| 0 <= k < stats.len() implies self.stats_of(
                #[trigger] self.child(id as int, k),
            ) == stats[k] by {}
            if best is None {
                assert forall|j: int|
                    0 <= j < self.table[id as int].children.len() implies self.table[#[trigger] self.child(
                    id as int,
                    j,
                )].n == 0 by {
                    assert(stats[j].n == 0);
                }
            } else {
                let j = best->0 as int;
                assert(stats[j].n > 0);
                assert(self.stats_of(self.child(id as int, j)) == stats[j]);
                assert forall|k: int|
                    0 <= k < self.table[id as int].children.len() && self.table[#[trigger] self.child(
                        id as int,
                        k,
                    )].n > 0 implies !mean_above(
                    self.stats_of(self.child(id as int, k)),
                    self.stats_of(self.child(id as int, j)),
                ) && (k < j ==> mean_above(
                    self.stats_of(self.child(id as int, j)),
                    self.stats_of(self.child(id as int, k)),
                )) by {
                    assert(stats[k].n > 0);
                }
                assert(self.is_best_child(id as int, j));
                if self.unvisited(id as int) {
                    assert(self.table[self.child(id as int, j)].n == 0);
                }
            }
        }
        match best {
            None => None,
            Some(j) => Some(self.table[id].children[j]),
        }
    }

    /// Whether the game goes on in node `i`, and the descent makes a new
    /// node there: a move is still to try, or there is no legal move and no
    /// child for the pass yet.
    pub open spec fn stops_at(&self, i: int) -> bool {
        let node = self.table[i];
        !node.state.ended() && (node.untried.len() > 0 || (!node.state.can_move()
            && node.children.len() == 0))
    }

    /// Whether node `leaf` of `other` is what the descent makes at a node of
    /// this tree where it stops: the position after the last untried move
    /// of that node, or, where that node has no legal move, the position
    /// after the pass.
    pub open spec fn made_from(&self, other: &Self, leaf: int) -> bool {
        let made = other.table[leaf];
        &&& made.parent is Some
        &&& made.parent->0 < self.table.len()
        &&& self.stops_at(made.parent->0 as int)
        &&& {
            let parent = self.table[made.parent->0 as int];
            if parent.untried.len() > 0 {
                made.action == parent.untried@.last() && parent.state.after(made.action, made.state)
            } else {
                made.action == 0 && parent.state.passed(made.state)
            }
        }
    }

    /// The descent from node `id` to the node that the next simulation
    /// starts from. At a node whose game is over the descent ends. At a node
    /// with an untried move it ends in a new child for that move. At a node
    /// without legal moves it ends in a new child for the pass, if there is
    /// none yet. Otherwise it goes on in the child that the selector names.
    pub fn tree_policy(&mut self, id: NodeId) -> (leaf: NodeId)
        requires
            old(self).wf(),
            id < old(self).table.len(),
        ensures
            final(self).wf(),
            old(self).grown_into(final(self)),
            leaf < final(self).table.len(),
            final(self).descends(leaf as int, id as int),
            (leaf == id) == old(self).table[id as int].state.ended(),
            !old(self).table[id as int].state.ended() ==> final(self).table[id as int].children.len()
                >= 1,
            leaf < old(self).table.len() ==> final(self).table.len() == old(self).table.len()
                && final(self).table[leaf as int].state.ended(),
            leaf >= old(self).table.len() ==> final(self).table.len() == old(self).table.len() + 1
                && final(self).table[leaf as int].n == 0 && final(self).table[leaf as int].children.len()
                == 0 && old(self).made_from(final(self), leaf as int),
            old(self).stops_at(id as int) ==> leaf == old(self).table.len()
                && final(self).table[leaf as int].parent == Some(id),
    {
        let mut v_id = id;
        let ghost before = *self;
        loop
            invariant
                *self == before,
                before == *old(self),
                self.wf(),
                id <= v_id < self.table.len(),
                self.descends(v_id as int, id as int),
                v_id != id ==> !self.table[id as int].state.ended() && self.table[id as int].children.len()
                    >= 1 && !before.stops_at(id as int),
            decreases self.table.len() - v_id,
        {
            proof {
                assert(self.node_wf(v_id as int));
                lemma_ended_cannot_move(self.table[v_id as int].state);
            }
            if self.table[v_id].state.is_game_ended() {
                proof {
                    assert forall|i: int| 0 <= i < before.table.len() implies {
                        let old_node = #[trigger] before.table[i];
                        old_node.children@.take(old_node.children.len() as int) == old_node.children@
                    } by {}
                }
                return v_id;
            }
            if self.table[v_id].is_not_fully_expanded() {
                let new_id = self.expand(v_id);
                proof {
                    assert forall|i: int| 0 <= i < before.table.len() implies {
                        let old_node = #[trigger] before.table[i];
                        let new_node = self.table[i];
                        new_node.children@.take(old_node.children.len() as int) == old_node.children@
                    } by {}
                    before.lemma_descends_grown(self, v_id as int, id as int);
                }
                return new_id;
            }
            if self.table[v_id].no_legal_moves() && self.table[v_id].children.len() == 0 {
                let state = self.table[v_id].state.pass();
                let node = Node::new(Some(v_id), state, 0);
                let node_id = self.gen_id();
                self.table.push(node);
                self.table[v_id].children.push(node_id);
                proof {
                    let after = *self;
                    lemma_ended_cannot_move(state);
                    assert forall|i: int| 0 <= i < before.table.len() implies {
                        let old_node = #[trigger] before.table[i];
                        let new_node = after.table[i];
                        new_node.children@.take(old_node.children.len() as int) == old_node.children@
                    } by {}
                    assert forall|i: int| 0 <= i < after.table.len() implies #[trigger] after.node_wf(
                        i,
                    ) by {
                        if i == node_id {
                            assert(after.table[i].moves().take(after.table[i].moves().len() as int)
                                == after.table[i].moves());
                            assert(0 * after.bound() == 0) by (nonlinear_arith);
                            assert(0 * after.bound() * after.bound() == 0) by (nonlinear_arith);
                        } else {
                            assert(before.node_wf(i));
                            let node = after.table[i];
                            assert forall|j: int| 0 <= j < node.children.len() implies #[trigger]
                                after.child_wf(i, j) by {
                                if i != v_id {
                                    assert(before.child_wf(i, j));
                                }
                            }
                        }
                    }
                    before.lemma_descends_grown(self, v_id as int, id as int);
                }
                return node_id;
            }
            let stats = self.child_stats(v_id);
            let pick = self.selector.select(self.table[v_id].n, &stats);
            let index = if pick < stats.len() {
                pick
            } else {
                0
            };
            proof {
                assert(self.child_wf(v_id as int, index as int));
            }
            v_id = self.table[v_id].children[index];
        }
    }

    /// The number of steps from `node` up to `up`, where `node` descends
    /// from it.
    pub open spec fn hops(&self, node: int, up: int) -> nat
        decreases node,
    {
        if node == up || !(0 < node < self.table.len()) {
            0
        } else {
            match self.table[node].parent {
                Some(p) => if p < node {
                    1 + self.hops(p as int, up)
                } else {
                    0
                },
                None => 0,
            }
        }
    }

    /// Whether `other` is this tree after a simulation from node `v` has
    /// brought `reward`: every node from `v` up to the root has one visit
    /// more, has the square of the reward added to its squares, and has the
    /// reward added to its sum, with the sign turned at every step up; and
    /// nothing else has changed.
    pub open spec fn backed_up(&self, other: &Self, v: int, reward: int) -> bool {
        &&& other.table.len() == self.table.len()
        &&& other.playout == self.playout
        &&& forall|i: int|
            0 <= i < self.table.len() ==> {
                let old_node = #[trigger] self.table[i];
                let new_node = other.table[i];
                &&& new_node.parent == old_node.parent
                &&& new_node.state == old_node.state
                &&& new_node.action == old_node.action
                &&& new_node.children@ == old_node.children@
                &&& new_node.untried@ == old_node.untried@
                &&& if self.descends(v, i) {
                    &&& new_node.n == old_node.n + 1
                    &&& new_node.q == old_node.q + signed(reward, self.hops(v, i))
                    &&& new_node.squares == old_node.squares + reward * reward
                } else {
                    &&& new_node.n == old_node.n
                    &&& new_node.q == old_node.q
                    &&& new_node.squares == old_node.squares
                }
            }
    }

    /// The nodes that a node descends from lie in one line: of two of them,
    /// the later descends from the earlier. A node comes no earlier than
    /// what it descends from, and every node descends from the root.
    pub proof fn lemma_line(&self, v: int, a: int, b: int)
        requires
            self.wf(),
            0 <= v < self.table.len(),
            self.descends(v, a),
            self.descends(v, b),
            b <= a,
        ensures
            self.descends(a, b),
            0 <= b,
            a <= v,
            self.descends(v, 0),
            self.hops(v, b) == self.hops(v, a) + self.hops(a, b),
        decreases v,
    {
        assert(self.node_wf(v));
        if v != a {
            let p = self.table[v].parent->0 as int;
            self.lemma_line(p, a, a);
            self.lemma_line(p, a, b);
        } else if v != 0 {
            let p = self.table[v].parent->0 as int;
            if v != b {
                self.lemma_line(p, b, b);
            } else {
                self.lemma_line(p, p, p);
            }
        }
    }

    /// Adds what a simulation from node `v` has brought to every node from
    /// `v` up to the root: one visit, the square of the reward, and the
    /// reward itself, with its sign turned at every step up.
    pub fn backup(&mut self, v: NodeId, reward: i64)
        requires
            old(self).wf(),
            v < old(self).table.len(),
            -old(self).bound() <= reward <= old(self).bound(),
            old(self).table[0].n < MAX_VISITS,
        ensures
            final(self).wf(),
            old(self).backed_up(final(self), v as int, reward as int),
    {
        let ghost before = *self;
        let ghost first = reward as int;
        let ghost b = self.bound();
        let mut reward = reward;
        let mut cur = Some(v);
        let ghost mut floor: int = v as int;
        proof {
            before.lemma_line(v as int, v as int, v as int);
            assert forall|i: int| 0 <= i < before.table.len() && before.descends(
                v as int,
                i,
            ) implies i <= v by {
                before.lemma_line(v as int, i, i);
            }
        }
        loop
            invariant_except_break
                cur matches Some(id) ==> floor == id,
                cur is None ==> floor == -1,
            invariant
                before == *old(self),
                before.wf(),
                0 <= v < before.table.len(),
                b == before.bound(),
                -b <= first <= b,
                -b <= reward <= b,
                before.table[0].n < MAX_VISITS,
                self.table.len() == before.table.len(),
                self.playout == before.playout,
                -1 <= floor <= v,
                cur matches Some(id) ==> id < self.table.len() && before.descends(
                    v as int,
                    id as int,
                ) && reward == signed(first, before.hops(v as int, id as int)),
                forall|i: int|
                    0 <= i < before.table.len() ==> {
                        let old_node = #[trigger] before.table[i];
                        let new_node = self.table[i];
                        &&& new_node.parent == old_node.parent
                        &&& new_node.state == old_node.state
                        &&& new_node.action == old_node.action
                        &&& new_node.children@ == old_node.children@
                        &&& new_node.untried@ == old_node.untried@
                        &&& if before.descends(v as int, i) && i > floor {
                            &&& new_node.n == old_node.n + 1
                            &&& new_node.q == old_node.q + signed(
                                first,
                                before.hops(v as int, i),
                            )
                            &&& new_node.squares == old_node.squares + first * first
                        } else {
                            &&& new_node.n == old_node.n
                            &&& new_node.q == old_node.q
                            &&& new_node.squares == old_node.squares
                        }
                    },
            ensures
                floor == -1,
            decreases floor + 1,
        {
            match cur {
                None => {
                    break ;
                },
                Some(id) => {
                    proof {
                        assert(before.node_wf(id as int));
                        let node = before.table[id as int];
                        assert(self.table[id as int].n == node.n);
                        lemma_signed_square(first, before.hops(v as int, id as int));
                        lemma_stats_step(node.n as int, b, node.q as int, node.squares as int, reward as int);
                    }
                    self.table[id].n += 1;
                    self.table[id].q += reward;
                    self.table[id].squares += (reward * reward) as u128;
                    reward = -reward;
                    cur = self.table[id].parent;
                    proof {
                        let below = floor;
                        floor = match cur {
                            Some(p) => p as int,
                            None => -1,
                        };
                        if cur is Some {
                            before.lemma_up(v as int, id as int);
                        } else {
                            assert(id == 0);
                        }
                        assert forall|i: int| 0 <= i < before.table.len() implies {
                            let old_node = #[trigger] before.table[i];
                            let new_node = self.table[i];
                            if before.descends(v as int, i) && i > floor {
                                &&& new_node.n == old_node.n + 1
                                &&& new_node.q == old_node.q + signed(
                                    first,
                                    before.hops(v as int, i),
                                )
                                &&& new_node.squares == old_node.squares + first * first
                            } else {
                                &&& new_node.n == old_node.n
                                &&& new_node.q == old_node.q
                                &&& new_node.squares == old_node.squares
                            }
                        } by {
                            if before.descends(v as int, i) && i > floor && i < id {
                                before.lemma_line(v as int, id as int, i);
                                before.lemma_above_parent(id as int, i);
                            }
                        }
                    }
                },
            }
        }
        proof {
            let after = *self;
            assert(after.bound() == b);
            before.lemma_line(v as int, v as int, v as int);
            assert(before.node_wf(0));
            assert forall|i: int| 0 <= i < after.table.len() implies #[trigger] after.node_wf(i) by {
                assert(before.node_wf(i));
                let node = after.table[i];
                let old_node = before.table[i];
                assert(node.moves() == old_node.moves());
                assert forall|j: int| 0 <= j < node.children.len() implies #[trigger] after.child_wf(
                    i,
                    j,
                ) by {
                    assert(before.child_wf(i, j));
                }
                if before.descends(v as int, i) {
                    lemma_signed_square(first, before.hops(v as int, i));
                    lemma_stats_step(
                        old_node.n as int,
                        b,
                        old_node.q as int,
                        old_node.squares as int,
                        signed(first, before.hops(v as int, i)),
                    );
                }
            }
        }
    }

    /// One step up from a node that `v` descends from is a node that `v`
    /// descends from, one step further from `v`.
    pub proof fn lemma_up(&self, v: int, id: int)
        requires
            self.wf(),
            0 <= v < self.table.len(),
            self.descends(v, id),
            self.table[id].parent is Some,
        ensures
            self.descends(v, self.table[id].parent->0 as int),
            self.hops(v, self.table[id].parent->0 as int) == self.hops(v, id) + 1,
        decreases v,
    {
        self.lemma_line(v, id, id);
        assert(self.node_wf(v));
        assert(self.node_wf(id));
        let p = self.table[id].parent->0 as int;
        assert(self.descends(p, p));
        assert(self.hops(p, p) == 0);
        if v != id {
            let pv = self.table[v].parent->0 as int;
            self.lemma_up(pv, id);
            self.lemma_line(pv, id, id);
        }
    }

    /// What a node descends from, other than itself, its parent descends
    /// from too.
    pub proof fn lemma_above_parent(&self, id: int, i: int)
        requires
            self.wf(),
            0 <= id < self.table.len(),
            self.descends(id, i),
            i != id,
        ensures
            self.table[id].parent is Some,
            i <= self.table[id].parent->0,
    {
        assert(self.node_wf(id));
        let p = self.table[id].parent->0 as int;
        self.lemma_line(p, i, i);
    }

    /// The sum of the rewards of the playouts from node `v`, as many as the
    /// search makes for each new node.
    pub fn default_policy(&mut self, v: NodeId) -> (reward: i64)
        requires
            old(self).wf(),
            v < old(self).table.len(),
        ensures
            final(self).wf(),
            final(self).table == old(self).table,
            final(self).playout == old(self).playout,
            -old(self).bound() <= reward <= old(self).bound(),
            playout_sum(old(self).table[v as int].state, old(self).bound(), reward as int),
    {
        let ghost before = *self;
        let mut reward: i64 = 0;
        let mut i: i32 = 0;
        let state = self.table[v].state;
        assert(self.node_wf(v as int));
        while i < self.playout
            invariant
                0 <= i <= before.bound(),
                self.table == before.table,
                self.playout == before.playout,
                state.wf(),
                -i <= reward <= i,
                playout_sum(state, i as int, reward as int),
            decreases self.playout - i,
        {
            let ghost so_far = reward as int;
            let won = state.playout_with(&mut self.source);
            reward += won as i64;
            i += 1;
            assert(playout_result(state, won as int));
            assert(playout_sum(state, i - 1, reward - won));
        }
        proof {
            let after = *self;
            assert forall|k: int| 0 <= k < after.table.len() implies #[trigger] after.node_wf(k) by {
                assert(before.node_wf(k));
                let node = after.table[k];
                assert forall|j: int| 0 <= j < node.children.len() implies #[trigger] after.child_wf(
                    k,
                    j,
                ) by {
                    assert(before.child_wf(k, j));
                }
            }
        }
        reward
    }

    /// The node reached from node `id` by `k` steps, each to the first
    /// child.
    pub open spec fn first_descent(&self, id: int, k: nat) -> int
        decreases k,
    {
        if k == 0 {
            id
        } else {
            self.table[self.first_descent(id, (k - 1) as nat)].children[0] as int
        }
    }

    /// The side to move and the sum of the rewards at node `id`, at its
    /// first child, at the first child of that, and so on to a node without
    /// children. Nothing for a node that the table does not hold.
    pub fn principal_line(&self, id: NodeId) -> (line: Vec<(i32, i64)>)
        ensures
            id >= self.table.len() ==> line.len() == 0,
            self.wf() && id < self.table.len() ==> {
                &&& line.len() >= 1
                &&& forall|k: int|
                    0 <= k < line.len() ==> {
                        let node = self.table[self.first_descent(id as int, k as nat)];
                        #[trigger] line[k] == (node.state.player, node.q)
                    }
                &&& forall|k: int|
                    0 <= k < line.len() - 1 ==> self.table[#[trigger] self.first_descent(
                        id as int,
                        k as nat,
                    )].children.len() > 0
                &&& self.table[self.first_descent(
                    id as int,
                    (line.len() - 1) as nat,
                )].children.len() == 0
            },
    {
        let mut line: Vec<(i32, i64)> = Vec::new();
        if id >= self.table.len() {
            return line;
        }
        let mut at = id;
        line.push((self.table[at].state.player, self.table[at].q));
        while !(self.table[at].children.len() == 0)
            invariant
                at < self.table.len(),
                id < self.table.len(),
                line.len() >= 1,
                self.wf() ==> {
                    &&& at == self.first_descent(id as int, (line.len() - 1) as nat)
                    &&& forall|k: int|
                        0 <= k < line.len() ==> {
                            let node = self.table[self.first_descent(id as int, k as nat)];
                            #[trigger] line[k] == (node.state.player, node.q)
                        }
                    &&& forall|k: int|
                        0 <= k < line.len() - 1 ==> self.table[#[trigger] self.first_descent(
                            id as int,
                            k as nat,
                        )].children.len() > 0
                },
            decreases self.table.len() - at,
        {
            let next = self.table[at].children[0];
            proof {
                if self.wf() {
                    assert(self.node_wf(at as int));
                    assert(self.child_wf(at as int, 0));
                }
            }
            if next <= at || next >= self.table.len() {
                return line;
            }
            at = next;
            line.push((self.table[at].state.player, self.table[at].q));
        }
        line
    }

    /// Whether every node but the root has been visited.
    pub open spec fn settled(&self) -> bool {
        forall|i: int| 1 <= i < self.table.len() ==> (#[trigger] self.table[i]).n >= 1
    }

    /// Searches from `state` for `time` milliseconds and returns the move of
    /// the child of the root with the highest mean reward, with the number of
    /// rounds made. A round is a descent to a new node, the playouts from it,
    /// and their result carried up to the root. The clock is looked at after
    /// every fiftieth round only, so that even a budget of nothing leaves
    /// time for fifty rounds. After `MAX_VISITS` rounds the search ends
    /// whatever the clock says.
    pub fn run(&mut self, state: BitBoard, time: u128) -> (found: (u64, i32))
        requires
            state.wf(),
            state.can_move(),
        ensures
            final(self).wf(),
            final(self).settled(),
            final(self).table[0].state == state,
            final(self).table[0].n == found.1,
            final(self).table.len() <= found.1 + 1,
            found.1 >= 1,
            found.1 % 50 == 0 || found.1 == MAX_VISITS,
            is_legal_move(state.mover(), state.waiting(), found.0),
            exists|j: int| #[trigger]
                final(self).is_best_child(0, j) && found.0 == final(self).table[final(self).child(
                    0,
                    j,
                )].action,
    {
        let root_id = self.start(state);
        let inst = Stopwatch::start();
        let mut count: i32 = 0;
        proof {
            lemma_ended_cannot_move(state);
        }
        while count < i32::MAX
            invariant
                self.wf(),
                self.settled(),
                root_id == 0,
                state.has_side(),
                !state.ended(),
                self.table[0].state == state,
                self.table[0].n == count,
                self.table.len() <= count + 1,
                0 <= count,
                count >= 1 ==> self.table[0].children.len() >= 1,
            ensures
                count >= 1,
                count % 50 == 0 || count == i32::MAX,
            decreases i32::MAX - count,
        {
            let ghost before = *self;
            let v_l = self.tree_policy(root_id);
            let ghost grown = *self;
            let reward = self.default_policy(v_l);
            let ghost simulated = *self;
            self.backup(v_l, -reward);
            count += 1;
            proof {
                assert(simulated.descends(v_l as int, v_l as int));
                simulated.lemma_line(v_l as int, v_l as int, v_l as int);
                assert forall|i: int| 1 <= i < self.table.len() implies (#[trigger] self.table[i]).n
                    >= 1 by {
                    if i < before.table.len() {
                        assert(before.table[i].n >= 1);
                        assert(grown.table[i].n == before.table[i].n);
                    }
                }
            }
            if poll_due(count) {
                if budget_spent(inst.elapsed_millis(), time) {
                    break ;
                }
            }
        }
        proof {
            assert(self.node_wf(0));
            assert(self.child_wf(0, 0));
            lemma_listed_moves(state.mover(), state.waiting());
        }
        match self.best_child(root_id) {
            Some(best_child) => {
                proof {
                    let j = choose|j: int|
                        best_child == self.child(0, j) && #[trigger] self.is_best_child(0, j);
                    assert(self.child_wf(0, j));
                }
                (self.table[best_child].action, count)
            },
            None => {
                proof {
                    assert(self.table[self.child(0, 0)].n == 0);
                    assert(false);
                }
                (0, count)
            },
        }
    }
}

/// A position whose game is over has no legal move for the side to move.
pub proof fn lemma_ended_cannot_move(state: BitBoard)
    requires
        state.has_side(),
    ensures
        state.ended() ==> !state.can_move(),
        !state.can_move() ==> set_bits(legal_mask(state.mover(), state.waiting()), 64).len() == 0,
        state.can_move() ==> set_bits(legal_mask(state.mover(), state.waiting()), 64).len() > 0,
{
    lemma_no_bits(legal_mask(state.mover(), state.waiting()));
}

/// A legal move leads from a position of the game to a position of the
/// game.
pub proof fn lemma_move_keeps_wf(state: BitBoard, position: u64)
    requires
        state.wf(),
        is_legal_move(state.mover(), state.waiting(), position),
    ensures
        forall|next: BitBoard| #[trigger] state.after(position, next) ==> next.wf(),
{
    assert forall|next: BitBoard| #[trigger] state.after(position, next) implies next.wf() by {
        lemma_after_legal(state, position, next);
    }
}

} // verus!
