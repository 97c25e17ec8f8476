use vstd::prelude::*;
use crate::board::{applicable, made_cells, taken, takes_of};
use crate::color::Color;
use crate::finish::FinishType;
use crate::game::{
    found_best, is_child, is_ordering, one_of, ordered_by, value_at, verdict, whites_turn, BestPos, Game, MCTSRes,
    Method,
};
use crate::game_play::{board_of, weights};
use crate::mcts::{
    child_ok, encoded, grown_tree, is_policy, key_of, lemma_child_side, lemma_grown_self, lemma_grown_twice, moves_of,
    node_ok, records, same_ends, same_scores, McTree, Node, Quality,
};
use crate::moves_list::MoveItem;
use crate::position::{flipped, Position};
use crate::position_history::{lemma_ok_at, lemma_open_stays_open, same_position, PositionAndMove};

verus! {

/// A number held inside the range of a narrower type.
pub open spec fn narrowed(x: int) -> i32 {
    if x > i32::MAX {
        i32::MAX
    } else if x < i32::MIN {
        i32::MIN
    } else {
        x as i32
    }
}

/// A number held inside the range of a narrower type.
pub fn narrow(x: i128) -> (r: i32)
    ensures
        r == narrowed(x as int),
{
    if x > i32::MAX as i128 {
        i32::MAX
    } else if x < i32::MIN as i128 {
        i32::MIN
    } else {
        x as i32
    }
}

/// Position `next`, in which a side is to move, has the key of a position
/// that a legal move of `pos` leads to, with the other side to move.
pub open spec fn succeeds(next: &Position, pos: &Position) -> bool {
    &&& next.next_move == flipped(pos.next_move)
    &&& exists|i: int|
        0 <= i < moves_of(pos).len() && key_of(next) == encoded(
            made_cells(pos.cells@, #[trigger] moves_of(pos)[i]),
            pos.next_move.unwrap().opposite(),
        )
}

/// A child of a node holds a position that succeeds the position of the
/// node.
pub proof fn lemma_child_succeeds(nodes: Seq<Node>, k: int, c: usize, pos: &Position)
    requires
        crate::mcts::nodes_ok(nodes),
        0 <= k < nodes.len(),
        nodes[k].childs@.contains(c),
        nodes[k].pos_mov.pos.cells@ == pos.cells@,
        nodes[k].pos_mov.pos.next_move == pos.next_move,
        nodes[k].pos_mov.pos.environment == pos.environment,
    ensures
        c < nodes.len(),
        succeeds(&nodes[c as int].pos_mov.pos, pos),
{
    reveal(node_ok);
    assert(node_ok(nodes, k));
    let kids = nodes[k].childs@;
    let i = choose|i: int| 0 <= i < kids.len() && kids[i] == c;
    assert(child_ok(nodes, k, i));
    assert(moves_of(&nodes[k].pos_mov.pos) == moves_of(pos));
    assert(key_of(&nodes[c as int].pos_mov.pos) == encoded(
        made_cells(pos.cells@, moves_of(pos)[i]),
        pos.next_move.unwrap().opposite(),
    ));
}

/// What a search of the game tree prefers where the game is not over
/// succeeds the position it started from.
pub proof fn lemma_best_succeeds(best: &BestPos, pos: &Position)
    requires
        pos.next_move.is_some(),
        best.pos.is_some(),
        is_ordering(best.pos_list@, pos),
        one_of(&best.pos.unwrap(), best.pos_list@),
    ensures
        succeeds(&best.pos.unwrap().pos, pos),
        best.pos.unwrap().mov.is_some(),
        crate::board::applicable(pos.cells@, best.pos.unwrap().mov.unwrap()@),
{
    let e = best.pos.unwrap();
    let order = choose|order: Seq<usize>| ordered_by(best.pos_list@, pos, order);
    let k = choose|k: int|
        0 <= k < best.pos_list@.len() && e.move_view() == (#[trigger] best.pos_list@[k]).move_view() && e.pos.cells@
            == best.pos_list@[k].pos.cells@ && e.pos.next_move == best.pos_list@[k].pos.next_move;
    let i = order[k] as int;
    assert(is_child(&best.pos_list@[k], pos, i));
    assert(e.pos.cells@ == made_cells(pos.cells@, moves_of(pos)[i]));
    assert(key_of(&e.pos) == encoded(made_cells(pos.cells@, moves_of(pos)[i]), pos.next_move.unwrap().opposite()));
}

/// The lowest score among the first `n` of the nodes at the places
/// `kids`.
pub open spec fn least_w(nodes: Seq<Node>, kids: Seq<usize>, n: int) -> int
    decreases n,
{
    if n <= 1 {
        nodes[kids[0] as int].W as int
    } else {
        let rest = least_w(nodes, kids, n - 1);
        if nodes[kids[n - 1] as int].W < rest { nodes[kids[n - 1] as int].W as int } else { rest }
    }
}

/// The highest score among the first `n` of the nodes at the places
/// `kids`.
pub open spec fn most_w(nodes: Seq<Node>, kids: Seq<usize>, n: int) -> int
    decreases n,
{
    if n <= 1 {
        nodes[kids[0] as int].W as int
    } else {
        let rest = most_w(nodes, kids, n - 1);
        if nodes[kids[n - 1] as int].W > rest { nodes[kids[n - 1] as int].W as int } else { rest }
    }
}

/// Half of a number, rounded towards zero.
pub open spec fn half(x: int) -> int {
    if x >= 0 { x / 2 } else { -((-x) / 2) }
}

/// The spread of the scores of the nodes at the places `kids`: the highest
/// less the lowest; where they are equal, the score itself.
pub open spec fn spread_of(nodes: Seq<Node>, kids: Seq<usize>) -> int {
    let low = least_w(nodes, kids, kids.len() as int);
    let high = most_w(nodes, kids, kids.len() as int);
    if high == low { low } else { high - low }
}

/// The score above which the scores of the nodes at the places `kids` are
/// counted: the lowest of them; where they are all equal, half of it.
pub open spec fn floor_of(nodes: Seq<Node>, kids: Seq<usize>) -> int {
    let low = least_w(nodes, kids, kids.len() as int);
    let high = most_w(nodes, kids, kids.len() as int);
    if high == low { half(low) } else { low }
}

/// What a search of the game tree prefers where the game is not over holds
/// the board that its move leaves.
pub proof fn lemma_best_made(best: &BestPos, pos: &Position)
    requires
        pos.next_move.is_some(),
        best.pos.is_some(),
        is_ordering(best.pos_list@, pos),
        one_of(&best.pos.unwrap(), best.pos_list@),
    ensures
        best.pos.unwrap().mov.is_some(),
        best.pos.unwrap().pos.cells@ == made_cells(pos.cells@, best.pos.unwrap().mov.unwrap()@),
{
    let e = best.pos.unwrap();
    let order = choose|order: Seq<usize>| ordered_by(best.pos_list@, pos, order);
    let k = choose|k: int|
        0 <= k < best.pos_list@.len() && e.move_view() == (#[trigger] best.pos_list@[k]).move_view() && e.pos.cells@
            == best.pos_list@[k].pos.cells@ && e.pos.next_move == best.pos_list@[k].pos.next_move;
    let i = order[k] as int;
    assert(is_child(&best.pos_list@[k], pos, i));
}

/// What a search of the game tree prefers where the game is not over holds,
/// if it came by a capture chain, the pieces that the chain took, in the
/// order of its jumps.
pub proof fn law_answer_holds_captured(best: &BestPos, pos: &Position)
    requires
        pos.next_move.is_some(),
        best.pos.is_some(),
        is_ordering(best.pos_list@, pos),
        one_of(&best.pos.unwrap(), best.pos_list@),
    ensures
        best.pos.unwrap().mov.is_some(),
        ({
            let m = best.pos.unwrap().mov.unwrap()@;
            m.mov.is_none() && m.strike.is_some() ==> best.pos.unwrap().pos.took_pieces@ == taken(
                pos.cells@,
                takes_of(m.strike.unwrap()),
            )
        }),
{
    let e = best.pos.unwrap();
    let order = choose|order: Seq<usize>| ordered_by(best.pos_list@, pos, order);
    let k = choose|k: int|
        0 <= k < best.pos_list@.len() && e.move_view() == (#[trigger] best.pos_list@[k]).move_view() && e.pos.cells@
            == best.pos_list@[k].pos.cells@ && e.pos.next_move == best.pos_list@[k].pos.next_move
            && e.pos.took_pieces@ == best.pos_list@[k].pos.took_pieces@;
    let i = order[k] as int;
    assert(is_child(&best.pos_list@[k], pos, i));
}

/// What a search of the game tree prefers where the game is not over came
/// by a legal move.
pub proof fn lemma_best_legal(best: &BestPos, pos: &Position)
    requires
        pos.next_move.is_some(),
        best.pos.is_some(),
        is_ordering(best.pos_list@, pos),
        one_of(&best.pos.unwrap(), best.pos_list@),
    ensures
        best.pos.unwrap().mov.is_some(),
        exists|i: int| 0 <= i < moves_of(pos).len() && #[trigger] moves_of(pos)[i] == best.pos.unwrap().mov.unwrap()@,
{
    let e = best.pos.unwrap();
    let order = choose|order: Seq<usize>| ordered_by(best.pos_list@, pos, order);
    let k = choose|k: int|
        0 <= k < best.pos_list@.len() && e.move_view() == (#[trigger] best.pos_list@[k]).move_view() && e.pos.cells@
            == best.pos_list@[k].pos.cells@ && e.pos.next_move == best.pos_list@[k].pos.next_move;
    let i = order[k] as int;
    assert(is_child(&best.pos_list@[k], pos, i));
    assert(moves_of(pos)[i] == e.mov.unwrap()@);
}

/// What a request for a move answers: how the game ended, if it has, else
/// what the search prefers.
#[derive(Debug)]
pub enum Advice {
    Finished(FinishType),
    Best(BestPos),
}

/// What making the best move answers: how the game ended, if it has, else
/// the boards that can follow.
#[derive(Debug)]
pub enum Outlook {
    Finished(FinishType),
    Boards(Vec<Vec<i32>>),
}

/// The nodes `b` are the nodes `a`, each with its score, its number of
/// visits and its end of the game, maybe with more children, and maybe
/// with more nodes behind them.
pub open spec fn kept_tree(a: Seq<Node>, b: Seq<Node>) -> bool {
    grown_tree(a, b) && same_scores(a, b) && same_ends(a, b, -1)
}

/// Entry `a` holds the board, the side to move and the move of entry `b`.
pub open spec fn same_step(a: &PositionAndMove, b: &PositionAndMove) -> bool {
    same_position(&a.pos, &b.pos) && a.move_view() == b.move_view()
}

/// Entry `e` holds the `j`-th legal move of `pos` and the board that the
/// move leads to.
pub open spec fn leads(pos: &Position, e: &PositionAndMove, j: int) -> bool {
    &&& 0 <= j < moves_of(pos).len()
    &&& e.move_view() == Some(moves_of(pos)[j])
    &&& e.pos.cells@ == made_cells(pos.cells@, moves_of(pos)[j])
}

/// Each of the nodes `a` but node `n` is the same in `b`.
pub open spec fn others_same(a: Seq<Node>, b: Seq<Node>, n: int) -> bool {
    forall|k: int| 0 <= k < a.len() && k < b.len() && k != n ==> #[trigger] b[k] == a[k]
}

/// The `j`-th of the nodes at the places `kids` holds position `pos`.
pub open spec fn holds(nodes: Seq<Node>, kids: Seq<usize>, j: int, pos: &Position) -> bool {
    same_position(&nodes[kids[j] as int].pos_mov.pos, pos)
}

/// Node `c` is the first of the nodes at the places `kids` that holds
/// position `pos`.
pub open spec fn first_holder(nodes: Seq<Node>, kids: Seq<usize>, pos: &Position, c: usize) -> bool {
    exists|i: int|
        0 <= i < kids.len() && kids[i] == c && #[trigger] holds(nodes, kids, i, pos) && forall|j: int|
            0 <= j < i ==> !#[trigger] holds(nodes, kids, j, pos)
}

impl Game {
    /// The tree of the game, which there must be.
    pub open spec fn the_tree(&self) -> McTree {
        self.tree.unwrap()
    }

    /// The position at the root of the tree, with the move that led to it.
    pub open spec fn root_entry(&self) -> PositionAndMove {
        self.the_tree().nodes@[self.the_tree().root as int].pos_mov
    }

    /// The position at the root of the tree.
    pub open spec fn root_pos(&self) -> Position {
        self.the_tree().nodes@[self.the_tree().root as int].pos_mov.pos
    }

    /// Everything but the tree is as in `other`.
    pub open spec fn same_but_tree(&self, other: &Game) -> bool {
        &&& self.position_environment == other.position_environment
        &&& self.max_depth == other.max_depth
        &&& self.mcts_lim == other.mcts_lim
        &&& self.method == other.method
        &&& self.position_history == other.position_history
        &&& self.current_position == other.current_position
    }

    /// Gives the game a search tree, if it has none: one node with the
    /// position on the board.
    pub fn init_tree(&mut self)
        requires
            old(self).wf(),
            old(self).current_position.next_move.is_some(),
        ensures
            final(self).wf(),
            final(self).same_but_tree(old(self)),
            final(self).tree.is_some(),
            old(self).tree.is_some() ==> final(self).tree == old(self).tree,
            old(self).tree.is_none() ==> final(self).the_tree().nodes@.len() == 1 && final(self).the_tree().at_start()
                && final(self).root_pos().same_as(&old(self).current_position) && final(self).the_tree().cache.is_none()
                && final(self).the_tree().pending@.len() == 0,
    {
        if self.tree.is_none() {
            self.tree = Some(McTree::new(self.current_position.clone()));
        }
    }

    /// How the game ended at the root of the tree, if it ended there. The
    /// game gets a tree if it has none.
    pub fn check_tree_for_finish(&mut self) -> (r: Option<MCTSRes>)
        requires
            old(self).wf(),
            old(self).current_position.next_move.is_some(),
        ensures
            final(self).wf(),
            final(self).same_but_tree(old(self)),
            final(self).tree.is_some(),
            old(self).tree.is_some() ==> final(self).tree == old(self).tree,
            r.is_some() == final(self).the_tree().nodes@[final(self).the_tree().root as int].finish.is_some(),
            r.is_some() ==> r.unwrap().finish == final(self).the_tree().nodes@[final(self).the_tree().root as int].finish
                && r.unwrap().board_list.is_none() && r.unwrap().pos_move.is_none(),
    {
        self.init_tree();
        match &self.tree {
            Some(tree) => match tree.nodes[tree.root].finish {
                Some(f) => Some(MCTSRes { finish: Some(f), board_list: None, pos_move: None }),
                None => None,
            },
            None => None,
        }
    }

    /// The tree holds the position on the board at its root.
    pub open spec fn in_step(&self) -> bool {
        self.tree.is_some() && same_position(&self.root_pos(), &self.current_position)
    }

    /// The tree is the tree of `before` gone on to the position on the
    /// board: its nodes are kept (see [`kept_tree`]), and its root is the
    /// first child of the root of `before` that holds the position.
    pub open spec fn gone_on(&self, before: &Game) -> bool {
        let nodes = self.the_tree().nodes@;
        &&& kept_tree(before.the_tree().nodes@, nodes)
        &&& first_holder(nodes, nodes[before.the_tree().root as int].childs@, &self.current_position, self.the_tree().root)
    }

    /// The tree is begun anew with the position on the board, because the
    /// tree of `before` did not hold it: the root is the first node, never
    /// visited, and no child of the root of `before`, which had one for each
    /// legal move in the end, held the position.
    pub open spec fn begun_anew(&self, before: &Game) -> bool {
        &&& self.the_tree().at_start()
        &&& exists|mid: Seq<Node>|
            {
                let kids = mid[before.the_tree().root as int].childs@;
                &&& #[trigger] kept_tree(before.the_tree().nodes@, mid)
                &&& kids.len() == moves_of(&before.root_pos()).len()
                &&& forall|j: int| 0 <= j < kids.len() ==> !#[trigger] holds(mid, kids, j, &self.current_position)
            }
    }

    /// What bringing the tree in step with the board makes of the game
    /// `before`; see [`Game::preparing_tree`]. Nothing changes but the
    /// tree, which holds the position on the board at its root afterwards,
    /// with a child for each legal move.
    pub open spec fn prepared(&self, before: &Game) -> bool {
        let tree = self.the_tree();
        &&& self.wf()
        &&& self.same_but_tree(before)
        &&& self.in_step()
        &&& tree.nodes@[tree.root as int].childs@.len() == moves_of(&self.root_pos()).len()
        &&& before.tree.is_none() ==> tree.at_start() && tree.cache.is_none() && tree.pending@.len() == 0
        &&& before.tree.is_some() ==> tree.cache == before.the_tree().cache && tree.pending
            == before.the_tree().pending
        &&& before.in_step() ==> tree.root == before.the_tree().root && kept_tree(before.the_tree().nodes@, tree.nodes@)
            && others_same(before.the_tree().nodes@, tree.nodes@, before.the_tree().root as int)
            && self.root_entry().mov == before.root_entry().mov
        &&& before.tree.is_some() && !before.in_step() ==> self.gone_on(before) || self.begun_anew(before)
    }

    /// Brings the tree in step with the board. A game without a tree gets
    /// one, with the position on the board at its root. If the root does
    /// not hold the position on the board, the root gets a child for each
    /// legal move, and the first child that holds the position becomes the
    /// root; if none does, a new tree is begun with that position, with the
    /// cache of the old one. Then the root gets a child for each legal
    /// move. Where the root held the position, no other node changes.
    pub fn preparing_tree(&mut self)
        requires
            old(self).wf(),
            old(self).current_position.next_move.is_some(),
        ensures
            final(self).prepared(old(self)),
    {
        let ghost had_tree = self.tree.is_some();
        self.init_tree();
        let mut holder: Option<McTree> = None;
        core::mem::swap(&mut holder, &mut self.tree);
        let mut tree = holder.unwrap();
        let root = tree.root;
        let ghost env = self.position_environment;
        let ghost start = tree.nodes@;
        let ghost mut fresh_start = !had_tree;
        proof {
            lemma_grown_self(start);
        }
        if !(tree.nodes[root].pos_mov.pos == self.current_position) {
            tree.expand(root);
            let ghost mid = tree.nodes@;
            let kids = tree.tree_childs();
            let mut found: Option<usize> = None;
            let mut i: usize = 0;
            while i < kids.len() && found.is_none()
                invariant
                    tree.wf(),
                    tree.root == root,
                    tree.nodes@ == mid,
                    kids@ == tree.nodes@[root as int].childs@,
                    i <= kids@.len(),
                    tree.nodes@[root as int].pos_mov.pos.environment == env,
                    forall|j: int| 0 <= j < i - 1 ==> !#[trigger] holds(mid, kids@, j, &self.current_position),
                    found.is_none() ==> forall|j: int|
                        0 <= j < i ==> !#[trigger] holds(mid, kids@, j, &self.current_position),
                    match found {
                        Some(c) => c < tree.nodes@.len() && i > 0 && kids@[i - 1] == c && holds(
                            mid,
                            kids@,
                            i - 1,
                            &self.current_position,
                        ) && tree.nodes@[c as int].pos_mov.pos.environment == env,
                        None => true,
                    },
                decreases kids@.len() - i + if found.is_none() { 1int } else { 0int },
            {
                proof {
                    assert(kids@.contains(kids@[i as int]));
                    lemma_child_side(tree.nodes@, root as int, kids@[i as int]);
                }
                if tree.nodes[kids[i]].pos_mov.pos == self.current_position {
                    found = Some(kids[i]);
                }
                i += 1;
            }
            match found {
                Some(c) => {
                    tree.new_from_node(c);
                },
                None => {
                    let mut fresh = McTree::new(self.current_position.clone());
                    core::mem::swap(&mut fresh.cache, &mut tree.cache);
                    core::mem::swap(&mut fresh.pending, &mut tree.pending);
                    tree = fresh;
                    proof {
                        reveal(node_ok);
                        assert(node_ok(tree.nodes@, 0));
                        assert(kept_tree(start, mid));
                        fresh_start = true;
                    }
                },
            }
            let now = tree.root;
            assert(tree.nodes@[now as int].pos_mov.pos.environment == env);
            let ghost before = tree.nodes@;
            tree.expand(now);
            assert(tree.nodes@[now as int].pos_mov.pos.environment == before[now as int].pos_mov.pos.environment);
            proof {
                if found.is_some() {
                    lemma_grown_twice(start, mid, tree.nodes@);
                    let at = i - 1;
                    let grown = tree.nodes@[root as int].childs@;
                    assert(grown.take(kids@.len() as int) == kids@);
                    assert(grown[at] == kids@[at]);
                    assert forall|j: int| 0 <= j < at implies !#[trigger] holds(
                        tree.nodes@,
                        grown,
                        j,
                        &self.current_position,
                    ) by {
                        assert(grown[j] == kids@[j]);
                        assert(kids@.contains(kids@[j]));
                        lemma_child_side(mid, root as int, kids@[j]);
                        assert(!holds(mid, kids@, j, &self.current_position));
                    }
                    assert(holds(tree.nodes@, grown, at, &self.current_position));
                }
            }
            self.tree = Some(tree);
            proof {
                if found.is_some() {
                    assert(self.gone_on(old(self)));
                } else if had_tree {
                    assert(self.begun_anew(old(self)));
                }
            }
        } else {
            let ghost before = tree.nodes@;
            tree.expand(root);
            assert(tree.nodes@[root as int].pos_mov.pos.environment == before[root as int].pos_mov.pos.environment);
            self.tree = Some(tree);
        }
    }

    /// The game has been taken to node `node` of `tree`, with `listed` for
    /// its history before: the tree of the game is `tree` with that node
    /// for its root, the position of the node is on the board, and a copy
    /// of what the node holds stands behind the history, as a check by the
    /// rules leaves it.
    pub open spec fn taken_to(&self, tree: &McTree, listed: Seq<PositionAndMove>, node: int) -> bool {
        &&& self.wf()
        &&& self.tree.is_some()
        &&& self.the_tree().root == node
        &&& self.the_tree().nodes == tree.nodes
        &&& self.the_tree().cache == tree.cache
        &&& self.the_tree().pending == tree.pending
        &&& self.current_position.same_as(&tree.nodes@[node].pos_mov.pos)
        &&& self.position_history.list@.len() == listed.len() + 1
        &&& self.position_history.list@.drop_last() == listed
        &&& exists|entry: PositionAndMove, end: Option<FinishType>|
            entry.same_as(&tree.nodes@[node].pos_mov) && #[trigger] self.position_history.checked(
                listed.push(entry),
                end,
            )
    }

    /// Takes the game to a node of the tree: its position goes on the board
    /// and behind the history, where the rules are applied to it, and the
    /// node becomes the root.
    pub fn apply_node_move(&mut self, node: usize)
        requires
            old(self).wf(),
            old(self).tree.is_some(),
            node < old(self).the_tree().nodes@.len(),
            old(self).the_tree().nodes@[node as int].pos_mov.pos.environment == old(self).position_environment,
        ensures
            final(self).position_environment == old(self).position_environment,
            final(self).max_depth == old(self).max_depth,
            final(self).mcts_lim == old(self).mcts_lim,
            final(self).method == old(self).method,
            final(self).taken_to(&old(self).the_tree(), old(self).position_history.list@, node as int),
    {
        proof {
            reveal(node_ok);
        }
        let mut holder: Option<McTree> = None;
        core::mem::swap(&mut holder, &mut self.tree);
        let mut tree = holder.unwrap();
        assert(node_ok(tree.nodes@, node as int));
        self.current_position = tree.nodes[node].pos_mov.pos.clone();
        let entry = tree.nodes[node].pos_mov.clone();
        let ghost before = self.position_history.list@;
        let end = self.position_history.push_rc(entry);
        proof {
            assert(before.push(entry).drop_last() =~= before);
        }
        tree.new_from_node(node);
        self.tree = Some(tree);
        proof {
            assert(self.position_history.checked(before.push(entry), end));
        }
    }

    /// `rows` are the boards of the children of the root of the tree, in
    /// their order, as [`Game::tree_board_list`] gives them.
    pub open spec fn shows(&self, rows: Seq<Vec<i32>>) -> bool {
        let kids = self.the_tree().nodes@[self.the_tree().root as int].childs@;
        &&& rows.len() == kids.len()
        &&& forall|i: int|
            0 <= i < rows.len() ==> {
                let node = self.the_tree().nodes@[kids[i] as int];
                (#[trigger] rows[i])@ == weights(node.pos_mov.pos.cells@).push(
                    narrowed(node.W - floor_of(self.the_tree().nodes@, kids)),
                ).push(narrowed(spread_of(self.the_tree().nodes@, kids)))
            }
    }

    /// How the game has ended at the root of the tree, if it has: as the
    /// root says, or, where the side to move has no legal move, with a win
    /// of the other side.
    pub open spec fn ended_at_root(&self) -> Option<FinishType> {
        let root = self.the_tree().nodes@[self.the_tree().root as int];
        if root.finish.is_some() {
            root.finish
        } else if moves_of(&root.pos_mov.pos).len() == 0 {
            if root.pos_mov.pos.next_move == Some(Color::White) {
                Some(FinishType::BlackWin)
            } else {
                Some(FinishType::WhiteWin)
            }
        } else {
            None
        }
    }

    /// The boards of the children of the root of the tree, each as a row of
    /// signed weights, followed by two numbers: the score of the child
    /// above the lowest score among the children, and the spread of the
    /// scores; where all scores are equal, the score above half of it, and
    /// the score itself. Numbers beyond the range of their type are held at
    /// its ends.
    pub fn tree_board_list(&self) -> (r: Vec<Vec<i32>>)
        requires
            self.wf(),
            self.tree.is_some(),
        ensures
            self.shows(r@),
    {
        let tree = match &self.tree {
            Some(t) => t,
            None => {
                return Vec::new();
            },
        };
        let stats = tree.child_stats(tree.root);
        let kids = tree.tree_childs();
        let mut board_list: Vec<Vec<i32>> = Vec::new();
        if stats.len() == 0 {
            return board_list;
        }
        let ghost nodes = tree.nodes@;
        let mut w_min: i64 = stats[0].W;
        let mut w_max: i64 = stats[0].W;
        let mut s: usize = 1;
        while s < stats.len()
            invariant
                1 <= s <= stats@.len(),
                stats@.len() == kids@.len(),
                forall|i: int| 0 <= i < stats@.len() ==> (#[trigger] stats@[i]).W == nodes[kids@[i] as int].W,
                w_min == least_w(nodes, kids@, s as int),
                w_max == most_w(nodes, kids@, s as int),
            decreases stats@.len() - s,
        {
            if stats[s].W < w_min {
                w_min = stats[s].W;
            }
            if stats[s].W > w_max {
                w_max = stats[s].W;
            }
            s += 1;
        }
        let mut delta_w: i128 = w_max as i128 - w_min as i128;
        let mut floor: i128 = w_min as i128;
        if delta_w == 0 {
            delta_w = floor;
            floor = if floor >= 0 { floor / 2 } else { -((-floor) / 2) };
        }
        let mut i: usize = 0;
        while i < kids.len()
            invariant
                tree.wf(),
                self.tree == Some(*tree),
                nodes == tree.nodes@,
                kids@ == tree.nodes@[tree.root as int].childs@,
                stats@.len() == kids@.len(),
                forall|x: int| 0 <= x < stats@.len() ==> (#[trigger] stats@[x]).W == nodes[kids@[x] as int].W,
                floor == floor_of(nodes, kids@),
                delta_w == spread_of(nodes, kids@),
                i64::MIN <= floor <= i64::MAX,
                i <= kids@.len(),
                board_list@.len() == i,
                forall|k: int|
                    0 <= k < i ==> {
                        let node = nodes[kids@[k] as int];
                        (#[trigger] board_list@[k])@ == weights(node.pos_mov.pos.cells@).push(
                            narrowed(node.W - floor_of(nodes, kids@)),
                        ).push(narrowed(spread_of(nodes, kids@)))
                    },
            decreases kids@.len() - i,
        {
            proof {
                assert(kids@.contains(kids@[i as int]));
                lemma_child_side(tree.nodes@, tree.root as int, kids@[i as int]);
            }
            let mut board = board_of(&tree.nodes[kids[i]].pos_mov.pos.cells);
            board.push(narrow(stats[i].W as i128 - floor));
            board.push(narrow(delta_w));
            board_list.push(board);
            i += 1;
        }
        board_list
    }

    /// What a search by rollouts has made of the game `before`, with its
    /// answer `r`; see [`Game::find_mcts_and_make_best_move`]. Either the
    /// game has stayed where it was: then the tree is in step with the
    /// board, and the answer says how the game has ended at its root, or,
    /// if it has not, holds the child of the root that the policy chose in
    /// the end. Or the game has moved on, which it does only if asked to
    /// and if there is a legal move: then the root of the tree is the child
    /// that the policy chose in the end among the children of the node that
    /// held the position of `before`, the position on the board is the one
    /// at the root, and the answer says how the game ended there, or, if it
    /// has not, holds that position and the boards that can follow.
    pub open spec fn rolled_out<P: Fn(&Vec<Quality>, i64, bool) -> usize>(
        &self,
        before: &Game,
        apply: bool,
        policy: &P,
        r: &MCTSRes,
    ) -> bool {
        let tree = self.the_tree();
        &&& self.wf()
        &&& self.tree.is_some()
        &&& self.position_environment == before.position_environment
        &&& self.max_depth == before.max_depth
        &&& self.mcts_lim == before.mcts_lim
        &&& self.method == before.method
        &&& self.moved(before) || self.stayed(before)
        &&& self.moved(before) ==> apply && moves_of(&before.current_position).len() > 0
        &&& self.stayed(before) && apply ==> r.finish.is_some()
        &&& self.stayed(before) ==> {
            &&& self.in_step()
            &&& r.finish == self.ended_at_root()
            &&& r.board_list.is_none()
            &&& r.finish.is_none() ==> exists|stats: Vec<Quality>, answer: usize, best: usize| #[trigger]
                tree.answered(policy, stats, answer, best) && best < tree.nodes@.len() && same_step(
                    &r.pos_move.unwrap(),
                    &tree.nodes@[best as int].pos_mov,
                )
        }
        &&& self.moved(before) ==> {
            &&& r.finish == tree.nodes@[tree.root as int].finish
            &&& self.in_step()
            &&& succeeds(&self.current_position, &before.current_position)
            &&& exists|parent: int, stats: Vec<Quality>, answer: usize|
                0 <= parent < tree.root && #[trigger] tree.answered_at(parent, policy, stats, answer, tree.root)
                    && same_position(&tree.nodes@[parent].pos_mov.pos, &before.current_position)
            &&& r.finish.is_none() ==> {
                &&& same_step(&r.pos_move.unwrap(), &tree.nodes@[tree.root as int].pos_mov)
                &&& tree.nodes@[tree.root as int].childs@.len() == moves_of(&self.root_pos()).len()
                &&& r.board_list.is_some()
                &&& self.shows(r.board_list.unwrap()@)
            }
        }
        &&& r.finish.is_some() ==> r.pos_move.is_none() && r.board_list.is_none()
        &&& r.finish.is_none() ==> r.pos_move.is_some() && r.pos_move.unwrap().pos.wf() && succeeds(
            &r.pos_move.unwrap().pos,
            &before.current_position,
        )
        &&& r.finish.is_none() ==> exists|j: int| #[trigger] leads(&before.current_position, &r.pos_move.unwrap(), j)
        &&& exists|prepared: Game| #[trigger] self.rolled_from(before, &prepared, apply, policy)
    }

    /// How a search by rollouts has come from the game `before` to this
    /// one: the tree was brought in step with the board, which made
    /// `prepared` of the game (see [`Game::prepared`]). If the game had
    /// ended at the root then, that is the tree of the game. Else the tree
    /// was searched (see [`McTree::searched`]), and the game followed what
    /// was found (see [`Game::followed`]).
    pub open spec fn rolled_from<P: Fn(&Vec<Quality>, i64, bool) -> usize>(
        &self,
        before: &Game,
        prepared: &Game,
        apply: bool,
        policy: &P,
    ) -> bool {
        &&& prepared.prepared(before)
        &&& prepared.ended_at_root().is_some() ==> self.tree == prepared.tree
        &&& prepared.ended_at_root().is_none() ==> exists|found: McTree, best: usize| #[trigger]
            prepared.the_tree().searched(&found, prepared.position_history.list@, prepared.mcts_lim, policy, best)
                && self.followed(&found, prepared.position_history.list@, best, apply)
    }

    /// The game has followed a search that made `found` of the tree and
    /// preferred the child `best` of its root, with `listed` for the
    /// history before. If the move was not to be made, `found` is the tree
    /// of the game. Else the game was taken to the child (see
    /// [`Game::taken_to`]), which made `applied` of it; that is the game if
    /// it has ended there, and else the tree was brought in step with the
    /// board once more (see [`Game::prepared`]).
    pub open spec fn followed(&self, found: &McTree, listed: Seq<PositionAndMove>, best: usize, apply: bool) -> bool {
        if apply {
            exists|applied: Game| #[trigger]
                applied.taken_to(found, listed, best as int) && if applied.the_tree().nodes@[best as int].finish.is_some() {
                    *self == applied
                } else {
                    self.prepared(&applied)
                }
        } else {
            self.tree == Some(*found)
        }
    }

    /// Searches by rollouts for the best move of the side to move, and
    /// makes it if `apply`. The tree is brought in step with the board
    /// first. If the game ended at the root, or the side to move has no
    /// move, the answer says how it ended (see [`Game::ended_at_root`]).
    /// Else the tree is searched and the answer is the position the search
    /// prefers, the child of the root that the policy chose in the end;
    /// where the move is made, the game is taken to that position, and the
    /// answer says how the game ended there, or holds the boards that can
    /// follow.
    pub fn find_mcts_and_make_best_move<P: Fn(&Vec<Quality>, i64, bool) -> usize>(
        &mut self,
        apply: bool,
        policy: &P,
    ) -> (r: MCTSRes)
        requires
            old(self).wf(),
            old(self).current_position.next_move.is_some(),
            is_policy(policy),
        ensures
            final(self).rolled_out(old(self), apply, policy, &r),
    {
        let ghost start = self.current_position;
        self.preparing_tree();
        let finish = self.check_tree_for_finish();
        let ghost prepared = *self;
        assert(prepared.prepared(old(self)));
        if finish.is_some() {
            assert(self.rolled_from(old(self), &prepared, apply, policy));
            return finish.unwrap();
        }
        let mut holder: Option<McTree> = None;
        core::mem::swap(&mut holder, &mut self.tree);
        let mut tree = holder.unwrap();
        let root = tree.root;
        proof {
            reveal(node_ok);
        }
        assert(node_ok(tree.nodes@, root as int));
        if tree.nodes[root].childs.len() == 0 {
            let lost = match tree.nodes[root].pos_mov.pos.next_move {
                Some(Color::White) => FinishType::BlackWin,
                _ => FinishType::WhiteWin,
            };
            self.tree = Some(tree);
            assert(self.rolled_from(old(self), &prepared, apply, policy));
            return MCTSRes { finish: Some(lost), board_list: None, pos_move: None };
        }
        let ghost prepared_nodes = tree.nodes@;
        let ghost listed = self.position_history.list@;
        let node = tree.search(&mut self.position_history, self.mcts_lim, policy);
        let ghost found = tree;
        let ghost (stats, answer) = choose|stats: Vec<Quality>, answer: usize| #[trigger]
            found.answered(policy, stats, answer, node);
        proof {
            lemma_child_side(tree.nodes@, root as int, node);
            assert(node_ok(tree.nodes@, node as int));
            assert(tree.nodes@[root as int].pos_mov.pos.cells@ == prepared_nodes[root as int].pos_mov.pos.cells@);
            lemma_child_succeeds(tree.nodes@, root as int, node, &start);
            assert(node_ok(tree.nodes@, root as int));
            assert(moves_of(&tree.nodes@[root as int].pos_mov.pos) == moves_of(
                &prepared_nodes[root as int].pos_mov.pos,
            ));
            assert(moves_of(&tree.nodes@[root as int].pos_mov.pos) == moves_of(&start));
            assert(prepared.the_tree().searched(&found, listed, prepared.mcts_lim, policy, node));
        }
        let pos_move = tree.nodes[node].pos_mov.clone();
        proof {
            let j = choose|j: int| #[trigger] records(found.nodes@, root as int, node as int, j);
            assert(leads(&start, &pos_move, j));
        }
        self.tree = Some(tree);
        if apply {
            self.apply_node_move(node);
            let finish = self.check_tree_for_finish();
            let ghost applied = *self;
            assert(applied.taken_to(&found, listed, node as int));
            if finish.is_some() {
                proof {
                    assert(self.the_tree().answered_at(root as int, policy, stats, answer, node));
                    assert(self.followed(&found, listed, node, apply));
                    assert(self.rolled_from(old(self), &prepared, apply, policy));
                }
                return finish.unwrap();
            }
            let ghost applied_nodes = self.the_tree().nodes@;
            self.preparing_tree();
            proof {
                let tree = self.the_tree();
                assert(tree.root == node);
                assert(tree.nodes@[root as int] == applied_nodes[root as int]);
                let kids = applied_nodes[root as int].childs@;
                assert forall|i: int| 0 <= i < kids.len() implies tree.nodes@[kids[i] as int].W == applied_nodes[kids[i] as int].W
                    && tree.nodes@[kids[i] as int].N == applied_nodes[kids[i] as int].N by {
                    assert(child_ok(applied_nodes, root as int, i));
                }
                assert(tree.answered_at(root as int, policy, stats, answer, node));
                assert(self.followed(&found, listed, node, apply));
                assert(self.rolled_from(old(self), &prepared, apply, policy));
            }
            let board_list = self.tree_board_list();
            return MCTSRes { finish: None, board_list: Some(board_list), pos_move: Some(pos_move) };
        }
        proof {
            assert(self.the_tree().answered(policy, stats, answer, node));
            assert(self.followed(&found, listed, node, apply));
            assert(self.rolled_from(old(self), &prepared, apply, policy));
        }
        MCTSRes { finish: None, board_list: None, pos_move: Some(pos_move) }
    }

    /// The game has gone one position on from `before`: the history holds
    /// what it held and one position more.
    pub open spec fn moved(&self, before: &Game) -> bool {
        &&& self.position_history.list@.len() == before.position_history.list@.len() + 1
        &&& self.position_history.list@.drop_last() == before.position_history.list@
    }

    /// The game is where it was in `before`: the position on the board and
    /// the history are the same.
    pub open spec fn stayed(&self, before: &Game) -> bool {
        &&& self.current_position == before.current_position
        &&& self.position_history.list@ == before.position_history.list@
    }
}

impl Game {
    /// Takes back the last two moves: the position before them goes on the
    /// board, and the tree is dropped. With fewer than two positions in the
    /// history nothing happens. The last position but one must have come by
    /// a move.
    pub fn mov_back(&mut self)
        requires
            old(self).wf(),
            old(self).position_history.list@.len() > 1 ==> old(self).position_history.list@[old(
                self,
            ).position_history.list@.len() - 2].mov.is_some(),
        ensures
            final(self).wf(),
            old(self).position_history.list@.len() <= 1 ==> *final(self) == *old(self),
            old(self).position_history.list@.len() > 1 ==> {
                let e = old(self).position_history.list@[old(self).position_history.list@.len() - 2];
                &&& final(self).tree.is_none()
                &&& final(self).position_history.list@ == old(self).position_history.list@.take(
                    old(self).position_history.list@.len() - 2,
                )
                &&& final(self).current_position.unmade_by(&e.pos, e.mov.unwrap()@)
            },
    {
        if self.position_history.list.len() > 1 {
            let ghost before = self.position_history.list@;
            proof {
                lemma_ok_at(before, self.position_environment, before.len() - 2);
                if before.len() > 2 {
                    lemma_ok_at(before, self.position_environment, before.len() - 3);
                }
            }
            let _last = self.position_history.pop();
            let pop = self.position_history.pop();
            let entry = pop.unwrap();
            self.current_position = entry.pos.clone();
            let mov = match &entry.mov {
                Some(m) => m.clone(),
                None => MoveItem { strike: None, mov: None },
            };
            self.current_position.unmake_move(&mov);
            self.tree = None;
            proof {
                assert(self.position_history.list@ =~= before.take(before.len() - 2));
            }
        }
    }

    /// Takes the game to the `i`-th child of the root of the tree: the
    /// child becomes the root, and its move, if it is a legal move on the
    /// board, is made and the position reached put behind the history.
    /// Returns how the game ended, if it did.
    pub fn move_by_tree_index(&mut self, i: usize) -> (r: Option<FinishType>)
        requires
            old(self).wf(),
            old(self).current_position.next_move.is_some(),
            old(self).tree.is_some(),
            i < old(self).the_tree().nodes@[old(self).the_tree().root as int].childs@.len(),
        ensures
            final(self).wf(),
            final(self).tree.is_some(),
            final(self).the_tree().root == old(self).the_tree().nodes@[old(self).the_tree().root as int].childs@[i as int],
            final(self).the_tree().nodes == old(self).the_tree().nodes,
            old(self).can_follow(i as int) ==> {
                &&& final(self).current_position.made_by(
                    &old(self).current_position,
                    old(self).child_move(i as int).unwrap(),
                )
                &&& final(self).position_history.list@.len() == old(self).position_history.list@.len() + 1
                &&& final(self).position_history.list@.drop_last() == old(self).position_history.list@
            },
            !old(self).can_follow(i as int) ==> {
                &&& r.is_none()
                &&& final(self).current_position.cells@ == old(self).current_position.cells@
                &&& final(self).current_position.next_move == old(self).current_position.next_move
                &&& final(self).position_history == old(self).position_history
            },
    {
        let mut holder: Option<McTree> = None;
        core::mem::swap(&mut holder, &mut self.tree);
        let mut tree = holder.unwrap();
        let kids = tree.tree_childs();
        let node = kids[i];
        proof {
            assert(kids@.contains(node));
            lemma_child_side(tree.nodes@, tree.root as int, node);
        }
        tree.new_from_node(node);
        let mov = tree.nodes[node].get_move();
        self.tree = Some(tree);
        match mov {
            Some(m) => {
                assert(old(self).child_move(i as int) == Some(m@));
                let total = self.current_position.count_moves();
                let mut k: usize = 0;
                let mut found = false;
                while k < total && !found
                    invariant
                        self.wf(),
                        self.current_position.next_move.is_some(),
                        self.tree.is_some(),
                        self.the_tree().root == node,
                        self.the_tree().nodes == old(self).the_tree().nodes,
                        self.position_history == old(self).position_history,
                        self.current_position.cells@ == old(self).current_position.cells@,
                        self.current_position.state == old(self).current_position.state,
                        self.current_position.next_move == old(self).current_position.next_move,
                        self.current_position.environment == old(self).current_position.environment,
                        self.current_position.took_pieces@ == old(self).current_position.took_pieces@,
                        total == moves_of(&old(self).current_position).len(),
                        k <= total,
                        old(self).child_move(i as int) == Some(m@),
                        found ==> applicable(self.current_position.cells@, m@),
                        found ==> old(self).can_follow(i as int),
                        !found ==> forall|x: int| 0 <= x < k ==> #[trigger] moves_of(&old(self).current_position)[x] != m@,
                    decreases total - k + if found { 0int } else { 1int },
                {
                    assert(moves_of(&self.current_position) == moves_of(&old(self).current_position));
                    let legal = self.current_position.nth_move(k);
                    if legal.same_move(&m) {
                        found = true;
                    }
                    k += 1;
                }
                if found {
                    let ghost before = self.current_position;
                    let r = self.make_move_by_move_item(&m);
                    proof {
                        assert(self.current_position.made_by(&old(self).current_position, m@)) by {
                            assert(crate::board::made_buffer(before.cells@, before.took_pieces@, m@)
                                == crate::board::made_buffer(
                                old(self).current_position.cells@,
                                old(self).current_position.took_pieces@,
                                m@,
                            ));
                        }
                    }
                    r
                } else {
                    None
                }
            },
            None => None,
        }
    }

    /// The move that led to the `i`-th child of the root of the tree.
    pub open spec fn child_move(&self, i: int) -> Option<crate::moves_list::MoveItemView> {
        let tree = self.the_tree();
        tree.nodes@[tree.nodes@[tree.root as int].childs@[i] as int].pos_mov.move_view()
    }

    /// The move that led to the `i`-th child of the root of the tree is a
    /// legal move on the board.
    pub open spec fn can_follow(&self, i: int) -> bool {
        &&& self.child_move(i).is_some()
        &&& exists|x: int|
            0 <= x < moves_of(&self.current_position).len() && #[trigger] moves_of(&self.current_position)[x]
                == self.child_move(i).unwrap()
    }

    /// Asks for the best move of the side to move, by the method of the
    /// game, and makes it if `apply`. The rules are applied to the last
    /// position of the history first: if they have ended the game there,
    /// the answer says how, and nothing else is done. Else the game tree is
    /// searched (see [`Game::best_move`]), or the tree of rollouts (see
    /// [`Game::find_mcts_and_make_best_move`]), or both (see
    /// [`Game::mix_method`]); where the tree of rollouts knows that the
    /// game has ended, the answer says how.
    pub fn get_or_apply_best_move<P: Fn(&Vec<Quality>, i64, bool) -> usize>(&mut self, apply: bool, policy: &P) -> (r:
        Advice)
        requires
            old(self).wf(),
            old(self).current_position.next_move.is_some(),
            moves_of(&old(self).current_position).len() > 0,
            is_policy(policy),
        ensures
            final(self).wf(),
            verdict(old(self).position_history.list@).is_some() ==> r is Finished && Some(r->Finished_0) == verdict(
                old(self).position_history.list@,
            ) && final(self).searched(old(self)),
            r is Finished && old(self).method == Method::Deep ==> verdict(old(self).position_history.list@).is_some(),
            r matches Advice::Best(b) ==> (b.pos.is_some() || old(self).method == Method::Mix) && (b.pos.is_some()
                ==> succeeds(&b.pos.unwrap().pos, &old(self).current_position)),
            r is Best && (r->Best_0).pos.is_some() && apply ==> {
                &&& final(self).current_position.cells@ == (r->Best_0).pos.unwrap().pos.cells@
                &&& final(self).position_history.list@.len() == old(self).position_history.list@.len() + 1
            },
            !apply ==> final(self).current_position.cells@ == old(self).current_position.cells@
                && final(self).position_history.list@.len() == old(self).position_history.list@.len(),
            verdict(old(self).position_history.list@).is_none() && old(self).method == Method::Deep ==> {
                &&& r matches Advice::Best(b)
                &&& is_ordering(b.pos_list@, &old(self).current_position)
                &&& one_of(&b.pos.unwrap(), b.pos_list@)
                &&& apply ==> exists|first: Game, mid: Game, i: int, end: Option<FinishType>| #[trigger]
                    final(self).searched_and_gone(old(self), &first, &mid, i, end) && Some(
                        moves_of(&old(self).current_position)[i],
                    ) == b.pos.unwrap().move_view()
                &&& !apply ==> exists|first: Game| #[trigger]
                    first.searched(old(self)) && final(self).searched(&first) && found_best(
                        &first,
                        final(self),
                        first.max_depth,
                        -0x4000_0000i32,
                        0x3fff_ffffi32,
                        0,
                        false,
                        &b,
                    )
            },
            verdict(old(self).position_history.list@).is_none() && old(self).method == Method::MCTS ==> exists|
                first: Game,
                res: MCTSRes,
            | #[trigger]
                final(self).rolled_out(&first, apply, policy, &res) && first.searched(old(self)) && r.says(&res),
            verdict(old(self).position_history.list@).is_none() && old(self).method == Method::Mix ==> r is Best
                && exists|first: Game| #[trigger]
                first.searched(old(self)) && final(self).mixed_out(&first, apply, policy, &(r->Best_0)),
    {
        let ghost start = self.current_position;
        let finish = self.position_history.finish_check();
        if let Some(f) = finish {
            return Advice::Finished(f);
        }
        let ghost first = *self;
        let ghost checked = self.position_history.list@;
        match self.method {
            Method::Deep => {
                let depth = self.max_depth;
                let best_move = self.best_move(depth, i32::MIN / 2, i32::MAX / 2, 0, false);
                proof {
                    if old(self).position_history.list@.len() > 0 {
                        lemma_open_stays_open(old(self).position_history.list@, &first.position_history);
                    }
                    lemma_best_succeeds(&best_move, &start);
                    lemma_best_made(&best_move, &start);
                    lemma_best_legal(&best_move, &start);
                }
                let ghost mid = *self;
                if apply {
                    let end = self.make_best_move(&best_move);
                    proof {
                        let m = best_move.pos.unwrap().mov.unwrap()@;
                        let i = choose|i: int| 0 <= i < moves_of(&start).len() && #[trigger] moves_of(&start)[i] == m;
                        assert(found_best(
                            &first,
                            &mid,
                            first.max_depth,
                            -0x4000_0000i32,
                            0x3fff_ffffi32,
                            0,
                            false,
                            &best_move,
                        ));
                        assert(best_move.pos.unwrap().move_view() == Some(moves_of(&old(self).current_position)[i]));
                        assert(self.searched_and_gone(old(self), &first, &mid, i, end));
                    }
                } else {
                    assert(first.searched(old(self)) && self.searched(&first) && found_best(
                        &first,
                        self,
                        first.max_depth,
                        -0x4000_0000i32,
                        0x3fff_ffffi32,
                        0,
                        false,
                        &best_move,
                    ));
                }
                Advice::Best(best_move)
            },
            Method::MCTS => {
                let best = self.find_mcts_and_make_best_move(apply, policy);
                let ghost res = best;
                let r = match best.finish {
                    Some(f) => Advice::Finished(f),
                    None => Advice::Best(BestPos { pos: best.pos_move, pos_list: Vec::new(), deep_eval: 0 }),
                };
                proof {
                    assert(self.rolled_out(&first, apply, policy, &res) && first.searched(old(self)) && r.says(&res));
                }
                r
            },
            Method::Mix => {
                let best = self.mix_method(apply, policy);
                proof {
                    assert(first.searched(old(self)) && self.mixed_out(&first, apply, policy, &best));
                }
                Advice::Best(best)
            },
        }
    }

    /// Node `c` is a child of node `parent` of the tree, which holds the
    /// position `pos`; the root of the tree is the child if the game was
    /// taken there, else the parent.
    pub open spec fn follows_child(&self, pos: &Position, parent: int, c: usize, taken: bool) -> bool {
        let tree = self.the_tree();
        &&& 0 <= parent < tree.nodes@.len()
        &&& c < tree.nodes@.len()
        &&& tree.nodes@[parent].childs@.contains(c)
        &&& same_position(&tree.nodes@[parent].pos_mov.pos, pos)
        &&& tree.root == if taken { c as int } else { parent }
    }

    /// Searches the game tree first and then by rollouts: the answer is
    /// the child of the root of the tree with the highest score among those
    /// whose positions the search of the game tree values within 5000 of
    /// its best, or among all children if none of them is; the last of
    /// several with the highest score (see [`preferred`]). With `apply` the
    /// game is taken to that position. Where the tree knows that the game
    /// has ended, there is no answer.
    pub fn mix_method<P: Fn(&Vec<Quality>, i64, bool) -> usize>(&mut self, apply: bool, policy: &P) -> (r: BestPos)
        requires
            old(self).wf(),
            old(self).current_position.next_move.is_some(),
            moves_of(&old(self).current_position).len() > 0,
            is_policy(policy),
        ensures
            final(self).mixed_out(old(self), apply, policy, &r),
    {
        let ghost start = self.current_position;
        let depth = self.max_depth;
        let best_move = self.best_move(depth, i32::MIN / 2, i32::MAX / 2, 0, true);
        let ghost first = *self;
        let ghost hist = self.position_history.list@;
        let ghost list = best_move.pos_list@;
        let white = match self.current_position.next_move {
            Some(Color::White) => true,
            _ => false,
        };
        // the best of the values that the search of the game tree gave
        let mut least: Option<i64> = None;
        let mut i: usize = 0;
        while i < best_move.pos_list.len()
            invariant
                list == best_move.pos_list@,
                i <= list.len(),
                match least {
                    Some(l) => is_least(list, white, i as int, l as int),
                    None => forall|j: int| 0 <= j < i ==> (#[trigger] list[j]).deep_eval.is_none(),
                },
            decreases list.len() - i,
        {
            match best_move.pos_list[i].deep_eval {
                Some(v) => {
                    let c: i64 = if white { -(v as i64) } else { v as i64 };
                    let lower = match least {
                        Some(l) => c < l,
                        None => true,
                    };
                    assert(c == cost_at(list, white, i as int));
                    if lower {
                        least = Some(c);
                    }
                },
                None => {},
            }
            i += 1;
        }
        self.preparing_tree();
        let ghost prepared = *self;
        let found = self.find_mcts_and_make_best_move(false, policy);
        let ghost rolled = *self;
        if found.finish.is_some() {
            return BestPos { pos: None, pos_list: Vec::new(), deep_eval: 0 };
        }
        let ghost now = self.current_position;
        let mut holder: Option<McTree> = None;
        core::mem::swap(&mut holder, &mut self.tree);
        let tree = holder.unwrap();
        let kids = tree.tree_childs();
        proof {
            let (stats, answer, top) = choose|stats: Vec<Quality>, answer: usize, top: usize| #[trigger]
                tree.answered(policy, stats, answer, top);
            assert(kids@.len() > 0);
        }
        let ghost nodes = tree.nodes@;
        let mut best: Option<usize> = None;
        let mut any: Option<usize> = None;
        let ghost mut best_at: int = 0;
        let ghost mut any_at: int = 0;
        let mut c: usize = 0;
        while c < kids.len()
            invariant
                tree.wf(),
                nodes == tree.nodes@,
                list == best_move.pos_list@,
                kids@ == tree.nodes@[tree.root as int].childs@,
                c <= kids@.len(),
                match least {
                    Some(l) => is_least(list, white, list.len() as int, l as int),
                    None => forall|j: int| 0 <= j < list.len() ==> (#[trigger] list[j]).deep_eval.is_none(),
                },
                match best {
                    Some(b) => top_so_far(nodes, kids@, list, white, true, best_at, c as int) && kids@[best_at] == b
                        && b < nodes.len(),
                    None => forall|x: int| 0 <= x < c ==> !#[trigger] counts(nodes, kids@, list, white, true, x),
                },
                match any {
                    Some(b) => top_so_far(nodes, kids@, list, white, false, any_at, c as int) && kids@[any_at] == b
                        && b < nodes.len(),
                    None => c == 0,
                },
            decreases kids@.len() - c,
        {
            proof {
                assert(kids@.contains(kids@[c as int]));
                lemma_child_side(tree.nodes@, tree.root as int, kids@[c as int]);
            }
            let node = kids[c];
            let mut close = false;
            let mut x: usize = 0;
            while x < best_move.pos_list.len() && !close
                invariant
                    list == best_move.pos_list@,
                    x <= list.len(),
                    node < tree.nodes@.len(),
                    c < kids@.len(),
                    node == kids@[c as int],
                    nodes == tree.nodes@,
                    match least {
                        Some(l) => is_least(list, white, list.len() as int, l as int),
                        None => forall|j: int| 0 <= j < list.len() ==> (#[trigger] list[j]).deep_eval.is_none(),
                    },
                    close ==> close_to(list, white, &nodes[node as int].pos_mov.pos),
                    !close ==> forall|j: int|
                        0 <= j < x ==> !(#[trigger] is_near(list, white, j) && same_position(
                            &list[j].pos,
                            &nodes[node as int].pos_mov.pos,
                        )),
                decreases list.len() - x + if close { 0int } else { 1int },
            {
                let near = match (best_move.pos_list[x].deep_eval, least) {
                    (Some(v), Some(l)) => {
                        let cost: i64 = if white { -(v as i64) } else { v as i64 };
                        proof {
                            lemma_near(list, white, l as int, x as int);
                        }
                        cost - l <= 5000
                    },
                    _ => false,
                };
                assert(near == is_near(list, white, x as int));
                if near && best_move.pos_list[x].pos == tree.nodes[node].pos_mov.pos {
                    close = true;
                }
                x += 1;
            }
            proof {
                assert(close == counts(nodes, kids@, list, white, true, c as int)) by {
                    if !close && close_to(list, white, &nodes[node as int].pos_mov.pos) {
                        let j = choose|j: int| #[trigger]
                            is_near(list, white, j) && same_position(&list[j].pos, &nodes[node as int].pos_mov.pos);
                        assert(0 <= j < list.len());
                    }
                }
                assert(counts(nodes, kids@, list, white, false, c as int));
            }
            let better_any = match any {
                Some(b) => tree.nodes[b].W <= tree.nodes[node].W,
                None => true,
            };
            if better_any {
                any = Some(node);
                proof {
                    any_at = c as int;
                }
            }
            if close {
                let better = match best {
                    Some(b) => tree.nodes[b].W <= tree.nodes[node].W,
                    None => true,
                };
                if better {
                    best = Some(node);
                    proof {
                        best_at = c as int;
                    }
                }
            }
            c += 1;
        }
        let chosen = match best {
            Some(b) => Some(b),
            None => any,
        };
        let ghost at = if best.is_some() { best_at } else { any_at };
        let answer = match chosen {
            Some(node) => {
                proof {
                    reveal(node_ok);
                    assert(node_ok(tree.nodes@, node as int));
                }
                Some(tree.nodes[node].pos_mov.clone())
            },
            None => None,
        };
        proof {
            if chosen.is_some() {
                lemma_child_side(tree.nodes@, tree.root as int, chosen.unwrap());
                lemma_child_succeeds(tree.nodes@, tree.root as int, chosen.unwrap(), &now);
                assert(moves_of(&now) == moves_of(&start));
                assert(preferred(nodes, kids@, list, white, at)) by {
                    if best.is_some() {
                        assert(counts(nodes, kids@, list, white, true, best_at));
                    }
                }
            }
        }
        let ghost parent = tree.root;
        self.tree = Some(tree);
        if apply {
            match chosen {
                Some(node) => {
                    self.apply_node_move(node);
                },
                None => {},
            }
        }
        proof {
            if chosen.is_some() {
                assert(self.follows_child(&old(self).current_position, parent as int, chosen.unwrap(), apply));
                assert(self.mixed(old(self), &first, &best_move, parent as int, at, apply));
                assert(self.mixed_by(&first, &prepared, &rolled, &found, policy, at, apply));
            }
        }
        BestPos { pos: answer, pos_list: Vec::new(), deep_eval: 0 }
    }

    /// What the two searches have made of the game `before`, with their
    /// answer `r`; see [`Game::mix_method`]. Where there is an answer, it
    /// is the child preferred (see [`Game::mixed`]), and the game has been
    /// taken there if it was to be; where there is none, the tree knows
    /// that the game has ended, and the game is where it was.
    pub open spec fn mixed_out<P: Fn(&Vec<Quality>, i64, bool) -> usize>(
        &self,
        before: &Game,
        apply: bool,
        policy: &P,
        r: &BestPos,
    ) -> bool {
        let tree = self.the_tree();
        &&& self.wf()
        &&& self.tree.is_some()
        &&& self.position_environment == before.position_environment
        &&& self.max_depth == before.max_depth
        &&& self.mcts_lim == before.mcts_lim
        &&& self.method == before.method
        &&& r.pos_list@.len() == 0
        &&& r.deep_eval == 0
        &&& r.pos.is_none() ==> self.in_step() && self.ended_at_root().is_some()
        &&& r.pos.is_some() ==> succeeds(&r.pos.unwrap().pos, &before.current_position)
        &&& r.pos.is_some() ==> exists|parent: int, c: usize| #[trigger]
            self.follows_child(&before.current_position, parent, c, apply) && same_step(
                &r.pos.unwrap(),
                &tree.nodes@[c as int].pos_mov,
            )
        &&& r.pos.is_some() ==> exists|first: Game, best: BestPos, parent: int, at: int| #[trigger]
            self.mixed(before, &first, &best, parent, at, apply) && same_step(
                &r.pos.unwrap(),
                &tree.nodes@[tree.nodes@[parent].childs@[at] as int].pos_mov,
            ) && exists|prepared: Game, rolled: Game, res: MCTSRes| #[trigger]
                self.mixed_by(&first, &prepared, &rolled, &res, policy, at, apply)
        &&& r.pos.is_some() && apply ==> self.current_position.cells@ == r.pos.unwrap().pos.cells@
            && self.position_history.list@.len() == before.position_history.list@.len() + 1
        &&& !apply || r.pos.is_none() ==> self.current_position.cells@ == before.current_position.cells@
            && self.current_position.next_move == before.current_position.next_move
            && self.position_history.list@.len() == before.position_history.list@.len()
    }

    /// How the two searches have come from the game `before` to this one:
    /// the search of the game tree made `first` of the game and answered
    /// `best` (see [`found_best`]); among the children of node `parent` of
    /// the tree of rollouts, which holds the position of `before`, the one
    /// at place `at` is preferred (see [`preferred`]); and the root of the
    /// tree is that child if the game was taken there, else the parent.
    /// For the rollouts in between see [`Game::mixed_by`].
    pub open spec fn mixed(&self, before: &Game, first: &Game, best: &BestPos, parent: int, at: int, taken: bool) -> bool {
        let tree = self.the_tree();
        let kids = tree.nodes@[parent].childs@;
        &&& found_best(before, first, before.max_depth, -0x4000_0000i32, 0x3fff_ffffi32, 0, true, best)
        &&& 0 <= parent < tree.nodes@.len()
        &&& 0 <= at < kids.len()
        &&& self.follows_child(&before.current_position, parent, kids[at], taken)
        &&& preferred(tree.nodes@, kids, best.pos_list@, whites_turn(&before.current_position), at)
    }

    /// The rollouts between the two searches: after the search of the game
    /// tree had made `first` of the game, the tree was brought in step with
    /// the board, which made `prepared` of it (see [`Game::prepared`]), and
    /// searched by rollouts without a move being made, which made `rolled`
    /// of it and answered `res` (see [`Game::rolled_out`]). The choice was
    /// made among the children of the root of that tree, and this game is
    /// `rolled`, taken to the child at place `at` if it was to be.
    pub open spec fn mixed_by<P: Fn(&Vec<Quality>, i64, bool) -> usize>(
        &self,
        first: &Game,
        prepared: &Game,
        rolled: &Game,
        res: &MCTSRes,
        policy: &P,
        at: int,
        taken: bool,
    ) -> bool {
        let tree = rolled.the_tree();
        let kids = tree.nodes@[tree.root as int].childs@;
        &&& prepared.prepared(first)
        &&& rolled.rolled_out(prepared, false, policy, res)
        &&& res.finish.is_none()
        &&& 0 <= at < kids.len()
        &&& if taken {
            self.taken_to(&tree, rolled.position_history.list@, kids[at] as int)
        } else {
            self.tree == rolled.tree && self.current_position == rolled.current_position
                && self.position_history == rolled.position_history
        }
    }

    /// The game has gone on from `before` by its `i`-th legal move, with
    /// `r` for how it ended, if it did (see [`Game::gone_by`]), after the
    /// rules were applied to the last position of its history, which made
    /// `first` of it, and the game tree was searched, which made `mid` of
    /// it (see [`Game::searched`]) and preferred that move (see
    /// [`found_best`]).
    pub open spec fn searched_and_gone(
        &self,
        before: &Game,
        first: &Game,
        mid: &Game,
        i: int,
        r: Option<FinishType>,
    ) -> bool {
        &&& 0 <= i < moves_of(&before.current_position).len()
        &&& first.searched(before)
        &&& mid.searched(first)
        &&& self.gone_by(mid, moves_of(&before.current_position)[i], r)
        &&& exists|best: BestPos| #[trigger]
            found_best(first, mid, first.max_depth, -0x4000_0000i32, 0x3fff_ffffi32, 0, false, &best)
                && best.pos.unwrap().move_view() == Some(moves_of(&before.current_position)[i])
    }

    /// Makes the best move that a search of the game tree finds and answers
    /// with the boards that can follow; or says how the game ended, before
    /// the move or with it. The rules are applied to the last position of
    /// the history first, and once more by the search; the move is one of
    /// the legal moves (see [`Game::gone_by`]).
    pub fn find_and_make_best_move_ts_n(&mut self) -> (r: Outlook)
        requires
            old(self).wf(),
            old(self).current_position.next_move.is_some(),
            moves_of(&old(self).current_position).len() > 0,
        ensures
            final(self).wf(),
            verdict(old(self).position_history.list@).is_some() ==> {
                &&& r is Finished
                &&& Some(r->Finished_0) == verdict(old(self).position_history.list@)
                &&& final(self).searched(old(self))
            },
            verdict(old(self).position_history.list@).is_none() ==> {
                &&& exists|first: Game, mid: Game, i: int| #[trigger]
                    final(self).searched_and_gone(old(self), &first, &mid, i, r.ending())
                &&& r matches Outlook::Boards(b) ==> {
                    &&& b@.len() == moves_of(&final(self).current_position).len()
                    &&& forall|i: int|
                        0 <= i < b@.len() ==> (#[trigger] b@[i])@ == weights(
                            made_cells(final(self).current_position.cells@, moves_of(&final(self).current_position)[i]),
                        )
                }
            },
    {
        let finish = self.position_history.finish_check();
        if let Some(f) = finish {
            return Outlook::Finished(f);
        }
        let ghost game = *self;
        let ghost start = self.current_position;
        let depth = self.max_depth;
        let best_pos = self.best_move(depth, i32::MIN / 2, i32::MAX / 2, 0, false);
        proof {
            if old(self).position_history.list@.len() > 0 {
                lemma_open_stays_open(old(self).position_history.list@, &game.position_history);
            }
            lemma_best_succeeds(&best_pos, &start);
            lemma_best_legal(&best_pos, &start);
        }
        let ghost mid = *self;
        let finish = self.make_move_by_pos_item(&best_pos);
        let ghost m = best_pos.pos.unwrap().mov.unwrap()@;
        let ghost i = choose|i: int| 0 <= i < moves_of(&start).len() && #[trigger] moves_of(&start)[i] == m;
        proof {
            assert(found_best(&game, &mid, game.max_depth, -0x4000_0000i32, 0x3fff_ffffi32, 0, false, &best_pos));
            assert(best_pos.pos.unwrap().move_view() == Some(moves_of(&old(self).current_position)[i]));
            assert(self.searched_and_gone(old(self), &game, &mid, i, finish));
        }
        if let Some(f) = finish {
            return Outlook::Finished(f);
        }
        let ghost moved = *self;
        let boards = self.get_board_list();
        proof {
            assert(moves_of(&self.current_position) == moves_of(&moved.current_position));
            let entry = choose|entry: PositionAndMove|
                entry.pos.cells@ == moved.current_position.cells@ && entry.pos.state == moved.current_position.state
                    && entry.pos.next_move == moved.current_position.next_move && entry.pos.environment
                    == moved.current_position.environment && entry.move_view() == Some(m)
                    && #[trigger] moved.position_history.checked(mid.position_history.list@.push(entry), finish);
            assert(self.position_history.checked(mid.position_history.list@.push(entry), finish));
            assert(self.searched_and_gone(old(self), &game, &mid, i, finish));
        }
        Outlook::Boards(boards)
    }
}

/// Row `top` holds the highest score among `rows`, and is the last that
/// does; the score of a row is its last number but one.
pub open spec fn tops(rows: Seq<Vec<i32>>, top: int) -> bool {
    let i = rows[0]@.len() - 2;
    &&& 0 <= top < rows.len()
    &&& forall|k: int| 0 <= k < rows.len() ==> (#[trigger] rows[k])@[i] <= rows[top]@[i]
    &&& forall|k: int| top < k < rows.len() ==> (#[trigger] rows[k])@[i] < rows[top]@[i]
}

/// Row `at` is the first of `rows` that is equal to row `top`.
pub open spec fn first_like(rows: Seq<Vec<i32>>, top: int, at: int) -> bool {
    &&& 0 <= at <= top
    &&& rows[at]@ == rows[top]@
    &&& forall|k: int| 0 <= k < at ==> (#[trigger] rows[k])@ != rows[top]@
}

/// Whether two rows hold the same numbers.
pub fn same_row(a: &Vec<i32>, b: &Vec<i32>) -> (r: bool)
    ensures
        r == (a@ == b@),
{
    if a.len() != b.len() {
        return false;
    }
    let mut i: usize = 0;
    while i < a.len()
        invariant
            a@.len() == b@.len(),
            i <= a@.len(),
            forall|k: int| 0 <= k < i ==> a@[k] == b@[k],
        decreases a@.len() - i,
    {
        if a[i] != b[i] {
            return false;
        }
        i += 1;
    }
    assert(a@ =~= b@);
    true
}

/// The place of the board to follow among the boards of the children of
/// the root (see [`Game::tree_board_list`]): the first board that is equal
/// to the last of those with the highest score.
pub fn leading_board(rows: &Vec<Vec<i32>>) -> (at: usize)
    requires
        rows@.len() > 0,
        forall|k: int| 0 <= k < rows@.len() ==> (#[trigger] rows@[k])@.len() == rows@[0]@.len(),
        rows@[0]@.len() >= 2,
    ensures
        exists|top: int| #[trigger] tops(rows@, top) && first_like(rows@, top, at as int),
{
    let i = rows[0].len() - 2;
    let mut top: usize = 0;
    let mut k: usize = 1;
    while k < rows.len()
        invariant
            1 <= k <= rows@.len(),
            top < k,
            i == rows@[0]@.len() - 2,
            forall|x: int| 0 <= x < rows@.len() ==> (#[trigger] rows@[x])@.len() == rows@[0]@.len(),
            forall|x: int| 0 <= x < k ==> (#[trigger] rows@[x])@[i as int] <= rows@[top as int]@[i as int],
            forall|x: int| top < x < k ==> (#[trigger] rows@[x])@[i as int] < rows@[top as int]@[i as int],
        decreases rows@.len() - k,
    {
        if rows[k][i] >= rows[top][i] {
            top = k;
        }
        k += 1;
    }
    let mut at: usize = 0;
    while !same_row(&rows[at], &rows[top])
        invariant
            at <= top < rows@.len(),
            forall|x: int| 0 <= x < at ==> (#[trigger] rows@[x])@ != rows@[top as int]@,
        decreases top - at,
    {
        at += 1;
    }
    assert(tops(rows@, top as int));
    at
}

/// What the `j`-th position of `list` costs the side to move, White if
/// `white`, by the value that a search gave it: the less, the better.
pub open spec fn cost_at(list: Seq<PositionAndMove>, white: bool, j: int) -> int {
    if white {
        -value_at(list, j)
    } else {
        value_at(list, j)
    }
}

/// The `j`-th position of `list` has a value, within 5000 of the best of
/// the values in the list.
pub open spec fn is_near(list: Seq<PositionAndMove>, white: bool, j: int) -> bool {
    &&& 0 <= j < list.len()
    &&& list[j].deep_eval.is_some()
    &&& forall|i: int|
        0 <= i < list.len() && (#[trigger] list[i]).deep_eval.is_some() ==> cost_at(list, white, j) - cost_at(
            list,
            white,
            i,
        ) <= 5000
}

/// Position `pos` is one of those of `list` with a value within 5000 of
/// the best.
pub open spec fn close_to(list: Seq<PositionAndMove>, white: bool, pos: &Position) -> bool {
    exists|j: int| #[trigger] is_near(list, white, j) && same_position(&list[j].pos, pos)
}

/// `l` is the least of what the first `n` positions of `list` cost, of
/// those that have a value.
pub open spec fn is_least(list: Seq<PositionAndMove>, white: bool, n: int, l: int) -> bool {
    &&& exists|j: int| 0 <= j < n && (#[trigger] list[j]).deep_eval.is_some() && cost_at(list, white, j) == l
    &&& forall|j: int| 0 <= j < n && (#[trigger] list[j]).deep_eval.is_some() ==> l <= cost_at(list, white, j)
}

/// A position is near the best where it costs no more than 5000 above the
/// least.
pub proof fn lemma_near(list: Seq<PositionAndMove>, white: bool, l: int, j: int)
    requires
        is_least(list, white, list.len() as int, l),
        0 <= j < list.len(),
        list[j].deep_eval.is_some(),
    ensures
        is_near(list, white, j) == (cost_at(list, white, j) - l <= 5000),
{
    let k = choose|k: int| 0 <= k < list.len() && (#[trigger] list[k]).deep_eval.is_some() && cost_at(list, white, k) == l;
    if cost_at(list, white, j) - l <= 5000 {
        assert forall|i: int| 0 <= i < list.len() && (#[trigger] list[i]).deep_eval.is_some() implies cost_at(
            list,
            white,
            j,
        ) - cost_at(list, white, i) <= 5000 by {
            assert(l <= cost_at(list, white, i));
        }
    } else {
        assert(list[k].deep_eval.is_some());
    }
}

/// The `x`-th of the nodes at the places `kids` counts in the choice: any
/// does, unless only those count whose position is close to the best of
/// `list` (see [`close_to`]).
pub open spec fn counts(
    nodes: Seq<Node>,
    kids: Seq<usize>,
    list: Seq<PositionAndMove>,
    white: bool,
    only_close: bool,
    x: int,
) -> bool {
    !only_close || close_to(list, white, &nodes[kids[x] as int].pos_mov.pos)
}

/// Of the first `n` nodes at the places `kids`, the one at place `at` has
/// the highest score among those that count, and is the last of these that
/// has it.
pub open spec fn top_so_far(
    nodes: Seq<Node>,
    kids: Seq<usize>,
    list: Seq<PositionAndMove>,
    white: bool,
    only_close: bool,
    at: int,
    n: int,
) -> bool {
    &&& 0 <= at < n <= kids.len()
    &&& counts(nodes, kids, list, white, only_close, at)
    &&& forall|x: int|
        0 <= x < n && #[trigger] counts(nodes, kids, list, white, only_close, x) ==> nodes[kids[x] as int].W
            <= nodes[kids[at] as int].W && (x > at ==> nodes[kids[x] as int].W < nodes[kids[at] as int].W)
}

/// The node at place `at` of `kids` is the one preferred: the last of
/// those with the highest score among the nodes whose positions are close
/// to the best of `list`, or among all if none is.
pub open spec fn preferred(nodes: Seq<Node>, kids: Seq<usize>, list: Seq<PositionAndMove>, white: bool, at: int) -> bool {
    if exists|x: int| 0 <= x < kids.len() && #[trigger] counts(nodes, kids, list, white, true, x) {
        top_so_far(nodes, kids, list, white, true, at, kids.len() as int)
    } else {
        top_so_far(nodes, kids, list, white, false, at, kids.len() as int)
    }
}

impl Advice {
    /// The advice says what a search by rollouts answered: how the game
    /// ended, or the position the search prefers.
    pub open spec fn says(&self, res: &MCTSRes) -> bool {
        match res.finish {
            Some(f) => *self == Advice::Finished(f),
            None => *self matches Advice::Best(b) && b.pos == res.pos_move && b.pos_list@.len() == 0 && b.deep_eval
                == 0,
        }
    }
}

impl Outlook {
    /// How the game ended, if it did.
    pub open spec fn ending(&self) -> Option<FinishType> {
        match self {
            Outlook::Finished(f) => Some(*f),
            Outlook::Boards(_) => None,
        }
    }
}

} // verus!
