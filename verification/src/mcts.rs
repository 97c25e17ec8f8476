use vstd::prelude::*;
use crate::board::{made_cells, Cells};
use crate::cache_db::{actions_view, append_actions, CacheDb, NodeCacheItem, NodeCacheItemView, StoreAction, StoreActionView};
use crate::move_gen::listed;
use crate::moves_list::MoveItemView;
use crate::color::Color;
use crate::finish::FinishType;
use crate::moves_list::MoveItem;
use crate::piece::Piece;
use crate::position::{copy_cells, flipped, Position};
use crate::chance::random_below;
use crate::position_history::{PositionAndMove, PositionHistory};
use crate::rules::legal_moves;

verus! {

/// The sum of two numbers, held at the ends of the range where it would
/// leave it.
pub open spec fn clamped(a: int, b: int) -> i64 {
    if a + b > i64::MAX {
        i64::MAX
    } else if a + b < i64::MIN {
        i64::MIN
    } else {
        (a + b) as i64
    }
}

/// Adds two numbers, stopping at the ends of the range.
pub fn add_clamped(a: i64, b: i64) -> (r: i64)
    ensures
        r == clamped(a as int, b as int),
{
    match a.checked_add(b) {
        Some(s) => s,
        None => if b > 0 { i64::MAX } else { i64::MIN },
    }
}

/// The board as a row of signed weights: 0 for an empty cell, 1 for a man
/// and 3 for a king, positive for White and negative for Black; then 1 if
/// White is to move, -1 if Black is.
pub open spec fn encoded(cells: Cells, next_move: Color) -> Seq<i8> {
    Seq::new(
        cells.len() + 1,
        |i: int|
            if i < cells.len() {
                match cells[i] {
                    Some(p) => p.signed_weight() as i8,
                    None => 0i8,
                }
            } else if next_move == Color::Black {
                -1i8
            } else {
                1i8
            },
    )
}

/// The key under which a position is known to the search and to the caches:
/// its board as a row of signed weights, with the side to move at the end.
/// Positions reached by different orders of moves have the same key.
#[derive(Debug)]
pub struct VectorPosition(pub Vec<i8>);

impl View for VectorPosition {
    type V = Seq<i8>;

    open spec fn view(&self) -> Seq<i8> {
        self.0@
    }
}

impl Clone for VectorPosition {
    fn clone(&self) -> (r: Self)
        ensures
            r@ == self@,
    {
        let mut v: Vec<i8> = Vec::new();
        let mut i: usize = 0;
        while i < self.0.len()
            invariant
                i <= self.0@.len(),
                v@ == self.0@.subrange(0, i as int),
            decreases self.0@.len() - i,
        {
            v.push(self.0[i]);
            i += 1;
        }
        assert(v@ =~= self.0@);
        VectorPosition(v)
    }
}

impl VectorPosition {
    /// The key of a position in which a side is to move.
    pub fn from_position(pos: &Position) -> (r: VectorPosition)
        requires
            pos.next_move.is_some(),
        ensures
            r@ == encoded(pos.cells@, pos.next_move.unwrap()),
    {
        VectorPosition::from_cells(&pos.cells, pos.next_move.unwrap())
    }

    /// The key of a board with `next_move` to move.
    pub fn from_cells(cells: &Vec<Option<Piece>>, next_move: Color) -> (r: VectorPosition)
        ensures
            r@ == encoded(cells@, next_move),
    {
        let mut v: Vec<i8> = Vec::new();
        let mut i: usize = 0;
        while i < cells.len()
            invariant
                i <= cells@.len(),
                v@.len() == i,
                forall|k: int| 0 <= k < i ==> v@[k] == encoded(cells@, next_move)[k],
            decreases cells@.len() - i,
        {
            match cells[i] {
                Some(piece) => {
                    let s: i8 = if piece.color == Color::Black { -1 } else { 1 };
                    let w: i8 = if piece.is_king { 3 } else { 1 };
                    v.push(s * w);
                },
                None => {
                    v.push(0);
                },
            }
            i += 1;
        }
        v.push(if next_move == Color::Black { -1 } else { 1 });
        assert(v@ =~= encoded(cells@, next_move));
        VectorPosition(v)
    }

    /// Whether two keys are the same.
    pub fn same(&self, other: &VectorPosition) -> (r: bool)
        ensures
            r == (self@ == other@),
    {
        if self.0.len() != other.0.len() {
            return false;
        }
        let mut i: usize = 0;
        while i < self.0.len()
            invariant
                i <= self.0@.len(),
                self.0@.len() == other.0@.len(),
                forall|k: int| 0 <= k < i ==> self.0@[k] == other.0@[k],
            decreases self.0@.len() - i,
        {
            if self.0[i] != other.0[i] {
                return false;
            }
            i += 1;
        }
        assert(self.0@ =~= other.0@);
        true
    }
}

impl Position {
    /// The key of the position.
    pub fn get_key(&self) -> (r: VectorPosition)
        requires
            self.next_move.is_some(),
        ensures
            r@ == encoded(self.cells@, self.next_move.unwrap()),
    {
        VectorPosition::from_position(self)
    }
}

/// How a position fared in the search: the score gathered and the number
/// of visits.
#[allow(non_snake_case)]
#[derive(Copy, Clone, Debug, PartialEq, Eq, Structural)]
pub struct Quality {
    pub W: i64,
    pub N: i64,
}

/// The same with the number of visits of the parent.
#[allow(non_snake_case)]
#[derive(Copy, Clone, Debug, PartialEq, Eq, Structural)]
pub struct PositionQuality {
    pub W: i64,
    pub N: i64,
    pub NN: i64,
}

/// A board with its side to move and how it fared in the search.
#[allow(non_snake_case)]
#[derive(Debug)]
pub struct PositionWN {
    pub cells: Vec<Option<Piece>>,
    pub next_move: Color,
    pub W: i64,
    pub N: i64,
    pub NN: Option<i64>,
}

impl PositionWN {
    /// What a node of the search tree knows of its position.
    #[allow(non_snake_case)]
    pub fn fom_node(node: &Node, NN: Option<i64>) -> (r: PositionWN)
        requires
            node.pos_mov.pos.next_move.is_some(),
        ensures
            r.W == node.W,
            r.N == node.N,
            r.NN == NN,
            r.cells@ == node.pos_mov.pos.cells@,
            r.next_move == node.pos_mov.pos.next_move.unwrap(),
    {
        PositionWN {
            W: node.W,
            N: node.N,
            NN,
            cells: copy_cells(&node.pos_mov.pos.cells),
            next_move: node.pos_mov.pos.next_move.unwrap(),
        }
    }
}

/// A node of the search tree: a position with the move that led to it, the
/// score `W` gathered for the side that moved into it, the number `N` of
/// visits, the sum of the distances to the ends of the games played through
/// it, how the game ended if it ended here, whether everything below is
/// settled, and the places of its children among the nodes of the tree, the
/// `i`-th child for the `i`-th legal move.
#[allow(non_snake_case)]
#[derive(Debug)]
pub struct Node {
    pub W: i64,
    pub N: i64,
    pub game_len_sum: u64,
    pub finish: Option<FinishType>,
    pub passed: bool,
    pub pos_mov: PositionAndMove,
    pub childs: Vec<usize>,
}

impl Node {
    /// A node never visited, without children.
    pub fn new(pos_mov: PositionAndMove) -> (n: Node)
        ensures
            n.W == 0,
            n.N == 0,
            n.game_len_sum == 0,
            n.finish.is_none(),
            !n.passed,
            n.pos_mov == pos_mov,
            n.childs@.len() == 0,
    {
        Node { W: 0, N: 0, game_len_sum: 0, finish: None, passed: false, pos_mov, childs: Vec::new() }
    }

    /// Does nothing: the children are reached through the tree.
    pub fn childs_iter(&self) {
    }

    /// The key of the node's position.
    pub fn get_key(&self) -> (r: VectorPosition)
        requires
            self.pos_mov.pos.next_move.is_some(),
        ensures
            r@ == encoded(self.pos_mov.pos.cells@, self.pos_mov.pos.next_move.unwrap()),
    {
        self.pos_mov.pos.get_key()
    }

    /// The move that led to the node, if one did.
    pub fn get_move(&self) -> (r: Option<MoveItem>)
        ensures
            match (r, self.pos_mov.mov) {
                (Some(a), Some(b)) => a@ == b@,
                (None, None) => true,
                _ => false,
            },
    {
        match &self.pos_mov.mov {
            Some(m) => Some(m.clone()),
            None => None,
        }
    }

    /// A copy of the node's position and move.
    pub fn get_pos_mov(&self) -> (r: PositionAndMove)
        ensures
            r.same_as(&self.pos_mov),
    {
        self.pos_mov.clone()
    }

    /// How the node fared.
    pub fn quality(&self) -> (q: Quality)
        ensures
            q == (Quality { W: self.W, N: self.N }),
    {
        Quality { W: self.W, N: self.N }
    }
}

/// The legal moves of the side to move in `pos`.
pub open spec fn moves_of(pos: &Position) -> Seq<MoveItemView> {
    legal_moves(pos.cells@, &pos.environment, pos.next_move.unwrap(), false)
}

/// The key of `pos`.
pub open spec fn key_of(pos: &Position) -> Seq<i8> {
    encoded(pos.cells@, pos.next_move.unwrap())
}

/// The `i`-th child of node `n` lies after it among the nodes and holds a
/// position with the key of the one that the `i`-th legal move of `n`
/// leads to, with the other side to move. The child records a legal move
/// of `n`, and its position is the one that move leads to (see
/// [`records`]).
pub open spec fn child_ok(nodes: Seq<Node>, n: int, i: int) -> bool {
    let pos = nodes[n].pos_mov.pos;
    let c = nodes[n].childs@[i];
    &&& n < c < nodes.len()
    &&& nodes[c as int].pos_mov.pos.next_move == flipped(pos.next_move)
    &&& nodes[c as int].pos_mov.pos.environment == pos.environment
    &&& key_of(&nodes[c as int].pos_mov.pos) == encoded(
        made_cells(pos.cells@, moves_of(&pos)[i]),
        pos.next_move.unwrap().opposite(),
    )
    &&& exists|j: int| #[trigger] records(nodes, n, c as int, j)
}

/// Node `c` records the `j`-th legal move of node `n` and holds the
/// position that the move leads to from there.
pub open spec fn records(nodes: Seq<Node>, n: int, c: int, j: int) -> bool {
    let pos = nodes[n].pos_mov.pos;
    &&& 0 <= j < moves_of(&pos).len()
    &&& nodes[c].pos_mov.move_view() == Some(moves_of(&pos)[j])
    &&& nodes[c].pos_mov.pos.cells@ == made_cells(pos.cells@, moves_of(&pos)[j])
}

/// Node `n` holds a sound position with a side to move, reached by a move
/// that can be taken back if one is recorded (see
/// [`PositionAndMove::sound`]), and has children for the first of its
/// legal moves, in their order.
#[verifier::opaque]
pub open spec fn node_ok(nodes: Seq<Node>, n: int) -> bool {
    let nd = nodes[n];
    &&& nd.pos_mov.sound()
    &&& nd.childs@.len() <= moves_of(&nd.pos_mov.pos).len()
    &&& forall|i: int| 0 <= i < nd.childs@.len() ==> #[trigger] child_ok(nodes, n, i)
}

/// Every node is sound.
pub open spec fn nodes_ok(nodes: Seq<Node>) -> bool {
    forall|n: int| 0 <= n < nodes.len() ==> #[trigger] node_ok(nodes, n)
}

/// The nodes `b` are the nodes `a` with nothing changed of their boards,
/// sides to move, geometry, captured pieces, moves and children.
pub open spec fn same_tree(a: Seq<Node>, b: Seq<Node>) -> bool {
    &&& a.len() == b.len()
    &&& forall|k: int|
        0 <= k < a.len() ==> {
            &&& (#[trigger] b[k]).childs@ == a[k].childs@
            &&& b[k].pos_mov.pos.cells@ == a[k].pos_mov.pos.cells@
            &&& b[k].pos_mov.pos.next_move == a[k].pos_mov.pos.next_move
            &&& b[k].pos_mov.pos.environment == a[k].pos_mov.pos.environment
            &&& b[k].pos_mov.pos.took_pieces@ == a[k].pos_mov.pos.took_pieces@
            &&& b[k].pos_mov.mov == a[k].pos_mov.mov
            &&& a[k].pos_mov.pos.wf() ==> b[k].pos_mov.pos.wf()
        }
}

/// Sound nodes stay sound when nothing changes of their boards, sides to
/// move, geometry and children.
pub proof fn lemma_same_tree(a: Seq<Node>, b: Seq<Node>)
    requires
        nodes_ok(a),
        same_tree(a, b),
    ensures
        nodes_ok(b),
{
    reveal(node_ok);
    assert forall|n: int| 0 <= n < b.len() implies #[trigger] node_ok(b, n) by {
        assert(node_ok(a, n));
        assert forall|i: int| 0 <= i < b[n].childs@.len() implies #[trigger] child_ok(b, n, i) by {
            assert(child_ok(a, n, i));
            let c = a[n].childs@[i] as int;
            let j = choose|j: int| #[trigger] records(a, n, c, j);
            assert(records(b, n, c, j));
        }
    }
}

/// Whether everything below node `n` is settled: the game ended at the
/// node, or the node has a child for each of its legal moves and all of
/// them are settled.
pub open spec fn settled(nodes: Seq<Node>, n: int) -> bool {
    let nd = nodes[n];
    nd.finish.is_some() || (nd.pos_mov.pos.move_list.is_some() && nd.childs@.len() == moves_of(
        &nd.pos_mov.pos,
    ).len() && forall|i: int| 0 <= i < nd.childs@.len() ==> nodes[(#[trigger] nd.childs@[i]) as int].passed)
}

/// `track` is a way down the tree: each node on it is a child of the one
/// before.
pub open spec fn is_path(nodes: Seq<Node>, track: Seq<usize>) -> bool {
    &&& track.len() > 0
    &&& forall|t: int| 0 <= t < track.len() ==> (#[trigger] track[t]) < nodes.len()
    &&& forall|t: int|
        0 <= t < track.len() - 1 ==> (#[trigger] track[t]) < track[t + 1] && nodes[track[t] as int].childs@.contains(
            track[t + 1],
        )
}

/// A child of a node records a legal move of the node and holds the
/// position that the move leads to.
pub proof fn lemma_child_records(nodes: Seq<Node>, k: int, c: usize)
    requires
        nodes_ok(nodes),
        0 <= k < nodes.len(),
        nodes[k].childs@.contains(c),
    ensures
        exists|j: int| #[trigger] records(nodes, k, c as int, j),
{
    reveal(node_ok);
    assert(node_ok(nodes, k));
    let i = choose|i: int| 0 <= i < nodes[k].childs@.len() && nodes[k].childs@[i] == c;
    assert(child_ok(nodes, k, i));
}

/// What the node `t` steps above the end of a rollout adds to its score
/// when the end adds `res`: the same for an even number of steps, the
/// opposite for an odd one.
pub open spec fn share(res: int, t: int) -> int {
    if t % 2 == 0 { res } else { -res }
}

/// A count of plies after `n` more, held at the largest number of its
/// type.
pub open spec fn lengthened(sum: u64, n: int) -> u64 {
    if sum + n > u64::MAX { u64::MAX } else { (sum + n) as u64 }
}

/// What backing up the result `res` along `track` makes of the nodes
/// `before`: on the track, from the end upwards, each node adds to its
/// score what the node below added, with the sign changed, starting with
/// `res` at the end; it adds its distance from the end to its sum of game
/// lengths; and it is settled if everything below it is. Nothing else
/// changes.
pub open spec fn backed(before: Seq<Node>, after: Seq<Node>, track: Seq<usize>, res: int) -> bool {
    &&& same_tree(before, after)
    &&& forall|k: int|
        0 <= k < before.len() ==> {
            &&& (#[trigger] after[k]).N == before[k].N
            &&& after[k].finish == before[k].finish
            &&& after[k].pos_mov.pos.move_list == before[k].pos_mov.pos.move_list
        }
    &&& forall|k: int| 0 <= k < before.len() && !track.contains(k as usize) ==> #[trigger] after[k] == before[k]
    &&& forall|t: int|
        0 <= t < track.len() ==> {
            let k = (#[trigger] track[t]) as int;
            &&& after[k].W == clamped(before[k].W as int, share(res, track.len() - 1 - t))
            &&& after[k].game_len_sum == lengthened(before[k].game_len_sum, track.len() - 1 - t)
            &&& after[k].passed == settled(after, k)
        }
}

/// The score that the end of a rollout adds: 1 for a win of the side that
/// moved into the last position, -1 for a loss, 0 for a draw.
pub open spec fn outcome(finish: FinishType, next_move: Option<Color>) -> int {
    if next_move == Some(Color::White) { -finish.rank() } else { finish.rank() }
}

/// A child is a node of the tree, and in it the other side is to move.
pub proof fn lemma_child_side(nodes: Seq<Node>, k: int, c: usize)
    requires
        nodes_ok(nodes),
        0 <= k < nodes.len(),
        nodes[k].childs@.contains(c),
    ensures
        k < c < nodes.len(),
        nodes[k].pos_mov.pos.next_move.is_some(),
        nodes[c as int].pos_mov.pos.next_move == flipped(nodes[k].pos_mov.pos.next_move),
        nodes[c as int].pos_mov.pos.environment == nodes[k].pos_mov.pos.environment,
{
    reveal(node_ok);
    assert(node_ok(nodes, k));
    let kids = nodes[k].childs@;
    let i = choose|i: int| 0 <= i < kids.len() && kids[i] == c;
    assert(child_ok(nodes, k, i));
}

/// What a node `d` steps above the end of a rollout adds to its score is
/// the result as White sees it if Black is to move at the node, and the
/// opposite if White is.
pub proof fn lemma_share(finish: FinishType, leaf_next: Option<Color>, node_next: Option<Color>, d: int)
    requires
        d >= 0,
        leaf_next.is_some(),
        node_next == if d % 2 == 0 { leaf_next } else { flipped(leaf_next) },
    ensures
        share(outcome(finish, leaf_next), d) == if node_next == Some(Color::Black) {
            finish.rank()
        } else {
            -finish.rank()
        },
{
}

/// On a way down the tree, the side to move `d` steps above the end is the
/// one at the end for an even `d`, the other one for an odd `d`.
pub proof fn lemma_sides_along(nodes: Seq<Node>, track: Seq<usize>, d: int)
    requires
        nodes_ok(nodes),
        is_path(nodes, track),
        0 <= d < track.len(),
        nodes[track.last() as int].pos_mov.pos.next_move.is_some(),
    ensures
        nodes[track[track.len() - 1 - d] as int].pos_mov.pos.next_move == if d % 2 == 0 {
            nodes[track.last() as int].pos_mov.pos.next_move
        } else {
            flipped(nodes[track.last() as int].pos_mov.pos.next_move)
        },
    decreases d,
{
    let t = track.len() - 1 - d;
    if d > 0 {
        lemma_sides_along(nodes, track, d - 1);
        assert(track[t] < track[t + 1] && nodes[track[t] as int].childs@.contains(track[t + 1]));
        lemma_child_side(nodes, track[t] as int, track[t + 1]);
    }
}

/// Backing up the end of a game along a way down the tree changes the
/// scores in turns: every node at which Black is to move adds the result
/// as White sees it (1 for a win of White, -1 for a win of Black, 0 for a
/// draw), every node at which White is to move adds the opposite, and the
/// sides alternate from node to node. So after a win of White the score of
/// the root moves by one in White's favour: up if White moved into it, down
/// if Black did.
pub proof fn law_backed_scores_alternate(
    before: Seq<Node>,
    after: Seq<Node>,
    track: Seq<usize>,
    finish: FinishType,
)
    requires
        nodes_ok(before),
        is_path(before, track),
        before[track.last() as int].pos_mov.pos.next_move.is_some(),
        backed(before, after, track, outcome(finish, before[track.last() as int].pos_mov.pos.next_move)),
    ensures
        forall|t: int|
            0 <= t < track.len() ==> (#[trigger] after[track[t] as int]).W == clamped(
                before[track[t] as int].W as int,
                if before[track[t] as int].pos_mov.pos.next_move == Some(Color::Black) {
                    finish.rank()
                } else {
                    -finish.rank()
                },
            ),
        forall|t: int|
            0 <= t < track.len() - 1 ==> (#[trigger] before[track[t + 1] as int]).pos_mov.pos.next_move == flipped(
                before[track[t] as int].pos_mov.pos.next_move,
            ),
{
    let n = track.len() as int;
    let leaf_next = before[track.last() as int].pos_mov.pos.next_move;
    let res = outcome(finish, leaf_next);
    assert forall|t: int| 0 <= t < n - 1 implies (#[trigger] before[track[t + 1] as int]).pos_mov.pos.next_move
        == flipped(before[track[t] as int].pos_mov.pos.next_move) by {
        assert(track[t] < track[t + 1] && before[track[t] as int].childs@.contains(track[t + 1]));
        lemma_child_side(before, track[t] as int, track[t + 1]);
    }
    assert forall|t: int| 0 <= t < n implies (#[trigger] after[track[t] as int]).W == clamped(
        before[track[t] as int].W as int,
        if before[track[t] as int].pos_mov.pos.next_move == Some(Color::Black) {
            finish.rank()
        } else {
            -finish.rank()
        },
    ) by {
        let k = track[t] as int;
        lemma_sides_along(before, track, n - 1 - t);
        lemma_share(finish, leaf_next, before[k].pos_mov.pos.next_move, n - 1 - t);
        assert(after[k].W == clamped(before[k].W as int, share(res, n - 1 - t)));
    }
}

/// The search tree: its nodes, each with the places of its children among
/// them, and the place of the root; the shared cache, if one is used, and
/// what the search asks of the store behind it.
pub struct McTree {
    pub nodes: Vec<Node>,
    pub root: usize,
    pub cache: Option<CacheDb>,
    pub pending: Vec<StoreAction>,
}

impl McTree {
    /// The tree is sound: its nodes are, the root is one of them, and the
    /// cache is sound if there is one.
    pub open spec fn wf(&self) -> bool {
        &&& self.root < self.nodes@.len()
        &&& nodes_ok(self.nodes@)
        &&& match self.cache {
            Some(c) => c.wf(),
            None => true,
        }
    }

    /// A tree of one node that holds `pos`.
    pub fn new(pos: Position) -> (t: McTree)
        requires
            pos.wf(),
            pos.next_move.is_some(),
        ensures
            t.wf(),
            t.root == 0,
            t.nodes@.len() == 1,
            t.nodes@[0].pos_mov.pos == pos,
            t.nodes@[0].pos_mov.mov.is_none(),
            t.nodes@[0].W == 0,
            t.nodes@[0].N == 0,
            t.nodes@[0].finish.is_none(),
            t.nodes@[0].childs@.len() == 0,
            t.cache.is_none(),
            t.pending@.len() == 0,
    {
        let mut nodes: Vec<Node> = Vec::new();
        nodes.push(Node::new(PositionAndMove::from_pos(pos)));
        let t = McTree { nodes, root: 0, cache: None, pending: Vec::new() };
        proof {
            reveal(node_ok);
        }
        assert(node_ok(t.nodes@, 0));
        t
    }

    /// Gives the tree a shared cache to use.
    pub fn set_cache(&mut self, cache: CacheDb)
        requires
            old(self).wf(),
            cache.wf(),
        ensures
            final(self).wf(),
            final(self).cache == Some(cache),
            final(self).nodes == old(self).nodes,
            final(self).root == old(self).root,
            final(self).pending == old(self).pending,
    {
        self.cache = Some(cache);
    }

    /// Makes a node of the tree its root. The nodes that cannot be reached
    /// from the new root stay where they are.
    pub fn new_from_node(&mut self, root: usize)
        requires
            old(self).wf(),
            root < old(self).nodes@.len(),
        ensures
            final(self).wf(),
            final(self).root == root,
            final(self).nodes == old(self).nodes,
            final(self).cache == old(self).cache,
            final(self).pending == old(self).pending,
    {
        self.root = root;
    }

    /// The numbers of visits of the children of the root.
    pub fn root_map(&self) -> (r: Vec<i64>)
        requires
            self.wf(),
        ensures
            r@.len() == self.nodes@[self.root as int].childs@.len(),
            forall|i: int|
                0 <= i < r@.len() ==> r@[i] == self.nodes@[self.nodes@[self.root as int].childs@[i] as int].N,
    {
        let mut r: Vec<i64> = Vec::new();
        let kids = &self.nodes[self.root].childs;
        let mut i: usize = 0;
        while i < kids.len()
            invariant
                self.wf(),
                kids == &self.nodes@[self.root as int].childs,
                i <= kids@.len(),
                r@.len() == i,
                forall|k: int| 0 <= k < i ==> r@[k] == self.nodes@[kids@[k] as int].N,
            decreases kids@.len() - i,
        {
            proof {
                assert(kids@.contains(kids@[i as int]));
                lemma_child_side(self.nodes@, self.root as int, kids@[i as int]);
            }
            r.push(self.nodes[kids[i]].N);
            i += 1;
        }
        r
    }

    /// The places of the children of the root among the nodes.
    pub fn tree_childs(&self) -> (r: Vec<usize>)
        requires
            self.wf(),
        ensures
            r@ == self.nodes@[self.root as int].childs@,
    {
        let mut r: Vec<usize> = Vec::new();
        let kids = &self.nodes[self.root].childs;
        let mut i: usize = 0;
        while i < kids.len()
            invariant
                i <= kids@.len(),
                r@ == kids@.subrange(0, i as int),
            decreases kids@.len() - i,
        {
            r.push(kids[i]);
            i += 1;
        }
        assert(r@ =~= kids@);
        r
    }
}

/// The nodes `b` are the nodes `a`, with nothing changed of their boards,
/// sides to move and geometry, with their children and after them maybe
/// more, with no fewer visits, and maybe with more nodes behind them.
pub open spec fn grown_tree(a: Seq<Node>, b: Seq<Node>) -> bool {
    &&& a.len() <= b.len()
    &&& forall|k: int|
        0 <= k < a.len() ==> {
            &&& a[k].childs@.len() <= (#[trigger] b[k]).childs@.len()
            &&& b[k].childs@.take(a[k].childs@.len() as int) == a[k].childs@
            &&& b[k].pos_mov.pos.cells@ == a[k].pos_mov.pos.cells@
            &&& b[k].pos_mov.pos.next_move == a[k].pos_mov.pos.next_move
            &&& b[k].pos_mov.pos.environment == a[k].pos_mov.pos.environment
            &&& b[k].N >= a[k].N
        }
}

/// Nodes that have grown twice have grown.
pub proof fn lemma_grown_twice(a: Seq<Node>, b: Seq<Node>, c: Seq<Node>)
    requires
        grown_tree(a, b),
        grown_tree(b, c),
    ensures
        grown_tree(a, c),
{
    assert forall|k: int| 0 <= k < a.len() implies {
        &&& a[k].childs@.len() <= (#[trigger] c[k]).childs@.len()
        &&& c[k].childs@.take(a[k].childs@.len() as int) == a[k].childs@
        &&& c[k].pos_mov.pos.cells@ == a[k].pos_mov.pos.cells@
        &&& c[k].pos_mov.pos.next_move == a[k].pos_mov.pos.next_move
        &&& c[k].pos_mov.pos.environment == a[k].pos_mov.pos.environment
        &&& c[k].N >= a[k].N
    } by {
        let n = a[k].childs@.len() as int;
        let m = b[k].childs@.len() as int;
        assert(b[k].childs@.take(n) == a[k].childs@);
        assert(c[k].childs@.take(m) == b[k].childs@);
        assert(c[k].childs@.take(n) =~= c[k].childs@.take(m).take(n));
    }
}

/// Nodes of which nothing changed but scores and flags have grown.
pub proof fn lemma_same_grown(a: Seq<Node>, b: Seq<Node>)
    requires
        same_tree(a, b),
        forall|k: int| 0 <= k < a.len() ==> (#[trigger] b[k]).N >= a[k].N,
    ensures
        grown_tree(a, b),
{
    assert forall|k: int| 0 <= k < a.len() implies b[k].childs@.take(a[k].childs@.len() as int)
        == a[k].childs@ by {
        assert(b[k].childs@.take(a[k].childs@.len() as int) =~= a[k].childs@);
    }
}

impl McTree {
    /// The root is the first node, never visited, and no game has ended
    /// there.
    pub open spec fn at_start(&self) -> bool {
        &&& self.root == 0
        &&& self.nodes@[0].N == 0
        &&& self.nodes@[0].W == 0
        &&& self.nodes@[0].finish.is_none()
    }

    /// The cache is calm for the next `left` steps of a rollout: there is
    /// none, or it is empty and no node can come to more than a hundred
    /// visits in these steps, so that nothing is handed to the cache and
    /// nothing taken from it.
    pub open spec fn calm(&self, left: int) -> bool {
        match self.cache {
            None => true,
            Some(c) => {
                &&& left <= 100
                &&& forall|key: Seq<i8>| !c.items().contains_key(key)
                &&& forall|k: int| 0 <= k < self.nodes@.len() ==> (#[trigger] self.nodes@[k]).N + left <= 100
            },
        }
    }

    /// The score of node `k`, or 0 if the tree has no such node yet.
    pub open spec fn score_at(&self, k: int) -> i64 {
        if 0 <= k < self.nodes@.len() {
            self.nodes@[k].W
        } else {
            0
        }
    }

    /// Everything but the nodes is as in `other`.
    pub open spec fn same_rest(&self, other: &McTree) -> bool {
        &&& self.root == other.root
        &&& self.cache == other.cache
        &&& self.pending == other.pending
    }

    /// What giving node `n` the child `c` for the next of its legal moves
    /// makes of the tree; see [`McTree::add_child`]. The child is one of
    /// the children that the node had, or a new node behind the others
    /// (see [`McTree::is_fresh`]); the node keeps its score, its visits and
    /// the rest, and no other node changes.
    pub open spec fn with_child(&self, after: &McTree, n: int, c: usize) -> bool {
        &&& after.wf()
        &&& after.same_rest(self)
        &&& grown_tree(self.nodes@, after.nodes@)
        &&& after.nodes@.len() <= self.nodes@.len() + 1
        &&& after.nodes@[n].childs@ == self.nodes@[n].childs@.push(c)
        &&& forall|k: int| 0 <= k < self.nodes@.len() && k != n ==> (#[trigger] after.nodes@[k]) == self.nodes@[k]
        &&& after.nodes@[n].W == self.nodes@[n].W
        &&& after.nodes@[n].N == self.nodes@[n].N
        &&& after.nodes@[n].finish == self.nodes@[n].finish
        &&& after.nodes@[n].passed == self.nodes@[n].passed
        &&& after.nodes@[n].game_len_sum == self.nodes@[n].game_len_sum
        &&& after.nodes@[n].pos_mov.mov == self.nodes@[n].pos_mov.mov
        &&& after.nodes@[n].pos_mov.pos.move_list.is_some()
        &&& c == self.nodes@.len() ==> after.nodes@.len() == self.nodes@.len() + 1 && after.is_fresh(
            n,
            c as int,
            self.nodes@[n].childs@.len() as int,
        )
        &&& c != self.nodes@.len() ==> after.nodes@.len() == self.nodes@.len() && self.nodes@[n].childs@.contains(c)
    }

    /// Node `c` is new: never visited, with no score, no children and no
    /// end of the game, and it records the `i`-th legal move of node `n`
    /// with the position that the move leads to from there.
    pub open spec fn is_fresh(&self, n: int, c: int, i: int) -> bool {
        let node = self.nodes@[c];
        &&& node.N == 0
        &&& node.W == 0
        &&& node.game_len_sum == 0
        &&& node.childs@.len() == 0
        &&& node.finish.is_none()
        &&& !node.passed
        &&& records(self.nodes@, n, c, i)
    }

    /// Gives node `n` a child for the next of its legal moves that has
    /// none. If one of its children holds a position with the same key as
    /// the one the move leads to, that child serves for this move too; else
    /// a new node, never visited, is put behind the nodes of the tree.
    /// Returns the place of the child.
    pub fn add_child(&mut self, n: usize) -> (c: usize)
        requires
            old(self).wf(),
            n < old(self).nodes@.len(),
            old(self).nodes@[n as int].childs@.len() < moves_of(&old(self).nodes@[n as int].pos_mov.pos).len(),
        ensures
            old(self).with_child(final(self), n as int, c),
    {
        proof {
            reveal(node_ok);
        }
        assert(node_ok(self.nodes@, n as int));
        let ghost before = self.nodes@;
        let ghost parent = self.nodes@[n as int].pos_mov.pos;
        let i = self.nodes[n].childs.len();
        let child = self.nodes[n].pos_mov.pos.child_position(i);
        let ghost mid = self.nodes@;
        proof {
            assert(same_tree(before, mid));
            lemma_same_tree(before, mid);
            assert(node_ok(mid, n as int));
        }
        let key = child.pos.get_key();
        let mut found: Option<usize> = None;
        let mut s: usize = 0;
        while s < i && found.is_none()
            invariant
                self.nodes@ == mid,
                nodes_ok(mid),
                n < mid.len(),
                i == mid[n as int].childs@.len(),
                s <= i,
                child.pos.next_move.is_some(),
                key@ == key_of(&child.pos),
                match found {
                    Some(ci) => mid[n as int].childs@.contains(ci) && key_of(&mid[ci as int].pos_mov.pos) == key@,
                    None => true,
                },
            decreases i - s + if found.is_none() { 1int } else { 0int },
        {
            proof {
                reveal(node_ok);
            }
            assert(node_ok(mid, n as int));
            assert(child_ok(mid, n as int, s as int));
            let ci = self.nodes[n].childs[s];
            assert(node_ok(mid, ci as int));
            let other = self.nodes[ci].get_key();
            if other.same(&key) {
                found = Some(ci);
            }
            s += 1;
        }
        let c = match found {
            Some(ci) => ci,
            None => {
                self.nodes.push(Node::new(child));
                self.nodes.len() - 1
            },
        };
        let ghost grown = self.nodes@;
        self.nodes[n].childs.push(c);
        proof {
            let after = self.nodes@;
            assert(after[n as int].childs@ =~= before[n as int].childs@.push(c));
            if found.is_some() {
                lemma_child_side(mid, n as int, c);
            }
            assert forall|k: int| 0 <= k < after.len() implies #[trigger] node_ok(after, k) by {
                if k < mid.len() {
                    assert(node_ok(mid, k));
                    assert forall|j: int| 0 <= j < after[k].childs@.len() implies #[trigger] child_ok(after, k, j) by {
                        if k == n && j == i {
                            assert(after[k].childs@[j] == c);
                            assert(moves_of(&after[n as int].pos_mov.pos) == moves_of(&parent));
                            if found.is_some() {
                                lemma_child_side(mid, n as int, c);
                                assert(after[c as int].pos_mov == mid[c as int].pos_mov);
                                let s0 = choose|s0: int| 0 <= s0 < mid[n as int].childs@.len() && mid[n as int].childs@[s0] == c;
                                assert(child_ok(mid, n as int, s0));
                                let jj = choose|jj: int| #[trigger] records(mid, n as int, c as int, jj);
                                assert(records(after, n as int, c as int, jj));
                            } else {
                                assert(after[c as int].pos_mov == child);
                                assert(records(after, n as int, c as int, i as int));
                            }
                        } else {
                            assert(child_ok(mid, k, j));
                            let cj = mid[k].childs@[j];
                            assert(after[k].childs@[j] == cj);
                            assert(after[cj as int].pos_mov == mid[cj as int].pos_mov);
                            assert(after[k].pos_mov == mid[k].pos_mov);
                            let jj = choose|jj: int| #[trigger] records(mid, k, cj as int, jj);
                            assert(records(after, k, cj as int, jj));
                        }
                    }
                } else {
                    assert(after[k].childs@.len() == 0);
                }
            }
            assert forall|k: int| 0 <= k < before.len() implies after[k].childs@.take(
                before[k].childs@.len() as int,
            ) == before[k].childs@ by {
                assert(after[k].childs@.take(before[k].childs@.len() as int) =~= before[k].childs@);
            }
        }
        c
    }

    /// Gives node `n` a child for each of its legal moves. No node has
    /// another score, number of visits or end of the game afterwards, and
    /// no other node has changed.
    pub fn expand(&mut self, n: usize)
        requires
            old(self).wf(),
            n < old(self).nodes@.len(),
        ensures
            final(self).wf(),
            final(self).same_rest(old(self)),
            grown_tree(old(self).nodes@, final(self).nodes@),
            same_scores(old(self).nodes@, final(self).nodes@),
            same_ends(old(self).nodes@, final(self).nodes@, -1),
            forall|k: int|
                0 <= k < old(self).nodes@.len() && k != n ==> (#[trigger] final(self).nodes@[k]) == old(
                    self,
                ).nodes@[k],
            final(self).nodes@[n as int].pos_mov.mov == old(self).nodes@[n as int].pos_mov.mov,
            final(self).nodes@[n as int].childs@.len() == moves_of(&old(self).nodes@[n as int].pos_mov.pos).len(),
    {
        proof {
            reveal(node_ok);
        }
        assert(node_ok(self.nodes@, n as int));
        let ghost before = self.nodes@;
        let total = self.nodes[n].pos_mov.pos.count_moves();
        proof {
            assert(same_tree(before, self.nodes@));
            lemma_same_tree(before, self.nodes@);
            lemma_same_grown(before, self.nodes@);
        }
        while self.nodes[n].childs.len() < total
            invariant
                self.wf(),
                self.same_rest(old(self)),
                n < self.nodes@.len(),
                grown_tree(before, self.nodes@),
                same_scores(before, self.nodes@),
                same_ends(before, self.nodes@, -1),
                forall|k: int| 0 <= k < before.len() && k != n ==> (#[trigger] self.nodes@[k]) == old(self).nodes@[k],
                before.len() == old(self).nodes@.len(),
                self.nodes@[n as int].pos_mov.mov == old(self).nodes@[n as int].pos_mov.mov,
                n < before.len(),
                total == moves_of(&before[n as int].pos_mov.pos).len(),
                self.nodes@[n as int].childs@.len() <= total,
            decreases total - self.nodes@[n as int].childs@.len(),
        {
            let ghost now = self.nodes@;
            self.add_child(n);
            proof {
                lemma_grown_twice(before, now, self.nodes@);
            }
        }
    }

    /// Whether everything below node `n` is settled.
    pub fn is_settled(&self, n: usize) -> (r: bool)
        requires
            self.wf(),
            n < self.nodes@.len(),
        ensures
            r == settled(self.nodes@, n as int),
    {
        proof {
            reveal(node_ok);
        }
        assert(node_ok(self.nodes@, n as int));
        let node = &self.nodes[n];
        if node.finish.is_some() {
            return true;
        }
        let total = match &node.pos_mov.pos.move_list {
            Some(l) => l.list.len(),
            None => {
                return false;
            },
        };
        if node.childs.len() != total {
            return false;
        }
        let mut i: usize = 0;
        while i < node.childs.len()
            invariant
                self.wf(),
                n < self.nodes@.len(),
                node == &self.nodes@[n as int],
                node.finish.is_none(),
                i <= node.childs@.len(),
                forall|k: int| 0 <= k < i ==> self.nodes@[(#[trigger] node.childs@[k]) as int].passed,
            decreases node.childs@.len() - i,
        {
            proof {
                reveal(node_ok);
            }
            assert(node_ok(self.nodes@, n as int));
            assert(child_ok(self.nodes@, n as int, i as int));
            let c = node.childs[i];
            if !self.nodes[c].passed {
                assert(!self.nodes@[node.childs@[i as int] as int].passed);
                return false;
            }
            i += 1;
        }
        true
    }
}

/// On a way down the tree the places of the nodes grow.
pub proof fn lemma_path_grows(nodes: Seq<Node>, track: Seq<usize>, a: int, b: int)
    requires
        is_path(nodes, track),
        0 <= a < b < track.len(),
    ensures
        track[a] < track[b],
    decreases b - a,
{
    if a + 1 < b {
        lemma_path_grows(nodes, track, a + 1, b);
    }
}

/// Whether what lies below node `k` is settled does not depend on the nodes
/// before `k` and on `k` itself only through its end of game, its list of
/// moves and its children.
pub proof fn lemma_settled_below(base: Seq<Node>, a: Seq<Node>, b: Seq<Node>, k: int)
    requires
        nodes_ok(base),
        same_tree(base, a),
        same_tree(base, b),
        0 <= k < base.len(),
        a[k].finish == b[k].finish,
        a[k].pos_mov.pos.move_list.is_some() == b[k].pos_mov.pos.move_list.is_some(),
        forall|c: int| k < c < base.len() ==> (#[trigger] a[c]).passed == b[c].passed,
    ensures
        settled(a, k) == settled(b, k),
{
    assert(moves_of(&a[k].pos_mov.pos) == moves_of(&b[k].pos_mov.pos));
    assert forall|i: int| 0 <= i < base[k].childs@.len() implies a[(#[trigger] a[k].childs@[i]) as int].passed
        == b[b[k].childs@[i] as int].passed by {
        assert(base[k].childs@.contains(base[k].childs@[i]));
        lemma_child_side(base, k, base[k].childs@[i]);
    }
    if settled(a, k) && a[k].finish.is_none() {
        assert forall|i: int| 0 <= i < b[k].childs@.len() implies b[(#[trigger] b[k].childs@[i]) as int].passed by {
            assert(a[a[k].childs@[i] as int].passed);
        }
    }
    if settled(b, k) && b[k].finish.is_none() {
        assert forall|i: int| 0 <= i < a[k].childs@.len() implies a[(#[trigger] a[k].childs@[i]) as int].passed by {
            assert(b[b[k].childs@[i] as int].passed);
        }
    }
}

/// What one step of backing up makes of the nodes: node `k` adds `r` to its
/// score and `g` to its sum of game lengths and is settled if everything
/// below it is; nothing else changes.
#[verifier::opaque]
pub open spec fn credited(before: Seq<Node>, after: Seq<Node>, k: int, r: int, g: int) -> bool {
    &&& after.len() == before.len()
    &&& forall|j: int| 0 <= j < before.len() && j != k ==> #[trigger] after[j] == before[j]
    &&& after[k].pos_mov == before[k].pos_mov
    &&& after[k].childs == before[k].childs
    &&& after[k].N == before[k].N
    &&& after[k].finish == before[k].finish
    &&& after[k].W == clamped(before[k].W as int, r)
    &&& after[k].game_len_sum == lengthened(before[k].game_len_sum, g)
    &&& after[k].passed == settled(before, k)
}

/// One more step of backing up keeps what the steps before it have done.
#[verifier::rlimit(60)]
#[verifier::spinoff_prover]
pub proof fn lemma_credit_step(
    before: Seq<Node>,
    cur: Seq<Node>,
    now: Seq<Node>,
    track: Seq<usize>,
    res: int,
    d: int,
)
    requires
        nodes_ok(before),
        is_path(before, track),
        0 <= d < track.len(),
        backed_from(before, cur, track, res, d + 1),
        credited(cur, now, track[d] as int, share(res, track.len() - 1 - d), track.len() - 1 - d),
    ensures
        backed_from(before, now, track, res, d),
        same_tree(before, now),
{
    reveal(backed_from);
    reveal(credited);
    let n = track.len() as int;
    let k = track[d] as int;
    assert(off_track(track, d + 1, k)) by {
        assert forall|t: int| d + 1 <= t < n implies #[trigger] track[t] != k by {
            lemma_path_grows(before, track, d, t);
        }
    }
    assert(cur[k] == before[k]);
    assert(same_tree(before, now));
    lemma_settled_below(before, cur, now, k);
    assert forall|t: int| d <= t < n implies {
        let j = (#[trigger] track[t]) as int;
        &&& now[j].W == clamped(before[j].W as int, share(res, n - 1 - t))
        &&& now[j].game_len_sum == lengthened(before[j].game_len_sum, n - 1 - t)
        &&& now[j].passed == settled(now, j)
    } by {
        let j = track[t] as int;
        if t > d {
            lemma_path_grows(before, track, d, t);
            assert(now[j] == cur[j]);
            lemma_settled_below(before, cur, now, j);
        }
    }
    assert forall|j: int| 0 <= j < before.len() && off_track(track, d, j) implies #[trigger] now[j]
        == before[j] by {
        assert(track[d] != j);
        assert(off_track(track, d + 1, j));
    }
}

/// Node `k` is none of the nodes of the track from the `d`-th on.
pub open spec fn off_track(track: Seq<usize>, d: int, k: int) -> bool {
    forall|t: int| d <= t < track.len() ==> #[trigger] track[t] != k
}

/// Nothing is backed up before the first step, and everything after the
/// last.
pub proof fn lemma_backed_ends(before: Seq<Node>, after: Seq<Node>, track: Seq<usize>, res: int)
    requires
        nodes_ok(before),
    ensures
        backed_from(before, before, track, res, track.len() as int),
        backed_from(before, after, track, res, 0) ==> backed(before, after, track, res),
        backed_from(before, after, track, res, 0) ==> same_tree(before, after),
{
    reveal(backed_from);
    assert(same_tree(before, before));
    if backed_from(before, after, track, res, 0) {
        assert forall|k: int| 0 <= k < before.len() && !track.contains(k as usize) implies #[trigger] after[k]
            == before[k] by {
            assert(off_track(track, 0, k));
        }
    }
}

/// The share of the next node up is the opposite of the share of a node.
pub proof fn lemma_share_next(res: int, t: int)
    requires
        t >= 0,
    ensures
        share(res, t + 1) == -share(res, t),
{
}

/// [`backed`] for the part of the track from its `d`-th node on.
#[verifier::opaque]
pub open spec fn backed_from(before: Seq<Node>, after: Seq<Node>, track: Seq<usize>, res: int, d: int) -> bool {
    &&& same_tree(before, after)
    &&& forall|k: int|
        0 <= k < before.len() ==> {
            &&& (#[trigger] after[k]).N == before[k].N
            &&& after[k].finish == before[k].finish
            &&& after[k].pos_mov.pos.move_list == before[k].pos_mov.pos.move_list
        }
    &&& forall|k: int|
        0 <= k < before.len() && off_track(track, d, k) ==> #[trigger] after[k] == before[k]
    &&& forall|t: int|
        d <= t < track.len() ==> {
            let k = (#[trigger] track[t]) as int;
            &&& after[k].W == clamped(before[k].W as int, share(res, track.len() - 1 - t))
            &&& after[k].game_len_sum == lengthened(before[k].game_len_sum, track.len() - 1 - t)
            &&& after[k].passed == settled(after, k)
        }
}

impl McTree {
    /// One step of backing up; see [`credited`].
    fn credit(&mut self, k: usize, r: i64, g_len: u64)
        requires
            old(self).wf(),
            k < old(self).nodes@.len(),
        ensures
            final(self).same_rest(old(self)),
            credited(old(self).nodes@, final(self).nodes@, k as int, r as int, g_len as int),
    {
        proof {
            reveal(credited);
        }
        let passed = self.is_settled(k);
        self.nodes[k].passed = passed;
        self.nodes[k].W = add_clamped(self.nodes[k].W, r);
        let sum = self.nodes[k].game_len_sum;
        self.nodes[k].game_len_sum = if sum > u64::MAX - g_len { u64::MAX } else { sum + g_len };
    }

    /// Backs up the result `res` of a rollout along the way `track` that the
    /// rollout took down the tree; see [`backed`].
    pub fn back_propagation(&mut self, track: &Vec<usize>, res: i64)
        requires
            old(self).wf(),
            is_path(old(self).nodes@, track@),
            -1 <= res <= 1,
        ensures
            final(self).wf(),
            final(self).same_rest(old(self)),
            backed(old(self).nodes@, final(self).nodes@, track@, res as int),
    {
        let ghost before = self.nodes@;
        let n = track.len();
        let mut d = n;
        let mut r = res;
        let mut g_len: u64 = 0;
        let ghost mut turn: int = res as int;
        proof {
            lemma_backed_ends(before, before, track@, res as int);
        }
        while d > 0
            invariant
                n == track@.len(),
                d <= n,
                nodes_ok(before),
                is_path(before, track@),
                self.same_rest(old(self)),
                old(self).wf(),
                before == old(self).nodes@,
                -1 <= r <= 1,
                r == turn,
                turn == share(res as int, n - d),
                g_len == n - d,
                backed_from(before, self.nodes@, track@, res as int, d as int),
                same_tree(before, self.nodes@),
            decreases d,
        {
            d -= 1;
            let k = track[d];
            let ghost cur = self.nodes@;
            proof {
                lemma_same_tree(before, cur);
            }
            self.credit(k, r, g_len);
            proof {
                lemma_credit_step(before, cur, self.nodes@, track@, res as int, d as int);
                lemma_share_next(res as int, n - d - 1);
                turn = -turn;
            }
            g_len += 1;
            r = -r;
        }
        proof {
            lemma_backed_ends(before, self.nodes@, track@, res as int);
            lemma_same_tree(before, self.nodes@);
        }
    }
}

/// A way down the tree stays one when the tree grows.
pub proof fn lemma_path_kept(a: Seq<Node>, b: Seq<Node>, track: Seq<usize>)
    requires
        grown_tree(a, b),
        is_path(a, track),
    ensures
        is_path(b, track),
{
    assert forall|t: int| 0 <= t < track.len() - 1 implies (#[trigger] track[t]) < track[t + 1] && b[track[t] as int].childs@.contains(
        track[t + 1],
    ) by {
        let k = track[t] as int;
        let kids = a[k].childs@;
        let i = choose|i: int| 0 <= i < kids.len() && kids[i] == track[t + 1];
        assert(b[k].childs@.take(kids.len() as int)[i] == kids[i]);
        assert(b[k].childs@[i] == track[t + 1]);
    }
}

/// A child of a node makes a way down the tree one node longer.
pub proof fn lemma_path_longer(nodes: Seq<Node>, track: Seq<usize>, c: usize)
    requires
        nodes_ok(nodes),
        is_path(nodes, track),
        nodes[track.last() as int].childs@.contains(c),
    ensures
        is_path(nodes, track.push(c)),
{
    lemma_child_side(nodes, track.last() as int, c);
    let longer = track.push(c);
    assert forall|t: int| 0 <= t < longer.len() - 1 implies (#[trigger] longer[t]) < longer[t + 1]
        && nodes[longer[t] as int].childs@.contains(longer[t + 1]) by {
        if t < track.len() - 1 {
            assert(track[t] < track[t + 1] && nodes[track[t] as int].childs@.contains(track[t + 1]));
        }
    }
}

/// A tree has grown from itself.
pub proof fn lemma_grown_self(a: Seq<Node>)
    ensures
        grown_tree(a, a),
{
    assert forall|k: int| 0 <= k < a.len() implies a[k].childs@.take(a[k].childs@.len() as int) == a[k].childs@ by {
        assert(a[k].childs@.take(a[k].childs@.len() as int) =~= a[k].childs@);
    }
}

impl NodeCacheItem {
    /// What the tree knows of its node `n`, for the cache; see
    /// [`McTree::knows`].
    pub fn from_node(tree: &McTree, n: usize) -> (r: NodeCacheItem)
        requires
            tree.wf(),
            n < tree.nodes@.len(),
        ensures
            tree.knows(n as int, r@),
    {
        proof {
            reveal(node_ok);
        }
        assert(node_ok(tree.nodes@, n as int));
        let node = &tree.nodes[n];
        let mut childs: Vec<(VectorPosition, Quality)> = Vec::new();
        let mut i: usize = 0;
        while i < node.childs.len()
            invariant
                tree.wf(),
                n < tree.nodes@.len(),
                node == &tree.nodes@[n as int],
                i <= node.childs@.len(),
                childs@.len() == i,
                forall|k: int|
                    0 <= k < i ==> {
                        let c = node.childs@[k] as int;
                        &&& (#[trigger] childs@[k]).0@ == key_of(&tree.nodes@[c].pos_mov.pos)
                        &&& childs@[k].1 == (Quality { W: tree.nodes@[c].W, N: tree.nodes@[c].N })
                    },
            decreases node.childs@.len() - i,
        {
            proof {
                reveal(node_ok);
                assert(node.childs@.contains(node.childs@[i as int]));
                lemma_child_side(tree.nodes@, n as int, node.childs@[i as int]);
            }
            let c = node.childs[i];
            assert(node_ok(tree.nodes@, c as int));
            let child = &tree.nodes[c];
            childs.push((child.get_key(), child.quality()));
            i += 1;
        }
        NodeCacheItem { key: node.get_key(), quality: node.quality(), childs }
    }
}

impl McTree {
    /// Gives node `k` the score and the number of visits `q`, which has no
    /// fewer visits than the node.
    fn set_quality(&mut self, k: usize, q: Quality)
        requires
            old(self).wf(),
            k < old(self).nodes@.len(),
            q.N >= old(self).nodes@[k as int].N,
        ensures
            final(self).wf(),
            final(self).same_rest(old(self)),
            same_tree(old(self).nodes@, final(self).nodes@),
            grown_tree(old(self).nodes@, final(self).nodes@),
            final(self).nodes@[k as int] == (Node { N: q.N, W: q.W, ..old(self).nodes@[k as int] }),
            forall|j: int|
                0 <= j < old(self).nodes@.len() && j != k ==> #[trigger] final(self).nodes@[j] == old(self).nodes@[j],
    {
        let ghost before = self.nodes@;
        self.nodes[k].N = q.N;
        self.nodes[k].W = q.W;
        proof {
            lemma_same_tree(before, self.nodes@);
            lemma_same_grown(before, self.nodes@);
        }
    }

    /// `item` is what the tree knows of node `n`: its key, how it fared,
    /// and the key of each of its children with how it fared.
    pub open spec fn knows(&self, n: int, item: NodeCacheItemView) -> bool {
        &&& item.key == key_of(&self.nodes@[n].pos_mov.pos)
        &&& item.quality == (Quality { W: self.nodes@[n].W, N: self.nodes@[n].N })
        &&& item.childs.len() == self.nodes@[n].childs@.len()
        &&& forall|i: int|
            0 <= i < item.childs.len() ==> {
                let c = self.nodes@[n].childs@[i] as int;
                (#[trigger] item.childs[i]) == (
                    key_of(&self.nodes@[c].pos_mov.pos),
                    Quality { W: self.nodes@[c].W, N: self.nodes@[c].N },
                )
            }
    }

    /// Whether node `n` is due to be handed to the cache: it has been
    /// visited more than a hundred times, and the cache does not know it or
    /// has seen it more than one visit less often.
    pub open spec fn due(&self, n: int) -> bool {
        let key = key_of(&self.nodes@[n].pos_mov.pos);
        &&& self.nodes@[n].N > 100
        &&& self.cache.is_some()
        &&& !self.cache.unwrap().items().contains_key(key) || self.cache.unwrap().items()[key].item.quality.N
            < self.nodes@[n].N - 1
    }


    /// What taking over from the cache what it knows of node `n` makes of
    /// the tree; see [`McTree::update_from_cache`]. Nothing changes but
    /// scores and numbers of visits, and those only if the cache has seen
    /// the node more often than the tree has (see [`McTree::outdone`]).
    pub open spec fn caught_up(&self, after: &McTree, n: int) -> bool {
        &&& after.wf()
        &&& after.same_rest(self)
        &&& same_tree(self.nodes@, after.nodes@)
        &&& grown_tree(self.nodes@, after.nodes@)
        &&& forall|k: int|
            0 <= k < self.nodes@.len() ==> {
                &&& (#[trigger] after.nodes@[k]).finish == self.nodes@[k].finish
                &&& after.nodes@[k].passed == self.nodes@[k].passed
            }
        &&& !self.outdone(n) ==> after.nodes@ == self.nodes@
        &&& self.outdone(n) ==> {
            let item = self.cache.unwrap().items()[key_of(&self.nodes@[n].pos_mov.pos)].item;
            &&& after.nodes@[n].N == item.quality.N
            &&& after.nodes@[n].W == item.quality.W
            &&& forall|k: int|
                0 <= k < self.nodes@.len() && k != n ==> score_of(#[trigger] after.nodes@[k]) == if among(
                    self.nodes@[n].childs@,
                    k,
                ) {
                    best_known(
                        score_of(self.nodes@[k]),
                        key_of(&self.nodes@[k].pos_mov.pos),
                        item.childs,
                        item.childs.len() as int,
                    )
                } else {
                    score_of(self.nodes@[k])
                }
        }
    }

    /// Takes over from the cache what it knows of node `n`, if it has seen
    /// the node more often than the tree has: the score and the visits of
    /// the node, and for each child what the cache has seen of it, where it
    /// has seen it more often than the tree has (see [`best_known`]). No
    /// node has fewer visits afterwards. Returns whether the node took over
    /// anything.
    pub fn update_from_cache(&mut self, n: usize) -> (ok: bool)
        requires
            old(self).wf(),
            n < old(self).nodes@.len(),
        ensures
            old(self).caught_up(final(self), n as int),
            ok == old(self).outdone(n as int),
    {
        proof {
            reveal(node_ok);
            lemma_grown_self(self.nodes@);
        }
        assert(node_ok(self.nodes@, n as int));
        let ghost before = self.nodes@;
        let key = self.nodes[n].get_key();
        let item = match &self.cache {
            Some(c) => c.get(&key),
            None => None,
        };
        let it = match item {
            Some(it) => it,
            None => {
                assert(same_tree(before, self.nodes@));
                return false;
            },
        };
        if !(self.nodes[n].N < it.quality.N) {
            assert(same_tree(before, self.nodes@));
            return false;
        }
        self.set_quality(n, it.quality);
        let ghost snaps = it@.childs;
        let kids = self.tree_kids(n);
        let mut s: usize = 0;
        while s < kids.len()
            invariant
                self.wf(),
                self.same_rest(old(self)),
                before == old(self).nodes@,
                nodes_ok(before),
                n < before.len(),
                same_tree(before, self.nodes@),
                grown_tree(before, self.nodes@),
                kids@ == before[n as int].childs@,
                snaps == it@.childs,
                s <= kids@.len(),
                self.nodes@[n as int].N == it.quality.N,
                self.nodes@[n as int].W == it.quality.W,
                forall|k: int|
                    0 <= k < before.len() ==> {
                        &&& (#[trigger] self.nodes@[k]).finish == before[k].finish
                        &&& self.nodes@[k].passed == before[k].passed
                    },
                forall|k: int|
                    0 <= k < before.len() && k != n ==> score_of(#[trigger] self.nodes@[k]) == if among(
                        kids@.take(s as int),
                        k,
                    ) {
                        best_known(score_of(before[k]), key_of(&before[k].pos_mov.pos), snaps, snaps.len() as int)
                    } else {
                        score_of(before[k])
                    },
            decreases kids@.len() - s,
        {
            let ghost now = self.nodes@;
            let ci = kids[s];
            proof {
                reveal(node_ok);
                assert(before[n as int].childs@.contains(ci));
                lemma_child_side(before, n as int, ci);
                assert(node_ok(now, ci as int));
            }
            let child_key = self.nodes[ci].get_key();
            let mut q = self.nodes[ci].quality();
            let ghost q0 = q;
            let mut x: usize = 0;
            while x < it.childs.len()
                invariant
                    x <= it.childs@.len(),
                    snaps == it@.childs,
                    q == best_known(q0, child_key@, snaps, x as int),
                    q.N >= q0.N,
                decreases it.childs@.len() - x,
            {
                assert(snaps[x as int] == (it.childs@[x as int].0@, it.childs@[x as int].1));
                if child_key.same(&it.childs[x].0) && q.N < it.childs[x].1.N {
                    q = it.childs[x].1;
                }
                x += 1;
            }
            self.set_quality(ci, q);
            proof {
                lemma_grown_twice(before, now, self.nodes@);
                assert(same_tree(before, self.nodes@));
                let full = snaps.len() as int;
                let key_c = key_of(&before[ci as int].pos_mov.pos);
                assert(child_key@ == key_c);
                if among(kids@.take(s as int), ci as int) {
                    lemma_best_known_again(score_of(before[ci as int]), key_c, snaps, full);
                }
                assert(kids@.take(s + 1) =~= kids@.take(s as int).push(ci));
                assert forall|k: int| 0 <= k < before.len() && k != n implies score_of(
                    #[trigger] self.nodes@[k],
                ) == if among(kids@.take(s + 1), k) {
                    best_known(score_of(before[k]), key_of(&before[k].pos_mov.pos), snaps, full)
                } else {
                    score_of(before[k])
                } by {
                    let longer = kids@.take(s + 1);
                    let shorter = kids@.take(s as int);
                    if k == ci {
                        assert(longer[s as int] == k);
                    } else {
                        assert(self.nodes@[k] == now[k]);
                        if among(longer, k) {
                            let j = choose|j: int| 0 <= j < longer.len() && longer[j] == k;
                            assert(longer[s as int] == ci);
                            assert(shorter[j] == k);
                        }
                        if among(shorter, k) {
                            let j = choose|j: int| 0 <= j < shorter.len() && shorter[j] == k;
                            assert(longer[j] == k);
                        }
                    }
                }
            }
            s += 1;
        }
        proof {
            assert(kids@.take(kids@.len() as int) =~= kids@);
        }
        true
    }

    /// Whether the cache has seen node `n` more often than the tree has.
    pub open spec fn outdone(&self, n: int) -> bool {
        let key = key_of(&self.nodes@[n].pos_mov.pos);
        &&& self.cache.is_some()
        &&& self.cache.unwrap().items().contains_key(key)
        &&& self.nodes@[n].N < self.cache.unwrap().items()[key].item.quality.N
    }

    /// What handing node `n` to the cache makes of the tree; see
    /// [`McTree::store_in_cache`]. The nodes do not change.
    pub open spec fn handed_on(&self, after: &McTree, n: int) -> bool {
        &&& after.wf()
        &&& after.root == self.root
        &&& after.nodes == self.nodes
        &&& after.cache.is_some() == self.cache.is_some()
        &&& !self.due(n) ==> after.cache == self.cache && after.pending == self.pending
        &&& self.due(n) ==> exists|item: NodeCacheItemView, actions: Seq<StoreActionView>|
            self.knows(n, item) && #[trigger] self.cache.unwrap().inserted(&after.cache.unwrap(), item, actions)
                && actions_view(after.pending@) == actions_view(self.pending@) + actions
    }

    /// Hands what the tree knows of node `n` to the cache, if the node is
    /// due (see [`McTree::due`]). What this asks of the store is put behind
    /// what is pending.
    pub fn store_in_cache(&mut self, n: usize)
        requires
            old(self).wf(),
            n < old(self).nodes@.len(),
        ensures
            old(self).handed_on(final(self), n as int),
    {
        proof {
            reveal(node_ok);
        }
        assert(node_ok(self.nodes@, n as int));
        if self.nodes[n].N > 100 && self.cache.is_some() {
            let key = self.nodes[n].get_key();
            let cached = match &self.cache {
                Some(c) => c.get(&key),
                None => None,
            };
            let due = match cached {
                Some(it) => it.quality.N < self.nodes[n].N - 1,
                None => true,
            };
            if due {
                let cache_item = NodeCacheItem::from_node(self, n);
                let ghost item = cache_item@;
                let mut holder: Option<CacheDb> = None;
                core::mem::swap(&mut holder, &mut self.cache);
                let mut cache = holder.unwrap();
                let actions = cache.insert(cache_item);
                let ghost asked = actions_view(actions@);
                self.cache = Some(cache);
                append_actions(&mut self.pending, actions);
                proof {
                    assert(old(self).cache.unwrap().inserted(&self.cache.unwrap(), item, asked));
                }
            }
        }
    }

    /// Counts one more visit of node `n`; the count stops at the largest
    /// number of its type.
    fn visit(&mut self, n: usize)
        requires
            old(self).wf(),
            n < old(self).nodes@.len(),
        ensures
            old(self).visited(final(self), n as int),
    {
        let q = Quality { W: self.nodes[n].W, N: add_clamped(self.nodes[n].N, 1) };
        self.set_quality(n, q);
    }

    /// What counting a visit of node `n` makes of the tree: the node has
    /// one more visit, held at the largest number of its type, and nothing
    /// else has changed.
    pub open spec fn visited(&self, after: &McTree, n: int) -> bool {
        &&& after.wf()
        &&& after.same_rest(self)
        &&& same_tree(self.nodes@, after.nodes@)
        &&& grown_tree(self.nodes@, after.nodes@)
        &&& after.nodes@[n] == (Node { N: clamped(self.nodes@[n].N as int, 1), ..self.nodes@[n] })
        &&& forall|k: int| 0 <= k < self.nodes@.len() && k != n ==> #[trigger] after.nodes@[k] == self.nodes@[k]
    }
}

/// The nodes `b` have the scores and the visits of the nodes `a`.
pub open spec fn same_scores(a: Seq<Node>, b: Seq<Node>) -> bool {
    forall|k: int| 0 <= k < a.len() && k < b.len() ==> (#[trigger] b[k]).N == a[k].N && b[k].W == a[k].W
}

/// Whether place `k` is among the places `kids`.
pub open spec fn among(kids: Seq<usize>, k: int) -> bool {
    exists|j: int| 0 <= j < kids.len() && #[trigger] kids[j] == k
}

/// How a node fared.
pub open spec fn score_of(node: Node) -> Quality {
    Quality { W: node.W, N: node.N }
}

/// What is known best of a position with key `key` that fared `q`, after
/// the first `j` of the figures `snaps` that a cache holds of positions by
/// their keys: each figure for `key` in turn takes the place of what is
/// known if it has more visits.
pub open spec fn best_known(q: Quality, key: Seq<i8>, snaps: Seq<(Seq<i8>, Quality)>, j: int) -> Quality
    decreases j,
{
    if j <= 0 {
        q
    } else {
        let before = best_known(q, key, snaps, j - 1);
        if snaps[j - 1].0 == key && before.N < snaps[j - 1].1.N {
            snaps[j - 1].1
        } else {
            before
        }
    }
}

/// What is known best has no fewer visits than any figure for the key
/// among those looked at, nor than what was known.
pub proof fn lemma_best_known_tops(q: Quality, key: Seq<i8>, snaps: Seq<(Seq<i8>, Quality)>, j: int)
    requires
        0 <= j <= snaps.len(),
    ensures
        best_known(q, key, snaps, j).N >= q.N,
        forall|i: int| 0 <= i < j && (#[trigger] snaps[i]).0 == key ==> best_known(q, key, snaps, j).N >= snaps[i].1.N,
    decreases j,
{
    if j > 0 {
        lemma_best_known_tops(q, key, snaps, j - 1);
    }
}

/// Looking at the figures again changes nothing of what is known best.
pub proof fn lemma_best_known_again(q: Quality, key: Seq<i8>, snaps: Seq<(Seq<i8>, Quality)>, n: int)
    requires
        n == snaps.len(),
    ensures
        forall|j: int| 0 <= j <= n ==> #[trigger] best_known(best_known(q, key, snaps, n), key, snaps, j)
            == best_known(q, key, snaps, n),
{
    let top = best_known(q, key, snaps, n);
    lemma_best_known_tops(q, key, snaps, n);
    assert forall|j: int| 0 <= j <= n implies #[trigger] best_known(top, key, snaps, j) == top by {
        lemma_best_known_stays(top, key, snaps, j);
    }
}

/// What has no fewer visits than any figure for its key stays what is
/// known best.
pub proof fn lemma_best_known_stays(q: Quality, key: Seq<i8>, snaps: Seq<(Seq<i8>, Quality)>, j: int)
    requires
        0 <= j <= snaps.len(),
        forall|i: int| 0 <= i < snaps.len() && (#[trigger] snaps[i]).0 == key ==> q.N >= snaps[i].1.N,
    ensures
        best_known(q, key, snaps, j) == q,
    decreases j,
{
    if j > 0 {
        lemma_best_known_stays(q, key, snaps, j - 1);
    }
}

/// The place in `list` of the node whose position has the highest material
/// balance among the first `n` nodes at the places `list`; the last of
/// several that are equal.
pub open spec fn richest(nodes: Seq<Node>, list: Seq<usize>, n: int) -> int
    decreases n,
{
    if n <= 1 {
        0
    } else {
        let before = richest(nodes, list, n - 1);
        if nodes[list[n - 1] as int].pos_mov.pos.state.material() >= nodes[list[before] as int].pos_mov.pos.state.material() {
            n - 1
        } else {
            before
        }
    }
}

/// The first place among the first `n` of `list` that holds `x`; `n` if
/// none does.
pub open spec fn first_place(list: Seq<usize>, x: usize, n: int) -> int
    decreases n,
{
    if n <= 0 {
        0
    } else {
        let before = first_place(list, x, n - 1);
        if before < n - 1 {
            before
        } else if list[n - 1] == x {
            n - 1
        } else {
            n
        }
    }
}

/// The depth to which the tree is looked into below a node with `l`
/// children: one ply more than asked for where there are fewer than two,
/// unless the depth asked for is the largest of its type.
pub open spec fn looked(max_deps: i16, l: int) -> int {
    if l < 2 && max_deps < i16::MAX {
        max_deps + 1
    } else {
        max_deps as int
    }
}

/// The children of node `node` that are looked into: the last five, or
/// all where there are no more.
pub open spec fn last_five(nodes: Seq<Node>, node: int) -> Seq<usize> {
    let kids = nodes[node].childs@;
    if kids.len() <= 5 {
        kids
    } else {
        kids.subrange(kids.len() - 5, kids.len() as int)
    }
}

/// What a look into the tree from node `node` finds: the node itself if it
/// has no children. Else, among the children looked into, at the depth
/// asked for the one with the highest material balance; before that, each
/// child stands for what a look from it finds one ply deeper, and the
/// answer is the richest of these finds below the first ply, and at the
/// first ply the first child that stands for it.
pub open spec fn found_from(nodes: Seq<Node>, node: int, max_deps: i16, deps: i16) -> int
    decreases nodes.len() - node, 1int,
{
    let kids = last_five(nodes, node);
    if !(0 <= node < nodes.len()) || nodes[node].childs@.len() == 0 || !nodes_ok(nodes) {
        node
    } else {
        let depth = looked(max_deps, nodes[node].childs@.len() as int);
        if deps < depth {
            let finds = finds_below(nodes, node, depth as i16, deps, kids.len() as int);
            let best = richest(nodes, finds, finds.len() as int);
            if deps > 0 {
                finds[best] as int
            } else {
                kids[first_place(finds, finds[best], finds.len() as int)] as int
            }
        } else {
            kids[richest(nodes, kids, kids.len() as int)] as int
        }
    }
}

/// What the looks from the first `n` of the children of `node` that are
/// looked into find, one ply deeper.
pub open spec fn finds_below(nodes: Seq<Node>, node: int, max_deps: i16, deps: i16, n: int) -> Seq<usize>
    decreases nodes.len() - node, 0int, n,
{
    let kids = last_five(nodes, node);
    if n <= 0 || n > kids.len() || !(0 <= node < nodes.len()) || !nodes_ok(nodes) {
        Seq::empty()
    } else {
        let c = kids[n - 1];
        proof {
            assert(nodes[node].childs@.contains(c)) by {
                let all = nodes[node].childs@;
                if all.len() <= 5 {
                    assert(all[n - 1] == c);
                } else {
                    assert(all[all.len() - 5 + n - 1] == c);
                }
            }
            lemma_child_side(nodes, node, c);
        }
        finds_below(nodes, node, max_deps, deps, n - 1).push(
            found_from(nodes, c as int, max_deps, (deps + 1) as i16) as usize,
        )
    }
}

/// The policy can be asked about every row of children.
pub open spec fn is_policy<P: Fn(&Vec<Quality>, i64, bool) -> usize>(policy: &P) -> bool {
    forall|stats: &Vec<Quality>, visits: i64, last: bool| #[trigger] policy.requires((stats, visits, last))
}

/// Nothing has changed of how the games ended at the nodes `a` and of
/// whether they are settled, but maybe at node `c`.
pub open spec fn same_ends(a: Seq<Node>, b: Seq<Node>, c: int) -> bool {
    forall|k: int|
        0 <= k < a.len() && k < b.len() && k != c ==> {
            &&& (#[trigger] b[k]).finish == a[k].finish
            &&& b[k].passed == a[k].passed
        }
}

impl McTree {
    /// How the children of node `n` fared, in their order.
    pub fn child_stats(&self, n: usize) -> (r: Vec<Quality>)
        requires
            self.wf(),
            n < self.nodes@.len(),
        ensures
            r@.len() == self.nodes@[n as int].childs@.len(),
            forall|i: int|
                0 <= i < r@.len() ==> {
                    let c = self.nodes@[n as int].childs@[i] as int;
                    (#[trigger] r@[i]) == (Quality { W: self.nodes@[c].W, N: self.nodes@[c].N })
                },
    {
        let node = &self.nodes[n];
        let mut r: Vec<Quality> = Vec::new();
        let mut i: usize = 0;
        while i < node.childs.len()
            invariant
                self.wf(),
                n < self.nodes@.len(),
                node == &self.nodes@[n as int],
                i <= node.childs@.len(),
                r@.len() == i,
                forall|k: int|
                    0 <= k < i ==> {
                        let c = node.childs@[k] as int;
                        (#[trigger] r@[k]) == (Quality { W: self.nodes@[c].W, N: self.nodes@[c].N })
                    },
            decreases node.childs@.len() - i,
        {
            proof {
                assert(node.childs@.contains(node.childs@[i as int]));
                lemma_child_side(self.nodes@, n as int, node.childs@[i as int]);
            }
            r.push(self.nodes[node.childs[i]].quality());
            i += 1;
        }
        r
    }

    /// What choosing the child `c` of node `n` to go on with makes of the
    /// tree; see [`McTree::descend`]. No node that was there has another
    /// score, number of visits or sum of game lengths afterwards. While the
    /// node is unfolding, it gets `c` as one more child (see
    /// [`McTree::with_child`]). Else nothing changes of the children, and
    /// `c` is a child never visited, if there is one, or else the child the
    /// policy chose.
    pub open spec fn descended<P: Fn(&Vec<Quality>, i64, bool) -> usize>(
        &self,
        after: &McTree,
        n: int,
        policy: &P,
        c: usize,
    ) -> bool {
        &&& after.wf()
        &&& after.same_rest(self)
        &&& grown_tree(self.nodes@, after.nodes@)
        &&& same_ends(self.nodes@, after.nodes@, -1)
        &&& after.nodes@[n].childs@.contains(c)
        &&& self.unfolding(n) ==> self.with_child(after, n, c)
        &&& !self.unfolding(n) ==> same_tree(self.nodes@, after.nodes@) && same_scores(self.nodes@, after.nodes@)
        &&& forall|k: int|
            0 <= k < self.nodes@.len() ==> (#[trigger] after.nodes@[k]).W == self.nodes@[k].W && after.nodes@[k].N
                == self.nodes@[k].N && after.nodes@[k].game_len_sum == self.nodes@[k].game_len_sum
        &&& !self.unfolding(n) && self.has_fresh_child(n) ==> self.nodes@[c as int].N < 1
        &&& !self.unfolding(n) && !self.has_fresh_child(n) ==> exists|stats: Vec<Quality>, answer: usize| #[trigger]
            self.asked(n, policy, stats, answer, c)
    }

    /// Chooses the child of node `n` to go on with. While a legal move of
    /// the node has no child, the next such move gets one, and that child
    /// is chosen. Else, if there are children never visited, one of them is
    /// drawn at random. Else the policy chooses among the children by how
    /// they fared; what it answers beyond their number counts as the first.
    pub fn descend<P: Fn(&Vec<Quality>, i64, bool) -> usize>(&mut self, n: usize, policy: &P) -> (c: usize)
        requires
            old(self).wf(),
            n < old(self).nodes@.len(),
            moves_of(&old(self).nodes@[n as int].pos_mov.pos).len() > 0,
            is_policy(policy),
        ensures
            old(self).descended(final(self), n as int, policy, c),
    {
        proof {
            reveal(node_ok);
            lemma_grown_self(self.nodes@);
        }
        assert(node_ok(self.nodes@, n as int));
        let ghost before = self.nodes@;
        let total = self.nodes[n].pos_mov.pos.count_moves();
        proof {
            assert(same_tree(before, self.nodes@));
            assert(same_scores(before, self.nodes@));
            lemma_same_tree(before, self.nodes@);
            lemma_same_grown(before, self.nodes@);
        }
        if self.nodes[n].childs.len() < total {
            let ghost mid = self.nodes@;
            let c = self.add_child(n);
            proof {
                lemma_grown_twice(before, mid, self.nodes@);
                assert(self.nodes@[n as int].childs@[mid[n as int].childs@.len() as int] == c);
            }
            return c;
        }
        let kids = self.tree_kids(n);
        let stats = self.child_stats(n);
        let mut zero: Vec<usize> = Vec::new();
        let mut s: usize = 0;
        while s < stats.len()
            invariant
                s <= stats@.len(),
                forall|k: int| 0 <= k < zero@.len() ==> (#[trigger] zero@[k]) < stats@.len() && stats@[zero@[k] as int].N < 1,
                forall|x: int| 0 <= x < s && (#[trigger] stats@[x]).N < 1 ==> zero@.len() > 0,
            decreases stats@.len() - s,
        {
            if stats[s].N < 1 {
                zero.push(s);
            }
            s += 1;
        }
        proof {
            if old(self).has_fresh_child(n as int) {
                let x = choose|x: int|
                    0 <= x < before[n as int].childs@.len() && before[(#[trigger] before[n as int].childs@[x]) as int].N
                        < 1;
                let cx = before[n as int].childs@[x];
                assert(before[n as int].childs@.contains(cx));
                lemma_child_side(before, n as int, cx);
                assert(self.nodes@[n as int].childs@[x] == cx);
                assert(self.nodes@[cx as int].N == before[cx as int].N);
                assert(stats@[x].N < 1);
            }
            assert forall|k: int| 0 <= k < zero@.len() implies before[kids@[(#[trigger] zero@[k]) as int] as int].N
                < 1 by {
                let cx = kids@[zero@[k] as int];
                assert(before[n as int].childs@.contains(cx));
                lemma_child_side(before, n as int, cx);
                assert(stats@[zero@[k] as int].N == self.nodes@[cx as int].N);
            }
        }
        if zero.len() > 0 {
            let i = zero[random_below(zero.len())];
            assert(self.nodes@[n as int].childs@[i as int] == kids@[i as int]);
            kids[i]
        } else {
            let answer = policy(&stats, self.nodes[n].N, false);
            let i = if answer < stats.len() { answer } else { 0 };
            assert(self.nodes@[n as int].childs@[i as int] == kids@[i as int]);
            proof {
                assert forall|x: int| 0 <= x < kids@.len() implies (#[trigger] stats@[x]) == (Quality {
                    W: before[kids@[x] as int].W,
                    N: before[kids@[x] as int].N,
                }) by {
                    assert(before[n as int].childs@.contains(kids@[x]));
                    lemma_child_side(before, n as int, kids@[x]);
                    assert(self.nodes@[kids@[x] as int].N == before[kids@[x] as int].N);
                }
                assert(self.nodes@[n as int].N == before[n as int].N);
                assert(old(self).asked(n as int, policy, stats, answer, kids@[i as int]));
            }
            kids[i]
        }
    }

    /// Node `n` has a legal move without a child yet.
    pub open spec fn unfolding(&self, n: int) -> bool {
        self.nodes@[n].childs@.len() < moves_of(&self.nodes@[n].pos_mov.pos).len()
    }

    /// Node `n` has a child that was never visited.
    pub open spec fn has_fresh_child(&self, n: int) -> bool {
        exists|x: int|
            0 <= x < self.nodes@[n].childs@.len() && self.nodes@[(#[trigger] self.nodes@[n].childs@[x]) as int].N < 1
    }

    /// The child `c` of node `n` is the one the policy chose while the
    /// search was under way: asked about how the children of the node fared,
    /// `stats`, it gave `answer`, and `c` is the child at that place, or the
    /// first child where there is no such place.
    pub open spec fn asked<P: Fn(&Vec<Quality>, i64, bool) -> usize>(
        &self,
        n: int,
        policy: &P,
        stats: Vec<Quality>,
        answer: usize,
        c: usize,
    ) -> bool {
        let kids = self.nodes@[n].childs@;
        &&& stats@.len() == kids.len()
        &&& forall|i: int|
            0 <= i < kids.len() ==> (#[trigger] stats@[i]) == (Quality {
                W: self.nodes@[kids[i] as int].W,
                N: self.nodes@[kids[i] as int].N,
            })
        &&& policy.ensures((&stats, self.nodes@[n].N, false), answer)
        &&& kids.len() > 0
        &&& c == kids[if answer < kids.len() { answer as int } else { 0 }]
    }

    /// The places of the children of node `n` among the nodes.
    pub fn tree_kids(&self, n: usize) -> (r: Vec<usize>)
        requires
            n < self.nodes@.len(),
        ensures
            r@ == self.nodes@[n as int].childs@,
    {
        let mut r: Vec<usize> = Vec::new();
        let kids = &self.nodes[n].childs;
        let mut i: usize = 0;
        while i < kids.len()
            invariant
                i <= kids@.len(),
                r@ == kids@.subrange(0, i as int),
            decreases kids@.len() - i,
        {
            r.push(kids[i]);
            i += 1;
        }
        assert(r@ =~= kids@);
        r
    }

    /// What recording the end of the game at node `k` makes of the tree:
    /// the node holds the end and is settled, and nothing else has changed.
    /// Where no game has ended, nothing has changed at all.
    pub open spec fn closed(&self, after: &McTree, k: int, end: Option<FinishType>) -> bool {
        match end {
            Some(finish) => {
                &&& after.wf()
                &&& after.same_rest(self)
                &&& same_tree(self.nodes@, after.nodes@)
                &&& grown_tree(self.nodes@, after.nodes@)
                &&& same_ends(self.nodes@, after.nodes@, k)
                &&& after.nodes@[k] == (Node { finish: Some(finish), passed: true, ..self.nodes@[k] })
                &&& forall|j: int| 0 <= j < self.nodes@.len() && j != k ==> #[trigger] after.nodes@[j] == self.nodes@[j]
            },
            None => *after == *self,
        }
    }

    /// Records at node `k` how the game ended there.
    fn close(&mut self, k: usize, finish: FinishType)
        requires
            old(self).wf(),
            k < old(self).nodes@.len(),
        ensures
            old(self).closed(final(self), k as int, Some(finish)),
    {
        let ghost before = self.nodes@;
        self.nodes[k].finish = Some(finish);
        self.nodes[k].passed = true;
        proof {
            lemma_same_tree(before, self.nodes@);
            lemma_same_grown(before, self.nodes@);
        }
    }

    /// One step of a rollout is made of these parts, in this order: node
    /// `node` counts a visit, which makes `parts.0` of the tree; it takes
    /// over what the cache knows better, which makes `parts.1`; it is
    /// handed to the cache if it is due, which makes `parts.2`; a child is
    /// chosen, which makes `parts.3`; a copy `entry` of what the child
    /// holds is put behind the history `listed`, where the rules are
    /// applied to it; and the child records the end of the game, if they
    /// say it has ended.
    pub open spec fn step_of<P: Fn(&Vec<Quality>, i64, bool) -> usize>(
        &self,
        after: &McTree,
        listed: Seq<PositionAndMove>,
        history: &PositionHistory,
        node: int,
        policy: &P,
        r: (usize, Option<FinishType>),
        parts: (McTree, McTree, McTree, McTree),
        entry: PositionAndMove,
    ) -> bool {
        &&& self.visited(&parts.0, node)
        &&& parts.0.caught_up(&parts.1, node)
        &&& parts.1.handed_on(&parts.2, node)
        &&& parts.2.descended(&parts.3, node, policy, r.0)
        &&& r.0 < parts.3.nodes@.len()
        &&& entry.same_as(&parts.3.nodes@[r.0 as int].pos_mov)
        &&& history.checked(listed.push(entry), r.1)
        &&& parts.3.closed(after, r.0 as int, r.1)
    }

    /// What one step of a rollout from node `node` makes of the tree and
    /// of the history `listed`, with the child it goes on with and the end
    /// of the game, if it has ended; see [`McTree::step_of`].
    #[verifier::opaque]
    pub open spec fn stepped<P: Fn(&Vec<Quality>, i64, bool) -> usize>(
        &self,
        after: &McTree,
        listed: Seq<PositionAndMove>,
        history: &PositionHistory,
        node: int,
        policy: &P,
        r: (usize, Option<FinishType>),
    ) -> bool {
        exists|parts: (McTree, McTree, McTree, McTree), entry: PositionAndMove| #[trigger]
            self.step_of(after, listed, history, node, policy, r, parts, entry)
    }

    /// One step of a rollout from node `node`: the node counts a visit,
    /// takes over what the cache knows better and hands the cache what it
    /// is due; a child is chosen (see [`McTree::descend`]) and its position
    /// is put behind the history, where the rules are applied to it. If
    /// they end the game, the child records how. Returns the child and how
    /// the game ended, if it did. See [`McTree::stepped`].
    pub fn step<P: Fn(&Vec<Quality>, i64, bool) -> usize>(
        &mut self,
        history: &mut PositionHistory,
        node: usize,
        policy: &P,
    ) -> (r: (usize, Option<FinishType>))
        requires
            old(self).wf(),
            node < old(self).nodes@.len(),
            moves_of(&old(self).nodes@[node as int].pos_mov.pos).len() > 0,
            is_policy(policy),
        ensures
            old(self).stepped(final(self), old(history).list@, final(history), node as int, policy, r),
            final(self).wf(),
            final(self).root == old(self).root,
            final(self).cache.is_some() == old(self).cache.is_some(),
            grown_tree(old(self).nodes@, final(self).nodes@),
            same_ends(old(self).nodes@, final(self).nodes@, r.0 as int),
            final(self).nodes@[node as int].childs@.contains(r.0),
            final(self).nodes@[node as int].N >= clamped(old(self).nodes@[node as int].N as int, 1),
            final(history).list@.len() == old(history).list@.len() + 1,
            final(history).list@.drop_last() == old(history).list@,
            final(history).last_ok(),
            r.1.is_none() ==> moves_of(&final(self).nodes@[r.0 as int].pos_mov.pos).len() > 0,
            r.1.is_some() ==> final(self).nodes@[r.0 as int].finish == r.1 && final(self).nodes@[r.0 as int].passed,
    {
        let ghost t0 = *self;
        let ghost n0 = self.nodes@;
        self.visit(node);
        let ghost t1 = *self;
        let ghost n1 = self.nodes@;
        self.update_from_cache(node);
        let ghost t2 = *self;
        let ghost n2 = self.nodes@;
        self.store_in_cache(node);
        let ghost t3 = *self;
        let child = self.descend(node, policy);
        let ghost t4 = *self;
        let ghost n3 = self.nodes@;
        proof {
            reveal(node_ok);
            lemma_grown_twice(n0, n1, n2);
            lemma_grown_twice(n0, n2, n3);
            lemma_child_side(n3, node as int, child);
            assert(node_ok(n3, child as int));
        }
        let pos_mov = self.nodes[child].pos_mov.clone();
        let ghost listed_before = history.list@;
        let finish = history.push_rc(pos_mov);
        proof {
            assert(listed_before.push(pos_mov).drop_last() =~= listed_before);
        }
        match finish {
            Some(f) => {
                self.close(child, f);
                proof {
                    lemma_grown_twice(n0, n3, self.nodes@);
                }
            },
            None => {
                proof {
                    let cur = listed_before.push(pos_mov).last();
                    assert(cur.pos.cells@ == n3[child as int].pos_mov.pos.cells@);
                }
            },
        }
        proof {
            reveal(McTree::stepped);
            assert(t0.step_of(self, listed_before, history, node as int, policy, (child, finish), (t1, t2, t3, t4), pos_mov));
        }
        (child, finish)
    }
}


/// The steps of the way down of a rollout, one after the other (see
/// [`McTree::stepped`]): `trees` and `hists` are the tree and the history
/// before the first step and after each step, `track` the nodes passed.
/// No game ended before the last step, which ended as `end` says.
#[verifier::opaque]
pub open spec fn walk_of<P: Fn(&Vec<Quality>, i64, bool) -> usize>(
    trees: Seq<McTree>,
    hists: Seq<PositionHistory>,
    track: Seq<usize>,
    end: Option<FinishType>,
    policy: &P,
) -> bool {
    &&& track.len() > 0
    &&& trees.len() == track.len()
    &&& hists.len() == track.len()
    &&& track.len() == 1 ==> end.is_none()
    &&& forall|i: int|
        0 <= i < track.len() - 1 ==> (#[trigger] trees[i]).stepped(
            &trees[i + 1],
            hists[i].list@,
            &hists[i + 1],
            track[i] as int,
            policy,
            (track[i + 1], if i == track.len() - 2 { end } else { None }),
        )
}

/// A way down begins with no step taken.
pub proof fn lemma_walk_begins<P: Fn(&Vec<Quality>, i64, bool) -> usize>(
    tree: McTree,
    hist: PositionHistory,
    root: usize,
    policy: &P,
)
    ensures
        walk_of(seq![tree], seq![hist], seq![root], None, policy),
{
    reveal(walk_of);
}

/// A way down on which no game has ended goes on by one more step.
pub proof fn lemma_walk_goes_on<P: Fn(&Vec<Quality>, i64, bool) -> usize>(
    trees: Seq<McTree>,
    hists: Seq<PositionHistory>,
    track: Seq<usize>,
    policy: &P,
    tree: McTree,
    hist: PositionHistory,
    child: usize,
    end: Option<FinishType>,
)
    requires
        walk_of(trees, hists, track, None, policy),
        trees.last().stepped(&tree, hists.last().list@, &hist, track.last() as int, policy, (child, end)),
    ensures
        walk_of(trees.push(tree), hists.push(hist), track.push(child), end, policy),
{
    reveal(walk_of);
    let trees2 = trees.push(tree);
    let hists2 = hists.push(hist);
    let track2 = track.push(child);
    assert forall|i: int| 0 <= i < track2.len() - 1 implies (#[trigger] trees2[i]).stepped(
        &trees2[i + 1],
        hists2[i].list@,
        &hists2[i + 1],
        track2[i] as int,
        policy,
        (track2[i + 1], if i == track2.len() - 2 { end } else { None }),
    ) by {
        if i < track.len() - 1 {
            assert(trees[i].stepped(
                &trees[i + 1],
                hists[i].list@,
                &hists[i + 1],
                track[i] as int,
                policy,
                (track[i + 1], if i == track.len() - 2 { None } else { None }),
            ));
        }
    }
}

/// What the way down of a rollout makes of the nodes `start`: the tree has
/// grown into `mid`, `track` is a way down it from `root`, along which the
/// root has counted one more visit, and the game has ended at the last
/// node of the way as `end` says, if it says so.
#[verifier::opaque]
pub open spec fn walked(start: Seq<Node>, mid: Seq<Node>, root: usize, track: Seq<usize>, end: Option<FinishType>) -> bool {
    &&& root < start.len()
    &&& grown_tree(start, mid)
    &&& is_path(mid, track)
    &&& track[0] == root
    &&& mid[root as int].finish.is_none()
    &&& mid[root as int].childs@.len() > 0
    &&& mid[root as int].N >= clamped(start[root as int].N as int, 1)
    &&& end.is_some() ==> mid[track.last() as int].finish == end
}

/// What the way back of a rollout makes of the nodes `mid`: if the game
/// ended, its result for the last node of the way `track` (see
/// [`outcome`]) is backed up along the way (see [`backed`]), which gives
/// `after`. If no game ended, `after` is `mid`.
#[verifier::opaque]
pub open spec fn backed_up(mid: Seq<Node>, after: Seq<Node>, track: Seq<usize>, end: Option<FinishType>) -> bool {
    match end {
        Some(f) => backed(mid, after, track, outcome(f, mid[track.last() as int].pos_mov.pos.next_move)),
        None => after == mid,
    }
}

/// What a rollout of `used` steps makes of the nodes `start`: on the way
/// down (see [`walked`]) they become `mid`, on the way back (see
/// [`backed_up`]) `after`.
pub open spec fn rolled(
    start: Seq<Node>,
    mid: Seq<Node>,
    after: Seq<Node>,
    root: usize,
    track: Seq<usize>,
    used: int,
    end: Option<FinishType>,
) -> bool {
    &&& walked(start, mid, root, track, end)
    &&& track.len() == used + 1
    &&& backed_up(mid, after, track, end)
}

/// A rollout that reaches the end of a game changes the scores along its
/// way in turns, as [`law_backed_scores_alternate`] says of backing up:
/// every node at which Black is to move adds the result as White sees it,
/// every node at which White is to move adds the opposite, and the sides
/// alternate from node to node.
pub proof fn law_rollout_scores_alternate(
    start: Seq<Node>,
    mid: Seq<Node>,
    after: Seq<Node>,
    root: usize,
    track: Seq<usize>,
    used: int,
    finish: FinishType,
)
    requires
        nodes_ok(mid),
        rolled(start, mid, after, root, track, used, Some(finish)),
    ensures
        forall|t: int|
            0 <= t < track.len() ==> (#[trigger] after[track[t] as int]).W == clamped(
                mid[track[t] as int].W as int,
                if mid[track[t] as int].pos_mov.pos.next_move == Some(Color::Black) {
                    finish.rank()
                } else {
                    -finish.rank()
                },
            ),
        forall|t: int|
            0 <= t < track.len() - 1 ==> (#[trigger] mid[track[t + 1] as int]).pos_mov.pos.next_move == flipped(
                mid[track[t] as int].pos_mov.pos.next_move,
            ),
{
    reveal(walked);
    reveal(backed_up);
    reveal(node_ok);
    assert(node_ok(mid, track.last() as int));
    law_backed_scores_alternate(mid, after, track, finish);
}

/// While the cache is calm (see [`McTree::calm`]) a step of a rollout
/// changes no score: every node that was there keeps its score, and the
/// cache is calm for the steps that are left.
pub proof fn lemma_step_keeps_scores<P: Fn(&Vec<Quality>, i64, bool) -> usize>(
    before: McTree,
    after: McTree,
    listed: Seq<PositionAndMove>,
    history: PositionHistory,
    node: int,
    policy: &P,
    r: (usize, Option<FinishType>),
    left: int,
)
    requires
        left >= 1,
        before.calm(left),
        0 <= node < before.nodes@.len(),
        before.stepped(&after, listed, &history, node, policy, r),
    ensures
        after.wf(),
        after.calm(left - 1),
        after.root == before.root,
        before.nodes@.len() <= after.nodes@.len(),
        r.0 < after.nodes@.len(),
        forall|k: int| 0 <= k < before.nodes@.len() ==> (#[trigger] after.nodes@[k]).W == before.nodes@[k].W,
        forall|k: int| before.nodes@.len() <= k < after.nodes@.len() ==> (#[trigger] after.nodes@[k]).W == 0,
{
    reveal(McTree::stepped);
    let (parts, entry) = choose|parts: (McTree, McTree, McTree, McTree), entry: PositionAndMove| #[trigger]
        before.step_of(&after, listed, &history, node, policy, r, parts, entry);
    assert(before.visited(&parts.0, node));
    assert(parts.0.caught_up(&parts.1, node));
    assert(parts.1.handed_on(&parts.2, node));
    assert(parts.2.descended(&parts.3, node, policy, r.0));
    assert(parts.3.closed(&after, r.0 as int, r.1));
    assert(!parts.0.outdone(node));
    assert(parts.1.nodes@ == parts.0.nodes@);
    if before.cache.is_some() {
        assert(before.nodes@[node].N + left <= 100);
        assert(parts.0.nodes@[node].N == clamped(before.nodes@[node].N as int, 1));
        assert(parts.1.nodes@[node].N <= 100);
    }
    assert(!parts.1.due(node));
    assert(parts.2.nodes@ == parts.1.nodes@);
    assert(parts.2.cache == before.cache);
    assert forall|k: int| 0 <= k < before.nodes@.len() implies (#[trigger] after.nodes@[k]).W == before.nodes@[k].W by {
        assert(parts.0.nodes@[k].W == before.nodes@[k].W);
        assert(parts.3.nodes@[k].W == parts.2.nodes@[k].W);
        assert(after.nodes@[k].W == parts.3.nodes@[k].W);
    }
    assert(after.cache == before.cache);
    assert forall|k: int| before.nodes@.len() <= k < after.nodes@.len() implies (#[trigger] after.nodes@[k]).W == 0 by {
        assert(parts.2.with_child(&parts.3, node, r.0));
        assert(k == r.0);
        assert(after.nodes@[k].W == parts.3.nodes@[k].W);
    }
    if before.cache.is_some() {
        assert forall|k: int| 0 <= k < after.nodes@.len() implies (#[trigger] after.nodes@[k]).N + (left - 1) <= 100 by {
            assert(after.nodes@[k].N == parts.3.nodes@[k].N);
            if k < before.nodes@.len() {
                assert(before.nodes@[k].N + left <= 100);
                assert(parts.0.nodes@[k].N <= before.nodes@[k].N + 1);
                assert(parts.3.nodes@[k].N == parts.2.nodes@[k].N);
            } else {
                assert(parts.2.with_child(&parts.3, node, r.0));
                assert(k == r.0);
            }
        }
    }
}

/// While the cache is calm the way down of a rollout changes no score.
pub proof fn lemma_walk_keeps_scores<P: Fn(&Vec<Quality>, i64, bool) -> usize>(
    trees: Seq<McTree>,
    hists: Seq<PositionHistory>,
    track: Seq<usize>,
    end: Option<FinishType>,
    policy: &P,
    i: int,
)
    requires
        walk_of(trees, hists, track, end, policy),
        trees[0].calm(track.len() - 1),
        0 <= i < trees.len(),
        track[0] < trees[0].nodes@.len(),
        trees[0].wf(),
    ensures
        track[i] < trees[i].nodes@.len(),
        trees[i].wf(),
        trees[i].calm(track.len() - 1 - i),
        trees[i].root == trees[0].root,
        trees[0].nodes@.len() <= trees[i].nodes@.len(),
        forall|k: int| 0 <= k < trees[0].nodes@.len() ==> (#[trigger] trees[i].nodes@[k]).W == trees[0].nodes@[k].W,
        forall|k: int| trees[0].nodes@.len() <= k < trees[i].nodes@.len() ==> (#[trigger] trees[i].nodes@[k]).W == 0,
    decreases i,
{
    reveal(walk_of);
    if i > 0 {
        lemma_walk_keeps_scores(trees, hists, track, end, policy, i - 1);
        let r = (track[i], if i - 1 == track.len() - 2 { end } else { None });
        assert(trees[i - 1].stepped(&trees[i], hists[i - 1].list@, &hists[i], track[i - 1] as int, policy, r));
        lemma_step_keeps_scores(
            trees[i - 1],
            trees[i],
            hists[i - 1].list@,
            hists[i],
            track[i - 1] as int,
            policy,
            r,
            track.len() - i,
        );
    }
}

/// A rollout of a tree whose cache is calm (see [`McTree::calm`]: there
/// is none, or it is empty and stays so) that reaches the end of a game
/// moves the score of the root by the result as White sees it (1 for a
/// win of White, -1 for a win of Black, 0 for a draw) if Black is to move
/// at the root, and by the opposite if White is: after a win of White the
/// score of the root has moved by one in White's favour from what it was
/// before the rollout.
pub proof fn law_rollout_moves_root<P: Fn(&Vec<Quality>, i64, bool) -> usize>(
    before: McTree,
    after: McTree,
    listed: Seq<PositionAndMove>,
    budget: i32,
    policy: &P,
    used: i32,
    finish: FinishType,
)
    requires
        before.wf(),
        before.calm(budget as int),
        before.rolled_out(&after, listed, budget, policy, (used, Some(finish))),
    ensures
        after.nodes@[before.root as int].W == clamped(
            before.nodes@[before.root as int].W as int,
            if before.nodes@[before.root as int].pos_mov.pos.next_move == Some(Color::Black) {
                finish.rank()
            } else {
                -finish.rank()
            },
        ),
{
    reveal(McTree::rolled_out);
    let r = (used, Some(finish));
    let (mid, mid_h, track) = choose|mid: McTree, mid_h: PositionHistory, track: Seq<usize>| #[trigger]
        before.rolled_via(&after, listed, budget, policy, r, &mid, &mid_h, track);
    assert(track.len() == used + 1 && used <= budget) by {
        reveal(walked);
    }
    lemma_walked_keeps_root(before, mid, listed, mid_h, track, Some(finish), policy);
    law_rollout_scores_alternate(before.nodes@, mid.nodes@, after.nodes@, before.root, track, used as int, finish);
    assert(track[0] == before.root && track.len() > 0) by {
        reveal(walked);
    }
    assert(mid.nodes@[before.root as int].pos_mov.pos.next_move == before.nodes@[before.root as int].pos_mov.pos.next_move) by {
        reveal(walked);
    }
}

/// A rollout of a tree whose cache is calm that reaches the end of a game
/// changes the scores along its way in turns, counted from what they were
/// before the rollout, and from 0 at the nodes it made: every node on the
/// way at which Black is to move adds the result as White sees it, every
/// node at which White is to move adds the opposite.
pub proof fn law_rollout_scores_from_before<P: Fn(&Vec<Quality>, i64, bool) -> usize>(
    before: McTree,
    after: McTree,
    listed: Seq<PositionAndMove>,
    budget: i32,
    policy: &P,
    used: i32,
    finish: FinishType,
)
    requires
        before.wf(),
        before.calm(budget as int),
        before.rolled_out(&after, listed, budget, policy, (used, Some(finish))),
    ensures
        exists|mid: Seq<Node>, track: Seq<usize>|
            {
                &&& #[trigger] rolled(before.nodes@, mid, after.nodes@, before.root, track, used as int, Some(finish))
                &&& forall|t: int|
                    0 <= t < track.len() ==> (#[trigger] after.nodes@[track[t] as int]).W == clamped(
                        before.score_at(track[t] as int) as int,
                        if mid[track[t] as int].pos_mov.pos.next_move == Some(Color::Black) {
                            finish.rank()
                        } else {
                            -finish.rank()
                        },
                    )
            },
{
    reveal(McTree::rolled_out);
    let r = (used, Some(finish));
    let (mid, mid_h, track) = choose|mid: McTree, mid_h: PositionHistory, track: Seq<usize>| #[trigger]
        before.rolled_via(&after, listed, budget, policy, r, &mid, &mid_h, track);
    assert(track.len() == used + 1 && used <= budget) by {
        reveal(walked);
    }
    lemma_walked_keeps_root(before, mid, listed, mid_h, track, Some(finish), policy);
    law_rollout_scores_alternate(before.nodes@, mid.nodes@, after.nodes@, before.root, track, used as int, finish);
    assert forall|t: int| 0 <= t < track.len() implies track[t] < mid.nodes@.len() by {
        reveal(walked);
    }
    assert(rolled(before.nodes@, mid.nodes@, after.nodes@, before.root, track, used as int, Some(finish)));
}

/// While the cache is calm the way down of a rollout leaves the score of
/// the root as it was, and the tree sound.
pub proof fn lemma_walked_keeps_root<P: Fn(&Vec<Quality>, i64, bool) -> usize>(
    before: McTree,
    mid: McTree,
    listed: Seq<PositionAndMove>,
    mid_h: PositionHistory,
    track: Seq<usize>,
    end: Option<FinishType>,
    policy: &P,
)
    requires
        before.wf(),
        before.calm(track.len() - 1),
        before.walked_by(&mid, listed, &mid_h, track, end, policy),
    ensures
        mid.wf(),
        mid.nodes@[before.root as int].W == before.nodes@[before.root as int].W,
        before.nodes@.len() <= mid.nodes@.len(),
        forall|k: int| 0 <= k < mid.nodes@.len() ==> (#[trigger] mid.nodes@[k]).W == before.score_at(k),
{
    reveal(McTree::walked_by);
    let (trees, hists) = choose|trees: Seq<McTree>, hists: Seq<PositionHistory>| #[trigger]
        before.walked_via(&mid, listed, &mid_h, track, end, policy, trees, hists);
    assert(trees.len() > 0) by {
        reveal(walk_of);
    }
    lemma_walk_keeps_scores(trees, hists, track, end, policy, trees.len() - 1);
}

impl McTree {
    /// The score that the end `finish` of a game at node `k` adds to the
    /// node; see [`outcome`].
    pub fn rollout_result(&self, k: usize, finish: &FinishType) -> (res: i64)
        requires
            k < self.nodes@.len(),
        ensures
            res == outcome(*finish, self.nodes@[k as int].pos_mov.pos.next_move),
            -1 <= res <= 1,
    {
        let fr = finish.signum();
        match self.nodes[k].pos_mov.pos.next_move {
            Some(Color::White) => -fr,
            _ => fr,
        }
    }

    /// The way down of a rollout has made `after` of the tree and
    /// `after_h` of the history `listed`, step by step along `track`, as
    /// `trees` and `hists` show; see [`walk_of`].
    pub open spec fn walked_via<P: Fn(&Vec<Quality>, i64, bool) -> usize>(
        &self,
        after: &McTree,
        listed: Seq<PositionAndMove>,
        after_h: &PositionHistory,
        track: Seq<usize>,
        end: Option<FinishType>,
        policy: &P,
        trees: Seq<McTree>,
        hists: Seq<PositionHistory>,
    ) -> bool {
        &&& walk_of(trees, hists, track, end, policy)
        &&& trees[0] == *self
        &&& trees.last() == *after
        &&& hists[0].list@ == listed
        &&& hists.last() == *after_h
        &&& track[0] == self.root
    }

    /// The way down of a rollout has made `after` of the tree and
    /// `after_h` of the history `listed`, step by step along `track`.
    #[verifier::opaque]
    pub open spec fn walked_by<P: Fn(&Vec<Quality>, i64, bool) -> usize>(
        &self,
        after: &McTree,
        listed: Seq<PositionAndMove>,
        after_h: &PositionHistory,
        track: Seq<usize>,
        end: Option<FinishType>,
        policy: &P,
    ) -> bool {
        exists|trees: Seq<McTree>, hists: Seq<PositionHistory>| #[trigger]
            self.walked_via(after, listed, after_h, track, end, policy, trees, hists)
    }

    /// A rollout with `budget` steps to take has made `after` of the tree:
    /// the way down, along `track`, made `mid` of it, and `mid_h` of the
    /// history `listed` (see [`McTree::walked_by`]); it took `r.0` steps
    /// and stopped when a game ended, as `r.1` says, or when the steps were
    /// used up; the way back made `after` of `mid` (see [`rolled`]).
    pub open spec fn rolled_via<P: Fn(&Vec<Quality>, i64, bool) -> usize>(
        &self,
        after: &McTree,
        listed: Seq<PositionAndMove>,
        budget: i32,
        policy: &P,
        r: (i32, Option<FinishType>),
        mid: &McTree,
        mid_h: &PositionHistory,
        track: Seq<usize>,
    ) -> bool {
        &&& self.walked_by(mid, listed, mid_h, track, r.1, policy)
        &&& rolled(self.nodes@, mid.nodes@, after.nodes@, self.root, track, r.0 as int, r.1)
        &&& after.same_rest(mid)
        &&& 0 < r.0 <= budget
        &&& r.1.is_none() ==> r.0 == budget
    }

    /// What a rollout with `budget` steps to take makes of the tree; see
    /// [`McTree::rolled_via`].
    #[verifier::opaque]
    pub open spec fn rolled_out<P: Fn(&Vec<Quality>, i64, bool) -> usize>(
        &self,
        after: &McTree,
        listed: Seq<PositionAndMove>,
        budget: i32,
        policy: &P,
        r: (i32, Option<FinishType>),
    ) -> bool {
        exists|mid: McTree, mid_h: PositionHistory, track: Seq<usize>| #[trigger]
            self.rolled_via(after, listed, budget, policy, r, &mid, &mid_h, track)
    }

    /// A rollout with `budget` steps to take, of which it took `used`, has
    /// made `after` of the tree; see [`McTree::rolled_out`].
    pub open spec fn round<P: Fn(&Vec<Quality>, i64, bool) -> usize>(
        &self,
        after: &McTree,
        listed: Seq<PositionAndMove>,
        budget: int,
        used: int,
        policy: &P,
    ) -> bool {
        exists|r: (i32, Option<FinishType>)|
            r.0 == used && i32::MIN <= budget <= i32::MAX && #[trigger] self.rolled_out(
                after,
                listed,
                budget as i32,
                policy,
                r,
            )
    }

    /// Whether a search with `left` steps to take makes one more rollout:
    /// there is a step to take, and not everything below the root is
    /// settled.
    pub open spec fn open_for(&self, left: int) -> bool {
        left > 0 && !self.nodes@[self.root as int].passed
    }

    /// The rollouts of a search of `max_passes` steps, one after the
    /// other: `trees` are the tree before the first rollout and after each
    /// rollout, `left` the steps left to take then. Each rollout is made
    /// because the search is open (see [`McTree::open_for`]), and after the
    /// last it is not.
    pub open spec fn rounds_of<P: Fn(&Vec<Quality>, i64, bool) -> usize>(
        trees: Seq<McTree>,
        left: Seq<int>,
        listed: Seq<PositionAndMove>,
        max_passes: int,
        policy: &P,
    ) -> bool {
        &&& trees.len() > 0
        &&& left.len() == trees.len()
        &&& left[0] == max_passes
        &&& forall|i: int|
            0 <= i < trees.len() - 1 ==> (#[trigger] trees[i]).open_for(left[i]) && trees[i].round(
                &trees[i + 1],
                listed,
                left[i],
                left[i] - left[i + 1],
                policy,
            )
        &&& !trees.last().open_for(left.last())
    }

    /// A search of `max_passes` steps has made `after` of the tree by the
    /// rollouts that `trees` and `left` show (see [`McTree::rounds_of`]);
    /// a root that had no child after them, for want of a rollout, has got
    /// its first (see [`McTree::add_child`]).
    pub open spec fn searched_via<P: Fn(&Vec<Quality>, i64, bool) -> usize>(
        &self,
        after: &McTree,
        listed: Seq<PositionAndMove>,
        max_passes: int,
        policy: &P,
        trees: Seq<McTree>,
        left: Seq<int>,
    ) -> bool {
        let last = trees.last();
        &&& Self::rounds_of(trees, left, listed, max_passes, policy)
        &&& trees[0] == *self
        &&& last.nodes@[last.root as int].childs@.len() > 0 ==> *after == last
        &&& last.nodes@[last.root as int].childs@.len() == 0 ==> trees.len() == 1 && exists|c: usize| #[trigger]
            last.with_child(after, last.root as int, c)
    }

    /// The way down of a rollout: from the root, step by step (see
    /// [`McTree::step`]), until a game ends or `budget` steps are taken.
    /// Returns the way taken and how the game ended, if it did. The history
    /// has the positions passed behind what it held.
    #[verifier::rlimit(100)]
    #[verifier::spinoff_prover]
    fn walk<P: Fn(&Vec<Quality>, i64, bool) -> usize>(
        &mut self,
        history: &mut PositionHistory,
        budget: i32,
        policy: &P,
    ) -> (r: (Vec<usize>, Option<FinishType>, i32))
        requires
            old(self).wf(),
            old(self).nodes@[old(self).root as int].finish.is_none(),
            moves_of(&old(self).nodes@[old(self).root as int].pos_mov.pos).len() > 0,
            budget > 0,
            is_policy(policy),
        ensures
            final(self).wf(),
            final(self).root == old(self).root,
            final(self).cache.is_some() == old(self).cache.is_some(),
            walked(old(self).nodes@, final(self).nodes@, old(self).root, r.0@, r.1),
            old(self).walked_by(final(self), old(history).list@, final(history), r.0@, r.1, policy),
            grown_tree(old(self).nodes@, final(self).nodes@),
            is_path(final(self).nodes@, r.0@),
            final(self).nodes@[final(self).root as int].finish.is_none(),
            final(self).nodes@[final(self).root as int].childs@.len() > 0,
            final(self).nodes@[final(self).root as int].N >= clamped(
                old(self).nodes@[old(self).root as int].N as int,
                1,
            ),
            r.0@.len() == r.2 + 1,
            0 < r.2 <= budget,
            r.1.is_none() ==> r.2 == budget,
            final(history).list@.len() >= old(history).list@.len(),
            final(history).list@.take(old(history).list@.len() as int) == old(history).list@,
    {
        let ghost start = self.nodes@;
        let ghost listed = history.list@;
        let root = self.root;
        let mut node = root;
        let mut track: Vec<usize> = Vec::new();
        track.push(node);
        let mut used: i32 = 0;
        let mut end: Option<FinishType> = None;
        let ghost mut trees: Seq<McTree> = seq![*self];
        let ghost mut hists: Seq<PositionHistory> = seq![*history];
        proof {
            lemma_grown_self(start);
            assert(history.list@.take(listed.len() as int) =~= listed);
            lemma_walk_begins(*self, *history, root, policy);
            assert(track@ =~= seq![root]);
        }
        while used < budget && end.is_none()
            invariant
                walk_of(trees, hists, track@, end, policy),
                trees[0] == *old(self),
                hists[0].list@ == old(history).list@,
                trees.len() == track@.len(),
                hists.len() == track@.len(),
                trees.last() == *self,
                hists.last() == *history,
                self.wf(),
                self.root == root,
                root == old(self).root,
                self.cache.is_some() == old(self).cache.is_some(),
                start == old(self).nodes@,
                listed == old(history).list@,
                root < start.len(),
                grown_tree(start, self.nodes@),
                is_path(self.nodes@, track@),
                track@[0] == root,
                track@.len() == used + 1,
                node == track@.last(),
                end.is_none() ==> moves_of(&self.nodes@[node as int].pos_mov.pos).len() > 0,
                end.is_some() ==> self.nodes@[node as int].finish == end && used > 0,
                self.nodes@[root as int].finish.is_none(),
                used > 0 ==> self.nodes@[root as int].childs@.len() > 0,
                used > 0 ==> self.nodes@[root as int].N >= clamped(start[root as int].N as int, 1),
                0 <= used <= budget,
                history.list@.len() >= listed.len(),
                history.list@.take(listed.len() as int) == listed,
                is_policy(policy),
            decreases budget - used + if end.is_some() { 0int } else { 1int },
        {
            used += 1;
            let ghost before = self.nodes@;
            let ghost hist_before = history.list@;
            let (child, finish) = self.step(history, node, policy);
            proof {
                lemma_grown_twice(start, before, self.nodes@);
                lemma_path_kept(before, self.nodes@, track@);
                lemma_path_longer(self.nodes@, track@, child);
                lemma_path_grows(self.nodes@, track@.push(child), 0, track@.len() as int);
                assert(history.list@.take(listed.len() as int) =~= hist_before.take(listed.len() as int)) by {
                    assert(history.list@.drop_last() == hist_before);
                }
                if node == root {
                    assert(self.nodes@[root as int].childs@.contains(child));
                }
            }
            proof {
                lemma_walk_goes_on(trees, hists, track@, policy, *self, *history, child, finish);
                trees = trees.push(*self);
                hists = hists.push(*history);
            }
            track.push(child);
            end = finish;
            node = child;
        }
        proof {
            reveal(walked);
            reveal(McTree::walked_by);
            assert(old(self).walked_via(self, old(history).list@, history, track@, end, policy, trees, hists));
        }
        (track, end, used)
    }

    /// The way back of a rollout; see [`backed_up`].
    fn back_up(&mut self, track: &Vec<usize>, end: Option<FinishType>)
        requires
            old(self).wf(),
            is_path(old(self).nodes@, track@),
        ensures
            final(self).wf(),
            final(self).same_rest(old(self)),
            backed_up(old(self).nodes@, final(self).nodes@, track@, end),
            grown_tree(old(self).nodes@, final(self).nodes@),
            final(self).nodes@[final(self).root as int].finish == old(self).nodes@[old(self).root as int].finish,
            final(self).nodes@[final(self).root as int].childs@ == old(self).nodes@[old(self).root as int].childs@,
            final(self).nodes@[final(self).root as int].N == old(self).nodes@[old(self).root as int].N,
    {
        let ghost mid = self.nodes@;
        proof {
            reveal(backed_up);
            lemma_grown_self(mid);
        }
        match end {
            Some(f) => {
                let res = self.rollout_result(track[track.len() - 1], &f);
                self.back_propagation(track, res);
                proof {
                    lemma_same_grown(mid, self.nodes@);
                }
            },
            None => {},
        }
    }

    /// One rollout: from the root down, step by step (see
    /// [`McTree::step`]), until a game ends or `budget` steps are taken.
    /// The end of a game is backed up along the way taken; see [`rolled`].
    /// The history is the same afterwards as before. Returns the number of
    /// steps taken and how the game ended, if it did.
    pub fn rollout<P: Fn(&Vec<Quality>, i64, bool) -> usize>(
        &mut self,
        history: &mut PositionHistory,
        budget: i32,
        policy: &P,
    ) -> (r: (i32, Option<FinishType>))
        requires
            old(self).wf(),
            old(self).nodes@[old(self).root as int].finish.is_none(),
            moves_of(&old(self).nodes@[old(self).root as int].pos_mov.pos).len() > 0,
            budget > 0,
            is_policy(policy),
        ensures
            final(self).wf(),
            final(self).root == old(self).root,
            grown_tree(old(self).nodes@, final(self).nodes@),
            final(self).nodes@[final(self).root as int].finish.is_none(),
            final(self).nodes@[final(self).root as int].childs@.len() > 0,
            final(self).nodes@[final(self).root as int].N >= clamped(
                old(self).nodes@[old(self).root as int].N as int,
                1,
            ),
            final(self).cache.is_some() == old(self).cache.is_some(),
            final(history).list@ == old(history).list@,
            0 < r.0 <= budget,
            r.1.is_none() ==> r.0 == budget,
            exists|mid: Seq<Node>, track: Seq<usize>| #[trigger]
                rolled(old(self).nodes@, mid, final(self).nodes@, old(self).root, track, r.0 as int, r.1),
            old(self).rolled_out(final(self), old(history).list@, budget, policy, r),
    {
        let ghost start = self.nodes@;
        let hist_len = history.len();
        let (track, end, used) = self.walk(history, budget, policy);
        let ghost mid = self.nodes@;
        let ghost mid_tree = *self;
        let ghost mid_h = *history;
        self.back_up(&track, end);
        history.cut_to(hist_len);
        proof {
            lemma_grown_twice(start, mid, self.nodes@);
            assert(rolled(start, mid, self.nodes@, self.root, track@, used as int, end));
            reveal(McTree::rolled_out);
            assert(old(self).rolled_via(self, old(history).list@, budget, policy, (used, end), &mid_tree, &mid_h, track@));
        }
        (used, end)
    }

    /// What a search of `max_passes` steps makes of the tree, with its
    /// answer `best`; see [`McTree::search`]. The tree is what the rollouts
    /// have made of it (see [`McTree::searched_via`]): it has grown, the
    /// root has counted a visit if there was a rollout, and nothing has
    /// changed if there was none and the root had children. The answer is
    /// the child of the root that the policy chose in the end (see
    /// [`McTree::answered`]); it records a legal move of the root (see
    /// [`records`]).
    pub open spec fn searched<P: Fn(&Vec<Quality>, i64, bool) -> usize>(
        &self,
        after: &McTree,
        listed: Seq<PositionAndMove>,
        max_passes: i32,
        policy: &P,
        best: usize,
    ) -> bool {
        &&& after.wf()
        &&& after.root == self.root
        &&& after.cache.is_some() == self.cache.is_some()
        &&& grown_tree(self.nodes@, after.nodes@)
        &&& after.nodes@[after.root as int].finish.is_none()
        &&& after.nodes@[after.root as int].childs@.contains(best)
        &&& exists|j: int| #[trigger] records(after.nodes@, after.root as int, best as int, j)
        &&& exists|stats: Vec<Quality>, answer: usize| #[trigger] after.answered(policy, stats, answer, best)
        &&& self.open_at_root(max_passes) ==> after.nodes@[after.root as int].N >= clamped(
            self.nodes@[self.root as int].N as int,
            1,
        )
        &&& !self.open_at_root(max_passes) && self.nodes@[self.root as int].childs@.len() > 0 ==> after.nodes@
            == self.nodes@
        &&& exists|trees: Seq<McTree>, left: Seq<int>| #[trigger]
            self.searched_via(after, listed, max_passes as int, policy, trees, left)
    }

    /// Searches the tree: rollouts from the root (see [`McTree::rollout`])
    /// until `max_passes` steps are taken or everything below the root is
    /// settled; then the policy chooses the answer among the children of
    /// the root, asked for its last word. A root without children gets one
    /// first. Returns the place of the child chosen. The game must not have
    /// ended at the root. The history is the same afterwards as before.
    /// See [`McTree::searched`].
    pub fn search<P: Fn(&Vec<Quality>, i64, bool) -> usize>(
        &mut self,
        history: &mut PositionHistory,
        max_passes: i32,
        policy: &P,
    ) -> (best: usize)
        requires
            old(self).wf(),
            old(self).nodes@[old(self).root as int].finish.is_none(),
            moves_of(&old(self).nodes@[old(self).root as int].pos_mov.pos).len() > 0,
            is_policy(policy),
        ensures
            old(self).searched(final(self), old(history).list@, max_passes, policy, best),
            final(history).list@ == old(history).list@,
    {
        let ghost start = self.nodes@;
        let root = self.root;
        let mut pass: i32 = 0;
        let ghost mut trees: Seq<McTree> = seq![*self];
        let ghost mut left: Seq<int> = seq![max_passes as int];
        proof {
            lemma_grown_self(start);
        }
        while pass < max_passes && !self.nodes[root].passed
            invariant
                trees.len() > 0,
                left.len() == trees.len(),
                left[0] == max_passes,
                trees[0] == *old(self),
                trees.last() == *self,
                left.last() == max_passes - pass,
                forall|i: int|
                    0 <= i < trees.len() - 1 ==> (#[trigger] trees[i]).open_for(left[i]) && trees[i].round(
                        &trees[i + 1],
                        old(history).list@,
                        left[i],
                        left[i] - left[i + 1],
                        policy,
                    ),
                pass == 0 ==> trees.len() == 1,
                pass == 0 ==> self.nodes@ == start,
                pass > 0 ==> old(self).open_at_root(max_passes),
                pass > 0 ==> self.nodes@[root as int].childs@.len() > 0,
                pass > 0 ==> self.nodes@[root as int].N >= clamped(start[root as int].N as int, 1),
                self.wf(),
                self.root == root,
                root == old(self).root,
                start == old(self).nodes@,
                root < start.len(),
                grown_tree(start, self.nodes@),
                self.nodes@[root as int].finish.is_none(),
                0 <= pass,
                pass > 0 ==> pass <= max_passes,
                self.cache.is_some() == old(self).cache.is_some(),
                moves_of(&self.nodes@[root as int].pos_mov.pos).len() > 0,
                history.list@ == old(history).list@,
                is_policy(policy),
            decreases max_passes - pass,
        {
            let ghost before = self.nodes@;
            let ghost before_tree = *self;
            let (used, end) = self.rollout(history, max_passes - pass, policy);
            proof {
                lemma_grown_twice(start, before, self.nodes@);
                assert(moves_of(&self.nodes@[root as int].pos_mov.pos) == moves_of(&before[root as int].pos_mov.pos));
                assert(before_tree.rolled_out(self, old(history).list@, (max_passes - pass) as i32, policy, (used, end)));
                assert(before_tree.round(self, old(history).list@, max_passes - pass, used as int, policy));
                let trees2 = trees.push(*self);
                let left2 = left.push(max_passes - pass - used);
                assert forall|i: int| 0 <= i < trees2.len() - 1 implies (#[trigger] trees2[i]).open_for(left2[i])
                    && trees2[i].round(&trees2[i + 1], old(history).list@, left2[i], left2[i] - left2[i + 1], policy) by {
                    if i < trees.len() - 1 {
                        assert(trees[i].open_for(left[i]));
                        assert(trees2[i + 1] == trees[i + 1]);
                    }
                }
                trees = trees2;
                left = left2;
            }
            pass += used;
        }
        let ghost last = *self;
        if self.nodes[root].childs.len() == 0 {
            let ghost before = self.nodes@;
            let c = self.add_child(root);
            proof {
                lemma_grown_twice(start, before, self.nodes@);
                assert(last.with_child(self, root as int, c));
            }
        }
        proof {
            assert(!last.open_for(left.last()));
            assert(old(self).searched_via(self, old(history).list@, max_passes as int, policy, trees, left));
        }
        let kids = self.tree_childs();
        let stats = self.child_stats(root);
        let answer = policy(&stats, self.nodes[root].N, true);
        let i = if answer < kids.len() { answer } else { 0 };
        assert(self.answered(policy, stats, answer, kids@[i as int]));
        proof {
            assert(kids@.contains(kids@[i as int]));
            lemma_child_records(self.nodes@, root as int, kids@[i as int]);
        }
        kids[i]
    }

    /// Whether a search of `max_passes` steps makes a rollout at all: there
    /// is a step to take, and not everything below the root is settled.
    pub open spec fn open_at_root(&self, max_passes: i32) -> bool {
        max_passes > 0 && !self.nodes@[self.root as int].passed
    }

    /// The child `best` of node `n` is the one the policy chose: asked for
    /// its last word about how the children of the node fared, `stats`, it
    /// gave `answer`, and `best` is the child at that place, or the first
    /// child where there is no such place.
    pub open spec fn answered_at<P: Fn(&Vec<Quality>, i64, bool) -> usize>(
        &self,
        n: int,
        policy: &P,
        stats: Vec<Quality>,
        answer: usize,
        best: usize,
    ) -> bool {
        let kids = self.nodes@[n].childs@;
        &&& stats@.len() == kids.len()
        &&& forall|i: int|
            0 <= i < kids.len() ==> (#[trigger] stats@[i]) == (Quality {
                W: self.nodes@[kids[i] as int].W,
                N: self.nodes@[kids[i] as int].N,
            })
        &&& policy.ensures((&stats, self.nodes@[n].N, true), answer)
        &&& kids.len() > 0
        &&& best == kids[if answer < kids.len() { answer as int } else { 0 }]
    }

    /// The child `best` of the root is the one the policy chose; see
    /// [`McTree::answered_at`].
    pub open spec fn answered<P: Fn(&Vec<Quality>, i64, bool) -> usize>(
        &self,
        policy: &P,
        stats: Vec<Quality>,
        answer: usize,
        best: usize,
    ) -> bool {
        self.answered_at(self.root as int, policy, stats, answer, best)
    }
}

impl McTree {
    /// The place in `list` of the richest of the nodes at the places
    /// `list`; see [`richest`].
    fn richest_of(&self, list: &Vec<usize>) -> (r: usize)
        requires
            list@.len() > 0,
            forall|i: int| 0 <= i < list@.len() ==> (#[trigger] list@[i]) < self.nodes@.len(),
        ensures
            r == richest(self.nodes@, list@, list@.len() as int),
            r < list@.len(),
    {
        let mut best: usize = 0;
        let mut i: usize = 1;
        while i < list.len()
            invariant
                1 <= i <= list@.len(),
                best < i,
                best == richest(self.nodes@, list@, i as int),
                forall|k: int| 0 <= k < list@.len() ==> (#[trigger] list@[k]) < self.nodes@.len(),
            decreases list@.len() - i,
        {
            if self.nodes[list[i]].pos_mov.pos.state.balance() >= self.nodes[list[best]].pos_mov.pos.state.balance() {
                best = i;
            }
            i += 1;
        }
        best
    }

    /// Looks into the tree from node `node` for the child to prefer by
    /// material alone; see [`found_from`].
    pub fn root_search(&self, node: usize, max_deps: i16, deps: i16) -> (r: usize)
        requires
            self.wf(),
            node < self.nodes@.len(),
        ensures
            r == found_from(self.nodes@, node as int, max_deps, deps),
            r < self.nodes@.len(),
        decreases self.nodes@.len() - node,
    {
        let all = &self.nodes[node].childs;
        if all.len() == 0 {
            return node;
        }
        let l = all.len();
        let l0 = if l <= 5 { 0 } else { l - 5 };
        let depth = if l < 2 && max_deps < i16::MAX { max_deps + 1 } else { max_deps };
        let mut list: Vec<usize> = Vec::new();
        let mut i: usize = l0;
        while i < l
            invariant
                self.wf(),
                node < self.nodes@.len(),
                all == &self.nodes@[node as int].childs,
                l == all@.len(),
                l0 == if l <= 5 { 0int } else { l - 5 },
                l0 <= i <= l,
                list@ == all@.subrange(l0 as int, i as int),
                forall|k: int| 0 <= k < list@.len() ==> (#[trigger] list@[k]) < self.nodes@.len() && node < list@[k],
            decreases l - i,
        {
            proof {
                assert(all@.contains(all@[i as int]));
                lemma_child_side(self.nodes@, node as int, all@[i as int]);
            }
            list.push(all[i]);
            i += 1;
        }
        let ghost kids = last_five(self.nodes@, node as int);
        assert(list@ =~= kids);
        if deps < depth {
            let mut finds: Vec<usize> = Vec::new();
            let mut k: usize = 0;
            while k < list.len()
                invariant
                    self.wf(),
                    node < self.nodes@.len(),
                    list@ == kids,
                    kids == last_five(self.nodes@, node as int),
                    deps < depth,
                    k <= list@.len(),
                    forall|x: int| 0 <= x < list@.len() ==> (#[trigger] list@[x]) < self.nodes@.len() && node < list@[x],
                    finds@ == finds_below(self.nodes@, node as int, depth, deps, k as int),
                    forall|x: int| 0 <= x < finds@.len() ==> (#[trigger] finds@[x]) < self.nodes@.len(),
                    finds@.len() == k,
                decreases list@.len() - k,
            {
                let found = self.root_search(list[k], depth, deps + 1);
                finds.push(found);
                k += 1;
            }
            let best = self.richest_of(&finds);
            if deps > 0 {
                finds[best]
            } else {
                let target = finds[best];
                let mut ind: usize = 0;
                while ind < finds.len() && finds[ind] != target
                    invariant
                        ind <= finds@.len(),
                        best < finds@.len(),
                        target == finds@[best as int],
                        ind <= best,
                        forall|x: int| 0 <= x < ind ==> finds@[x] != target,
                        first_place(finds@, target, ind as int) == ind,
                    decreases finds@.len() - ind,
                {
                    ind += 1;
                }
                proof {
                    lemma_first_place(finds@, target, ind as int, finds@.len() as int);
                }
                list[ind]
            }
        } else {
            let best = self.richest_of(&list);
            list[best]
        }
    }
}

/// Once a place that holds `x` is found, it stays the first.
pub proof fn lemma_first_place(list: Seq<usize>, x: usize, at: int, n: int)
    requires
        0 <= at < n <= list.len(),
        list[at] == x,
        first_place(list, x, at) == at,
    ensures
        first_place(list, x, n) == at,
    decreases n - at,
{
    if n > at + 1 {
        lemma_first_place(list, x, at, n - 1);
    }
}

} // verus!
