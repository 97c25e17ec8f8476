use vstd::prelude::*;
use std::sync::Arc;
use crate::board::{applicable, lemma_move_undone, unmakeable};
use crate::evaluation::{score, valid_draws};
use crate::color::Color;
use crate::finish::FinishType;
use crate::mcts::{moves_of, McTree};
use crate::move_gen::listed;
use crate::moves::BoardPos;
use crate::moves_list::{MoveItem, MoveItemView, MoveList};
use crate::piece::Piece;
use crate::position::{copy_cells, Position};
use crate::position_environment::{valid_size, PositionEnvironment};
use crate::position_history::{history_ok, judged, lemma_ok_empty, PositionAndMove, PositionHistory};
use crate::sorting::{is_stable_order, stable_order};

verus! {

/// What a search answers: the position it prefers, with the move that
/// leads to it; the positions it chose among, best first as evaluated on
/// the spot; and the value it gives to its choice.
#[derive(Debug)]
pub struct BestPos {
    pub pos: Option<PositionAndMove>,
    pub pos_list: Vec<PositionAndMove>,
    pub deep_eval: i32,
}

impl BestPos {
    /// The move that leads to the preferred position.
    pub fn get_move_item(&self) -> (m: MoveItem)
        requires
            self.pos.is_some(),
            self.pos.unwrap().mov.is_some(),
        ensures
            m@ == self.pos.unwrap().mov.unwrap()@,
    {
        match &self.pos {
            Some(p) => match &p.mov {
                Some(m) => m.clone(),
                None => MoveItem { strike: None, mov: None },
            },
            None => MoveItem { strike: None, mov: None },
        }
    }
}

/// How the engine looks for its move: by searching the game tree to a
/// depth, by rollouts, or by both.
#[derive(Copy, Clone, Debug, PartialEq, Eq, Structural)]
pub enum Method {
    Deep,
    MCTS,
    Mix,
}

/// What a search by rollouts answers: how the game ended, if it has; else
/// the position preferred, and, where the move was made, the boards that
/// can follow, each with what the search thinks of it.
#[derive(Debug)]
pub struct MCTSRes {
    pub board_list: Option<Vec<Vec<i32>>>,
    pub finish: Option<FinishType>,
    pub pos_move: Option<PositionAndMove>,
}

/// A game: the position on the board, the positions that led to it, the
/// geometry of the board, and how the engine looks for its moves.
pub struct Game {
    pub position_history: PositionHistory,
    pub position_environment: Arc<PositionEnvironment>,
    pub current_position: Position,
    pub max_depth: i16,
    pub mcts_lim: i32,
    pub method: Method,
    pub tree: Option<McTree>,
}

/// A copy of a row of positions.
pub fn clone_list(list: &Vec<PositionAndMove>) -> (r: Vec<PositionAndMove>)
    ensures
        r@.len() == list@.len(),
        forall|i: int| 0 <= i < r@.len() ==> (#[trigger] r@[i]).same_as(&list@[i]),
{
    let mut r: Vec<PositionAndMove> = Vec::new();
    let mut i: usize = 0;
    while i < list.len()
        invariant
            i <= list@.len(),
            r@.len() == i,
            forall|k: int| 0 <= k < i ==> (#[trigger] r@[k]).same_as(&list@[k]),
        decreases list@.len() - i,
    {
        r.push(list[i].clone());
        i += 1;
    }
    r
}

impl Game {
    /// The game is sound: its position is and lies on the board of the
    /// game; every position of the history is sound and lies on that board
    /// (see [`history_ok`]); the tree is sound if there is one, with its
    /// root on the board of the game.
    pub open spec fn wf(&self) -> bool {
        &&& self.current_position.wf()
        &&& self.current_position.environment == self.position_environment
        &&& self.position_history.last_ok()
        &&& history_ok(self.position_history.list@, self.position_environment)
        &&& match self.tree {
            Some(t) => t.wf() && t.nodes@[t.root as int].pos_mov.pos.environment == self.position_environment,
            None => true,
        }
    }

    /// Everything but the position and the history is as in `other`.
    pub open spec fn same_setup(&self, other: &Game) -> bool {
        &&& self.position_environment == other.position_environment
        &&& self.max_depth == other.max_depth
        &&& self.mcts_lim == other.mcts_lim
        &&& self.method == other.method
        &&& self.tree == other.tree
    }

    /// A game on an empty board of side `size`, with no side to move yet.
    /// The engine searches the game tree, three plies deep.
    pub fn new(size: i8) -> (g: Game)
        requires
            valid_size(size as int),
        ensures
            g.wf(),
            g.position_environment.is_board(size as int),
            g.current_position.cells@.len() == size * size / 2,
            forall|i: int| 0 <= i < g.current_position.cells@.len() ==> (#[trigger] g.current_position.cells@[i]).is_none(),
            g.current_position.next_move.is_none(),
            g.current_position.state == crate::pos_state::PosState::empty(),
            g.position_history.list@.len() == 0,
            g.max_depth == 3,
            g.mcts_lim == 10000,
            g.method == Method::Deep,
            g.tree.is_none(),
    {
        let environment = Arc::new(PositionEnvironment::new(size));
        assert(environment.cell_count() <= 50) by {
            assert(valid_size(size as int));
            if size == 2 {
            } else if size == 4 {
            } else if size == 6 {
            } else if size == 8 {
            } else {
            }
        }
        let position = Position::new(environment.clone());
        let g = Game {
            position_environment: environment,
            current_position: position,
            position_history: PositionHistory::new(),
            max_depth: 3,
            method: Method::Deep,
            mcts_lim: 10000,
            tree: None,
        };
        proof {
            lemma_ok_empty(g.position_history.list@, g.position_environment);
        }
        g
    }

    pub fn set_depth(&mut self, depth: i16)
        ensures
            *final(self) == (Game { max_depth: depth, ..*old(self) }),
    {
        self.max_depth = depth;
    }

    pub fn set_mcts_lim(&mut self, mcts_lim: i32)
        ensures
            *final(self) == (Game { mcts_lim, ..*old(self) }),
    {
        self.mcts_lim = mcts_lim;
    }

    pub fn set_method(&mut self, method: Method)
        ensures
            *final(self) == (Game { method, ..*old(self) }),
    {
        self.method = method;
    }

    /// Puts a piece on the board; see [`Position::insert_piece`].
    pub fn insert_piece(&mut self, piece: Piece)
        requires
            old(self).wf(),
            piece.pos < old(self).current_position.cells@.len(),
        ensures
            final(self).wf(),
            final(self).same_setup(old(self)),
            final(self).position_history == old(self).position_history,
            final(self).current_position.cells@ == old(self).current_position.cells@.update(
                piece.pos as int,
                Some(piece),
            ),
            final(self).current_position.next_move == old(self).current_position.next_move,
    {
        self.current_position.insert_piece(piece);
    }

    /// Takes a piece off the board; see [`Position::remove_piece`].
    pub fn remove_piece(&mut self, pos: BoardPos) -> (r: bool)
        requires
            old(self).wf(),
            pos < old(self).current_position.cells@.len(),
        ensures
            final(self).wf(),
            final(self).same_setup(old(self)),
            final(self).position_history == old(self).position_history,
            r == old(self).current_position.cells@[pos as int].is_some(),
            final(self).current_position.cells@ == old(self).current_position.cells@.update(pos as int, None),
            final(self).current_position.next_move == old(self).current_position.next_move,
    {
        self.current_position.remove_piece(pos)
    }

    /// The place on the full board of the cell with packed index
    /// `pack_index`.
    pub fn to_board(&self, pack_index: BoardPos) -> (r: BoardPos)
        requires
            pack_index < self.position_environment.pack_to_board@.len(),
        ensures
            r == self.position_environment.pack_to_board@[pack_index as int],
    {
        self.position_environment.pack_to_board[pack_index]
    }

    /// The packed index of the square at place `board_index` of the full
    /// board.
    pub fn to_pack(&self, board_index: BoardPos) -> (r: BoardPos)
        requires
            board_index < self.position_environment.board_to_pack@.len(),
        ensures
            r == self.position_environment.board_to_pack@[board_index as int],
    {
        self.position_environment.board_to_pack[board_index]
    }

    /// The side to move, if one is.
    pub fn get_color(&self) -> (r: Option<Color>)
        ensures
            r == self.current_position.next_move,
    {
        self.current_position.next_move
    }

    /// Says which side is to move.
    pub fn set_color(&mut self, color: Color)
        requires
            old(self).wf(),
        ensures
            final(self).wf(),
            final(self).same_setup(old(self)),
            final(self).position_history == old(self).position_history,
            final(self).current_position.next_move == Some(color),
            final(self).current_position.cells@ == old(self).current_position.cells@,
            final(self).current_position.state == old(self).current_position.state,
    {
        self.current_position.next_move = Some(color);
        self.current_position.move_list = None;
        self.current_position.eval = None;
    }

    /// The legal moves of the side to move; see
    /// [`Position::get_move_list`].
    pub fn get_move_list(&mut self, for_front: bool) -> (r: MoveList)
        requires
            old(self).wf(),
            old(self).current_position.next_move.is_some(),
        ensures
            final(self).wf(),
            final(self).same_setup(old(self)),
            final(self).position_history == old(self).position_history,
            final(self).current_position.same_as(&old(self).current_position),
            listed(
                r@.list,
                old(self).current_position.cells@,
                &old(self).current_position.environment,
                old(self).current_position.next_move.unwrap(),
                for_front,
            ),
    {
        self.current_position.get_move_list(for_front)
    }

    /// The legal moves of the side to move as they are listed for display,
    /// with a capture chain for every cell a jump may land on.
    pub fn get_move_list_for_front(&mut self) -> (r: MoveList)
        requires
            old(self).wf(),
            old(self).current_position.next_move.is_some(),
        ensures
            final(self).wf(),
            final(self).same_setup(old(self)),
            final(self).position_history == old(self).position_history,
            final(self).current_position.same_as(&old(self).current_position),
            listed(
                r@.list,
                old(self).current_position.cells@,
                &old(self).current_position.environment,
                old(self).current_position.next_move.unwrap(),
                true,
            ),
    {
        self.get_move_list(true)
    }
}

/// Entry `e` is the position that the `i`-th legal move of `pos` leads to,
/// with that move, which can be made on `pos`, and with its evaluation.
pub open spec fn is_child(e: &PositionAndMove, pos: &Position, i: int) -> bool {
    &&& e.pos.wf()
    &&& 0 <= i < moves_of(pos).len()
    &&& applicable(pos.cells@, moves_of(pos)[i])
    &&& e.pos.reached_by(pos, moves_of(pos)[i])
    &&& e.move_view() == Some(moves_of(pos)[i])
    &&& e.pos.eval.is_some()
}

/// Entry `e` holds the evaluation of its position, made with some weights
/// drawn for its pieces; see [`score`].
pub open spec fn valued(e: &PositionAndMove, state_only: bool) -> bool {
    exists|draws: Seq<i32>| #[trigger]
        valid_draws(draws, e.pos.cells@) && e.pos.eval.is_some() && e.pos.eval.unwrap() == score(
            &e.pos,
            state_only,
            draws,
        )
}

/// `v` is the evaluation of position `pos`: the one it keeps, if it keeps
/// one, else one made with some weights drawn for its pieces; see
/// [`score`].
pub open spec fn evaluated(pos: &Position, state_only: bool, v: int) -> bool {
    match pos.eval {
        Some(e) => v == e,
        None => exists|draws: Seq<i32>| #[trigger] valid_draws(draws, pos.cells@) && v == score(pos, state_only, draws),
    }
}

/// Every entry of `list` holds the evaluation of its position.
pub open spec fn all_valued(list: Seq<PositionAndMove>, state_only: bool) -> bool {
    forall|k: int| 0 <= k < list.len() ==> valued(#[trigger] &list[k], state_only)
}

/// Entries that hold the same hold the same evaluation.
pub proof fn lemma_copy_valued(a: &PositionAndMove, b: &PositionAndMove, state_only: bool)
    requires
        b.pos.cells@ == a.pos.cells@,
        b.pos.state == a.pos.state,
        b.pos.next_move == a.pos.next_move,
        b.pos.environment == a.pos.environment,
        b.pos.eval == a.pos.eval,
        valued(a, state_only),
    ensures
        valued(b, state_only),
{
    let draws = choose|draws: Seq<i32>| #[trigger]
        valid_draws(draws, a.pos.cells@) && a.pos.eval.is_some() && a.pos.eval.unwrap() == score(
            &a.pos,
            state_only,
            draws,
        );
    assert(valid_draws(draws, b.pos.cells@));
    assert(score(&b.pos, state_only, draws) == score(&a.pos, state_only, draws));
}

/// The number by which a search orders the positions it can reach: their
/// evaluation as the side to move sees it, the best first.
pub open spec fn order_key(e: &PositionAndMove, color: Color) -> int {
    if color == Color::White {
        -(e.pos.eval.unwrap() as int)
    } else {
        e.pos.eval.unwrap() as int
    }
}

/// `list` holds the positions that the legal moves of `pos` lead to, each
/// once, by rising [`order_key`]; `order` tells which move led to which.
pub open spec fn ordered_by(list: Seq<PositionAndMove>, pos: &Position, order: Seq<usize>) -> bool {
    &&& list.len() == moves_of(pos).len()
    &&& order.len() == list.len()
    &&& forall|k: int| 0 <= k < order.len() ==> (#[trigger] order[k]) < list.len()
    &&& forall|a: int, b: int| 0 <= a < b < order.len() ==> (#[trigger] order[a]) != (#[trigger] order[b])
    &&& forall|k: int| 0 <= k < list.len() ==> is_child(#[trigger] &list[k], pos, order[k] as int)
    &&& forall|a: int, b: int|
        0 <= a < b < list.len() ==> order_key(#[trigger] &list[a], pos.next_move.unwrap()) <= order_key(
            #[trigger] &list[b],
            pos.next_move.unwrap(),
        )
}

/// `list` holds the positions that the legal moves of `pos` lead to, each
/// once, the best for the side to move first.
pub open spec fn is_ordering(list: Seq<PositionAndMove>, pos: &Position) -> bool {
    exists|order: Seq<usize>| #[trigger] ordered_by(list, pos, order)
}

impl Game {
    /// The positions that the legal moves lead to, in the order of the
    /// moves, each evaluated. The position on the board is changed while
    /// the moves are tried and is the same again at the end.
    pub fn children(&mut self, state_only: bool) -> (list: Vec<PositionAndMove>)
        requires
            old(self).wf(),
            old(self).current_position.next_move.is_some(),
        ensures
            final(self).wf(),
            final(self).same_setup(old(self)),
            final(self).position_history == old(self).position_history,
            final(self).current_position.cells@ == old(self).current_position.cells@,
            final(self).current_position.state == old(self).current_position.state,
            final(self).current_position.next_move == old(self).current_position.next_move,
            final(self).current_position.took_pieces@ == old(self).current_position.took_pieces@,
            list@.len() == moves_of(&old(self).current_position).len(),
            forall|i: int| 0 <= i < list@.len() ==> is_child(#[trigger] &list@[i], &old(self).current_position, i),
            all_valued(list@, state_only),
    {
        let ghost start = self.current_position;
        let total = self.current_position.count_moves();
        let mut list: Vec<PositionAndMove> = Vec::new();
        let mut i: usize = 0;
        while i < total
            invariant
                self.wf(),
                self.same_setup(old(self)),
                self.position_history == old(self).position_history,
                start == old(self).current_position,
                self.current_position.cells@ == start.cells@,
                self.current_position.state == start.state,
                self.current_position.next_move == start.next_move,
                self.current_position.environment == start.environment,
                self.current_position.took_pieces@ == start.took_pieces@,
                start.next_move.is_some(),
                total == moves_of(&start).len(),
                i <= total,
                list@.len() == i,
                forall|k: int| 0 <= k < i ==> is_child(#[trigger] &list@[k], &start, k),
                all_valued(list@, state_only),
            decreases total - i,
        {
            let ghost now = self.current_position;
            let mut child = self.current_position.child_position(i);
            let ghost made = child.pos;
            child.pos.evaluate(state_only);
            proof {
                assert(moves_of(&now) == moves_of(&start));
                assert(child.pos.reached_by(&start, moves_of(&start)[i as int]));
                let draws = choose|draws: Seq<i32>|
                    valid_draws(draws, made.cells@) && child.pos.eval.unwrap() == score(&made, state_only, draws);
                assert(score(&child.pos, state_only, draws) == score(&made, state_only, draws));
                assert(valid_draws(draws, child.pos.cells@));
                assert(valued(&child, state_only));
                let ghost_list = list@.push(child);
                assert forall|k: int| 0 <= k < ghost_list.len() implies valued(#[trigger] &ghost_list[k], state_only) by {
                    if k < list@.len() {
                        assert(ghost_list[k] == list@[k]);
                    }
                }
            }
            list.push(child);
            i += 1;
        }
        list
    }
}

/// A copy of a sound position is sound, and is a child where the position
/// is.
pub proof fn lemma_copy_child(a: &PositionAndMove, b: &PositionAndMove, pos: &Position, i: int)
    requires
        b.same_as(a),
        is_child(a, pos, i),
    ensures
        is_child(b, pos, i),
        b.pos.wf(),
{
}

impl Game {
    /// The positions that the legal moves lead to, each evaluated, the
    /// best for the side to move first; positions of equal value stay in
    /// the order of their moves.
    pub fn sorted_children(&mut self, state_only: bool) -> (sorted: Vec<PositionAndMove>)
        requires
            old(self).wf(),
            old(self).current_position.next_move.is_some(),
        ensures
            final(self).wf(),
            final(self).same_setup(old(self)),
            final(self).position_history == old(self).position_history,
            final(self).current_position.cells@ == old(self).current_position.cells@,
            final(self).current_position.state == old(self).current_position.state,
            final(self).current_position.next_move == old(self).current_position.next_move,
            is_ordering(sorted@, &old(self).current_position),
            all_valued(sorted@, state_only),
    {
        let ghost start = self.current_position;
        let list = self.children(state_only);
        let white = match self.current_position.next_move {
            Some(Color::White) => true,
            _ => false,
        };
        let mut keys: Vec<i64> = Vec::new();
        let mut i: usize = 0;
        while i < list.len()
            invariant
                i <= list@.len(),
                keys@.len() == i,
                start.next_move.is_some(),
                white == (start.next_move == Some(Color::White)),
                forall|k: int| 0 <= k < list@.len() ==> is_child(#[trigger] &list@[k], &start, k),
                forall|k: int| 0 <= k < i ==> (#[trigger] keys@[k]) == order_key(&list@[k], start.next_move.unwrap()),
            decreases list@.len() - i,
        {
            assert(is_child(&list@[i as int], &start, i as int));
            let e = match list[i].pos.eval {
                Some(e) => e as i64,
                None => 0,
            };
            keys.push(if white { -e } else { e });
            i += 1;
        }
        let order = stable_order(&keys);
        let mut sorted: Vec<PositionAndMove> = Vec::new();
        let mut k: usize = 0;
        while k < order.len()
            invariant
                k <= order@.len(),
                sorted@.len() == k,
                is_stable_order(order@, keys@),
                keys@.len() == list@.len(),
                start.next_move.is_some(),
                forall|x: int| 0 <= x < list@.len() ==> is_child(#[trigger] &list@[x], &start, x),
                forall|x: int|
                    0 <= x < list@.len() ==> (#[trigger] keys@[x]) == order_key(&list@[x], start.next_move.unwrap()),
                forall|x: int| 0 <= x < k ==> (#[trigger] sorted@[x]).same_as(&list@[order@[x] as int]),
                all_valued(list@, state_only),
            decreases order@.len() - k,
        {
            sorted.push(list[order[k]].clone());
            k += 1;
        }
        proof {
            assert forall|x: int| 0 <= x < sorted@.len() implies valued(#[trigger] &sorted@[x], state_only) by {
                assert(valued(&list@[order@[x] as int], state_only));
                lemma_copy_valued(&list@[order@[x] as int], &sorted@[x], state_only);
            }
            assert forall|x: int| 0 <= x < sorted@.len() implies is_child(
                #[trigger] &sorted@[x],
                &start,
                order@[x] as int,
            ) by {
                lemma_copy_child(&list@[order@[x] as int], &sorted@[x], &start, order@[x] as int);
            }
            assert forall|a: int, b: int| 0 <= a < b < sorted@.len() implies order_key(
                #[trigger] &sorted@[a],
                start.next_move.unwrap(),
            ) <= order_key(#[trigger] &sorted@[b], start.next_move.unwrap()) by {
                assert(keys@[order@[a] as int] <= keys@[order@[b] as int]);
            }
            assert(ordered_by(sorted@, &start, order@));
        }
        sorted
    }
}

/// The depth to which a search goes where the side to move has `moves`
/// legal moves: one ply more than asked for where there are fewer than
/// three, unless the depth asked for is the largest of its type.
pub open spec fn deepened(max_depth: i16, moves: int) -> int {
    if moves < 3 && max_depth < i16::MAX {
        max_depth + 1
    } else {
        max_depth as int
    }
}

/// Whether White is to move.
pub open spec fn whites_turn(pos: &Position) -> bool {
    pos.next_move == Some(Color::White)
}

/// What the other side can already hold the side to move to: `best_black`
/// where White is to move, `best_white` where Black is.
pub open spec fn bound_for(pos: &Position, best_white: i32, best_black: i32) -> int {
    if whites_turn(pos) {
        best_black as int
    } else {
        best_white as int
    }
}

/// Whether value `v` lies beyond what the other side can hold the side to
/// move to: above `bound` for White, below it for Black.
pub open spec fn beyond(white: bool, v: int, bound: int) -> bool {
    if white { bound < v } else { bound > v }
}

/// Whether value `v` is better for the side to move than value `than`.
pub open spec fn better(white: bool, v: int, than: int) -> bool {
    if white { v > than } else { v < than }
}

/// The value that the deeper search gave to the `j`-th position of a list.
pub open spec fn value_at(list: Seq<PositionAndMove>, j: int) -> int {
    list[j].deep_eval.unwrap() as int
}

/// What a search one ply deeper into the positions of its list has made
/// of the answer `best`: the first `n` positions of the list have been
/// searched and hold the values they were given; none but the last of
/// them has a value beyond `bound`. If the search was cut short, the last
/// of them has a value beyond `bound` and is the answer. Else all
/// positions have been searched, and the answer is one of them, with a
/// value that none of them betters.
pub open spec fn picked(best: &BestPos, white: bool, bound: int, n: int, cut: bool) -> bool {
    let list = best.pos_list@;
    &&& 1 <= n <= list.len()
    &&& forall|j: int| 0 <= j < n ==> (#[trigger] list[j]).deep_eval.is_some()
    &&& forall|j: int| 0 <= j < n - 1 ==> !beyond(white, #[trigger] value_at(list, j), bound)
    &&& exists|k: int|
        0 <= k < n && best.deep_eval == #[trigger] value_at(list, k) && best.pos.unwrap().move_view()
            == list[k].move_view() && best.pos.unwrap().pos.cells@ == list[k].pos.cells@
            && best.pos.unwrap().pos.next_move == list[k].pos.next_move && (cut ==> k == n - 1)
            && best.pos.unwrap().pos.took_pieces@ == list[k].pos.took_pieces@
    &&& if cut {
        beyond(white, best.deep_eval as int, bound)
    } else {
        &&& n == list.len()
        &&& !beyond(white, value_at(list, n - 1), bound)
        &&& forall|j: int| 0 <= j < n ==> !better(white, #[trigger] value_at(list, j), best.deep_eval as int)
    }
}

/// What a search of the game tree has made of the game `before` and
/// answered, as far as it can be said without looking into the deeper
/// searches; see [`Game::best_move`] and, for the rest, [`found_best`].
pub open spec fn plain_best(
    before: &Game,
    after: &Game,
    max_depth: i16,
    best_white: i32,
    best_black: i32,
    depth: i16,
    state_only: bool,
    best: &BestPos,
) -> bool {
    let list = before.position_history.list@;
    let moves = moves_of(&before.current_position).len() as int;
    &&& after.searched(before)
    &&& best.pos.is_some()
    &&& best.pos.unwrap().pos.wf()
    &&& -0x3000_0000 < best.deep_eval < 0x3000_0000
    &&& verdict(list).is_some() ==> {
        &&& best.pos_list@.len() == 1
        &&& best.pos.unwrap().same_as(&best.pos_list@[0])
        &&& best.pos.unwrap().pos.cells@ == list.last().pos.cells@
        &&& best.pos.unwrap().pos.took_pieces@ == list.last().pos.took_pieces@
        &&& best.pos.unwrap().move_view() == list.last().move_view()
        &&& best.pos.unwrap().pos.eval == Some(best.deep_eval)
        &&& best.pos.unwrap().deep_eval == Some(best.deep_eval)
        &&& evaluated(&list.last().pos, state_only, best.deep_eval as int)
    }
    &&& verdict(list).is_none() ==> {
        &&& is_ordering(best.pos_list@, &before.current_position)
        &&& all_valued(best.pos_list@, state_only)
        &&& one_of(&best.pos.unwrap(), best.pos_list@)
    }
    &&& verdict(list).is_none() && depth >= deepened(max_depth, moves) ==> {
        &&& best.pos.unwrap().move_view() == best.pos_list@.last().move_view()
        &&& best.pos.unwrap().pos.cells@ == best.pos_list@.last().pos.cells@
        &&& best.pos.unwrap().pos.took_pieces@ == best.pos_list@.last().pos.took_pieces@
        &&& Some(best.deep_eval) == best.pos_list@.last().pos.eval
    }
    &&& verdict(list).is_none() && depth < deepened(max_depth, moves) ==> best.pos.unwrap().deep_eval == Some(
        best.deep_eval,
    ) && exists|n: int, cut: bool| #[trigger]
        picked(
            best,
            whites_turn(&before.current_position),
            bound_for(&before.current_position, best_white, best_black),
            n,
            cut,
        )
}

/// What the side to move and the other side can hold each other to
/// (White first) once a position of value `v` is known, after `hold`:
/// the side to move, White if `white`, is held to `v` if that is better
/// for it.
pub open spec fn raised(hold: (i32, i32), white: bool, v: i32) -> (i32, i32) {
    if white {
        if hold.0 < v { (v, hold.1) } else { hold }
    } else {
        if hold.1 > v { (hold.0, v) } else { hold }
    }
}

/// What a search of the game tree has made of the game `before` and
/// answered; see [`Game::best_move`]. It is what [`plain_best`] says, and
/// where positions were searched one ply deeper, each of those searched
/// holds the value that a search from it answered (see [`probing`]), made
/// with what the two sides could hold each other to by then, from a game
/// `base` that the search had made of `before` (see [`Game::searched`]).
#[verifier::opaque]
pub open spec fn found_best(
    before: &Game,
    after: &Game,
    max_depth: i16,
    best_white: i32,
    best_black: i32,
    depth: i16,
    state_only: bool,
    best: &BestPos,
) -> bool
    decreases i16::MAX - depth, 2int,
{
    let white = whites_turn(&before.current_position);
    let limit = deepened(max_depth, moves_of(&before.current_position).len() as int);
    &&& plain_best(before, after, max_depth, best_white, best_black, depth, state_only, best)
    &&& verdict(before.position_history.list@).is_none() && depth < limit ==> exists|n: int, cut: bool|
        {
            &&& #[trigger] picked(best, white, bound_for(&before.current_position, best_white, best_black), n, cut)
            &&& exists|base: Game, holds: Seq<(i32, i32)>|
                {
                    &&& #[trigger] begun(before, &base, holds, best_white, best_black)
                    &&& probing(&base, best.pos_list@, holds, n, white, limit, depth, state_only)
                }
        }
}

/// A search one ply deeper into the positions that the legal moves lead to
/// begins from the game `base` that the search has made of `before` (see
/// [`Game::searched`]), with what the two sides could hold each other to
/// at the start first in `holds`.
pub open spec fn begun(before: &Game, base: &Game, holds: Seq<(i32, i32)>, best_white: i32, best_black: i32) -> bool {
    &&& base.searched(before)
    &&& holds.len() > 0
    &&& holds[0] == (best_white, best_black)
}

/// A search from the game `inner` has made `left` of it and answered
/// `b`, of value `value`.
pub open spec fn settled(inner: &Game, left: &Game, b: &BestPos, value: int) -> bool {
    left.searched(inner) && b.deep_eval == value
}

/// The first `n` positions of `list` hold the values that searches from
/// them answered, one ply deeper than `depth`, in a game tree of depth
/// `limit`; `holds` tells what the two sides could hold each other to
/// before each of these searches and after the last.
#[verifier::opaque]
pub open spec fn probing(
    base: &Game,
    list: Seq<PositionAndMove>,
    holds: Seq<(i32, i32)>,
    n: int,
    white: bool,
    limit: int,
    depth: i16,
    state_only: bool,
) -> bool
    decreases i16::MAX - depth, 1int,
{
    &&& 0 <= n <= list.len()
    &&& holds.len() == n + 1
    &&& i16::MIN <= limit <= i16::MAX
    &&& forall|j: int|
        0 <= j < n ==> (#[trigger] list[j]).deep_eval.is_some() && list[j].mov.is_some() && holds[j + 1] == raised(
            holds[j],
            white,
            list[j].deep_eval.unwrap(),
        ) && probed(
            base,
            list[j].mov.unwrap()@,
            limit as i16,
            holds[j].0,
            holds[j].1,
            depth,
            state_only,
            list[j].deep_eval.unwrap() as int,
        )
}

/// A search one ply deeper than `depth` from the position that move `m`
/// leads to in the game `base` answered the value `value`: the move was
/// made and the position put behind the history, which made a game
/// `inner` of `base` (see [`Game::entered`]), and the search from there
/// gave `value` (see [`found_best`]).
#[verifier::opaque]
pub open spec fn probed(
    base: &Game,
    m: MoveItemView,
    max_depth: i16,
    best_white: i32,
    best_black: i32,
    depth: i16,
    state_only: bool,
    value: int,
) -> bool
    decreases i16::MAX - depth, 0int,
{
    &&& depth < i16::MAX
    &&& exists|inner: Game, left: Game, b: BestPos|
        base.entered(&inner, m) && #[trigger] settled(&inner, &left, &b, value) && found_best(
            &inner,
            &left,
            max_depth,
            best_white,
            best_black,
            (depth + 1) as i16,
            state_only,
            &b,
        )
}

/// No search has been made yet.
pub proof fn lemma_probing_begins(
    base: &Game,
    list: Seq<PositionAndMove>,
    hold: (i32, i32),
    white: bool,
    limit: i16,
    depth: i16,
    state_only: bool,
)
    ensures
        probing(base, list, seq![hold], 0, white, limit as int, depth, state_only),
{
    reveal(probing);
}

/// One more position holds the value that a search from it answered.
pub proof fn lemma_probing_next(
    base: &Game,
    list: Seq<PositionAndMove>,
    holds: Seq<(i32, i32)>,
    k: int,
    white: bool,
    limit: i16,
    depth: i16,
    state_only: bool,
    v: i32,
)
    requires
        0 <= k < list.len(),
        holds.len() == k + 1,
        probing(base, list, holds, k, white, limit as int, depth, state_only),
        list[k].mov.is_some(),
        probed(base, list[k].mov.unwrap()@, limit, holds[k].0, holds[k].1, depth, state_only, v as int),
    ensures
        probing(
            base,
            list.update(k, with_value(list[k], v)),
            holds.push(raised(holds[k], white, v)),
            k + 1,
            white,
            limit as int,
            depth,
            state_only,
        ),
{
    reveal(probing);
    reveal(probed);
    let list2 = list.update(k, with_value(list[k], v));
    let holds2 = holds.push(raised(holds[k], white, v));
    assert forall|j: int| 0 <= j < k + 1 implies (#[trigger] list2[j]).deep_eval.is_some() && list2[j].mov.is_some()
        && holds2[j + 1] == raised(holds2[j], white, list2[j].deep_eval.unwrap()) && probed(
        base,
        list2[j].mov.unwrap()@,
        limit,
        holds2[j].0,
        holds2[j].1,
        depth,
        state_only,
        list2[j].deep_eval.unwrap() as int,
    ) by {
        if j < k {
            assert(list2[j] == list[j]);
            assert(holds2[j] == holds[j] && holds2[j + 1] == holds[j + 1]);
        }
    }
}

/// What is said of a search from a game is said of every game with the
/// same board, side to move, summary, history and setup.
pub proof fn lemma_probed_same(
    a: &Game,
    b: &Game,
    m: MoveItemView,
    max_depth: i16,
    best_white: i32,
    best_black: i32,
    depth: i16,
    state_only: bool,
    value: int,
)
    requires
        probed(a, m, max_depth, best_white, best_black, depth, state_only, value),
        a.same_setup(b),
        a.current_position.cells@ == b.current_position.cells@,
        a.current_position.state == b.current_position.state,
        a.current_position.next_move == b.current_position.next_move,
        a.current_position.environment == b.current_position.environment,
        a.position_history.list@ == b.position_history.list@,
    ensures
        probed(b, m, max_depth, best_white, best_black, depth, state_only, value),
{
    reveal(probed);
    reveal(found_best);
    let (inner, left, found) = choose|inner: Game, left: Game, found: BestPos|
        a.entered(&inner, m) && #[trigger] settled(&inner, &left, &found, value) && found_best(
            &inner,
            &left,
            max_depth,
            best_white,
            best_black,
            (depth + 1) as i16,
            state_only,
            &found,
        );
    assert(b.entered(&inner, m));
}

/// What [`found_best`] says holds where its parts do.
pub proof fn lemma_found(
    before: &Game,
    after: &Game,
    max_depth: i16,
    best_white: i32,
    best_black: i32,
    depth: i16,
    state_only: bool,
    best: &BestPos,
    n: int,
    cut: bool,
    base: &Game,
    holds: Seq<(i32, i32)>,
)
    requires
        plain_best(before, after, max_depth, best_white, best_black, depth, state_only, best),
        verdict(before.position_history.list@).is_none() && depth < deepened(
            max_depth,
            moves_of(&before.current_position).len() as int,
        ) ==> {
            &&& picked(
                best,
                whites_turn(&before.current_position),
                bound_for(&before.current_position, best_white, best_black),
                n,
                cut,
            )
            &&& begun(before, base, holds, best_white, best_black)
            &&& probing(
                base,
                best.pos_list@,
                holds,
                n,
                whites_turn(&before.current_position),
                deepened(max_depth, moves_of(&before.current_position).len() as int),
                depth,
                state_only,
            )
        },
    ensures
        found_best(before, after, max_depth, best_white, best_black, depth, state_only, best),
{
    reveal(found_best);
    reveal(probing);
}

/// What the rules say of the last position of a history, if there is one.
pub open spec fn verdict(list: Seq<PositionAndMove>) -> Option<FinishType> {
    if list.len() == 0 {
        None
    } else {
        judged(list).1
    }
}

/// Entry `e` is one of the positions of `list`: it holds the board of one
/// of them, with its move, its side to move and its captured pieces.
pub open spec fn one_of(e: &PositionAndMove, list: Seq<PositionAndMove>) -> bool {
    exists|k: int|
        0 <= k < list.len() && e.move_view() == (#[trigger] list[k]).move_view() && e.pos.cells@ == list[k].pos.cells@
            && e.pos.next_move == list[k].pos.next_move && e.pos.took_pieces@ == list[k].pos.took_pieces@
}

impl Game {
    /// The game `inner` is this game entered by move `m` for a search: the
    /// position that the move leads to is on the board, and it stands
    /// behind the history with the move, as a check by the rules leaves it
    /// (see [`PositionHistory::checked`]). Everything else is as it was.
    pub open spec fn entered(&self, inner: &Game, m: MoveItemView) -> bool {
        &&& inner.wf()
        &&& inner.same_setup(self)
        &&& inner.current_position.reached_by(&self.current_position, m)
        &&& exists|entry: PositionAndMove, end: Option<FinishType>|
            entry.move_view() == Some(m) && entry.pos.cells@ == inner.current_position.cells@ && entry.pos.next_move
                == inner.current_position.next_move && #[trigger] inner.position_history.checked(
                self.position_history.list@.push(entry),
                end,
            )
    }

    /// The side to move has a legal move, or the rules have ended the game
    /// at the last position of the history.
    pub open spec fn can_go(&self) -> bool {
        moves_of(&self.current_position).len() > 0 || verdict(self.position_history.list@).is_some()
    }

    /// What a search leaves of the game `before`: the position on the board
    /// and everything else as it was, and the history as a check of its
    /// last position leaves it.
    pub open spec fn searched(&self, before: &Game) -> bool {
        &&& self.wf()
        &&& self.same_setup(before)
        &&& self.current_position.cells@ == before.current_position.cells@
        &&& self.current_position.state == before.current_position.state
        &&& self.current_position.next_move == before.current_position.next_move
        &&& self.position_history.checked(before.position_history.list@, verdict(before.position_history.list@))
    }

    /// Looks into one of the positions that the legal moves lead to: makes
    /// the move, puts the position behind the history, searches from there
    /// one ply deeper, and takes everything back. Returns the position as
    /// the history held it, with the value the search gave it, and that
    /// value.
    fn explore(
        &mut self,
        child: &PositionAndMove,
        Ghost(i): Ghost<int>,
        max_depth: i16,
        best_white: i32,
        best_black: i32,
        depth: i16,
        state_only: bool,
    ) -> (r: (PositionAndMove, i32))
        requires
            old(self).wf(),
            old(self).current_position.next_move.is_some(),
            0 <= i < moves_of(&old(self).current_position).len(),
            is_child(child, &old(self).current_position, i),
            depth < max_depth,
        ensures
            final(self).wf(),
            final(self).same_setup(old(self)),
            final(self).current_position.cells@ == old(self).current_position.cells@,
            final(self).current_position.state == old(self).current_position.state,
            final(self).current_position.next_move == old(self).current_position.next_move,
            final(self).position_history.list@ == old(self).position_history.list@,
            r.0.move_view() == child.move_view(),
            r.0.pos.cells@ == child.pos.cells@,
            r.0.pos.next_move == child.pos.next_move,
            r.0.pos.took_pieces@ == child.pos.took_pieces@,
            r.0.pos.wf(),
            r.0.deep_eval == Some(r.1),
            -0x3000_0000 < r.1 < 0x3000_0000,
            probed(
                old(self),
                child.move_view().unwrap(),
                max_depth,
                best_white,
                best_black,
                depth,
                state_only,
                r.1 as int,
            ),
        decreases i16::MAX - depth, 0int,
    {
        let ghost start = self.current_position;
        let ghost listed_before = self.position_history.list@;
        let mov = match &child.mov {
            Some(m) => m.clone(),
            None => MoveItem { strike: None, mov: None },
        };
        assert(mov@ == moves_of(&start)[i]);
        proof {
            lemma_move_undone(start.cells@, start.took_pieces@, mov@);
        }
        self.current_position.make_move(&mov);
        let ghost made = self.current_position;
        let copy = child.clone();
        let end = self.position_history.push_rc(copy);
        proof {
            assert(listed_before.push(copy).drop_last() =~= listed_before);
            let last = self.position_history.list@.last();
            assert(moves_of(&last.pos) == moves_of(&self.current_position));
            assert(self.position_history.checked(listed_before.push(copy), end));
        }
        let ghost inner = *self;
        let found = self.best_move(max_depth, best_white, best_black, depth + 1, state_only);
        let ghost left = *self;
        let deep_eval = found.deep_eval;
        proof {
            assert(old(self).entered(&inner, mov@));
            assert(probed(old(self), mov@, max_depth, best_white, best_black, depth, state_only, deep_eval as int)) by {
                reveal(probed);
                reveal(found_best);
                assert(settled(&inner, &left, &found, deep_eval as int));
                assert(found_best(
                    &inner,
                    &left,
                    max_depth,
                    best_white,
                    best_black,
                    (depth + 1) as i16,
                    state_only,
                    &found,
                ));
            }
        }
        let popped = self.position_history.pop();
        let mut entry = popped.unwrap();
        entry.deep_eval = Some(deep_eval);
        self.current_position.took_pieces = copy_cells(&entry.pos.took_pieces);
        proof {
            assert(unmakeable(self.current_position.cells@, self.current_position.took_pieces@, mov@));
        }
        self.current_position.unmake_move(&mov);
        proof {
            lemma_move_undone(start.cells@, start.took_pieces@, mov@);
            assert(self.current_position.state.black == start.state.black);
            assert(self.current_position.state.white == start.state.white);
        }
        (entry, deep_eval)
    }

    /// Searches the game tree for the best move of the side to move.
    ///
    /// First the rules are applied to the last position of the history. If
    /// they have ended the game there, that position is the answer, with
    /// its evaluation. Else the positions that the legal moves lead to are
    /// evaluated and ordered, the best for the side to move first, and
    /// `max_depth` grows by one where there are fewer than three of them.
    /// At `max_depth` the last of them is the answer, with its evaluation.
    /// Before that each is searched one ply deeper, in order: White keeps
    /// the one of highest value and Black the one of lowest, and the search
    /// stops at once with a position whose value lies beyond what the other
    /// side can already hold it to (`best_black` for White, `best_white`
    /// for Black).
    ///
    /// A side must be to move, with a legal move unless the game is over.
    /// The position on the board is changed while moves are tried and is the
    /// same again at the end. What the answer holds is said by
    /// [`plain_best`]; that the values in it are those that the deeper
    /// searches answered, by [`found_best`].
    pub fn best_move(
        &mut self,
        max_depth: i16,
        best_white: i32,
        best_black: i32,
        depth: i16,
        state_only: bool,
    ) -> (best: BestPos)
        requires
            old(self).wf(),
            old(self).current_position.next_move.is_some(),
            old(self).can_go(),
        ensures
            plain_best(old(self), final(self), max_depth, best_white, best_black, depth, state_only, &best),
            found_best(old(self), final(self), max_depth, best_white, best_black, depth, state_only, &best),
        decreases i16::MAX - depth, 1int,
    {
        let mut depth_limit = max_depth;
        let ghost bound: int = bound_for(&self.current_position, best_white, best_black);
        let mut hold_white = best_white;
        let mut hold_black = best_black;
        let ghost start = self.current_position;
        let finish = self.position_history.finish_check();
        let ghost hist = self.position_history.list@;
        if finish.is_some() {
            let mut pos_it = self.position_history.last().clone();
            let eval = pos_it.pos.evaluate(state_only);
            pos_it.deep_eval = Some(eval);
            let mut pos_list: Vec<PositionAndMove> = Vec::new();
            pos_list.push(pos_it.clone());
            let best_pos = BestPos { deep_eval: eval, pos_list, pos: Some(pos_it) };
            proof {
                lemma_found(
                    old(self),
                    self,
                    max_depth,
                    best_white,
                    best_black,
                    depth,
                    state_only,
                    &best_pos,
                    0,
                    false,
                    self,
                    Seq::empty(),
                );
            }
            return best_pos;
        }
        let mut pos_list = self.sorted_children(state_only);
        let ghost order = choose|order: Seq<usize>| ordered_by(pos_list@, &start, order);
        let white = match self.current_position.next_move {
            Some(Color::White) => true,
            _ => false,
        };
        if pos_list.len() < 3 && depth_limit < i16::MAX {
            depth_limit += 1;
        }
        let res_pos_list = clone_list(&pos_list);
        let ghost old_list = pos_list@;
        proof {
            assert forall|k: int| 0 <= k < res_pos_list@.len() implies is_child(
                #[trigger] &res_pos_list@[k],
                &start,
                order[k] as int,
            ) by {
                lemma_copy_child(&pos_list@[k], &res_pos_list@[k], &start, order[k] as int);
            }
            assert(ordered_by(res_pos_list@, &start, order));
            assert forall|k: int| 0 <= k < res_pos_list@.len() implies valued(#[trigger] &res_pos_list@[k], state_only) by {
                assert(valued(&pos_list@[k], state_only));
                lemma_copy_valued(&pos_list@[k], &res_pos_list@[k], state_only);
            }
        }
        let mut best_pos = BestPos {
            pos: None,
            pos_list: res_pos_list,
            deep_eval: if white { i32::MIN / 2 } else { i32::MAX / 2 },
        };
        if depth < depth_limit {
            proof {
                reveal(weighed);
            }
            let mut k: usize = 0;
            let ghost base = *self;
            let ghost mut holds: Seq<(i32, i32)> = seq![(best_white, best_black)];
            proof {
                lemma_probing_begins(
                    &base,
                    best_pos.pos_list@,
                    (best_white, best_black),
                    white,
                    depth_limit,
                    depth,
                    state_only,
                );
            }
            while k < pos_list.len()
                invariant
                    base.searched(old(self)),
                    base.position_history.list@ == hist,
                    holds.len() == k + 1,
                    holds[0] == (best_white, best_black),
                    holds[k as int] == (hold_white, hold_black),
                    probing(&base, best_pos.pos_list@, holds, k as int, white, depth_limit as int, depth, state_only),
                    self.wf(),
                    self.same_setup(old(self)),
                    self.current_position.cells@ == start.cells@,
                    self.current_position.state == start.state,
                    self.current_position.next_move == start.next_move,
                    self.current_position.environment == start.environment,
                    start == old(self).current_position,
                    start.next_move.is_some(),
                    white == whites_turn(&start),
                    self.position_history.list@ == hist,
                    self.position_history.checked(
                        old(self).position_history.list@,
                        verdict(old(self).position_history.list@),
                    ),
                    verdict(old(self).position_history.list@).is_none(),
                    depth < depth_limit,
                    depth_limit == deepened(max_depth, pos_list@.len() as int),
                    pos_list@.len() == moves_of(&start).len(),
                    pos_list@.len() == best_pos.pos_list@.len(),
                    k <= pos_list@.len(),
                    pos_list@.len() > 0,
                    ordered_by(pos_list@, &start, order),
                    bound == bound_for(&start, best_white, best_black),
                    bound == if white { hold_black as int } else { hold_white as int },
                    weighed(&best_pos, &start, order, white, bound, k as int),
                    all_valued(best_pos.pos_list@, state_only),
                    forall|j: int|
                        0 <= j < pos_list@.len() ==> (#[trigger] best_pos.pos_list@[j]).pos.took_pieces@
                            == pos_list@[j].pos.took_pieces@,
                decreases pos_list@.len() - k,
            {
                proof {
                    assert(is_child(&pos_list@[k as int], &start, order[k as int] as int));
                    assert(moves_of(&self.current_position) == moves_of(&start));
                    lemma_child_moves(&pos_list@[k as int], &start, &self.current_position, order[k as int] as int);
                }
                let ghost now = *self;
                let (pos_it, deep_eval) = self.explore(
                    &pos_list[k],
                    Ghost(order[k as int] as int),
                    depth_limit,
                    hold_white,
                    hold_black,
                    depth,
                    state_only,
                );
                let limit = if white { hold_black } else { hold_white };
                proof {
                    lemma_valued_kept(best_pos.pos_list@, k as int, deep_eval, state_only);
                    let m = pos_list@[k as int].move_view().unwrap();
                    lemma_probed_same(&now, &base, m, depth_limit, hold_white, hold_black, depth, state_only, deep_eval as int);
                    assert(best_pos.pos_list@[k as int].move_view() == Some(m)) by {
                        reveal(weighed);
                        assert(is_child(&best_pos.pos_list@[k as int], &start, order[k as int] as int));
                    }
                    lemma_probing_next(
                        &base,
                        best_pos.pos_list@,
                        holds,
                        k as int,
                        white,
                        depth_limit,
                        depth,
                        state_only,
                        deep_eval,
                    );
                    holds = holds.push(raised(holds[k as int], white, deep_eval));
                }
                let cut = take_in(
                    &mut best_pos,
                    pos_it,
                    deep_eval,
                    k,
                    white,
                    limit,
                    Ghost(pos_list@[k as int]),
                    Ghost(start),
                    Ghost(order),
                );
                if cut {
                    proof {
                        lemma_found(
                            old(self),
                            self,
                            max_depth,
                            best_white,
                            best_black,
                            depth,
                            state_only,
                            &best_pos,
                            k + 1,
                            true,
                            &base,
                            holds,
                        );
                    }
                    return best_pos;
                }
                if white {
                    if hold_white < deep_eval {
                        hold_white = deep_eval;
                    }
                } else {
                    if hold_black > deep_eval {
                        hold_black = deep_eval;
                    }
                }
                k += 1;
            }
            proof {
                lemma_weighed_all(&best_pos, &start, order, white, bound);
                lemma_found(
                    old(self),
                    self,
                    max_depth,
                    best_white,
                    best_black,
                    depth,
                    state_only,
                    &best_pos,
                    best_pos.pos_list@.len() as int,
                    false,
                    &base,
                    holds,
                );
            }
        } else {
            let ghost n = pos_list@.len();
            assert(is_child(&pos_list@[n - 1], &start, order[n - 1] as int));
            let mut pos = pos_list.pop().unwrap();
            let eval = pos.pos.evaluate(state_only);
            proof {
                assert(is_child(&best_pos.pos_list@[n - 1], &start, order[n - 1] as int));
                assert(one_of(&pos, best_pos.pos_list@));
                assert(best_pos.pos_list@[n - 1].same_as(&old_list[n - 1]));
            }
            best_pos.deep_eval = eval;
            best_pos.pos = Some(pos);
            proof {
                lemma_found(
                    old(self),
                    self,
                    max_depth,
                    best_white,
                    best_black,
                    depth,
                    state_only,
                    &best_pos,
                    0,
                    false,
                    self,
                    Seq::empty(),
                );
            }
        }
        best_pos
    }
}

/// How far a search one ply deeper into the positions of the list of
/// `best` has come after the first `k` of them, none of which cut it
/// short: they hold the values they were given, none beyond `bound`; the
/// answer so far is one of them, with a value that none of them betters,
/// or, before the first, none, with a value that any betters.
#[verifier::opaque]
pub open spec fn weighed(best: &BestPos, start: &Position, order: Seq<usize>, white: bool, bound: int, k: int) -> bool {
    let list = best.pos_list@;
    &&& ordered_by(list, start, order)
    &&& 0 <= k <= list.len()
    &&& forall|j: int| 0 <= j < k ==> (#[trigger] list[j]).deep_eval.is_some()
    &&& forall|j: int| 0 <= j < k ==> !beyond(white, #[trigger] value_at(list, j), bound)
    &&& forall|j: int| 0 <= j < k ==> !better(white, #[trigger] value_at(list, j), best.deep_eval as int)
    &&& k == 0 ==> best.pos.is_none() && best.deep_eval == if white { i32::MIN / 2 } else { i32::MAX / 2 }
    &&& k > 0 ==> {
        &&& best.pos.is_some()
        &&& best.pos.unwrap().pos.wf()
        &&& -0x3000_0000 < best.deep_eval < 0x3000_0000
        &&& best.pos.unwrap().deep_eval == Some(best.deep_eval)
        &&& exists|x: int|
            0 <= x < k && best.deep_eval == #[trigger] value_at(list, x) && best.pos.unwrap().move_view()
                == list[x].move_view() && best.pos.unwrap().pos.cells@ == list[x].pos.cells@
                && best.pos.unwrap().pos.next_move == list[x].pos.next_move && best.pos.unwrap().pos.took_pieces@
                == list[x].pos.took_pieces@
    }
}

/// A search that has gone through all positions of its list has picked its
/// answer among them.
pub proof fn lemma_weighed_all(best: &BestPos, start: &Position, order: Seq<usize>, white: bool, bound: int)
    requires
        best.pos_list@.len() > 0,
        weighed(best, start, order, white, bound, best.pos_list@.len() as int),
    ensures
        picked(best, white, bound, best.pos_list@.len() as int, false),
        ordered_by(best.pos_list@, start, order),
        one_of(&best.pos.unwrap(), best.pos_list@),
        best.pos.is_some(),
        best.pos.unwrap().pos.wf(),
        -0x3000_0000 < best.deep_eval < 0x3000_0000,
        best.pos.unwrap().deep_eval == Some(best.deep_eval),
{
    reveal(weighed);
    let list = best.pos_list@;
    let n = list.len() as int;
    let x = choose|x: int|
        0 <= x < n && best.deep_eval == #[trigger] value_at(list, x) && best.pos.unwrap().move_view()
            == list[x].move_view() && best.pos.unwrap().pos.cells@ == list[x].pos.cells@
            && best.pos.unwrap().pos.next_move == list[x].pos.next_move && best.pos.unwrap().pos.took_pieces@
            == list[x].pos.took_pieces@;
    assert(best.pos.unwrap().move_view() == list[x].move_view());
    assert(!beyond(white, value_at(list, n - 1), bound));
}

/// Entry `e` with the value `v` from a deeper search.
pub open spec fn with_value(e: PositionAndMove, v: i32) -> PositionAndMove {
    PositionAndMove { deep_eval: Some(v), ..e }
}

/// The entries of a list hold the evaluations of their positions when one
/// of them gets a value from a deeper search.
pub proof fn lemma_valued_kept(list: Seq<PositionAndMove>, k: int, v: i32, state_only: bool)
    requires
        0 <= k < list.len(),
        all_valued(list, state_only),
    ensures
        all_valued(list.update(k, with_value(list[k], v)), state_only),
{
    let after = list.update(k, with_value(list[k], v));
    assert forall|j: int| 0 <= j < after.len() implies valued(#[trigger] &after[j], state_only) by {
        assert(valued(&list[j], state_only));
        lemma_copy_valued(&list[j], &after[j], state_only);
    }
}

/// Takes in the value `deep_eval` that the deeper search gave to the
/// `k`-th position of the list of `best_pos`: the position in the list
/// records it. If it lies beyond `limit`, the search is cut short and the
/// position, as the history held it, is the answer. Else the position is
/// the answer so far if its value betters that of the answer before.
/// Returns whether the search is cut short.
fn take_in(
    best_pos: &mut BestPos,
    pos_it: PositionAndMove,
    deep_eval: i32,
    k: usize,
    white: bool,
    limit: i32,
    Ghost(listed): Ghost<PositionAndMove>,
    Ghost(start): Ghost<Position>,
    Ghost(order): Ghost<Seq<usize>>,
) -> (cut: bool)
    requires
        weighed(old(best_pos), &start, order, white, limit as int, k as int),
        k < old(best_pos).pos_list@.len(),
        pos_it.move_view() == listed.move_view(),
        pos_it.pos.cells@ == listed.pos.cells@,
        pos_it.pos.next_move == listed.pos.next_move,
        pos_it.pos.took_pieces@ == old(best_pos).pos_list@[k as int].pos.took_pieces@,
        is_child(&listed, &start, order[k as int] as int),
        pos_it.pos.wf(),
        pos_it.deep_eval == Some(deep_eval),
        -0x3000_0000 < deep_eval < 0x3000_0000,
    ensures
        cut == beyond(white, deep_eval as int, limit as int),
        final(best_pos).pos_list@.len() == old(best_pos).pos_list@.len(),
        final(best_pos).pos_list@ == old(best_pos).pos_list@.update(
            k as int,
            with_value(old(best_pos).pos_list@[k as int], deep_eval),
        ),
        cut ==> {
            &&& picked(final(best_pos), white, limit as int, k + 1, true)
            &&& ordered_by(final(best_pos).pos_list@, &start, order)
            &&& one_of(&final(best_pos).pos.unwrap(), final(best_pos).pos_list@)
            &&& final(best_pos).pos == Some(pos_it)
            &&& final(best_pos).deep_eval == deep_eval
        },
        !cut ==> weighed(final(best_pos), &start, order, white, limit as int, k + 1),
{
    proof {
        reveal(weighed);
    }
    let ghost before = best_pos.pos_list@;
    let ghost was = *best_pos;
    best_pos.pos_list[k].deep_eval = Some(deep_eval);
    let ghost list = best_pos.pos_list@;
    proof {
        assert(list =~= before.update(k as int, with_value(before[k as int], deep_eval)));
        assert(is_child(&before[k as int], &start, order[k as int] as int));
        assert forall|x: int| 0 <= x < list.len() implies is_child(#[trigger] &list[x], &start, order[x] as int) by {
            assert(is_child(&before[x], &start, order[x] as int));
        }
        assert forall|a: int, b: int| 0 <= a < b < list.len() implies order_key(
            #[trigger] &list[a],
            start.next_move.unwrap(),
        ) <= order_key(#[trigger] &list[b], start.next_move.unwrap()) by {
            assert(order_key(&before[a], start.next_move.unwrap()) <= order_key(
                &before[b],
                start.next_move.unwrap(),
            ));
        }
        assert(ordered_by(list, &start, order));
        assert forall|j: int| 0 <= j < k implies value_at(list, j) == value_at(before, j) && (
        #[trigger] list[j]).deep_eval.is_some() by {
            assert(before[j].deep_eval.is_some());
        }
        assert(value_at(list, k as int) == deep_eval);
        assert(pos_it.move_view() == list[k as int].move_view() && pos_it.pos.cells@ == list[k as int].pos.cells@
            && pos_it.pos.next_move == list[k as int].pos.next_move) by {
            assert(is_child(&list[k as int], &start, order[k as int] as int));
        }
        assert forall|j: int| 0 <= j < k implies !beyond(white, #[trigger] value_at(list, j), limit as int)
            && !better(white, value_at(list, j), was.deep_eval as int) by {
            assert(!beyond(white, value_at(before, j), limit as int));
            assert(!better(white, value_at(before, j), was.deep_eval as int));
        }
        if k > 0 {
            let x = choose|x: int|
                0 <= x < k && was.deep_eval == #[trigger] value_at(before, x) && was.pos.unwrap().move_view()
                    == before[x].move_view() && was.pos.unwrap().pos.cells@ == before[x].pos.cells@
                    && was.pos.unwrap().pos.next_move == before[x].pos.next_move && was.pos.unwrap().pos.took_pieces@
                    == before[x].pos.took_pieces@;
            assert(value_at(list, x) == value_at(before, x));
            assert(was.pos.unwrap().move_view() == list[x].move_view());
        }
    }
    let cut = if white { limit < deep_eval } else { limit > deep_eval };
    let improves = if white { best_pos.deep_eval < deep_eval } else { best_pos.deep_eval > deep_eval };
    if cut || improves {
        best_pos.pos = Some(pos_it);
        best_pos.deep_eval = deep_eval;
        proof {
            assert(best_pos.deep_eval == value_at(list, k as int));
            assert(pos_it.move_view() == list[k as int].move_view());
            if cut {
                assert(picked(best_pos, white, limit as int, k + 1, true));
            } else {
                assert forall|j: int| 0 <= j < k + 1 implies !better(
                    white,
                    #[trigger] value_at(list, j),
                    best_pos.deep_eval as int,
                ) by {
                    if j < k {
                        assert(!better(white, value_at(list, j), was.deep_eval as int));
                    }
                }
            }
        }
    } else {
        proof {
            assert(k > 0);
            assert(!better(white, value_at(list, k as int), best_pos.deep_eval as int));
        }
    }
    cut
}

/// A child of a position is a child of every position with the same
/// board, side to move, summary and geometry.
pub proof fn lemma_child_moves(e: &PositionAndMove, a: &Position, b: &Position, i: int)
    requires
        is_child(e, a, i),
        a.cells@ == b.cells@,
        a.next_move == b.next_move,
        a.environment == b.environment,
        a.state == b.state,
    ensures
        is_child(e, b, i),
{
}

impl Game {
    /// The game has gone on from `before` by move `m`, with `r` for how it
    /// ended, if it did: the position on the board is the one the move
    /// leads to, and it stands behind the history with the move, as a check
    /// by the rules leaves it (see [`PositionHistory::checked`]), which
    /// gave `r`. Everything else is as it was.
    pub open spec fn gone_by(&self, before: &Game, m: MoveItemView, r: Option<FinishType>) -> bool {
        &&& self.wf()
        &&& self.same_setup(before)
        &&& self.current_position.reached_by(&before.current_position, m)
        &&& self.position_history.list@.len() == before.position_history.list@.len() + 1
        &&& self.position_history.list@.drop_last() == before.position_history.list@
        &&& self.position_history.list@.last().pos.cells@ == self.current_position.cells@
        &&& self.position_history.list@.last().pos.next_move == self.current_position.next_move
        &&& self.position_history.list@.last().move_view() == Some(m)
        &&& exists|entry: PositionAndMove|
            entry.pos.cells@ == self.current_position.cells@ && entry.pos.state == self.current_position.state
                && entry.pos.next_move == self.current_position.next_move && entry.pos.environment
                == self.current_position.environment && entry.move_view() == Some(m)
                && #[trigger] self.position_history.checked(before.position_history.list@.push(entry), r)
    }

    /// What making move `m` has made of the game `before`, with `r` for how
    /// the game ended, if it did: the game has gone on by the move (see
    /// [`Game::gone_by`]), and the position on the board is as the move
    /// leaves it, with nothing kept of earlier computations.
    pub open spec fn made_move(&self, before: &Game, m: MoveItemView, r: Option<FinishType>) -> bool {
        &&& self.gone_by(before, m, r)
        &&& self.current_position.made_by(&before.current_position, m)
    }

    /// Makes a move on the board and puts the position reached behind the
    /// history, where the rules are applied to it. Returns how the game
    /// ended, if it did.
    pub fn make_move_by_move_item(&mut self, move_item: &MoveItem) -> (r: Option<FinishType>)
        requires
            old(self).wf(),
            old(self).current_position.next_move.is_some(),
            applicable(old(self).current_position.cells@, move_item@),
        ensures
            final(self).made_move(old(self), move_item@, r),
    {
        proof {
            lemma_move_undone(
                self.current_position.cells@,
                self.current_position.took_pieces@,
                move_item@,
            );
        }
        self.current_position.make_move(move_item);
        let entry = PositionAndMove::from(self.current_position.clone(), move_item.clone());
        assert(entry.sound());
        let ghost before = self.position_history.list@;
        let r = self.position_history.push(entry);
        proof {
            assert(before.push(entry).drop_last() =~= before);
            assert(self.position_history.checked(before.push(entry), r));
        }
        r
    }

    /// Makes the move that a search preferred; see
    /// [`Game::make_move_by_move_item`].
    pub fn make_move_by_pos_item(&mut self, pos: &BestPos) -> (r: Option<FinishType>)
        requires
            old(self).wf(),
            old(self).current_position.next_move.is_some(),
            pos.pos.is_some(),
            pos.pos.unwrap().mov.is_some(),
            applicable(old(self).current_position.cells@, pos.pos.unwrap().mov.unwrap()@),
        ensures
            final(self).made_move(old(self), pos.pos.unwrap().mov.unwrap()@, r),
    {
        let m = pos.get_move_item();
        self.make_move_by_move_item(&m)
    }

    /// Makes the move that a search preferred; see
    /// [`Game::make_move_by_move_item`].
    pub fn make_best_move(&mut self, pos: &BestPos) -> (r: Option<FinishType>)
        requires
            old(self).wf(),
            old(self).current_position.next_move.is_some(),
            pos.pos.is_some(),
            pos.pos.unwrap().mov.is_some(),
            applicable(old(self).current_position.cells@, pos.pos.unwrap().mov.unwrap()@),
        ensures
            final(self).made_move(old(self), pos.pos.unwrap().mov.unwrap()@, r),
    {
        self.make_move_by_pos_item(pos)
    }

    /// Searches the game tree to the depth of the game, with nothing known
    /// beforehand of what either side can hold the other to; see
    /// [`Game::best_move`].
    pub fn get_best_move_rust(&mut self) -> (best: BestPos)
        requires
            old(self).wf(),
            old(self).current_position.next_move.is_some(),
            old(self).can_go(),
        ensures
            plain_best(old(self), final(self), old(self).max_depth, -0x4000_0000i32, 0x3fff_ffffi32, 0, false, &best),
            found_best(old(self), final(self), old(self).max_depth, -0x4000_0000i32, 0x3fff_ffffi32, 0, false, &best),
    {
        let depth = self.max_depth;
        self.best_move(depth, i32::MIN / 2, i32::MAX / 2, 0, false)
    }
}

} // verus!
