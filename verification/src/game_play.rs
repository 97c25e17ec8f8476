use vstd::prelude::*;
use crate::board::{lemma_move_undone, made_cells, Cells};
use crate::finish::FinishType;
use crate::game::{verdict, Game};
use crate::mcts::moves_of;
use crate::move_gen::listed;
use crate::moves::BoardPos;
use crate::moves_list::{MoveItem, MoveItemView};
use crate::piece::Piece;
use crate::position::Position;
use crate::position_history::PositionAndMove;
use crate::rules::legal_moves;

verus! {

/// The board as a row of signed weights: 0 for an empty cell, 1 for a man
/// and 3 for a king, positive for White and negative for Black.
pub open spec fn weights(cells: Cells) -> Seq<i32> {
    Seq::new(
        cells.len(),
        |i: int|
            match cells[i] {
                Some(p) => p.signed_weight() as i32,
                None => 0i32,
            },
    )
}

/// The board as a row of signed weights.
pub fn board_of(cells: &Vec<Option<Piece>>) -> (board: Vec<i32>)
    ensures
        board@ == weights(cells@),
{
    let mut board: Vec<i32> = Vec::new();
    let mut i: usize = 0;
    while i < cells.len()
        invariant
            i <= cells@.len(),
            board@.len() == i,
            forall|k: int| 0 <= k < i ==> board@[k] == weights(cells@)[k],
        decreases cells@.len() - i,
    {
        match cells[i] {
            Some(piece) => {
                let w: i32 = if piece.is_king { 3 } else { 1 };
                board.push(if piece.color == crate::color::Color::White { w } else { -w });
            },
            None => {
                board.push(0);
            },
        }
        i += 1;
    }
    assert(board@ =~= weights(cells@));
    board
}

/// What came of an attempt to move.
#[derive(Copy, Clone, Debug)]
pub enum MoveOutcome {
    /// No legal move answers to what was asked; nothing was moved.
    Refused,
    /// The move was made and the game goes on.
    Moved,
    /// The move was made and the rules have ended the game.
    Finished(FinishType),
}

impl MoveOutcome {
    /// How the game ended with the move, if it did.
    pub open spec fn ending(&self) -> Option<FinishType> {
        match self {
            MoveOutcome::Finished(f) => Some(*f),
            _ => None,
        }
    }
}

/// Whether the steps of `m` lead along `chain` from cell to cell: each
/// step starts on one cell of the chain and ends on the next, and the
/// chain ends with the last step.
pub open spec fn follows(m: MoveItemView, chain: Seq<BoardPos>) -> bool {
    let steps = m.steps();
    &&& chain.len() == steps.len() + 1
    &&& forall|j: int| 0 <= j < steps.len() ==> (#[trigger] steps[j]) == (chain[j], chain[j + 1])
}

/// Whether the steps of a move lead along a chain of cells.
pub fn move_follows(m: &MoveItem, chain: &Vec<BoardPos>) -> (r: bool)
    ensures
        r == follows(m@, chain@),
{
    let steps = m.steps();
    let mut i: usize = 1;
    let mut j: usize = 0;
    while j < steps.len()
        invariant
            steps@ == m@.steps(),
            j <= steps@.len(),
            i == j + 1,
            forall|k: int| 0 <= k < j ==> (#[trigger] steps@[k]) == (chain@[k], chain@[k + 1]),
            j <= chain@.len(),
        decreases steps@.len() - j,
    {
        if chain.len() <= i {
            return false;
        }
        if chain[i] != steps[j].1 || chain[i - 1] != steps[j].0 {
            return false;
        }
        i += 1;
        j += 1;
    }
    chain.len() == i
}

impl Game {
    /// The boards that the legal moves lead to, each as a row of signed
    /// weights, in the order of the moves. The position on the board is
    /// changed while the moves are tried and is the same again at the end.
    pub fn get_board_list(&mut self) -> (r: Vec<Vec<i32>>)
        requires
            old(self).wf(),
            old(self).current_position.next_move.is_some(),
        ensures
            final(self).wf(),
            final(self).same_setup(old(self)),
            final(self).position_history == old(self).position_history,
            final(self).current_position.cells@ == old(self).current_position.cells@,
            final(self).current_position.state == old(self).current_position.state,
            final(self).current_position.next_move == old(self).current_position.next_move,
            final(self).current_position.took_pieces@ == old(self).current_position.took_pieces@,
            r@.len() == moves_of(&old(self).current_position).len(),
            forall|i: int|
                0 <= i < r@.len() ==> (#[trigger] r@[i])@ == weights(
                    made_cells(old(self).current_position.cells@, moves_of(&old(self).current_position)[i]),
                ),
    {
        let ghost start = self.current_position;
        let total = self.current_position.count_moves();
        let mut board_list: Vec<Vec<i32>> = Vec::new();
        let mut i: usize = 0;
        while i < total
            invariant
                self.wf(),
                self.same_setup(old(self)),
                self.position_history == old(self).position_history,
                start == old(self).current_position,
                self.current_position.cells@ == start.cells@,
                self.current_position.state == start.state,
                self.current_position.next_move == start.next_move,
                self.current_position.environment == start.environment,
                self.current_position.took_pieces@ == start.took_pieces@,
                start.next_move.is_some(),
                total == moves_of(&start).len(),
                i <= total,
                board_list@.len() == i,
                forall|k: int|
                    0 <= k < i ==> (#[trigger] board_list@[k])@ == weights(
                        made_cells(start.cells@, moves_of(&start)[k]),
                    ),
            decreases total - i,
        {
            assert(moves_of(&self.current_position) == moves_of(&start));
            let child = self.current_position.child_position(i);
            board_list.push(board_of(&child.pos.cells));
            i += 1;
        }
        board_list
    }

    /// Makes the `i`-th legal move, if there is one, and puts the position
    /// reached behind the history, where the rules are applied to it; see
    /// [`Game::made_move`].
    pub fn move_by_index_ts_n(&mut self, i: i32) -> (r: MoveOutcome)
        requires
            old(self).wf(),
            old(self).current_position.next_move.is_some(),
        ensures
            final(self).wf(),
            final(self).same_setup(old(self)),
            (r is Refused) == !(0 <= i < moves_of(&old(self).current_position).len()),
            r is Refused ==> final(self).current_position.cells@ == old(self).current_position.cells@
                && final(self).position_history == old(self).position_history,
            !(r is Refused) ==> final(self).made_move(
                old(self),
                moves_of(&old(self).current_position)[i as int],
                r.ending(),
            ),
    {
        let total = self.current_position.count_moves();
        if i >= 0 && (i as usize) < total {
            let m = self.current_position.nth_move(i as usize);
            match self.make_move_by_move_item(&m) {
                Some(f) => MoveOutcome::Finished(f),
                None => MoveOutcome::Moved,
            }
        } else {
            MoveOutcome::Refused
        }
    }

    /// Makes the first legal move whose steps lead along `pos_chain` from
    /// cell to cell, if there is one: the rules are applied to the last
    /// position of the history, the move is made, and the position reached
    /// is put behind the history. The moves looked at are those listed for
    /// display, with a capture chain for every cell a jump may land on.
    pub fn make_move_for_front(&mut self, pos_chain: &Vec<BoardPos>) -> (r: MoveOutcome)
        requires
            old(self).wf(),
            old(self).current_position.next_move.is_some(),
        ensures
            final(self).wf(),
            final(self).same_setup(old(self)),
            (r is Refused) == !(pos_chain@.len() > 0 && pos_chain@[0] < old(self).current_position.cells@.len()
                && old(self).current_position.cells@[pos_chain@[0] as int].is_some() && exists|k: int|
                0 <= k < shown_moves(&old(self).current_position).len() && follows(
                    #[trigger] shown_moves(&old(self).current_position)[k],
                    pos_chain@,
                )),
            r is Refused ==> final(self).current_position.cells@ == old(self).current_position.cells@
                && final(self).position_history == old(self).position_history,
            !(r is Refused) ==> exists|k: int|
                0 <= k < shown_moves(&old(self).current_position).len() && follows(
                    #[trigger] shown_moves(&old(self).current_position)[k],
                    pos_chain@,
                ) && (forall|j: int| 0 <= j < k ==> !follows(shown_moves(&old(self).current_position)[j], pos_chain@))
                    && final(self).current_position.made_by(
                    &old(self).current_position,
                    shown_moves(&old(self).current_position)[k],
                ),
            !(r is Refused) ==> final(self).position_history.list@.len() == old(self).position_history.list@.len() + 1,
            r is Finished ==> verdict(old(self).position_history.list@) == Some(r->Finished_0),
            r is Moved ==> verdict(old(self).position_history.list@).is_none(),
    {
        if pos_chain.len() == 0 {
            return MoveOutcome::Refused;
        }
        if pos_chain[0] >= self.current_position.cells.len() {
            return MoveOutcome::Refused;
        }
        if self.current_position.cells[pos_chain[0]].is_none() {
            return MoveOutcome::Refused;
        }
        let ghost start = self.current_position;
        let move_list = self.get_move_list(true);
        let mut k: usize = 0;
        while k < move_list.list.len()
            invariant
                self.wf(),
                self.same_setup(old(self)),
                self.position_history == old(self).position_history,
                self.current_position.same_as(&start),
                start == old(self).current_position,
                start.next_move.is_some(),
                pos_chain@.len() > 0,
                pos_chain@[0] < start.cells@.len(),
                start.cells@[pos_chain@[0] as int].is_some(),
                listed(move_list@.list, start.cells@, &start.environment, start.next_move.unwrap(), true),
                k <= move_list.list@.len(),
                forall|j: int| 0 <= j < k ==> !follows(move_list@.list[j], pos_chain@),
            decreases move_list.list@.len() - k,
        {
            assert(move_list@.list[k as int] == move_list.list@[k as int]@);
            if move_follows(&move_list.list[k], pos_chain) {
                let move_item = move_list.list[k].clone();
                let ghost before = self.position_history.list@;
                let draw = self.position_history.finish_check();
                let ghost checked = self.position_history.list@;
                proof {
                    lemma_move_undone(
                        self.current_position.cells@,
                        self.current_position.took_pieces@,
                        move_item@,
                    );
                }
                self.current_position.make_move(&move_item);
                let entry = PositionAndMove::from(self.current_position.clone(), move_item);
                assert(entry.sound());
                self.position_history.push(entry);
                proof {
                    assert(follows(shown_moves(&start)[k as int], pos_chain@));
                }
                return match draw {
                    Some(f) => MoveOutcome::Finished(f),
                    None => MoveOutcome::Moved,
                };
            }
            k += 1;
        }
        MoveOutcome::Refused
    }
}

/// The legal moves of the side to move as they are listed for display.
pub open spec fn shown_moves(pos: &Position) -> Seq<MoveItemView> {
    legal_moves(pos.cells@, &pos.environment, pos.next_move.unwrap(), true)
}

} // verus!
