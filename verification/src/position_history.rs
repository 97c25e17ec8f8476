use vstd::prelude::*;
use std::sync::Arc;
use crate::board::{applicable, unmakeable};
use crate::color::Color;
use crate::finish::FinishType;
use crate::moves_list::{MoveItem, MoveItemView};
use crate::pos_state::PosState;
use crate::position::Position;
use crate::position_environment::PositionEnvironment;
use crate::rules::{first_piece, legal_moves};

verus! {

/// A position with the move that led to it, and the value a search gave it.
#[derive(Debug)]
pub struct PositionAndMove {
    pub pos: Position,
    pub mov: Option<MoveItem>,
    pub deep_eval: Option<i32>,
}

impl PositionAndMove {
    /// The value of the move, if there is one.
    pub open spec fn move_view(&self) -> Option<MoveItemView> {
        match self.mov {
            Some(m) => Some(m@),
            None => None,
        }
    }

    /// The entry is sound: its position is, a side is to move in it, and
    /// the move that led to it, if one is recorded, can be taken back on it.
    pub open spec fn sound(&self) -> bool {
        &&& self.pos.wf()
        &&& self.pos.next_move.is_some()
        &&& self.mov matches Some(m) ==> unmakeable(self.pos.cells@, self.pos.took_pieces@, m@)
    }

    /// Every part has the same value as in `other`.
    pub open spec fn same_as(&self, other: &PositionAndMove) -> bool {
        &&& self.pos.same_as(&other.pos)
        &&& self.move_view() == other.move_view()
        &&& self.deep_eval == other.deep_eval
    }

    /// A position and the move that led to it.
    pub fn from(pos: Position, mov: MoveItem) -> (r: PositionAndMove)
        ensures
            r.pos == pos,
            r.mov == Some(mov),
            r.deep_eval.is_none(),
    {
        PositionAndMove { pos, mov: Some(mov), deep_eval: None }
    }

    /// A position that no move led to.
    pub fn from_pos(pos: Position) -> (r: PositionAndMove)
        ensures
            r.pos == pos,
            r.mov.is_none(),
            r.deep_eval.is_none(),
    {
        PositionAndMove { pos, mov: None, deep_eval: None }
    }
}

impl Clone for PositionAndMove {
    fn clone(&self) -> (r: Self)
        ensures
            r.same_as(self),
    {
        let mov = match &self.mov {
            Some(m) => Some(m.clone()),
            None => None,
        };
        PositionAndMove { pos: self.pos.clone(), mov, deep_eval: self.deep_eval }
    }
}

impl Position {
    /// Makes the move and returns a copy of the position reached, with the
    /// move.
    pub fn make_move_and_get_position(&mut self, move_item: &MoveItem) -> (r: PositionAndMove)
        requires
            old(self).shape(),
            applicable(old(self).cells@, move_item@),
        ensures
            final(self).wf(),
            final(self).made_by(old(self), move_item@),
            r.pos.same_as(final(self)),
            r.move_view() == Some(move_item@),
            r.deep_eval.is_none(),
    {
        self.make_move(move_item);
        PositionAndMove::from(self.clone(), move_item.clone())
    }
}

/// Every entry of `list` is sound (see [`PositionAndMove::sound`]) and
/// lies on the board `env`.
#[verifier::opaque]
pub open spec fn history_ok(list: Seq<PositionAndMove>, env: Arc<PositionEnvironment>) -> bool {
    forall|i: int| 0 <= i < list.len() ==> (#[trigger] list[i]).sound() && list[i].pos.environment == env
}

/// An empty history is sound.
pub proof fn lemma_ok_empty(list: Seq<PositionAndMove>, env: Arc<PositionEnvironment>)
    requires
        list.len() == 0,
    ensures
        history_ok(list, env),
{
    reveal(history_ok);
}

/// Every entry of a sound history is sound.
pub proof fn lemma_ok_at(list: Seq<PositionAndMove>, env: Arc<PositionEnvironment>, i: int)
    requires
        history_ok(list, env),
        0 <= i < list.len(),
    ensures
        list[i].sound(),
        list[i].pos.environment == env,
{
    reveal(history_ok);
}

/// A sound history with a sound entry behind it is sound.
pub proof fn lemma_ok_push(list: Seq<PositionAndMove>, e: PositionAndMove, env: Arc<PositionEnvironment>)
    requires
        history_ok(list, env),
        e.sound(),
        e.pos.environment == env,
    ensures
        history_ok(list.push(e), env),
{
    reveal(history_ok);
}

/// The first entries of a sound history are a sound history.
pub proof fn lemma_ok_take(list: Seq<PositionAndMove>, env: Arc<PositionEnvironment>, n: int)
    requires
        history_ok(list, env),
        0 <= n <= list.len(),
    ensures
        history_ok(list.take(n), env),
{
    reveal(history_ok);
}

/// A sound history is sound after a check of its last position.
pub proof fn lemma_ok_checked(
    before: Seq<PositionAndMove>,
    after: &PositionHistory,
    r: Option<FinishType>,
    env: Arc<PositionEnvironment>,
)
    requires
        history_ok(before, env),
        after.checked(before, r),
    ensures
        history_ok(after.list@, env),
{
    reveal(history_ok);
    if before.len() > 0 {
        let n = before.len() - 1;
        assert forall|i: int| 0 <= i < after.list@.len() implies (#[trigger] after.list@[i]).sound() && after.list@[i].pos.environment
            == env by {
            if i < n {
                assert(after.list@[i] == after.list@.drop_last()[i]);
                assert(before[i] == before.drop_last()[i]);
            } else {
                assert(before[n].sound());
                assert(after.list@[i] == after.list@.last());
            }
        }
    }
}

/// The ply at which a run began, once the run is seen at ply `i`: the ply
/// recorded, unless none is or it lies after `i`; then `i`.
pub open spec fn marked(m: Option<usize>, i: usize) -> Option<usize> {
    match m {
        Some(s) => if s > i { Some(i) } else { Some(s) },
        None => Some(i),
    }
}

/// Both sides have a king.
pub open spec fn both_kings(s: PosState) -> bool {
    s.white.king > 0 && s.black.king > 0
}

/// One side has exactly one king and the other three or more.
pub open spec fn is_triangle(s: PosState) -> bool {
    (s.white.king == 1 && s.black.king >= 3) || (s.black.king == 1 && s.white.king >= 3)
}

/// Whether the material has stayed the same for too long: more than 5
/// plies with fewer than 4 pieces, more than 30 with fewer than 6, more
/// than 60 with fewer than 8.
pub open spec fn too_long(total: int, n: int) -> bool {
    (total < 4 && n > 5) || (total < 6 && n > 30) || (total < 8 && n > 60)
}

/// Two positions are the same: the same side is to move and every cell
/// holds the same.
pub open spec fn same_position(a: &Position, b: &Position) -> bool {
    a.next_move == b.next_move && a.cells@ == b.cells@
}

/// Whether four pieces are left, a side has exactly one king, and the first
/// piece on the main road, the long diagonal from cell 0, is of that side
/// (of Black, if both sides have exactly one king).
pub open spec fn single_on_main_road(pos: &Position) -> bool {
    let s = pos.state;
    let pts = pos.environment.vectors_map@[0]@[0].points@;
    let k = first_piece(pos.cells@, pts, 0, pts.len() as int);
    let color = if s.black.king == 1 { Color::Black } else { Color::White };
    &&& (s.black.king == 1 || s.white.king == 1)
    &&& s.total() == 4
    &&& k < pts.len()
    &&& pos.cells@[pts[k] as int].unwrap().color == color
}

/// Whether the piece that the move of `cur` brought to its last cell is a
/// king; `None` if no move is recorded or no piece stands there.
pub open spec fn king_arrived(cur: &PositionAndMove) -> Option<bool> {
    match cur.mov {
        Some(m) => if m@.readable() && m@.to() < cur.pos.cells@.len() {
            match cur.pos.cells@[m@.to() as int] {
                Some(p) => Some(p.is_king),
                None => None,
            }
        } else {
            None
        },
        None => None,
    }
}

/// How many of the positions `prefix[lo..=j]` are the same as that of
/// `cur`, counting down from `j` and stopping at the first whose piece
/// counts differ from those of `cur`.
pub open spec fn repeats_in(prefix: Seq<PositionAndMove>, cur: &PositionAndMove, j: int, lo: int) -> int
    decreases j + 1,
{
    if j < 0 || j < lo || !prefix[j].pos.state.same_counts(cur.pos.state) {
        0
    } else {
        (if same_position(&prefix[j].pos, &cur.pos) { 1int } else { 0int }) + repeats_in(
            prefix,
            cur,
            j - 1,
            lo,
        )
    }
}

/// The count of repeats is not negative.
pub proof fn lemma_repeats_in(prefix: Seq<PositionAndMove>, cur: &PositionAndMove, j: int, lo: int)
    ensures
        repeats_in(prefix, cur, j, lo) >= 0,
    decreases j + 1,
{
    if !(j < 0 || j < lo || !prefix[j].pos.state.same_counts(cur.pos.state)) {
        lemma_repeats_in(prefix, cur, j - 1, lo);
    }
}

/// The summary of `cur` before the rules are applied: its own piece counts
/// with the runs recorded for the position before it, if there is one.
pub open spec fn inherited(prefix: Seq<PositionAndMove>, cur: PosState) -> PosState {
    if prefix.len() > 0 {
        PosState { black: cur.black, white: cur.white, ..prefix.last().pos.state }
    } else {
        cur
    }
}

/// The summary `s` with no run under way: no ply is recorded for the run
/// of kings, of king moves, of unchanged material, of one king against
/// three, or of a lone king on the main road.
pub open spec fn no_runs(s: PosState) -> PosState {
    PosState {
        kings_start_at: None,
        kings_only_move_start_at: None,
        triangle_start_at: None,
        power_equal_start_at: None,
        main_road_start_at: None,
        ..s
    }
}

/// The outcome of the rules for the position `cur` that follows the
/// positions `prefix`, starting from the summary `base`: the summary with
/// the runs brought up to date, and the result if the game is over.
///
/// In this order: a side that cannot move has lost. Unless both sides have
/// a king, no run is under way (see [`no_runs`]) and the game goes on. Else the run
/// of kings is marked, and in turn: more than fifteen plies in a row moved
/// a king; the position occurs for the third time since the run of kings
/// began, with the same material in between; the material has not changed
/// for too long; one king has faced three or more for fifteen plies; a lone
/// king has held the main road for ten plies.
pub open spec fn judged_with(
    prefix: Seq<PositionAndMove>,
    cur: &PositionAndMove,
    base: PosState,
    no_moves: bool,
) -> (PosState, Option<FinishType>) {
    let i = prefix.len() as usize;
    if no_moves {
        (
            base,
            Some(
                if cur.pos.next_move == Some(Color::White) {
                    FinishType::BlackWin
                } else {
                    FinishType::WhiteWin
                },
            ),
        )
    } else if !both_kings(base) {
        (no_runs(base), None)
    } else {
        let s1 = PosState { kings_start_at: marked(base.kings_start_at, i), ..base };
        let s2 = match king_arrived(cur) {
            Some(true) => PosState {
                kings_only_move_start_at: marked(s1.kings_only_move_start_at, i),
                ..s1
            },
            Some(false) => PosState { kings_only_move_start_at: None, ..s1 },
            None => s1,
        };
        if king_arrived(cur) == Some(true) && i - s2.kings_only_move_start_at.unwrap() + 1 > 15 {
            (s2, Some(FinishType::Draw1))
        } else {
            let reps = repeats_in(prefix, cur, i - 1, s2.kings_start_at.unwrap() as int);
            let s3 = PosState { repeats: if reps >= 2 { 2u8 } else { reps as u8 }, ..s2 };
            if reps >= 2 {
                (s3, Some(FinishType::Draw2))
            } else {
                let unchanged = i >= 1 && prefix.last().pos.state.same_counts(s3);
                let s4 = if i >= 1 {
                    PosState {
                        power_equal_start_at: if unchanged {
                            marked(s3.power_equal_start_at, (i - 1) as usize)
                        } else {
                            None
                        },
                        ..s3
                    }
                } else {
                    s3
                };
                if unchanged && too_long(s4.total(), i - s4.power_equal_start_at.unwrap()) {
                    (s4, Some(FinishType::Draw4))
                } else {
                    let s5 = PosState {
                        triangle_start_at: if is_triangle(s4) {
                            marked(s4.triangle_start_at, i)
                        } else {
                            None
                        },
                        ..s4
                    };
                    if is_triangle(s4) && i - s5.triangle_start_at.unwrap() >= 15 {
                        (s5, Some(FinishType::Draw3))
                    } else {
                        let on_road = single_on_main_road(&cur.pos);
                        let s6 = PosState {
                            main_road_start_at: if on_road {
                                marked(s5.main_road_start_at, i)
                            } else {
                                None
                            },
                            ..s5
                        };
                        if on_road && i - s6.main_road_start_at.unwrap() >= 10 {
                            (s6, Some(FinishType::Draw5))
                        } else {
                            (s6, None)
                        }
                    }
                }
            }
        }
    }
}

/// A ply on which a side has no king leaves no run under way, whatever was
/// recorded before it.
pub proof fn law_no_kings_no_runs(prefix: Seq<PositionAndMove>, cur: &PositionAndMove, base: PosState)
    requires
        !both_kings(base),
    ensures
        judged_with(prefix, cur, base, false) == (no_runs(base), None::<FinishType>),
{
}

/// After a ply that left no run under way, every run begins anew: the next
/// ply on which the side to move has a move ends in no draw, unless the
/// position has occurred three times.
pub proof fn law_runs_begin_anew(prefix: Seq<PositionAndMove>, cur: &PositionAndMove)
    requires
        0 < prefix.len() <= usize::MAX,
        prefix.last().pos.state == no_runs(prefix.last().pos.state),
    ensures
        ({
            let r = judged_with(prefix, cur, inherited(prefix, cur.pos.state), false).1;
            r is None || r == Some(FinishType::Draw2)
        }),
{
}

/// The outcome of the rules for the last position of a history: see
/// [`judged_with`]. The runs are those recorded for the position before the
/// last, and the side to move has no move if the list of its legal moves is
/// empty.
pub open spec fn judged(list: Seq<PositionAndMove>) -> (PosState, Option<FinishType>) {
    let cur = list.last();
    judged_with(
        list.drop_last(),
        &cur,
        inherited(list.drop_last(), cur.pos.state),
        legal_moves(cur.pos.cells@, &cur.pos.environment, cur.pos.next_move.unwrap(), false).len() == 0,
    )
}

/// Every entry of `list` holds the summary that a check of it leaves: the
/// one the rules give for it after the entries before it.
#[verifier::opaque]
pub open spec fn recorded(list: Seq<PositionAndMove>) -> bool {
    forall|j: int| 0 <= j < list.len() ==> (#[trigger] list[j]).pos.state == left_by(list, j).0
}

/// What the rules give for ply `j` of `list` after the plies before it;
/// see [`judged`].
#[verifier::opaque]
pub open spec fn left_by(list: Seq<PositionAndMove>, j: int) -> (PosState, Option<FinishType>) {
    judged(list.take(j + 1))
}

/// The summary from which the runs of ply `j` of `list` are carried on:
/// that of the ply before it, or its own at the first ply.
pub open spec fn carried(list: Seq<PositionAndMove>, j: int) -> PosState {
    if j > 0 {
        list[j - 1].pos.state
    } else {
        list[j].pos.state
    }
}

/// The first entries of a history that holds what the checks left hold
/// it too; an empty history does.
pub proof fn lemma_recorded_take(list: Seq<PositionAndMove>, n: int)
    requires
        recorded(list),
        0 <= n <= list.len(),
    ensures
        recorded(list.take(n)),
        recorded(Seq::<PositionAndMove>::empty()),
{
    reveal(left_by);
    reveal(recorded);
    let part = list.take(n);
    assert forall|j: int| 0 <= j < part.len() implies (#[trigger] part[j]).pos.state == judged(part.take(j + 1)).0 by {
        assert(part[j] == list[j]);
        assert(part.take(j + 1) =~= list.take(j + 1));
    }
}

/// The check of ply `t` of `list` found the game open.
#[verifier::opaque]
pub open spec fn open_at(list: Seq<PositionAndMove>, t: int) -> bool {
    left_by(list, t).1.is_none()
}

/// What the checks found of the plies of a history they found of the plies
/// of every history that begins with it.
pub proof fn lemma_open_prefix(list: Seq<PositionAndMove>, prefix: Seq<PositionAndMove>, t: int)
    requires
        0 <= t < prefix.len() <= list.len(),
        prefix == list.take(prefix.len() as int),
    ensures
        open_at(prefix, t) == open_at(list, t),
        prefix[t] == list[t],
{
    reveal(left_by);
    reveal(open_at);
    assert(prefix.take(t + 1) =~= list.take(t + 1));
}

/// The rules read the history before the last position and that position.
pub proof fn lemma_judged_take(list: Seq<PositionAndMove>, t: int)
    requires
        0 <= t < list.len(),
    ensures
        list.take(t + 1).drop_last() == list.take(t),
        list.take(t + 1).last() == list[t],
        t > 0 ==> list.take(t).last() == list[t - 1],
{
    assert(list.take(t + 1).drop_last() =~= list.take(t));
}

/// What the rules give for a ply of a history they give for it in every
/// history that begins with that history.
pub proof fn lemma_left_prefix(list: Seq<PositionAndMove>, prefix: Seq<PositionAndMove>, j: int)
    requires
        0 <= j < prefix.len() <= list.len(),
        prefix == list.take(prefix.len() as int),
    ensures
        left_by(list, j) == left_by(prefix, j),
{
    reveal(left_by);
    assert(prefix.take(j + 1) =~= list.take(j + 1));
}

/// What the rules give for the last ply of a history is what they give
/// for the history.
pub proof fn lemma_left_last(list: Seq<PositionAndMove>)
    requires
        list.len() > 0,
    ensures
        left_by(list, list.len() - 1) == judged(list),
{
    reveal(left_by);
    assert(list.take(list.len() as int) =~= list);
}

/// What a check returns is what the rules give for the history it leaves.
pub proof fn lemma_checked_open(before: Seq<PositionAndMove>, after: &PositionHistory, r: Option<FinishType>)
    requires
        0 < before.len() <= usize::MAX,
        after.checked(before, r),
    ensures
        r == judged(after.list@).1,
        after.list@.last().pos.state == judged(after.list@).0,
        r.is_none() == open_at(after.list@, after.list@.len() - 1),
{
    reveal(left_by);
    reveal(open_at);
    let list = after.list@;
    let prefix = before.drop_last();
    let cur = before.last();
    let now = list.last();
    let no_moves = legal_moves(cur.pos.cells@, &cur.pos.environment, cur.pos.next_move.unwrap(), false).len() == 0;
    if prefix.len() > 0 {
        assert(inherited(prefix, now.pos.state) == inherited(prefix, cur.pos.state));
    }
    lemma_judged_same(prefix, &now, &cur, inherited(prefix, cur.pos.state), no_moves);
    assert(king_arrived(&now) == king_arrived(&cur));
    assert(single_on_main_road(&now.pos) == single_on_main_road(&cur.pos));
    if prefix.len() == 0 {
        assert(repeats_in(prefix, &now, -1, 0) == 0);
        assert(repeats_in(prefix, &cur, -1, 0) == 0);
    }
    assert(judged(list) == judged(before));
    assert(list.take(list.len() as int) =~= list);
}

/// A history whose entries hold what the checks left holds it still when
/// one more position is put behind it and checked.
pub proof fn lemma_recorded_checked(before: Seq<PositionAndMove>, after: &PositionHistory, r: Option<FinishType>)
    requires
        before.len() > 0,
        before.len() <= usize::MAX,
        recorded(before.drop_last()),
        after.checked(before, r),
    ensures
        recorded(after.list@),
        r == judged(after.list@).1,
{
    reveal(recorded);
    lemma_checked_open(before, after, r);
    let n = before.len() - 1;
    let list = after.list@;
    let prefix = before.drop_last();
    assert(list.drop_last() == prefix);
    assert forall|j: int| 0 <= j < list.len() implies (#[trigger] list[j]).pos.state == left_by(list, j).0 by {
        if j < n {
            assert(list[j] == prefix[j]);
            lemma_left_prefix(list, prefix, j);
        } else {
            lemma_left_last(list);
        }
    }
}

/// The run of kings that an open check leaves at ply `j`.
pub proof fn lemma_left_kings(list: Seq<PositionAndMove>, j: int)
    requires
        list.len() <= usize::MAX,
        0 <= j < list.len(),
        both_kings(list[j].pos.state),
        left_by(list, j).1.is_none(),
    ensures
        left_by(list, j).0.kings_start_at == marked(carried(list, j).kings_start_at, j as usize),
{
    reveal(left_by);
    lemma_judged_take(list, j);
    let prefix = list.take(j);
    let cur = list[j];
    let base = inherited(prefix, cur.pos.state);
    let no_moves = legal_moves(cur.pos.cells@, &cur.pos.environment, cur.pos.next_move.unwrap(), false).len() == 0;
    assert(judged(list.take(j + 1)) == judged_with(prefix, &cur, base, no_moves));
    lemma_kings_mark(prefix, &cur, base, no_moves);
}

/// The run of king moves that an open check leaves at ply `j`.
pub proof fn lemma_left_king(list: Seq<PositionAndMove>, j: int)
    requires
        list.len() <= usize::MAX,
        0 <= j < list.len(),
        left_by(list, j).1.is_none(),
    ensures
        !both_kings(list[j].pos.state) ==> left_by(list, j).0.kings_only_move_start_at.is_none(),
        both_kings(list[j].pos.state) && king_arrived(&list[j]) == Some(true) ==> left_by(
            list,
            j,
        ).0.kings_only_move_start_at == marked(carried(list, j).kings_only_move_start_at, j as usize),
        both_kings(list[j].pos.state) && king_arrived(&list[j]) == Some(false) ==> left_by(
            list,
            j,
        ).0.kings_only_move_start_at.is_none(),
{
    reveal(left_by);
    lemma_judged_take(list, j);
    let prefix = list.take(j);
    let cur = list[j];
    let base = inherited(prefix, cur.pos.state);
    let no_moves = legal_moves(cur.pos.cells@, &cur.pos.environment, cur.pos.next_move.unwrap(), false).len() == 0;
    assert(judged(list.take(j + 1)) == judged_with(prefix, &cur, base, no_moves));
    if both_kings(base) {
        lemma_king_move_mark(prefix, &cur, base, no_moves);
    }
}

/// The run of one king against three that an open check leaves at ply `j`.
pub proof fn lemma_left_triangle(list: Seq<PositionAndMove>, j: int)
    requires
        list.len() <= usize::MAX,
        0 <= j < list.len(),
        left_by(list, j).1.is_none(),
    ensures
        left_by(list, j).0.triangle_start_at == if both_kings(list[j].pos.state) && is_triangle(list[j].pos.state) {
            marked(carried(list, j).triangle_start_at, j as usize)
        } else {
            None
        },
{
    reveal(left_by);
    lemma_judged_take(list, j);
    let prefix = list.take(j);
    let cur = list[j];
    let base = inherited(prefix, cur.pos.state);
    let no_moves = legal_moves(cur.pos.cells@, &cur.pos.environment, cur.pos.next_move.unwrap(), false).len() == 0;
    assert(judged(list.take(j + 1)) == judged_with(prefix, &cur, base, no_moves));
    lemma_triangle_mark(prefix, &cur, base, no_moves);
}

/// The run of a lone king on the main road that an open check leaves at
/// ply `j`.
pub proof fn lemma_left_road(list: Seq<PositionAndMove>, j: int)
    requires
        list.len() <= usize::MAX,
        0 <= j < list.len(),
        left_by(list, j).1.is_none(),
    ensures
        left_by(list, j).0.main_road_start_at == if both_kings(list[j].pos.state) && single_on_main_road(&list[j].pos) {
            marked(carried(list, j).main_road_start_at, j as usize)
        } else {
            None
        },
{
    reveal(left_by);
    lemma_judged_take(list, j);
    let prefix = list.take(j);
    let cur = list[j];
    let base = inherited(prefix, cur.pos.state);
    let no_moves = legal_moves(cur.pos.cells@, &cur.pos.environment, cur.pos.next_move.unwrap(), false).len() == 0;
    assert(judged(list.take(j + 1)) == judged_with(prefix, &cur, base, no_moves));
    lemma_road_mark(prefix, &cur, base, no_moves);
}

/// While both sides have had a king at every ply and every check found the
/// game open, the run of kings is recorded from the first ply.
pub proof fn lemma_kings_from_start(list: Seq<PositionAndMove>, i: int)
    requires
        recorded(list),
        0 <= i < list.len(),
        list.len() <= usize::MAX,
        forall|t: int| 0 <= t <= i ==> both_kings((#[trigger] list[t]).pos.state) && open_at(list, t),
    ensures
        list[i].pos.state.kings_start_at == Some(0usize),
    decreases i,
{
    reveal(recorded);
    reveal(open_at);
    assert(both_kings(list[i].pos.state) && open_at(list, i));
    lemma_left_kings(list, i);
    if i > 0 {
        lemma_kings_from_start(list, i - 1);
    }
}

/// What a check that finds the game open records of the run of kings, with
/// both sides holding a king: the ply recorded, or this one.
pub proof fn lemma_kings_mark(prefix: Seq<PositionAndMove>, cur: &PositionAndMove, base: PosState, no_moves: bool)
    requires
        prefix.len() <= usize::MAX,
        both_kings(base),
        judged_with(prefix, cur, base, no_moves).1.is_none(),
    ensures
        judged_with(prefix, cur, base, no_moves).0.kings_start_at == marked(base.kings_start_at, prefix.len() as usize),
{
}

/// Counting repeats finds a position that is the same as `cur` where the
/// piece counts stay those of `cur` down to it.
pub proof fn lemma_repeats_one(prefix: Seq<PositionAndMove>, cur: &PositionAndMove, j: int, lo: int, a: int)
    requires
        0 <= lo <= a <= j < prefix.len(),
        forall|t: int| a <= t <= j ==> (#[trigger] prefix[t]).pos.state.same_counts(cur.pos.state),
        same_position(&prefix[a].pos, &cur.pos),
    ensures
        repeats_in(prefix, cur, j, lo) >= 1,
    decreases j,
{
    assert(prefix[j].pos.state.same_counts(cur.pos.state));
    if j > a {
        lemma_repeats_one(prefix, cur, j - 1, lo, a);
    } else {
        lemma_repeats_in(prefix, cur, j - 1, lo);
    }
}

/// Counting repeats finds two positions that are the same as `cur` where
/// the piece counts stay those of `cur` down to the earlier of them.
pub proof fn lemma_repeats_two(prefix: Seq<PositionAndMove>, cur: &PositionAndMove, j: int, lo: int, a: int, b: int)
    requires
        0 <= lo <= a < b <= j < prefix.len(),
        forall|t: int| a <= t <= j ==> (#[trigger] prefix[t]).pos.state.same_counts(cur.pos.state),
        same_position(&prefix[a].pos, &cur.pos),
        same_position(&prefix[b].pos, &cur.pos),
    ensures
        repeats_in(prefix, cur, j, lo) >= 2,
    decreases j,
{
    assert(prefix[j].pos.state.same_counts(cur.pos.state));
    if j > b {
        lemma_repeats_two(prefix, cur, j - 1, lo, a, b);
    } else {
        lemma_repeats_one(prefix, cur, j - 1, lo, a);
    }
}

/// With the run of kings recorded from the first ply and two repeats of the
/// position, the rules give a draw.
pub proof fn lemma_two_repeats_draw(prefix: Seq<PositionAndMove>, cur: &PositionAndMove, base: PosState)
    requires
        prefix.len() <= usize::MAX,
        both_kings(base),
        base.kings_start_at == Some(0usize),
        repeats_in(prefix, cur, prefix.len() - 1, 0) >= 2,
    ensures
        ({
            let r = judged_with(prefix, cur, base, false).1;
            &&& r == Some(FinishType::Draw2) || r == Some(FinishType::Draw1)
            &&& prefix.len() < 15 ==> r == Some(FinishType::Draw2)
        }),
{
    let i = prefix.len() as usize;
    let s1 = PosState { kings_start_at: marked(base.kings_start_at, i), ..base };
    assert(s1.kings_start_at == Some(0usize));
}

/// The third occurrence of a position is a draw: where both sides have had
/// a king at every ply, every earlier check found the game open, the side
/// to move has a move, and the last position of `list` has occurred at two
/// earlier plies `a` and `b` with the piece counts unchanged since `a`,
/// the rules give a draw for it: by repetition, unless more than fifteen
/// plies in a row moved a king, which comes first.
pub proof fn law_third_occurrence_draws(list: Seq<PositionAndMove>, a: int, b: int)
    requires
        list.len() <= usize::MAX,
        0 <= a < b < list.len() - 1,
        recorded(list.drop_last()),
        forall|t: int| 0 <= t < list.len() - 1 ==> both_kings((#[trigger] list[t]).pos.state) && open_at(list, t),
        both_kings(list.last().pos.state),
        legal_moves(
            list.last().pos.cells@,
            &list.last().pos.environment,
            list.last().pos.next_move.unwrap(),
            false,
        ).len() > 0,
        forall|t: int| a <= t < list.len() - 1 ==> (#[trigger] list[t]).pos.state.same_counts(list.last().pos.state),
        same_position(&list[a].pos, &list.last().pos),
        same_position(&list[b].pos, &list.last().pos),
    ensures
        judged(list).1 == Some(FinishType::Draw2) || judged(list).1 == Some(FinishType::Draw1),
        list.len() <= 15 ==> judged(list).1 == Some(FinishType::Draw2),
{
    let i = list.len() - 1;
    let prefix = list.drop_last();
    let cur = list.last();
    assert(prefix =~= list.take(prefix.len() as int));
    assert forall|t: int| 0 <= t <= i - 1 implies both_kings((#[trigger] prefix[t]).pos.state) && open_at(prefix, t) by {
        lemma_open_prefix(list, prefix, t);
    }
    lemma_kings_from_start(prefix, i - 1);
    assert(prefix.last() == prefix[i - 1]);
    assert forall|t: int| a <= t <= i - 1 implies (#[trigger] prefix[t]).pos.state.same_counts(cur.pos.state) by {
        assert(prefix[t] == list[t]);
    }
    assert(prefix[a] == list[a] && prefix[b] == list[b]);
    lemma_repeats_two(prefix, &cur, i - 1, 0, a, b);
    let base = inherited(prefix, cur.pos.state);
    assert(base.kings_start_at == Some(0usize));
    assert(both_kings(base));
    lemma_two_repeats_draw(prefix, &cur, base);
}

/// What a check that finds the game open records of the run of king
/// moves: with both sides holding a king, a move of a king keeps the ply
/// recorded or records this one, and a move of a man records none.
pub proof fn lemma_king_move_mark(prefix: Seq<PositionAndMove>, cur: &PositionAndMove, base: PosState, no_moves: bool)
    requires
        prefix.len() <= usize::MAX,
        both_kings(base),
        judged_with(prefix, cur, base, no_moves).1.is_none(),
    ensures
        king_arrived(cur) == Some(true) ==> judged_with(prefix, cur, base, no_moves).0.kings_only_move_start_at == marked(
            base.kings_only_move_start_at,
            prefix.len() as usize,
        ),
        king_arrived(cur) == Some(false) ==> judged_with(prefix, cur, base, no_moves).0.kings_only_move_start_at.is_none(),
{
}

/// Along a run of king moves, with both sides holding a king and every
/// check finding the game open, the ply recorded for the run is no later
/// than the first ply of the run; it is that ply if no run was under way
/// before it.
pub proof fn lemma_king_run(list: Seq<PositionAndMove>, j0: int, j: int)
    requires
        recorded(list),
        list.len() <= usize::MAX,
        0 <= j0 <= j < list.len(),
        forall|t: int|
            j0 <= t <= j ==> both_kings((#[trigger] list[t]).pos.state) && open_at(list, t) && king_arrived(&list[t])
                == Some(true),
    ensures
        list[j].pos.state.kings_only_move_start_at.is_some(),
        list[j].pos.state.kings_only_move_start_at.unwrap() <= j0,
        j0 == 0 || list[j0 - 1].pos.state.kings_only_move_start_at.is_none()
            ==> list[j].pos.state.kings_only_move_start_at == Some(j0 as usize),
    decreases j,
{
    reveal(recorded);
    reveal(open_at);
    assert(both_kings(list[j].pos.state) && open_at(list, j));
    lemma_left_king(list, j);
    if j > j0 {
        lemma_king_run(list, j0, j - 1);
    }
}

/// With the run of king moves recorded `s`, the check of a king move at a
/// ply more than fourteen after `s` gives the draw of king moves.
pub proof fn lemma_long_run_draws(prefix: Seq<PositionAndMove>, cur: &PositionAndMove, base: PosState, s: usize)
    requires
        prefix.len() <= usize::MAX,
        both_kings(base),
        king_arrived(cur) == Some(true),
        base.kings_only_move_start_at == Some(s),
        s + 15 <= prefix.len(),
    ensures
        judged_with(prefix, cur, base, false).1 == Some(FinishType::Draw1),
{
}

/// With no run of king moves recorded further back than `s`, the check of
/// a ply fewer than fifteen after `s` does not give the draw of king
/// moves.
pub proof fn lemma_short_run_goes_on(prefix: Seq<PositionAndMove>, cur: &PositionAndMove, base: PosState, s: usize)
    requires
        prefix.len() <= usize::MAX,
        s <= prefix.len() < s + 15,
        marked(base.kings_only_move_start_at, prefix.len() as usize) == Some(s),
    ensures
        judged_with(prefix, cur, base, false).1 != Some(FinishType::Draw1),
{
}

/// Sixteen king moves in a row are a draw: where the last sixteen positions
/// of `list` each came by a move of a king, both sides held a king in all
/// of them, every earlier check found the game open and the side to move
/// has a move, the rules give the draw of king moves for the last.
pub proof fn law_sixteenth_king_move_draws(list: Seq<PositionAndMove>)
    requires
        16 <= list.len() <= usize::MAX,
        recorded(list.drop_last()),
        forall|t: int|
            list.len() - 16 <= t < list.len() - 1 ==> both_kings((#[trigger] list[t]).pos.state) && open_at(list, t)
                && king_arrived(&list[t]) == Some(true),
        both_kings(list.last().pos.state),
        king_arrived(&list.last()) == Some(true),
        legal_moves(
            list.last().pos.cells@,
            &list.last().pos.environment,
            list.last().pos.next_move.unwrap(),
            false,
        ).len() > 0,
    ensures
        judged(list).1 == Some(FinishType::Draw1),
{
    let i = list.len() - 1;
    let prefix = list.drop_last();
    let cur = list.last();
    assert(prefix =~= list.take(prefix.len() as int));
    assert forall|t: int| i - 15 <= t <= i - 1 implies both_kings((#[trigger] prefix[t]).pos.state) && open_at(prefix, t)
        && king_arrived(&prefix[t]) == Some(true) by {
        lemma_open_prefix(list, prefix, t);
    }
    lemma_king_run(prefix, i - 15, i - 1);
    assert(prefix.last() == prefix[i - 1]);
    let base = inherited(prefix, cur.pos.state);
    lemma_long_run_draws(prefix, &cur, base, base.kings_only_move_start_at.unwrap());
}

/// Fewer than sixteen king moves in a row are no draw of king moves: where
/// the positions of `list` from ply `j0` on each came by a move of a king,
/// with both sides holding a king and every earlier check finding the game
/// open, where no run was under way before ply `j0` (it is the first ply,
/// or the ply before it moved a man or left a side without a king), and
/// where these are at most fifteen plies, the rules do not give the draw
/// of king moves for the last.
pub proof fn law_no_draw_before_sixteen(list: Seq<PositionAndMove>, j0: int)
    requires
        0 < list.len() <= usize::MAX,
        0 <= j0 < list.len(),
        list.len() - j0 <= 15,
        recorded(list.drop_last()),
        forall|t: int|
            j0 <= t < list.len() - 1 ==> both_kings((#[trigger] list[t]).pos.state) && open_at(list, t)
                && king_arrived(&list[t]) == Some(true),
        j0 > 0 ==> open_at(list, j0 - 1) && (!both_kings(list[j0 - 1].pos.state) || king_arrived(&list[j0 - 1])
            == Some(false)),
        legal_moves(
            list.last().pos.cells@,
            &list.last().pos.environment,
            list.last().pos.next_move.unwrap(),
            false,
        ).len() > 0,
    ensures
        judged(list).1 != Some(FinishType::Draw1),
{
    let i = list.len() - 1;
    let prefix = list.drop_last();
    let cur = list.last();
    let base = inherited(prefix, cur.pos.state);
    assert(prefix =~= list.take(prefix.len() as int));
    assert forall|t: int| j0 <= t <= i - 1 implies both_kings((#[trigger] prefix[t]).pos.state) && open_at(prefix, t)
        && king_arrived(&prefix[t]) == Some(true) by {
        lemma_open_prefix(list, prefix, t);
    }
    if j0 > 0 && j0 <= i {
        if j0 - 1 < prefix.len() {
            lemma_open_prefix(list, prefix, j0 - 1);
            lemma_no_run_before(prefix, j0 - 1);
        }
    }
    if j0 <= i - 1 {
        lemma_king_run(prefix, j0, i - 1);
        assert(prefix.last() == prefix[i - 1]);
    } else if j0 > 0 {
        assert(prefix.last() == prefix[j0 - 1]);
    }
    lemma_short_run_goes_on(prefix, &cur, base, j0 as usize);
}

/// A ply that moved a man or left a side without a king, and whose check
/// found the game open, records no run of king moves.
pub proof fn lemma_no_run_before(list: Seq<PositionAndMove>, t: int)
    requires
        recorded(list),
        list.len() <= usize::MAX,
        0 <= t < list.len(),
        open_at(list, t),
        !both_kings(list[t].pos.state) || king_arrived(&list[t]) == Some(false),
    ensures
        list[t].pos.state.kings_only_move_start_at.is_none(),
{
    reveal(recorded);
    reveal(open_at);
    lemma_left_king(list, t);
}

/// What a check that finds the game open records of the run of one king against three:
/// while it lasts, with both sides holding a king, the ply recorded or
/// this one; else none.
pub proof fn lemma_triangle_mark(prefix: Seq<PositionAndMove>, cur: &PositionAndMove, base: PosState, no_moves: bool)
    requires
        prefix.len() <= usize::MAX,
        base.black == cur.pos.state.black,
        base.white == cur.pos.state.white,
        judged_with(prefix, cur, base, no_moves).1.is_none(),
    ensures
        judged_with(prefix, cur, base, no_moves).0.triangle_start_at == if both_kings(base) && is_triangle(base) {
            marked(base.triangle_start_at, prefix.len() as usize)
        } else {
            None
        },
{
}

/// Along a run of one king against three, with every check finding the game open, the
/// ply recorded for the run is no later than the first ply of the run; it
/// is that ply if no run was under way before it.
pub proof fn lemma_triangle_run(list: Seq<PositionAndMove>, j0: int, j: int)
    requires
        recorded(list),
        list.len() <= usize::MAX,
        0 <= j0 <= j < list.len(),
        forall|t: int|
            j0 <= t <= j ==> both_kings((#[trigger] list[t]).pos.state) && open_at(list, t) && is_triangle(list[t].pos.state),
    ensures
        list[j].pos.state.triangle_start_at.is_some(),
        list[j].pos.state.triangle_start_at.unwrap() <= j0,
        j0 == 0 || list[j0 - 1].pos.state.triangle_start_at.is_none() ==> list[j].pos.state.triangle_start_at == Some(j0 as usize),
    decreases j,
{
    reveal(recorded);
    reveal(open_at);
    assert(both_kings(list[j].pos.state) && open_at(list, j));
    lemma_left_triangle(list, j);
    if j > j0 {
        lemma_triangle_run(list, j0, j - 1);
    }
}

/// A ply without one king against three, whose check found the game open, records no such
/// run.
pub proof fn lemma_no_triangle_before(list: Seq<PositionAndMove>, t: int)
    requires
        recorded(list),
        list.len() <= usize::MAX,
        0 <= t < list.len(),
        open_at(list, t),
        !both_kings(list[t].pos.state) || !is_triangle(list[t].pos.state),
    ensures
        list[t].pos.state.triangle_start_at.is_none(),
{
    reveal(recorded);
    reveal(open_at);
    lemma_left_triangle(list, t);
}

/// With the run of one king against three recorded `s`, the check of a ply 15 or
/// more after `s` on which the run lasts ends the game.
pub proof fn lemma_long_triangle_ends(prefix: Seq<PositionAndMove>, cur: &PositionAndMove, base: PosState, s: usize)
    requires
        prefix.len() <= usize::MAX,
        base.black == cur.pos.state.black,
        base.white == cur.pos.state.white,
        both_kings(base),
        is_triangle(base),
        base.triangle_start_at == Some(s),
        s + 15 <= prefix.len(),
    ensures
        judged_with(prefix, cur, base, false).1.is_some(),
{
}

/// With no run of one king against three recorded further back than `s`, the check of a
/// ply fewer than 15 after `s` does not give the draw of that run.
pub proof fn lemma_short_triangle_goes_on(prefix: Seq<PositionAndMove>, cur: &PositionAndMove, base: PosState, s: usize)
    requires
        prefix.len() <= usize::MAX,
        s <= prefix.len() < s + 15,
        marked(base.triangle_start_at, prefix.len() as usize) == Some(s),
    ensures
        judged_with(prefix, cur, base, false).1 != Some(FinishType::Draw3),
{
}

/// A run of one king against three that has lasted 15 plies ends the game: where the
/// last 16 positions of `list` each show one king against three or more, with both sides
/// holding a king, every earlier check found the game open and the side
/// to move has a move, the rules give a draw for the last: the draw of
/// this run, unless a rule that comes before it gives another.
pub proof fn law_triangle_run_ends(list: Seq<PositionAndMove>)
    requires
        16 <= list.len() <= usize::MAX,
        recorded(list.drop_last()),
        forall|t: int|
            list.len() - 16 <= t < list.len() - 1 ==> both_kings((#[trigger] list[t]).pos.state) && open_at(list, t)
                && is_triangle(list[t].pos.state),
        both_kings(list.last().pos.state),
        is_triangle(list.last().pos.state),
        legal_moves(
            list.last().pos.cells@,
            &list.last().pos.environment,
            list.last().pos.next_move.unwrap(),
            false,
        ).len() > 0,
    ensures
        judged(list).1.is_some(),
{
    let i = list.len() - 1;
    let prefix = list.drop_last();
    let cur = list.last();
    assert(prefix =~= list.take(prefix.len() as int));
    assert forall|t: int| i - 15 <= t <= i - 1 implies both_kings((#[trigger] prefix[t]).pos.state) && open_at(prefix, t)
        && is_triangle(prefix[t].pos.state) by {
        lemma_open_prefix(list, prefix, t);
    }
    lemma_triangle_run(prefix, i - 15, i - 1);
    assert(prefix.last() == prefix[i - 1]);
    let base = inherited(prefix, cur.pos.state);
    lemma_long_triangle_ends(prefix, &cur, base, base.triangle_start_at.unwrap());
}

/// A run of one king against three that has lasted fewer than 15 plies is no draw of
/// that run: where the positions of `list` from ply `j0` on each show
/// one king against three or more, with both sides holding a king and every earlier check
/// finding the game open, where no such run was under way before ply `j0`
/// (it is the first ply, or the ply before it did not show it), and where
/// these are at most 15 positions, the rules do not give the draw of
/// this run for the last.
pub proof fn law_triangle_run_goes_on(list: Seq<PositionAndMove>, j0: int)
    requires
        0 < list.len() <= usize::MAX,
        0 <= j0 < list.len(),
        list.len() - j0 <= 15,
        recorded(list.drop_last()),
        forall|t: int|
            j0 <= t < list.len() - 1 ==> both_kings((#[trigger] list[t]).pos.state) && open_at(list, t)
                && is_triangle(list[t].pos.state),
        j0 > 0 ==> open_at(list, j0 - 1) && (!both_kings(list[j0 - 1].pos.state) || !is_triangle(list[j0 - 1].pos.state)),
    ensures
        judged(list).1 != Some(FinishType::Draw3),
{
    let i = list.len() - 1;
    let prefix = list.drop_last();
    let cur = list.last();
    let base = inherited(prefix, cur.pos.state);
    assert(prefix =~= list.take(prefix.len() as int));
    assert forall|t: int| j0 <= t <= i - 1 implies both_kings((#[trigger] prefix[t]).pos.state) && open_at(prefix, t)
        && is_triangle(prefix[t].pos.state) by {
        lemma_open_prefix(list, prefix, t);
    }
    if j0 > 0 && j0 - 1 < prefix.len() {
        lemma_open_prefix(list, prefix, j0 - 1);
        lemma_no_triangle_before(prefix, j0 - 1);
    }
    if j0 <= i - 1 {
        lemma_triangle_run(prefix, j0, i - 1);
        assert(prefix.last() == prefix[i - 1]);
    } else if j0 > 0 {
        assert(prefix.last() == prefix[j0 - 1]);
    }
    lemma_short_triangle_goes_on(prefix, &cur, base, j0 as usize);
    let no_moves = legal_moves(cur.pos.cells@, &cur.pos.environment, cur.pos.next_move.unwrap(), false).len() == 0;
    if no_moves {
        assert(judged(list).1 != Some(FinishType::Draw3));
    }
}

/// What a check that finds the game open records of the run of a lone king on the main road:
/// while it lasts, with both sides holding a king, the ply recorded or
/// this one; else none.
pub proof fn lemma_road_mark(prefix: Seq<PositionAndMove>, cur: &PositionAndMove, base: PosState, no_moves: bool)
    requires
        prefix.len() <= usize::MAX,
        base.black == cur.pos.state.black,
        base.white == cur.pos.state.white,
        judged_with(prefix, cur, base, no_moves).1.is_none(),
    ensures
        judged_with(prefix, cur, base, no_moves).0.main_road_start_at == if both_kings(base) && single_on_main_road(&cur.pos) {
            marked(base.main_road_start_at, prefix.len() as usize)
        } else {
            None
        },
{
}

/// Along a run of a lone king on the main road, with every check finding the game open, the
/// ply recorded for the run is no later than the first ply of the run; it
/// is that ply if no run was under way before it.
pub proof fn lemma_road_run(list: Seq<PositionAndMove>, j0: int, j: int)
    requires
        recorded(list),
        list.len() <= usize::MAX,
        0 <= j0 <= j < list.len(),
        forall|t: int|
            j0 <= t <= j ==> both_kings((#[trigger] list[t]).pos.state) && open_at(list, t) && single_on_main_road(&list[t].pos),
    ensures
        list[j].pos.state.main_road_start_at.is_some(),
        list[j].pos.state.main_road_start_at.unwrap() <= j0,
        j0 == 0 || list[j0 - 1].pos.state.main_road_start_at.is_none() ==> list[j].pos.state.main_road_start_at == Some(j0 as usize),
    decreases j,
{
    reveal(recorded);
    reveal(open_at);
    assert(both_kings(list[j].pos.state) && open_at(list, j));
    lemma_left_road(list, j);
    if j > j0 {
        lemma_road_run(list, j0, j - 1);
    }
}

/// A ply without a lone king on the main road, whose check found the game open, records no such
/// run.
pub proof fn lemma_no_road_before(list: Seq<PositionAndMove>, t: int)
    requires
        recorded(list),
        list.len() <= usize::MAX,
        0 <= t < list.len(),
        open_at(list, t),
        !both_kings(list[t].pos.state) || !single_on_main_road(&list[t].pos),
    ensures
        list[t].pos.state.main_road_start_at.is_none(),
{
    reveal(recorded);
    reveal(open_at);
    lemma_left_road(list, t);
}

/// With the run of a lone king on the main road recorded `s`, the check of a ply 10 or
/// more after `s` on which the run lasts ends the game.
pub proof fn lemma_long_road_ends(prefix: Seq<PositionAndMove>, cur: &PositionAndMove, base: PosState, s: usize)
    requires
        prefix.len() <= usize::MAX,
        base.black == cur.pos.state.black,
        base.white == cur.pos.state.white,
        both_kings(base),
        single_on_main_road(&cur.pos),
        base.main_road_start_at == Some(s),
        s + 10 <= prefix.len(),
    ensures
        judged_with(prefix, cur, base, false).1.is_some(),
{
}

/// With no run of a lone king on the main road recorded further back than `s`, the check of a
/// ply fewer than 10 after `s` does not give the draw of that run.
pub proof fn lemma_short_road_goes_on(prefix: Seq<PositionAndMove>, cur: &PositionAndMove, base: PosState, s: usize)
    requires
        prefix.len() <= usize::MAX,
        s <= prefix.len() < s + 10,
        marked(base.main_road_start_at, prefix.len() as usize) == Some(s),
    ensures
        judged_with(prefix, cur, base, false).1 != Some(FinishType::Draw5),
{
}

/// A run of a lone king on the main road that has lasted 10 plies ends the game: where the
/// last 11 positions of `list` each show a lone king on the main road, with both sides
/// holding a king, every earlier check found the game open and the side
/// to move has a move, the rules give a draw for the last: the draw of
/// this run, unless a rule that comes before it gives another.
pub proof fn law_road_run_ends(list: Seq<PositionAndMove>)
    requires
        11 <= list.len() <= usize::MAX,
        recorded(list.drop_last()),
        forall|t: int|
            list.len() - 11 <= t < list.len() - 1 ==> both_kings((#[trigger] list[t]).pos.state) && open_at(list, t)
                && single_on_main_road(&list[t].pos),
        both_kings(list.last().pos.state),
        single_on_main_road(&list.last().pos),
        legal_moves(
            list.last().pos.cells@,
            &list.last().pos.environment,
            list.last().pos.next_move.unwrap(),
            false,
        ).len() > 0,
    ensures
        judged(list).1.is_some(),
{
    let i = list.len() - 1;
    let prefix = list.drop_last();
    let cur = list.last();
    assert(prefix =~= list.take(prefix.len() as int));
    assert forall|t: int| i - 10 <= t <= i - 1 implies both_kings((#[trigger] prefix[t]).pos.state) && open_at(prefix, t)
        && single_on_main_road(&prefix[t].pos) by {
        lemma_open_prefix(list, prefix, t);
    }
    lemma_road_run(prefix, i - 10, i - 1);
    assert(prefix.last() == prefix[i - 1]);
    let base = inherited(prefix, cur.pos.state);
    lemma_long_road_ends(prefix, &cur, base, base.main_road_start_at.unwrap());
}

/// A run of a lone king on the main road that has lasted fewer than 10 plies is no draw of
/// that run: where the positions of `list` from ply `j0` on each show
/// a lone king on the main road, with both sides holding a king and every earlier check
/// finding the game open, where no such run was under way before ply `j0`
/// (it is the first ply, or the ply before it did not show it), and where
/// these are at most 10 positions, the rules do not give the draw of
/// this run for the last.
pub proof fn law_road_run_goes_on(list: Seq<PositionAndMove>, j0: int)
    requires
        0 < list.len() <= usize::MAX,
        0 <= j0 < list.len(),
        list.len() - j0 <= 10,
        recorded(list.drop_last()),
        forall|t: int|
            j0 <= t < list.len() - 1 ==> both_kings((#[trigger] list[t]).pos.state) && open_at(list, t)
                && single_on_main_road(&list[t].pos),
        j0 > 0 ==> open_at(list, j0 - 1) && (!both_kings(list[j0 - 1].pos.state) || !single_on_main_road(&list[j0 - 1].pos)),
    ensures
        judged(list).1 != Some(FinishType::Draw5),
{
    let i = list.len() - 1;
    let prefix = list.drop_last();
    let cur = list.last();
    let base = inherited(prefix, cur.pos.state);
    assert(prefix =~= list.take(prefix.len() as int));
    assert forall|t: int| j0 <= t <= i - 1 implies both_kings((#[trigger] prefix[t]).pos.state) && open_at(prefix, t)
        && single_on_main_road(&prefix[t].pos) by {
        lemma_open_prefix(list, prefix, t);
    }
    if j0 > 0 && j0 - 1 < prefix.len() {
        lemma_open_prefix(list, prefix, j0 - 1);
        lemma_no_road_before(prefix, j0 - 1);
    }
    if j0 <= i - 1 {
        lemma_road_run(prefix, j0, i - 1);
        assert(prefix.last() == prefix[i - 1]);
    } else if j0 > 0 {
        assert(prefix.last() == prefix[j0 - 1]);
    }
    lemma_short_road_goes_on(prefix, &cur, base, j0 as usize);
    let no_moves = legal_moves(cur.pos.cells@, &cur.pos.environment, cur.pos.next_move.unwrap(), false).len() == 0;
    if no_moves {
        assert(judged(list).1 != Some(FinishType::Draw5));
    }
}

/// The ply at which a run began, once the run is seen at ply `i`.
fn mark(m: Option<usize>, i: usize) -> (r: Option<usize>)
    ensures
        r == marked(m, i),
{
    match m {
        Some(s) => if s > i { Some(i) } else { Some(s) },
        None => Some(i),
    }
}

/// Whether a lone king's side holds the main road.
#[verifier::loop_isolation(false)]
fn is_single_on_main_road(pos: &Position) -> (r: bool)
    requires
        pos.shape(),
    ensures
        r == single_on_main_road(pos),
{
    proof {
        pos.lemma_fits();
    }
    let state = &pos.state;
    if (state.black.king == 1 || state.white.king == 1) && state.get_total() == 4 {
        let color = if state.black.king == 1 { Color::Black } else { Color::White };
        let points = &pos.environment.get_vectors(0)[0].points;
        let mut k: usize = 0;
        while k < points.len()
            invariant
                pos.shape(),
                points == &pos.environment.vectors_map@[0]@[0].points,
                k <= points@.len(),
                first_piece(pos.cells@, points@, 0, points@.len() as int) == first_piece(
                    pos.cells@,
                    points@,
                    k as int,
                    points@.len() as int,
                ),
            decreases points@.len() - k,
        {
            match pos.cells[points[k]] {
                Some(piece) => {
                    return piece.color == color;
                },
                None => {},
            }
            k += 1;
        }
    }
    false
}

/// Applies the rules to `cur`, which follows the positions `prefix`.
#[verifier::loop_isolation(false)]
fn judge(prefix: &Vec<PositionAndMove>, cur: &PositionAndMove, base: PosState, no_moves: bool) -> (r: (
    PosState,
    Option<FinishType>,
))
    requires
        cur.pos.shape(),
        base.black == cur.pos.state.black,
        base.white == cur.pos.state.white,
    ensures
        r == judged_with(prefix@, cur, base, no_moves),
{
    let i = prefix.len();
    let mut st = base;
    if no_moves {
        let won = match cur.pos.next_move {
            Some(Color::White) => FinishType::BlackWin,
            _ => FinishType::WhiteWin,
        };
        return (st, Some(won));
    }
    if !(st.white.king > 0 && st.black.king > 0) {
        st.kings_start_at = None;
        st.kings_only_move_start_at = None;
        st.triangle_start_at = None;
        st.power_equal_start_at = None;
        st.main_road_start_at = None;
        return (st, None);
    }
    // first position where both sides have kings
    st.kings_start_at = mark(st.kings_start_at, i);
    // only kings moved
    let arrived: Option<bool> = match &cur.mov {
        Some(m) => {
            if m.is_readable() {
                let to = m.to();
                if to < cur.pos.cells.len() {
                    match cur.pos.cells[to] {
                        Some(p) => Some(p.is_king),
                        None => None,
                    }
                } else {
                    None
                }
            } else {
                None
            }
        },
        None => None,
    };
    match arrived {
        Some(true) => {
            st.kings_only_move_start_at = mark(st.kings_only_move_start_at, i);
            if i - st.kings_only_move_start_at.unwrap() >= 15 {
                return (st, Some(FinishType::Draw1));
            }
        },
        Some(false) => {
            st.kings_only_move_start_at = None;
        },
        None => {},
    }
    // the same position three times
    let lo = st.kings_start_at.unwrap();
    let mut repeats: u8 = 0;
    let mut j: usize = i;
    let ghost all = repeats_in(prefix@, cur, i - 1, lo as int);
    while repeats < 2 && j > 0 && j > lo && prefix[j - 1].pos.state.eq_counts(&cur.pos.state)
        invariant
            j <= i,
            i == prefix@.len(),
            repeats <= 2,
            repeats + repeats_in(prefix@, cur, j - 1, lo as int) == all,
        decreases j,
    {
        if prefix[j - 1].pos == cur.pos {
            repeats += 1;
        }
        j -= 1;
    }
    proof {
        lemma_repeats_in(prefix@, cur, j - 1, lo as int);
    }
    if repeats >= 2 {
        st.repeats = 2;
        return (st, Some(FinishType::Draw2));
    }
    st.repeats = repeats;
    // the material has not changed
    if i >= 1 {
        if prefix[i - 1].pos.state.eq_counts(&st) {
            st.power_equal_start_at = mark(st.power_equal_start_at, i - 1);
            proof {
                cur.pos.lemma_fits();
            }
            let total = st.get_total();
            let n = i - st.power_equal_start_at.unwrap();
            if (total < 4 && n > 5) || (total < 6 && n > 30) || (total < 8 && n > 60) {
                return (st, Some(FinishType::Draw4));
            }
        } else {
            st.power_equal_start_at = None;
        }
    }
    // one king against three
    let triangle = (st.white.king == 1 && st.black.king >= 3) || (st.black.king == 1 && st.white.king >= 3);
    if triangle {
        st.triangle_start_at = mark(st.triangle_start_at, i);
        if i - st.triangle_start_at.unwrap() >= 15 {
            return (st, Some(FinishType::Draw3));
        }
    } else {
        st.triangle_start_at = None;
    }
    // a lone king on the main road
    if is_single_on_main_road(&cur.pos) {
        st.main_road_start_at = mark(st.main_road_start_at, i);
        if i - st.main_road_start_at.unwrap() >= 10 {
            return (st, Some(FinishType::Draw5));
        }
    } else {
        st.main_road_start_at = None;
    }
    (st, None)
}

/// The positions of a game in the order they were reached, each with the
/// move that led to it.
#[derive(Debug)]
pub struct PositionHistory {
    pub list: Vec<PositionAndMove>,
}

impl PositionHistory {
    /// The last position, if there is one, is sound and a side is to move
    /// in it.
    pub open spec fn last_ok(&self) -> bool {
        self.list@.len() > 0 ==> self.list@.last().pos.wf() && self.list@.last().pos.next_move.is_some()
    }

    pub fn len(&self) -> (n: usize)
        ensures
            n == self.list@.len(),
    {
        self.list.len()
    }

    /// An empty history.
    pub fn new() -> (h: PositionHistory)
        ensures
            h.list@.len() == 0,
            recorded(h.list@),
    {
        let h = PositionHistory { list: Vec::new() };
        proof {
            reveal(recorded);
        }
        h
    }

    /// The position reached last.
    pub fn last(&self) -> (r: &PositionAndMove)
        requires
            self.list@.len() > 0,
        ensures
            *r == self.list@.last(),
    {
        &self.list[self.list.len() - 1]
    }

    /// Forgets every position from the `to`-th on.
    pub fn cut_to(&mut self, to: usize)
        requires
            to <= old(self).list@.len(),
        ensures
            final(self).list@ == old(self).list@.take(to as int),
            forall|env: Arc<PositionEnvironment>|
                history_ok(old(self).list@, env) ==> #[trigger] history_ok(final(self).list@, env),
            recorded(old(self).list@) ==> recorded(final(self).list@),
    {
        self.list.truncate(to);
        proof {
            if recorded(old(self).list@) {
                lemma_recorded_take(old(self).list@, to as int);
            }
            assert forall|env: Arc<PositionEnvironment>| history_ok(old(self).list@, env) implies #[trigger] history_ok(
                self.list@,
                env,
            ) by {
                lemma_ok_take(old(self).list@, env, to as int);
            }
        }
    }

    /// Appends a position and applies the rules to it.
    pub fn push(&mut self, pos_mov: PositionAndMove) -> (r: Option<FinishType>)
        requires
            pos_mov.pos.wf(),
            pos_mov.pos.next_move.is_some(),
        ensures
            final(self).checked(old(self).list@.push(pos_mov), r),
            forall|env: Arc<PositionEnvironment>|
                history_ok(old(self).list@, env) && pos_mov.sound() && pos_mov.pos.environment == env
                    ==> #[trigger] history_ok(final(self).list@, env),
            recorded(old(self).list@) ==> recorded(final(self).list@),
            r.is_none() == open_at(final(self).list@, final(self).list@.len() - 1),
    {
        self.list.push(pos_mov);
        let ghost pushed = self.list@;
        let r = self.finish_check();
        proof {
            assert(pushed.drop_last() =~= old(self).list@);
            assert forall|env: Arc<PositionEnvironment>|
                history_ok(old(self).list@, env) && pos_mov.sound() && pos_mov.pos.environment == env implies #[trigger] history_ok(
                self.list@,
                env,
            ) by {
                lemma_ok_push(old(self).list@, pos_mov, env);
                lemma_ok_checked(pushed, self, r, env);
            }
        }
        r
    }

    /// Appends a position and applies the rules to it.
    pub fn push_rc(&mut self, pos_mov: PositionAndMove) -> (r: Option<FinishType>)
        requires
            pos_mov.pos.wf(),
            pos_mov.pos.next_move.is_some(),
        ensures
            final(self).checked(old(self).list@.push(pos_mov), r),
            forall|env: Arc<PositionEnvironment>|
                history_ok(old(self).list@, env) && pos_mov.sound() && pos_mov.pos.environment == env
                    ==> #[trigger] history_ok(final(self).list@, env),
            recorded(old(self).list@) ==> recorded(final(self).list@),
            r.is_none() == open_at(final(self).list@, final(self).list@.len() - 1),
    {
        self.list.push(pos_mov);
        let ghost pushed = self.list@;
        let r = self.finish_check();
        proof {
            assert(pushed.drop_last() =~= old(self).list@);
            assert forall|env: Arc<PositionEnvironment>|
                history_ok(old(self).list@, env) && pos_mov.sound() && pos_mov.pos.environment == env implies #[trigger] history_ok(
                self.list@,
                env,
            ) by {
                lemma_ok_push(old(self).list@, pos_mov, env);
                lemma_ok_checked(pushed, self, r, env);
            }
        }
        r
    }

    /// Removes the last position and returns it.
    pub fn pop(&mut self) -> (r: Option<PositionAndMove>)
        ensures
            old(self).list@.len() == 0 ==> r.is_none() && final(self).list@ == old(self).list@,
            old(self).list@.len() > 0 ==> r == Some(old(self).list@.last()) && final(self).list@ == old(
                self,
            ).list@.drop_last(),
            forall|env: Arc<PositionEnvironment>|
                history_ok(old(self).list@, env) ==> #[trigger] history_ok(final(self).list@, env) && (r matches Some(
                    e,
                ) ==> e.sound() && e.pos.environment == env),
            recorded(old(self).list@) ==> recorded(final(self).list@),
    {
        let r = self.list.pop();
        proof {
            if recorded(old(self).list@) && old(self).list@.len() > 0 {
                lemma_recorded_take(old(self).list@, old(self).list@.len() - 1);
                assert(old(self).list@.take(old(self).list@.len() - 1) =~= old(self).list@.drop_last());
            }
            assert forall|env: Arc<PositionEnvironment>| history_ok(old(self).list@, env) implies #[trigger] history_ok(
                self.list@,
                env,
            ) && (r matches Some(e) ==> e.sound() && e.pos.environment == env) by {
                if old(self).list@.len() > 0 {
                    lemma_ok_take(old(self).list@, env, old(self).list@.len() - 1);
                    assert(old(self).list@.take(old(self).list@.len() - 1) =~= old(self).list@.drop_last());
                    lemma_ok_at(old(self).list@, env, old(self).list@.len() - 1);
                }
            }
        }
        r
    }

    /// What a check leaves of the history `before` and returns: nothing
    /// changes but the last position, which gets the summary the rules give
    /// and keeps its list of legal moves; the result is the one the rules
    /// give. An empty history stays empty and has no result.
    pub open spec fn checked(&self, before: Seq<PositionAndMove>, r: Option<FinishType>) -> bool {
        if before.len() == 0 {
            r.is_none() && self.list@.len() == 0
        } else {
            let after = self.list@.last();
            let cur = before.last();
            &&& self.list@.len() == before.len()
            &&& self.list@.drop_last() == before.drop_last()
            &&& after.mov == cur.mov
            &&& after.deep_eval == cur.deep_eval
            &&& after.pos.wf()
            &&& after.pos.cells@ == cur.pos.cells@
            &&& after.pos.next_move == cur.pos.next_move
            &&& after.pos.environment == cur.pos.environment
            &&& after.pos.took_pieces@ == cur.pos.took_pieces@
            &&& after.pos.eval == cur.pos.eval
            &&& after.pos.kept_moves().is_some()
            &&& after.pos.state == judged(before).0
            &&& r == judged(before).1
        }
    }

    /// Applies the rules of the end of the game to the last position: tells
    /// whether the game is over and how, and records in the summary of that
    /// position the plies at which the runs watched by the rules began.
    pub fn finish_check(&mut self) -> (r: Option<FinishType>)
        requires
            old(self).last_ok(),
        ensures
            final(self).checked(old(self).list@, r),
            final(self).last_ok(),
            forall|env: Arc<PositionEnvironment>|
                history_ok(old(self).list@, env) ==> #[trigger] history_ok(final(self).list@, env),
            old(self).list@.len() > 0 && recorded(old(self).list@.drop_last()) ==> recorded(final(self).list@),
            old(self).list@.len() > 0 ==> r.is_none() == open_at(final(self).list@, final(self).list@.len() - 1),
    {
        let n = self.list.len();
        let r = self.check_last();
        proof {
            if n > 0 {
                lemma_checked_open(old(self).list@, self, r);
                if recorded(old(self).list@.drop_last()) {
                    lemma_recorded_checked(old(self).list@, self, r);
                }
            }
            assert forall|env: Arc<PositionEnvironment>| history_ok(old(self).list@, env) implies #[trigger] history_ok(
                self.list@,
                env,
            ) by {
                lemma_ok_checked(old(self).list@, self, r, env);
            }
        }
        r
    }

    /// The check itself; see [`PositionHistory::finish_check`].
    fn check_last(&mut self) -> (r: Option<FinishType>)
        requires
            old(self).last_ok(),
        ensures
            final(self).checked(old(self).list@, r),
            final(self).last_ok(),
    {
        let n = self.list.len();
        if n == 0 {
            return None;
        }
        let i = n - 1;
        let ghost before = self.list@;
        let mut cur = self.list.pop().unwrap();
        assert(self.list@ == before.drop_last());
        let ghost first = cur;
        if i >= 1 {
            let p = &self.list[i - 1].pos.state;
            cur.pos.state = PosState {
                black: cur.pos.state.black,
                white: cur.pos.state.white,
                kings_start_at: p.kings_start_at,
                kings_only_move_start_at: p.kings_only_move_start_at,
                triangle_start_at: p.triangle_start_at,
                power_equal_start_at: p.power_equal_start_at,
                main_road_start_at: p.main_road_start_at,
                repeats: p.repeats,
            };
        }
        let base = cur.pos.state;
        let list = cur.pos.get_move_list_cached();
        let (st, verdict) = judge(&self.list, &cur, base, list.list.len() == 0);
        proof {
            assert(king_arrived(&cur) == king_arrived(&first));
            assert(single_on_main_road(&cur.pos) == single_on_main_road(&first.pos));
            lemma_judged_same(before.drop_last(), &cur, &first, base, list@.list.len() == 0);
        }
        cur.pos.state = st;
        self.list.push(cur);
        assert(self.list@.drop_last() =~= before.drop_last());
        verdict
    }
}

/// A history that a check has found open is found open by the next
/// check too.
pub proof fn lemma_open_stays_open(before: Seq<PositionAndMove>, after: &PositionHistory)
    requires
        before.len() > 0,
        after.checked(before, None),
    ensures
        judged(after.list@).1.is_none(),
{
    let cur = before.last();
    let now = after.list@.last();
    let prefix = before.drop_last();
    assert(after.list@.drop_last() == prefix);
    let no_moves = legal_moves(cur.pos.cells@, &cur.pos.environment, cur.pos.next_move.unwrap(), false).len()
        == 0;
    if prefix.len() > 0 {
        let base = inherited(prefix, cur.pos.state);
        assert(inherited(prefix, now.pos.state) == base);
        lemma_judged_same(prefix, &now, &cur, base, no_moves);
    } else {
        let base = now.pos.state;
        assert(king_arrived(&now) == king_arrived(&cur));
        assert(single_on_main_road(&now.pos) == single_on_main_road(&cur.pos));
        assert(repeats_in(prefix, &now, -1, base.kings_start_at.unwrap_or(0) as int) == 0);
    }
}

/// The rules read of a position its cells, piece counts, side to move,
/// geometry and move only.
pub proof fn lemma_judged_same(
    prefix: Seq<PositionAndMove>,
    a: &PositionAndMove,
    b: &PositionAndMove,
    base: PosState,
    no_moves: bool,
)
    requires
        a.pos.cells@ == b.pos.cells@,
        a.pos.state.same_counts(b.pos.state),
        a.pos.next_move == b.pos.next_move,
        a.pos.environment == b.pos.environment,
        a.mov == b.mov,
    ensures
        judged_with(prefix, a, base, no_moves) == judged_with(prefix, b, base, no_moves),
{
    assert(king_arrived(a) == king_arrived(b));
    assert forall|j: int, lo: int| repeats_in(prefix, a, j, lo) == repeats_in(prefix, b, j, lo) by {
        lemma_repeats_same(prefix, a, b, j, lo);
    }
    assert(single_on_main_road(&a.pos) == single_on_main_road(&b.pos));
}

/// Counting repeats reads of a position its cells, piece counts and side to
/// move only.
pub proof fn lemma_repeats_same(prefix: Seq<PositionAndMove>, a: &PositionAndMove, b: &PositionAndMove, j: int, lo: int)
    requires
        a.pos.cells@ == b.pos.cells@,
        a.pos.state.same_counts(b.pos.state),
        a.pos.next_move == b.pos.next_move,
    ensures
        repeats_in(prefix, a, j, lo) == repeats_in(prefix, b, j, lo),
    decreases j + 1,
{
    if !(j < 0 || j < lo || !prefix[j].pos.state.same_counts(a.pos.state)) {
        lemma_repeats_same(prefix, a, b, j - 1, lo);
    }
}

} // verus!
