use vstd::prelude::*;
use std::sync::Arc;
use crate::board::{
    applicable, cells_wf, census, lemma_census_bounds, lemma_census_counts, lemma_census_update,
    lemma_lifted, lemma_move_undone, lemma_put_back_prefix, lemma_step_census, lemma_step_undone,
    lemma_unstep_census, lifted, made_buffer, made_cells, put_back, step_cells, step_ok, swapped,
    taken, takes_of, unmade_cells, unmakeable, unstep_cells, unstep_ok, Cells,
};
use crate::color::Color;
use crate::moves::BoardPos;
use crate::moves_list::{MoveItem, MoveItemView, MoveList, MoveListView};
use crate::piece::Piece;
use crate::pos_state::{PieceCount, PosState, MAX_CELLS};
use crate::position_environment::PositionEnvironment;

verus! {

/// A position: what stands on each cell, the piece counts, whose turn it is,
/// and the pieces captured by the last capture made on it.
///
/// The list of legal moves and the evaluation are kept once computed and
/// dropped by whatever changes the board.
#[derive(Debug)]
pub struct Position {
    pub cells: Vec<Option<Piece>>,
    pub state: PosState,
    pub next_move: Option<Color>,
    pub move_list: Option<MoveList>,
    pub eval: Option<i32>,
    pub environment: Arc<PositionEnvironment>,
    pub took_pieces: Vec<Option<Piece>>,
}

/// The side to move after a move, if a side was to move before it.
pub open spec fn flipped(next: Option<Color>) -> Option<Color> {
    match next {
        Some(c) => Some(c.opposite()),
        None => None,
    }
}

/// `n` empty cells.
fn empty_cells(n: usize) -> (v: Vec<Option<Piece>>)
    ensures
        v@.len() == n,
        forall|i: int| 0 <= i < n ==> (#[trigger] v@[i]).is_none(),
{
    let mut v: Vec<Option<Piece>> = Vec::new();
    let mut i: usize = 0;
    while i < n
        invariant
            i <= n,
            v@.len() == i,
            forall|k: int| 0 <= k < i ==> (#[trigger] v@[k]).is_none(),
        decreases n - i,
    {
        v.push(None);
        i += 1;
    }
    v
}

/// A copy of a row of cells.
pub fn copy_cells(cells: &Vec<Option<Piece>>) -> (v: Vec<Option<Piece>>)
    ensures
        v@ == cells@,
{
    let mut v: Vec<Option<Piece>> = Vec::new();
    let mut i: usize = 0;
    while i < cells.len()
        invariant
            i <= cells.len(),
            v@ == cells@.subrange(0, i as int),
        decreases cells.len() - i,
    {
        v.push(cells[i]);
        i += 1;
    }
    assert(v@ =~= cells@);
    v
}

/// No piece stands on an empty board.
pub proof fn lemma_census_empty(cells: Cells, color: Color, king: bool)
    requires
        forall|i: int| 0 <= i < cells.len() ==> (#[trigger] cells[i]).is_none(),
    ensures
        census(cells, color, king) == 0,
    decreases cells.len(),
{
    if cells.len() > 0 {
        lemma_census_empty(cells.drop_last(), color, king);
    }
}

/// Whether two cells hold the same.
fn same_cell(a: &Option<Piece>, b: &Option<Piece>) -> (r: bool)
    ensures
        r == (*a == *b),
{
    match (a, b) {
        (Some(p), Some(q)) => p.pos == q.pos && p.color == q.color && p.is_king == q.is_king
            && p.stricken == q.stricken,
        (None, None) => true,
        _ => false,
    }
}

/// Whether the same side, or no side, is to move.
fn same_side(a: &Option<Color>, b: &Option<Color>) -> (r: bool)
    ensures
        r == (*a == *b),
{
    match (a, b) {
        (Some(p), Some(q)) => *p == *q,
        (None, None) => true,
        _ => false,
    }
}

impl PartialEq for Position {
    /// Two positions are equal when the same side is to move and every cell
    /// holds the same.
    fn eq(&self, other: &Self) -> (r: bool) {
        if !same_side(&self.next_move, &other.next_move) {
            return false;
        }
        if self.cells.len() != other.cells.len() {
            return false;
        }
        let mut i: usize = 0;
        while i < self.cells.len()
            invariant
                i <= self.cells@.len(),
                self.cells@.len() == other.cells@.len(),
                forall|k: int| 0 <= k < i ==> self.cells@[k] == other.cells@[k],
            decreases self.cells@.len() - i,
        {
            if !same_cell(&self.cells[i], &other.cells[i]) {
                return false;
            }
            i += 1;
        }
        assert(self.cells@ =~= other.cells@);
        true
    }
}

impl vstd::std_specs::cmp::PartialEqSpecImpl for Position {
    open spec fn obeys_eq_spec() -> bool {
        true
    }

    open spec fn eq_spec(&self, other: &Self) -> bool {
        self.next_move == other.next_move && self.cells@ == other.cells@
    }
}

impl Clone for Position {
    fn clone(&self) -> (r: Self)
        ensures
            r.same_as(self),
    {
        let move_list = match &self.move_list {
            Some(l) => Some(l.clone()),
            None => None,
        };
        Position {
            cells: copy_cells(&self.cells),
            state: self.state,
            next_move: self.next_move,
            move_list,
            eval: self.eval,
            environment: self.environment.clone(),
            took_pieces: copy_cells(&self.took_pieces),
        }
    }
}

/// Making a move that can be made, and taking it back, restores the
/// position: every cell, the side to move and the whole summary, piece
/// counts included. The move made can always be taken back.
pub proof fn law_unmake_restores(before: Position, made: Position, unmade: Position, m: MoveItemView)
    requires
        before.shape(),
        applicable(before.cells@, m),
        made.shape(),
        made.made_by(&before, m),
        unmade.shape(),
        unmade.unmade_by(&made, m),
    ensures
        unmakeable(made.cells@, made.took_pieces@, m),
        unmade.cells@ == before.cells@,
        unmade.next_move == before.next_move,
        unmade.state == before.state,
        unmade.environment == before.environment,
{
    lemma_move_undone(before.cells@, before.took_pieces@, m);
}

impl Position {
    /// The value of the list of moves that is kept, if one is.
    pub open spec fn kept_moves(&self) -> Option<MoveListView> {
        match self.move_list {
            Some(l) => Some(l@),
            None => None,
        }
    }

    /// Every part of the position has the same value as in `other`.
    pub open spec fn same_as(&self, other: &Position) -> bool {
        &&& self.cells@ == other.cells@
        &&& self.state == other.state
        &&& self.next_move == other.next_move
        &&& self.kept_moves() == other.kept_moves()
        &&& self.eval == other.eval
        &&& self.environment == other.environment
        &&& self.took_pieces@ == other.took_pieces@
    }

    /// The board is sound: it has as many cells as the geometry, every
    /// piece knows its cell, and the counts are those of the pieces on it.
    pub open spec fn shape(&self) -> bool {
        &&& self.environment.wf()
        &&& self.cells@.len() == self.environment.cell_count()
        &&& self.cells@.len() <= MAX_CELLS
        &&& cells_wf(self.cells@)
        &&& self.state.counts(self.cells@)
    }

    /// Everything but the board, the counts and what is kept of earlier
    /// computations is as in `other`.
    pub open spec fn same_frame(&self, other: &Position) -> bool {
        &&& self.environment == other.environment
        &&& self.state.kings_start_at == other.state.kings_start_at
        &&& self.state.kings_only_move_start_at == other.state.kings_only_move_start_at
        &&& self.state.triangle_start_at == other.state.triangle_start_at
        &&& self.state.power_equal_start_at == other.state.power_equal_start_at
        &&& self.state.main_road_start_at == other.state.main_road_start_at
        &&& self.state.repeats == other.state.repeats
    }

    /// The counts of a sound board fit.
    pub proof fn lemma_fits(&self)
        requires
            self.shape(),
        ensures
            self.state.fits(),
    {
        lemma_census_bounds(self.cells@, Color::Black, false);
        lemma_census_bounds(self.cells@, Color::Black, true);
        lemma_census_bounds(self.cells@, Color::White, false);
        lemma_census_bounds(self.cells@, Color::White, true);
    }

    /// An empty board on the given geometry, with no side to move.
    pub fn new(environment: Arc<PositionEnvironment>) -> (pos: Position)
        requires
            environment.wf(),
            environment.cell_count() <= MAX_CELLS,
        ensures
            pos.shape(),
            pos.environment == environment,
            pos.cells@.len() == environment.cell_count(),
            forall|i: int| 0 <= i < pos.cells@.len() ==> (#[trigger] pos.cells@[i]).is_none(),
            pos.state == PosState::empty(),
            pos.next_move.is_none(),
            pos.move_list.is_none(),
            pos.eval.is_none(),
            pos.took_pieces@.len() == 0,
    {
        let n = environment.vectors_map.len();
        let cells = empty_cells(n);
        proof {
            lemma_census_empty(cells@, Color::Black, false);
            lemma_census_empty(cells@, Color::Black, true);
            lemma_census_empty(cells@, Color::White, false);
            lemma_census_empty(cells@, Color::White, true);
        }
        Position {
            state: PosState {
                black: PieceCount { king: 0, simple: 0 },
                white: PieceCount { king: 0, simple: 0 },
                kings_start_at: None,
                kings_only_move_start_at: None,
                triangle_start_at: None,
                power_equal_start_at: None,
                main_road_start_at: None,
                repeats: 0,
            },
            cells,
            environment,
            next_move: None,
            move_list: None,
            eval: None,
            took_pieces: Vec::new(),
        }
    }

    /// Moves one count of the side of `piece` by `sign`.
    fn state_change(&mut self, piece: &Piece, sign: i32)
        requires
            sign == 1 || sign == -1,
            old(self).state.fits(),
            sign == -1 ==> (if piece.is_king {
                old(self).state.count_of(piece.color).king
            } else {
                old(self).state.count_of(piece.color).simple
            }) > 0,
        ensures
            final(self).state == old(self).state.changed(piece.color, piece.is_king, sign as int),
            final(self).cells == old(self).cells,
            final(self).next_move == old(self).next_move,
            final(self).move_list == old(self).move_list,
            final(self).eval == old(self).eval,
            final(self).environment == old(self).environment,
            final(self).took_pieces == old(self).took_pieces,
    {
        let cnt = self.state.get_count(piece.color);
        if piece.is_king {
            cnt.king = (cnt.king as i32 + sign) as u32;
        } else {
            cnt.simple = (cnt.simple as i32 + sign) as u32;
        }
    }

    /// Turns a man of `color` into a king in the counts (`sign` 1), or a
    /// king into a man (`sign` -1).
    fn state_change_by_king_color(&mut self, color: Color, sign: i32)
        requires
            sign == 1 || sign == -1,
            old(self).state.fits(),
            sign == 1 ==> old(self).state.count_of(color).simple > 0,
            sign == -1 ==> old(self).state.count_of(color).king > 0,
        ensures
            final(self).state == old(self).state.changed(color, true, sign as int).changed(
                color,
                false,
                -sign as int,
            ),
            final(self).cells == old(self).cells,
            final(self).next_move == old(self).next_move,
            final(self).move_list == old(self).move_list,
            final(self).eval == old(self).eval,
            final(self).environment == old(self).environment,
            final(self).took_pieces == old(self).took_pieces,
    {
        let cnt = self.state.get_count(color);
        cnt.king = (cnt.king as i32 + sign) as u32;
        cnt.simple = (cnt.simple as i32 - sign) as u32;
    }

    /// Puts `piece` on the cell it names. A piece that stood there leaves
    /// the board and the counts.
    pub fn insert_piece(&mut self, piece: Piece)
        requires
            old(self).shape(),
            piece.pos < old(self).cells@.len(),
        ensures
            final(self).shape(),
            final(self).cells@ == old(self).cells@.update(piece.pos as int, Some(piece)),
            final(self).same_frame(old(self)),
            final(self).next_move == old(self).next_move,
            final(self).took_pieces == old(self).took_pieces,
            final(self).move_list.is_none(),
            final(self).eval.is_none(),
    {
        let pos = piece.pos;
        proof {
            self.lemma_fits();
            lemma_census_update(self.cells@, pos as int, None, Color::Black, false);
            lemma_census_update(self.cells@, pos as int, None, Color::Black, true);
            lemma_census_update(self.cells@, pos as int, None, Color::White, false);
            lemma_census_update(self.cells@, pos as int, None, Color::White, true);
            lemma_census_counts(self.cells@, pos as int, Color::Black, false);
            lemma_census_counts(self.cells@, pos as int, Color::Black, true);
            lemma_census_counts(self.cells@, pos as int, Color::White, false);
            lemma_census_counts(self.cells@, pos as int, Color::White, true);
        }
        match self.cells[pos] {
            Some(gone) => {
                self.state_change(&gone, -1);
            },
            None => {},
        }
        self.cells.set(pos, None);
        proof {
            lemma_census_update(self.cells@, pos as int, Some(piece), Color::Black, false);
            lemma_census_update(self.cells@, pos as int, Some(piece), Color::Black, true);
            lemma_census_update(self.cells@, pos as int, Some(piece), Color::White, false);
            lemma_census_update(self.cells@, pos as int, Some(piece), Color::White, true);
            lemma_census_bounds(self.cells@, Color::Black, false);
            lemma_census_bounds(self.cells@, Color::Black, true);
            lemma_census_bounds(self.cells@, Color::White, false);
            lemma_census_bounds(self.cells@, Color::White, true);
            lemma_census_bounds(self.cells@.update(pos as int, Some(piece)), Color::Black, false);
            lemma_census_bounds(self.cells@.update(pos as int, Some(piece)), Color::Black, true);
            lemma_census_bounds(self.cells@.update(pos as int, Some(piece)), Color::White, false);
            lemma_census_bounds(self.cells@.update(pos as int, Some(piece)), Color::White, true);
        }
        self.state_change(&piece, 1);
        self.cells.set(pos, Some(piece));
        self.move_list = None;
        self.eval = None;
        assert(self.cells@ =~= old(self).cells@.update(piece.pos as int, Some(piece)));
    }

    /// Empties cell `pos`. Returns whether a piece stood there.
    pub fn remove_piece(&mut self, pos: BoardPos) -> (r: bool)
        requires
            old(self).shape(),
            pos < old(self).cells@.len(),
        ensures
            final(self).shape(),
            r == old(self).cells@[pos as int].is_some(),
            final(self).cells@ == old(self).cells@.update(pos as int, None),
            final(self).same_frame(old(self)),
            final(self).next_move == old(self).next_move,
            final(self).took_pieces == old(self).took_pieces,
            r ==> final(self).move_list.is_none() && final(self).eval.is_none(),
            !r ==> final(self).move_list == old(self).move_list && final(self).eval == old(self).eval
                && final(self).cells@ == old(self).cells@,
    {
        proof {
            self.lemma_fits();
            lemma_census_update(self.cells@, pos as int, None, Color::Black, false);
            lemma_census_update(self.cells@, pos as int, None, Color::Black, true);
            lemma_census_update(self.cells@, pos as int, None, Color::White, false);
            lemma_census_update(self.cells@, pos as int, None, Color::White, true);
            lemma_census_counts(self.cells@, pos as int, Color::Black, false);
            lemma_census_counts(self.cells@, pos as int, Color::Black, true);
            lemma_census_counts(self.cells@, pos as int, Color::White, false);
            lemma_census_counts(self.cells@, pos as int, Color::White, true);
        }
        match self.cells[pos] {
            Some(piece) => {
                self.state_change(&piece, -1);
                self.cells.set(pos, None);
                self.move_list = None;
                self.eval = None;
                true
            },
            None => {
                assert(self.cells@ =~= old(self).cells@.update(pos as int, None));
                false
            },
        }
    }

    /// The piece on cell `pos`.
    pub fn get_piece_in_pos(&self, pos: BoardPos) -> (r: &Piece)
        requires
            pos < self.cells@.len(),
            self.cells@[pos as int].is_some(),
        ensures
            *r == self.cells@[pos as int].unwrap(),
    {
        self.cells[pos].as_ref().unwrap()
    }

    /// Takes one step on the board: the contents of `from` and `to` change
    /// places, the piece on `take` is marked as jumped over, and with `king`
    /// the piece that arrived is crowned.
    pub fn make_strike_or_move(&mut self, from: BoardPos, to: BoardPos, take: Option<BoardPos>, king: bool)
        requires
            old(self).shape(),
            step_ok(old(self).cells@, from, to, take, king),
        ensures
            final(self).shape(),
            final(self).cells@ == step_cells(old(self).cells@, from, to, take, king),
            final(self).same_frame(old(self)),
            final(self).next_move == old(self).next_move,
            final(self).move_list == old(self).move_list,
            final(self).eval == old(self).eval,
            final(self).took_pieces == old(self).took_pieces,
    {
        proof {
            self.lemma_fits();
            lemma_step_undone(self.cells@, from, to, take, king);
            lemma_step_census(self.cells@, from, to, take, king, Color::Black, false);
            lemma_step_census(self.cells@, from, to, take, king, Color::Black, true);
            lemma_step_census(self.cells@, from, to, take, king, Color::White, false);
            lemma_step_census(self.cells@, from, to, take, king, Color::White, true);
            lemma_census_counts(self.cells@, from as int, Color::Black, false);
            lemma_census_counts(self.cells@, from as int, Color::White, false);
            let after = step_cells(self.cells@, from, to, take, king);
            lemma_census_bounds(after, Color::Black, true);
            lemma_census_bounds(after, Color::White, true);
        }
        self.swap(from, to);
        match take {
            Some(t) => {
                match self.cells[t] {
                    Some(p) => {
                        self.cells.set(
                            t,
                            Some(Piece { pos: p.pos, color: p.color, is_king: p.is_king, stricken: true }),
                        );
                    },
                    None => {},
                }
            },
            None => {},
        }
        if king {
            let p = self.cells[to].unwrap();
            self.cells.set(to, Some(Piece { pos: p.pos, color: p.color, is_king: true, stricken: p.stricken }));
            self.state_change_by_king_color(p.color, 1);
        }
    }

    /// Takes a step back.
    pub fn unmake_strike_or_move(&mut self, from: BoardPos, to: BoardPos, take: Option<BoardPos>, king: bool)
        requires
            old(self).shape(),
            unstep_ok(old(self).cells@, from, to, take, king),
        ensures
            final(self).shape(),
            final(self).cells@ == unstep_cells(old(self).cells@, from, to, take, king),
            final(self).same_frame(old(self)),
            final(self).next_move == old(self).next_move,
            final(self).move_list == old(self).move_list,
            final(self).eval == old(self).eval,
            final(self).took_pieces == old(self).took_pieces,
    {
        proof {
            self.lemma_fits();
            lemma_unstep_census(self.cells@, from, to, take, king, Color::Black, false);
            lemma_unstep_census(self.cells@, from, to, take, king, Color::Black, true);
            lemma_unstep_census(self.cells@, from, to, take, king, Color::White, false);
            lemma_unstep_census(self.cells@, from, to, take, king, Color::White, true);
            lemma_census_counts(self.cells@, to as int, Color::Black, true);
            lemma_census_counts(self.cells@, to as int, Color::White, true);
            let after = unstep_cells(self.cells@, from, to, take, king);
            lemma_census_bounds(after, Color::Black, false);
            lemma_census_bounds(after, Color::White, false);
        }
        self.swap(from, to);
        match take {
            Some(t) => {
                match self.cells[t] {
                    Some(p) => {
                        self.cells.set(
                            t,
                            Some(Piece { pos: p.pos, color: p.color, is_king: p.is_king, stricken: false }),
                        );
                    },
                    None => {},
                }
            },
            None => {},
        }
        if king {
            let p = self.cells[from].unwrap();
            self.cells.set(
                from,
                Some(Piece { pos: p.pos, color: p.color, is_king: false, stricken: p.stricken }),
            );
            self.state_change_by_king_color(p.color, -1);
        }
    }

    /// The position after `m`: the board as the move leaves it, the captured
    /// pieces in the buffer, the other side to move, and nothing kept of
    /// earlier computations.
    pub open spec fn made_by(&self, before: &Position, m: MoveItemView) -> bool {
        &&& self.cells@ == made_cells(before.cells@, m)
        &&& self.took_pieces@ == made_buffer(before.cells@, before.took_pieces@, m)
        &&& self.next_move == flipped(before.next_move)
        &&& self.same_frame(before)
        &&& self.move_list.is_none()
        &&& self.eval.is_none()
    }

    /// The position is the one that `m` leads to from `before`, whatever it
    /// keeps of computations made since: the board as the move leaves it,
    /// the pieces a capture chain took in the buffer, the other side to
    /// move.
    pub open spec fn reached_by(&self, before: &Position, m: MoveItemView) -> bool {
        &&& self.cells@ == made_cells(before.cells@, m)
        &&& m.mov.is_none() && m.strike.is_some() ==> self.took_pieces@ == taken(
            before.cells@,
            takes_of(m.strike.unwrap()),
        )
        &&& self.next_move == flipped(before.next_move)
        &&& self.same_frame(before)
    }

    /// Makes a move: a quiet move takes its step; a capture chain moves the
    /// captured pieces from the board to the buffer, in the order of its
    /// jumps, and takes one step from its first cell to its last. Then the
    /// other side is to move.
    pub fn make_move(&mut self, move_item: &MoveItem)
        requires
            old(self).shape(),
            applicable(old(self).cells@, move_item@),
        ensures
            final(self).shape(),
            final(self).made_by(old(self), move_item@),
    {
        proof {
            lemma_move_undone(self.cells@, self.took_pieces@, move_item@);
        }
        if let Some(mov) = &move_item.mov {
            self.make_strike_or_move(mov.from, mov.to, None, mov.king_move);
        } else if let Some(strike) = &move_item.strike {
            let n = strike.vec.len();
            self.took_pieces = empty_cells(n);
            let ghost takes = takes_of(strike@);
            let ghost start = self.cells@;
            let mut i: usize = 0;
            while i < n
                invariant
                    n == strike.vec@.len(),
                    takes == takes_of(strike@),
                    start == old(self).cells@,
                    applicable(start, move_item@),
                    move_item.mov.is_none(),
                    move_item.strike == Some(*strike),
                    i <= n,
                    self.took_pieces@.len() == n,
                    forall|k: int| 0 <= k < i ==> (#[trigger] self.took_pieces@[k]) == start[takes[k] as int],
                    self.cells@ == lifted(start, takes.take(i as int)),
                    self.cells@.len() == start.len(),
                    self.cells@.len() <= MAX_CELLS,
                    self.state.counts(self.cells@),
                    self.same_frame(old(self)),
                    self.next_move == old(self).next_move,
                decreases n - i,
            {
                let t = strike.vec[i].take;
                assert(takes[i as int] == t);
                proof {
                    lemma_lifted(start, takes.take(i as int), t as int);
                    assert(forall|k: int| 0 <= k < i ==> takes.take(i as int)[k] == takes[k]);
                    assert(self.cells@[t as int] == start[t as int]);
                    assert(takes.take(i + 1).drop_last() =~= takes.take(i as int));
                    lemma_census_bounds(self.cells@, Color::Black, false);
                    lemma_census_bounds(self.cells@, Color::Black, true);
                    lemma_census_bounds(self.cells@, Color::White, false);
                    lemma_census_bounds(self.cells@, Color::White, true);
                    lemma_census_update(self.cells@, t as int, None, Color::Black, false);
                    lemma_census_update(self.cells@, t as int, None, Color::Black, true);
                    lemma_census_update(self.cells@, t as int, None, Color::White, false);
                    lemma_census_update(self.cells@, t as int, None, Color::White, true);
                    lemma_census_counts(self.cells@, t as int, Color::Black, false);
                    lemma_census_counts(self.cells@, t as int, Color::Black, true);
                    lemma_census_counts(self.cells@, t as int, Color::White, false);
                    lemma_census_counts(self.cells@, t as int, Color::White, true);
                }
                let piece = self.cells[t];
                self.took_pieces.set(i, piece);
                self.cells.set(t, None);
                self.state_change(&piece.unwrap(), -1);
                i += 1;
            }
            proof {
                assert(takes.take(n as int) =~= takes);
                assert(self.took_pieces@ =~= taken(start, takes));
                assert forall|c: int| 0 <= c < start.len() implies (#[trigger] self.cells@[c])
                    == if exists|k: int| 0 <= k < takes.len() && takes[k] == c {
                    None
                } else {
                    start[c]
                } by {
                    lemma_lifted(start, takes, c);
                }
                assert(cells_wf(self.cells@));
            }
            self.make_strike_or_move(strike.vec[0].from, strike.vec[n - 1].to, None, strike.king_move);
        }
        if let Some(color) = self.next_move {
            self.next_move = Some(color.inverse());
        }
        self.move_list = None;
        self.eval = None;
    }

    /// The position after `m` is taken back: the board as before the move,
    /// the buffer emptied of the pieces put back, the other side to move,
    /// and nothing kept of earlier computations.
    pub open spec fn unmade_by(&self, before: &Position, m: MoveItemView) -> bool {
        &&& self.cells@ == unmade_cells(before.cells@, before.took_pieces@, m)
        &&& self.took_pieces@.len() == before.took_pieces@.len()
        &&& self.next_move == flipped(before.next_move)
        &&& self.same_frame(before)
        &&& self.move_list.is_none()
        &&& self.eval.is_none()
    }

    /// Takes back the move made last: a capture chain first puts the pieces
    /// of the buffer back on the cells it had emptied.
    pub fn unmake_move(&mut self, move_item: &MoveItem)
        requires
            old(self).shape(),
            unmakeable(old(self).cells@, old(self).took_pieces@, move_item@),
        ensures
            final(self).shape(),
            final(self).unmade_by(old(self), move_item@),
    {
        if let Some(mov) = &move_item.mov {
            self.unmake_strike_or_move(mov.from, mov.to, None, mov.king_move);
        } else if let Some(strike) = &move_item.strike {
            let n = strike.vec.len();
            let ghost takes = takes_of(strike@);
            let ghost start = self.cells@;
            let ghost buffer = self.took_pieces@;
            let mut i: usize = 0;
            while i < n
                invariant
                    n == strike.vec@.len(),
                    takes == takes_of(strike@),
                    start == old(self).cells@,
                    buffer == old(self).took_pieces@,
                    unmakeable(start, buffer, move_item@),
                    move_item.mov.is_none(),
                    move_item.strike == Some(*strike),
                    i <= n,
                    self.took_pieces@.len() == buffer.len(),
                    forall|k: int| i <= k < buffer.len() ==> (#[trigger] self.took_pieces@[k]) == buffer[k],
                    self.cells@ == put_back(start, takes.take(i as int), buffer.take(i as int)),
                    self.cells@.len() == start.len(),
                    self.cells@.len() <= MAX_CELLS,
                    forall|c: int| 0 <= c < start.len() ==> (#[trigger] self.cells@[c]) == if exists|
                        k: int,
                    | 0 <= k < i && takes[k] == c {
                        Some(Piece { pos: c as usize, ..self.cells@[c].unwrap() })
                    } else {
                        start[c]
                    },
                    self.state.counts(self.cells@),
                    self.same_frame(old(self)),
                    self.next_move == old(self).next_move,
                decreases n - i,
            {
                let t = strike.vec[i].take;
                assert(takes[i as int] == t);
                let piece = self.took_pieces[i];
                proof {
                    assert(takes.take(i + 1).drop_last() =~= takes.take(i as int));
                    assert(buffer.take(i + 1).drop_last() =~= buffer.take(i as int));
                    assert(self.cells@[t as int].is_none());
                    lemma_census_bounds(self.cells@.update(t as int, piece), Color::Black, false);
                    lemma_census_bounds(self.cells@.update(t as int, piece), Color::Black, true);
                    lemma_census_bounds(self.cells@.update(t as int, piece), Color::White, false);
                    lemma_census_bounds(self.cells@.update(t as int, piece), Color::White, true);
                    lemma_census_update(self.cells@, t as int, piece, Color::Black, false);
                    lemma_census_update(self.cells@, t as int, piece, Color::Black, true);
                    lemma_census_update(self.cells@, t as int, piece, Color::White, false);
                    lemma_census_update(self.cells@, t as int, piece, Color::White, true);
                    lemma_census_bounds(self.cells@, Color::Black, false);
                    lemma_census_bounds(self.cells@, Color::Black, true);
                    lemma_census_bounds(self.cells@, Color::White, false);
                    lemma_census_bounds(self.cells@, Color::White, true);
                }
                self.state_change(&piece.unwrap(), 1);
                let hole = self.cells[t];
                self.took_pieces.set(i, hole);
                self.cells.set(t, piece);
                i += 1;
            }
            proof {
                assert(takes.take(n as int) =~= takes);
                assert(buffer.take(n as int) =~= buffer.take(takes.len() as int));
                lemma_put_back_prefix(start, takes, buffer);
                assert(cells_wf(self.cells@)) by {
                    assert forall|c: int| 0 <= c < self.cells@.len() implies match #[trigger] self.cells@[c] {
                        Some(p) => p.pos == c,
                        None => true,
                    } by {}
                }
            }
            self.unmake_strike_or_move(strike.vec[0].from, strike.vec[n - 1].to, None, strike.king_move);
        }
        if let Some(color) = self.next_move {
            self.next_move = Some(color.inverse());
        }
        self.move_list = None;
        self.eval = None;
    }

    /// Exchanges the contents of cells `i` and `j`.
    pub fn swap(&mut self, i: BoardPos, j: BoardPos)
        requires
            i < old(self).cells@.len(),
            j < old(self).cells@.len(),
        ensures
            final(self).cells@ == swapped(old(self).cells@, i, j),
            final(self).state == old(self).state,
            final(self).next_move == old(self).next_move,
            final(self).move_list == old(self).move_list,
            final(self).eval == old(self).eval,
            final(self).environment == old(self).environment,
            final(self).took_pieces == old(self).took_pieces,
    {
        let a = self.cells[i];
        let b = self.cells[j];
        let at_i = match b {
            Some(p) => Some(Piece { pos: i, color: p.color, is_king: p.is_king, stricken: p.stricken }),
            None => None,
        };
        let at_j = match a {
            Some(p) => Some(Piece { pos: j, color: p.color, is_king: p.is_king, stricken: p.stricken }),
            None => None,
        };
        self.cells.set(i, at_i);
        self.cells.set(j, at_j);
    }
}

} // verus!
