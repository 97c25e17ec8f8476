use vstd::prelude::*;
use crate::color::Color;
use crate::moves::BoardPos;
use crate::moves_list::{MoveItemView, StrikeView};
use crate::piece::Piece;

verus! {

/// The cells of a board as a mathematical sequence: one slot per playable
/// square, empty or holding a piece.
pub type Cells = Seq<Option<Piece>>;

/// Every piece knows the cell it stands on.
pub open spec fn cells_wf(cells: Cells) -> bool {
    forall|i: int| 0 <= i < cells.len() ==> match #[trigger] cells[i] {
        Some(p) => p.pos == i,
        None => true,
    }
}

/// 1 if `cell` holds a piece of the given colour and rank, else 0.
pub open spec fn counts_as(cell: Option<Piece>, color: Color, king: bool) -> int {
    match cell {
        Some(p) => if p.color == color && p.is_king == king { 1 } else { 0 },
        None => 0,
    }
}

/// The number of pieces of the given colour and rank on the board.
pub open spec fn census(cells: Cells, color: Color, king: bool) -> int
    decreases cells.len(),
{
    if cells.len() == 0 {
        0
    } else {
        census(cells.drop_last(), color, king) + counts_as(cells.last(), color, king)
    }
}

/// The census lies between 0 and the number of cells.
pub proof fn lemma_census_bounds(cells: Cells, color: Color, king: bool)
    ensures
        0 <= census(cells, color, king) <= cells.len(),
    decreases cells.len(),
{
    if cells.len() > 0 {
        lemma_census_bounds(cells.drop_last(), color, king);
    }
}

/// Replacing one cell changes the census by what the new content counts
/// less what the old content counted.
pub proof fn lemma_census_update(cells: Cells, i: int, v: Option<Piece>, color: Color, king: bool)
    requires
        0 <= i < cells.len(),
    ensures
        census(cells.update(i, v), color, king) == census(cells, color, king) - counts_as(
            cells[i],
            color,
            king,
        ) + counts_as(v, color, king),
    decreases cells.len(),
{
    let after = cells.update(i, v);
    if i == cells.len() - 1 {
        assert(after.drop_last() =~= cells.drop_last());
    } else {
        lemma_census_update(cells.drop_last(), i, v, color, king);
        assert(after.drop_last() =~= cells.drop_last().update(i, v));
    }
}

/// A piece on the board is counted.
pub proof fn lemma_census_counts(cells: Cells, i: int, color: Color, king: bool)
    requires
        0 <= i < cells.len(),
    ensures
        census(cells, color, king) >= counts_as(cells[i], color, king),
    decreases cells.len(),
{
    if i == cells.len() - 1 {
        lemma_census_bounds(cells.drop_last(), color, king);
    } else {
        lemma_census_counts(cells.drop_last(), i, color, king);
    }
}

/// The content of a cell once it stands on `pos`.
pub open spec fn relocated(cell: Option<Piece>, pos: BoardPos) -> Option<Piece> {
    match cell {
        Some(p) => Some(Piece { pos, ..p }),
        None => None,
    }
}

/// The board with the contents of cells `i` and `j` exchanged.
pub open spec fn swapped(cells: Cells, i: BoardPos, j: BoardPos) -> Cells {
    cells.update(i as int, relocated(cells[j as int], i)).update(
        j as int,
        relocated(cells[i as int], j),
    )
}

/// The board with the piece on `take`, if there is one, marked or unmarked
/// as jumped over.
pub open spec fn with_stricken(cells: Cells, take: Option<BoardPos>, val: bool) -> Cells {
    match take {
        Some(t) => match cells[t as int] {
            Some(p) => cells.update(t as int, Some(Piece { stricken: val, ..p })),
            None => cells,
        },
        None => cells,
    }
}

/// The board with the rank of the piece on `at` set.
pub open spec fn with_rank(cells: Cells, at: BoardPos, king: bool) -> Cells {
    cells.update(at as int, Some(Piece { is_king: king, ..cells[at as int].unwrap() }))
}

/// The board after one step: the contents of `from` and `to` change places,
/// the piece on `take` is marked as jumped over, and with `king` the piece
/// that arrived on `to` is crowned.
pub open spec fn step_cells(
    cells: Cells,
    from: BoardPos,
    to: BoardPos,
    take: Option<BoardPos>,
    king: bool,
) -> Cells {
    let a = swapped(cells, from, to);
    let b = with_stricken(a, take, true);
    if king {
        with_rank(b, to, true)
    } else {
        b
    }
}

/// The board after a step is taken back.
pub open spec fn unstep_cells(
    cells: Cells,
    from: BoardPos,
    to: BoardPos,
    take: Option<BoardPos>,
    king: bool,
) -> Cells {
    let a = swapped(cells, from, to);
    let b = with_stricken(a, take, false);
    if king {
        with_rank(b, from, false)
    } else {
        b
    }
}

/// What a step needs to be taken back exactly: a piece stands on `from`,
/// `to` is empty or is `from` itself, the piece on `take` is an unmarked piece elsewhere, and a
/// step that crowns moves a man.
pub open spec fn step_ok(
    cells: Cells,
    from: BoardPos,
    to: BoardPos,
    take: Option<BoardPos>,
    king: bool,
) -> bool {
    &&& from < cells.len()
    &&& to < cells.len()
    &&& cells[from as int].is_some()
    &&& (to == from || cells[to as int].is_none())
    &&& king ==> !cells[from as int].unwrap().is_king
    &&& match take {
        Some(t) => {
            &&& t < cells.len()
            &&& t != from
            &&& t != to
            &&& cells[t as int].is_some()
            &&& !cells[t as int].unwrap().stricken
        },
        None => true,
    }
}

/// Taking back a step restores the board.
pub proof fn lemma_step_undone(
    cells: Cells,
    from: BoardPos,
    to: BoardPos,
    take: Option<BoardPos>,
    king: bool,
)
    requires
        cells_wf(cells),
        step_ok(cells, from, to, take, king),
    ensures
        unstep_cells(step_cells(cells, from, to, take, king), from, to, take, king) == cells,
        cells_wf(step_cells(cells, from, to, take, king)),
        step_cells(cells, from, to, take, king).len() == cells.len(),
{
    let stepped = step_cells(cells, from, to, take, king);
    let back = unstep_cells(stepped, from, to, take, king);
    assert(back =~= cells);
}

/// A step keeps every census but, when it crowns, those of the mover's
/// colour: one man fewer, one king more.
pub proof fn lemma_step_census(
    cells: Cells,
    from: BoardPos,
    to: BoardPos,
    take: Option<BoardPos>,
    king: bool,
    color: Color,
    rank: bool,
)
    requires
        step_ok(cells, from, to, take, king),
    ensures
        census(step_cells(cells, from, to, take, king), color, rank) == census(cells, color, rank)
            + if king && cells[from as int].unwrap().color == color {
            if rank { 1int } else { -1int }
        } else {
            0int
        },
{
    let a1 = cells.update(from as int, relocated(cells[to as int], from));
    lemma_census_update(cells, from as int, relocated(cells[to as int], from), color, rank);
    let a = swapped(cells, from, to);
    lemma_census_update(a1, to as int, relocated(cells[from as int], to), color, rank);
    let b = with_stricken(a, take, true);
    match take {
        Some(t) => {
            let p = a[t as int].unwrap();
            lemma_census_update(a, t as int, Some(Piece { stricken: true, ..p }), color, rank);
        },
        None => {},
    }
    if king {
        lemma_census_update(
            b,
            to as int,
            Some(Piece { is_king: true, ..b[to as int].unwrap() }),
            color,
            rank,
        );
    }
}

/// What taking back a step needs: a piece stands on `to`, `from` is empty
/// or is `to` itself, a piece stands on `take`, which is neither, and a step
/// that crowned left a king.
pub open spec fn unstep_ok(
    cells: Cells,
    from: BoardPos,
    to: BoardPos,
    take: Option<BoardPos>,
    king: bool,
) -> bool {
    &&& from < cells.len()
    &&& to < cells.len()
    &&& cells[to as int].is_some()
    &&& (to == from || cells[from as int].is_none())
    &&& king ==> cells[to as int].unwrap().is_king
    &&& match take {
        Some(t) => {
            &&& t < cells.len()
            &&& t != from
            &&& t != to
            &&& cells[t as int].is_some()
        },
        None => true,
    }
}

/// Taking back a step keeps every census but, when it uncrowns, those of
/// the mover's colour: one king fewer, one man more.
pub proof fn lemma_unstep_census(
    cells: Cells,
    from: BoardPos,
    to: BoardPos,
    take: Option<BoardPos>,
    king: bool,
    color: Color,
    rank: bool,
)
    requires
        unstep_ok(cells, from, to, take, king),
    ensures
        census(unstep_cells(cells, from, to, take, king), color, rank) == census(cells, color, rank)
            + if king && cells[to as int].unwrap().color == color {
            if rank { -1int } else { 1int }
        } else {
            0int
        },
        unstep_cells(cells, from, to, take, king).len() == cells.len(),
        cells_wf(cells) ==> cells_wf(unstep_cells(cells, from, to, take, king)),
{
    let a1 = cells.update(from as int, relocated(cells[to as int], from));
    lemma_census_update(cells, from as int, relocated(cells[to as int], from), color, rank);
    let a = swapped(cells, from, to);
    lemma_census_update(a1, to as int, relocated(cells[from as int], to), color, rank);
    let b = with_stricken(a, take, false);
    match take {
        Some(t) => {
            let p = a[t as int].unwrap();
            lemma_census_update(a, t as int, Some(Piece { stricken: false, ..p }), color, rank);
        },
        None => {},
    }
    if king {
        lemma_census_update(
            b,
            from as int,
            Some(Piece { is_king: false, ..b[from as int].unwrap() }),
            color,
            rank,
        );
    }
}

/// The cells that a capture chain empties, in the order of its jumps.
pub open spec fn takes_of(s: StrikeView) -> Seq<BoardPos> {
    Seq::new(s.vec.len(), |i: int| s.vec[i].take)
}

/// The board with the cells `takes` emptied.
pub open spec fn lifted(cells: Cells, takes: Seq<BoardPos>) -> Cells
    decreases takes.len(),
{
    if takes.len() == 0 {
        cells
    } else {
        lifted(cells, takes.drop_last()).update(takes.last() as int, None)
    }
}

/// What stood on the cells `takes`.
pub open spec fn taken(cells: Cells, takes: Seq<BoardPos>) -> Seq<Option<Piece>> {
    Seq::new(takes.len(), |i: int| cells[takes[i] as int])
}

/// The board with `pieces` put back on the cells `takes`.
pub open spec fn put_back(cells: Cells, takes: Seq<BoardPos>, pieces: Seq<Option<Piece>>) -> Cells
    decreases takes.len(),
{
    if takes.len() == 0 {
        cells
    } else {
        put_back(cells, takes.drop_last(), pieces.drop_last()).update(
            takes.last() as int,
            pieces[takes.len() - 1],
        )
    }
}

/// A cell of the board after lifting: empty if it was lifted, else as before.
pub proof fn lemma_lifted(cells: Cells, takes: Seq<BoardPos>, c: int)
    requires
        0 <= c < cells.len(),
        forall|i: int| 0 <= i < takes.len() ==> takes[i] < cells.len(),
    ensures
        lifted(cells, takes).len() == cells.len(),
        lifted(cells, takes)[c] == if exists|i: int| 0 <= i < takes.len() && takes[i] == c {
            None
        } else {
            cells[c]
        },
    decreases takes.len(),
{
    if takes.len() > 0 {
        let front = takes.drop_last();
        lemma_lifted(cells, front, c);
        if takes.last() == c {
            assert(takes[takes.len() - 1] == c);
        } else if exists|i: int| 0 <= i < takes.len() && takes[i] == c {
            let i = choose|i: int| 0 <= i < takes.len() && takes[i] == c;
            assert(front[i] == c);
        } else {
            assert forall|i: int| 0 <= i < front.len() implies front[i] != c by {
                assert(takes[i] == front[i]);
            }
        }
    }
}

/// A cell of the board after putting pieces back on distinct cells: the
/// piece put back if the cell is one of them, else as before.
pub proof fn lemma_put_back(cells: Cells, takes: Seq<BoardPos>, pieces: Seq<Option<Piece>>, c: int)
    requires
        0 <= c < cells.len(),
        pieces.len() == takes.len(),
        forall|i: int| 0 <= i < takes.len() ==> takes[i] < cells.len(),
        forall|i: int, j: int| 0 <= i < j < takes.len() ==> takes[i] != takes[j],
    ensures
        put_back(cells, takes, pieces).len() == cells.len(),
        forall|i: int| 0 <= i < takes.len() && takes[i] == c ==> put_back(cells, takes, pieces)[c]
            == pieces[i],
        (forall|i: int| 0 <= i < takes.len() ==> takes[i] != c) ==> put_back(cells, takes, pieces)[c]
            == cells[c],
    decreases takes.len(),
{
    if takes.len() > 0 {
        let front = takes.drop_last();
        lemma_put_back(cells, front, pieces.drop_last(), c);
        assert forall|i: int| 0 <= i < front.len() implies front[i] == takes[i] && pieces.drop_last()[i]
            == pieces[i] by {}
    }
}

/// Only as many pieces are put back as there are cells to put them on.
pub proof fn lemma_put_back_prefix(cells: Cells, takes: Seq<BoardPos>, pieces: Seq<Option<Piece>>)
    requires
        pieces.len() >= takes.len(),
    ensures
        put_back(cells, takes, pieces.take(takes.len() as int)) == put_back(cells, takes, pieces),
    decreases takes.len(),
{
    if takes.len() > 0 {
        let n = takes.len() as int;
        let short = pieces.take(n);
        lemma_put_back_prefix(cells, takes.drop_last(), short.drop_last());
        lemma_put_back_prefix(cells, takes.drop_last(), pieces.drop_last());
        assert(short.drop_last().take(n - 1) =~= pieces.drop_last().take(n - 1));
        assert(put_back(cells, takes.drop_last(), short.drop_last()) == put_back(
            cells,
            takes.drop_last(),
            pieces.drop_last(),
        ));
    }
}

/// What a capture chain needs to be made and taken back exactly on `cells`:
/// it has a jump; a piece stands on its first cell; its last cell is empty
/// or is the first; the cells it empties are distinct, occupied, and none of
/// them is its first or last cell; a chain that crowns moves a man.
pub open spec fn strike_applicable(cells: Cells, s: StrikeView) -> bool {
    let takes = takes_of(s);
    &&& s.vec.len() > 0
    &&& step_ok(cells, s.vec[0].from, s.vec.last().to, None, s.king_move)
    &&& forall|i: int| 0 <= i < takes.len() ==> {
        &&& (#[trigger] takes[i]) < cells.len()
        &&& cells[takes[i] as int].is_some()
        &&& takes[i] != s.vec[0].from
        &&& takes[i] != s.vec.last().to
    }
    &&& forall|i: int, j: int| 0 <= i < j < takes.len() ==> takes[i] != takes[j]
}

/// What a move needs to be made and taken back exactly on `cells`.
pub open spec fn applicable(cells: Cells, m: MoveItemView) -> bool {
    match m.mov {
        Some(q) => step_ok(cells, q.from, q.to, None, q.king_move),
        None => match m.strike {
            Some(s) => strike_applicable(cells, s),
            None => true,
        },
    }
}

/// The board after a move: a quiet move is one step; a capture chain
/// empties the cells it jumps over and then takes one step from its first
/// cell to its last.
pub open spec fn made_cells(cells: Cells, m: MoveItemView) -> Cells {
    match m.mov {
        Some(q) => step_cells(cells, q.from, q.to, None, q.king_move),
        None => match m.strike {
            Some(s) => step_cells(
                lifted(cells, takes_of(s)),
                s.vec[0].from,
                s.vec.last().to,
                None,
                s.king_move,
            ),
            None => cells,
        },
    }
}

/// The captured pieces a move leaves in the buffer; a quiet move leaves the
/// buffer `before` as it was.
pub open spec fn made_buffer(cells: Cells, before: Seq<Option<Piece>>, m: MoveItemView) -> Seq<
    Option<Piece>,
> {
    match m.mov {
        Some(q) => before,
        None => match m.strike {
            Some(s) => taken(cells, takes_of(s)),
            None => before,
        },
    }
}

/// The board after a move is taken back, with the captured pieces in
/// `buffer`.
pub open spec fn unmade_cells(cells: Cells, buffer: Seq<Option<Piece>>, m: MoveItemView) -> Cells {
    match m.mov {
        Some(q) => unstep_cells(cells, q.from, q.to, None, q.king_move),
        None => match m.strike {
            Some(s) => unstep_cells(
                put_back(cells, takes_of(s), buffer),
                s.vec[0].from,
                s.vec.last().to,
                None,
                s.king_move,
            ),
            None => cells,
        },
    }
}

/// What taking back a move needs on `cells` with the captured pieces in
/// `buffer`: the buffer holds a piece for every jump of a chain, each with
/// the cell it was taken from; those cells are distinct and empty; and the
/// step from the first cell to the last can be taken back.
pub open spec fn unmakeable(cells: Cells, buffer: Seq<Option<Piece>>, m: MoveItemView) -> bool {
    match m.mov {
        Some(q) => unstep_ok(cells, q.from, q.to, None, q.king_move),
        None => match m.strike {
            Some(s) => {
                let takes = takes_of(s);
                &&& s.vec.len() > 0
                &&& buffer.len() >= takes.len()
                &&& unstep_ok(cells, s.vec[0].from, s.vec.last().to, None, s.king_move)
                &&& forall|i: int| 0 <= i < takes.len() ==> {
                    &&& (#[trigger] takes[i]) < cells.len()
                    &&& cells[takes[i] as int].is_none()
                    &&& takes[i] != s.vec[0].from
                    &&& takes[i] != s.vec.last().to
                    &&& buffer[i].is_some()
                    &&& buffer[i].unwrap().pos == takes[i]
                }
                &&& forall|i: int, j: int| 0 <= i < j < takes.len() ==> takes[i] != takes[j]
            },
            None => true,
        },
    }
}

/// Making a move and taking it back restores every cell of the board.
pub proof fn lemma_move_undone(cells: Cells, before: Seq<Option<Piece>>, m: MoveItemView)
    requires
        cells_wf(cells),
        applicable(cells, m),
    ensures
        unmade_cells(made_cells(cells, m), made_buffer(cells, before, m), m) == cells,
        cells_wf(made_cells(cells, m)),
        made_cells(cells, m).len() == cells.len(),
        unmakeable(made_cells(cells, m), made_buffer(cells, before, m), m),
{
    match m.mov {
        Some(q) => {
            lemma_step_undone(cells, q.from, q.to, None, q.king_move);
        },
        None => match m.strike {
            Some(s) => {
                let takes = takes_of(s);
                let from = s.vec[0].from;
                let to = s.vec.last().to;
                let low = lifted(cells, takes);
                assert forall|c: int| 0 <= c < cells.len() implies (#[trigger] low[c]) == if exists|
                    i: int,
                | 0 <= i < takes.len() && takes[i] == c {
                    None
                } else {
                    cells[c]
                } by {
                    lemma_lifted(cells, takes, c);
                }
                lemma_lifted(cells, takes, 0);
                assert(cells_wf(low));
                assert(step_ok(low, from, to, None, s.king_move));
                lemma_step_undone(low, from, to, None, s.king_move);
                let high = step_cells(low, from, to, None, s.king_move);
                let buffer = taken(cells, takes);
                let back = put_back(high, takes, buffer);
                assert forall|c: int| 0 <= c < cells.len() implies (#[trigger] back[c]) == if exists|
                    i: int,
                | 0 <= i < takes.len() && takes[i] == c {
                    cells[c]
                } else {
                    high[c]
                } by {
                    lemma_put_back(high, takes, buffer, c);
                }
                lemma_put_back(high, takes, buffer, 0);
                let done = unstep_cells(back, from, to, None, s.king_move);
                assert(done =~= cells);
            },
            None => {},
        },
    }
}

} // verus!
