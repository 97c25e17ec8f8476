use vstd::prelude::*;
use crate::board::{step_cells, step_ok, Cells};
use crate::color::Color;
use crate::moves::{BoardPos, QuietMove, StraightStrikeView};
use crate::moves_list::{MoveItemView, StrikeView};
use crate::piece::Piece;
use crate::position_environment::PositionEnvironment;

verus! {

/// Whether a piece may leave along diagonal `dir`: a king, and any piece
/// that captures, along all four; a White man that does not capture up the
/// board (0, 1), a Black one down the board (2, 3); never along a banned
/// diagonal.
pub open spec fn ray_open(piece: Piece, dir: i8, ban: Seq<i8>, for_strike: bool) -> bool {
    &&& if piece.is_king || for_strike {
        0 <= dir < 4
    } else if piece.color == Color::White {
        dir == 0 || dir == 1
    } else {
        dir == 2 || dir == 3
    }
    &&& !ban.contains(dir)
}

/// The index of the first occupied cell among `pts[i..top]`, or `top` if
/// they are all empty.
pub open spec fn first_piece(cells: Cells, pts: Seq<BoardPos>, i: int, top: int) -> int
    decreases top - i,
{
    if i >= top {
        top
    } else if cells[pts[i] as int].is_some() {
        i
    } else {
        first_piece(cells, pts, i + 1, top)
    }
}

/// How far along a ray the piece on its first cell looks when it captures:
/// a king to the end, a man three cells.
pub open spec fn jump_reach(piece: Piece, pts: Seq<BoardPos>) -> int {
    if piece.is_king { pts.len() as int } else { 3 }
}

/// The jump that the piece on the first cell of ray `pts` has along it, if
/// any: the first piece it meets is an enemy not yet jumped over, and the
/// cell behind that piece is empty. The jump lands on that cell; `v` lists
/// all cells it may land on, the empty cells from there on within reach.
pub open spec fn jump_on(cells: Cells, env: &PositionEnvironment, pts: Seq<BoardPos>) -> Option<
    StraightStrikeView,
> {
    if pts.len() < 3 {
        None
    } else {
        match cells[pts[0] as int] {
            None => None,
            Some(piece) => {
                let top = jump_reach(piece, pts);
                let k = first_piece(cells, pts, 1, top - 1);
                if k < top - 1 {
                    let victim = cells[pts[k] as int].unwrap();
                    if cells[pts[k + 1] as int].is_none() && victim.color != piece.color
                        && !victim.stricken {
                        Some(
                            StraightStrikeView {
                                v: pts.subrange(k + 1, first_piece(cells, pts, k + 1, top)),
                                from: pts[0],
                                take: pts[k],
                                to: pts[k + 1],
                                king_move: env.king_move_for(piece, pts[k + 1]),
                            },
                        )
                    } else {
                        None
                    }
                } else {
                    None
                }
            },
        }
    }
}

/// Whether the piece on `pos` has a jump along a diagonal that is not
/// banned.
pub open spec fn can_jump(cells: Cells, env: &PositionEnvironment, pos: BoardPos, ban: Seq<i8>) -> bool {
    let rays = env.vectors_map@[pos as int]@;
    &&& cells[pos as int].is_some()
    &&& exists|k: int|
        0 <= k < rays.len() && ray_open(cells[pos as int].unwrap(), (#[trigger] rays[k]).direction, ban, true)
            && jump_on(cells, env, rays[k].points@).is_some()
}

/// Whether side `color` has a piece with a jump.
pub open spec fn has_capture(cells: Cells, env: &PositionEnvironment, color: Color) -> bool {
    exists|c: int|
        0 <= c < cells.len() && (#[trigger] cells[c]).is_some() && cells[c].unwrap().color == color
            && can_jump(cells, env, c as BoardPos, Seq::empty())
}

/// The number of pieces on the board that have not been jumped over.
pub open spec fn unstricken(cells: Cells) -> nat
    decreases cells.len(),
{
    if cells.len() == 0 {
        0
    } else {
        unstricken(cells.drop_last()) + match cells.last() {
            Some(p) => if p.stricken { 0nat } else { 1nat },
            None => 0nat,
        }
    }
}

/// 1 if the cell holds a piece that has not been jumped over, else 0.
pub open spec fn stands(cell: Option<Piece>) -> int {
    match cell {
        Some(p) => if p.stricken { 0 } else { 1 },
        None => 0,
    }
}

/// Replacing one cell changes the number of pieces not jumped over by what
/// the new content counts less what the old content counted.
pub proof fn lemma_unstricken_update(cells: Cells, i: int, v: Option<Piece>)
    requires
        0 <= i < cells.len(),
    ensures
        unstricken(cells.update(i, v)) == unstricken(cells) - stands(cells[i]) + stands(v),
    decreases cells.len(),
{
    let after = cells.update(i, v);
    if i == cells.len() - 1 {
        assert(after.drop_last() =~= cells.drop_last());
    } else {
        lemma_unstricken_update(cells.drop_last(), i, v);
        assert(after.drop_last() =~= cells.drop_last().update(i, v));
    }
}

/// A jump leaves one piece fewer that has not been jumped over.
pub proof fn lemma_jump_uses_up(cells: Cells, from: BoardPos, to: BoardPos, take: BoardPos, king: bool)
    requires
        step_ok(cells, from, to, Some(take), king),
    ensures
        unstricken(step_cells(cells, from, to, Some(take), king)) == unstricken(cells) - 1,
{
    let r1 = crate::board::relocated(cells[to as int], from);
    let a1 = cells.update(from as int, r1);
    lemma_unstricken_update(cells, from as int, r1);
    let r2 = crate::board::relocated(cells[from as int], to);
    let a = a1.update(to as int, r2);
    lemma_unstricken_update(a1, to as int, r2);
    let p = a[take as int].unwrap();
    let b = a.update(take as int, Some(Piece { stricken: true, ..p }));
    lemma_unstricken_update(a, take as int, Some(Piece { stricken: true, ..p }));
    if king {
        lemma_unstricken_update(b, to as int, Some(Piece { is_king: true, ..b[to as int].unwrap() }));
    }
}

/// The diagonals banned after a jump along `dir` that landed on the `l`-th
/// cell it could land on: the way back; and, unless every landing cell is
/// wanted (`for_front`), also the way on for every landing cell but the
/// first.
pub open spec fn ban_after(dir: i8, l: int, for_front: bool) -> Seq<i8> {
    let back = ((dir + 2) % 4) as i8;
    if !for_front && l >= 1 {
        seq![back, dir]
    } else {
        seq![back]
    }
}

/// The jump `ss` landing on the `l`-th cell it may land on.
pub open spec fn landing(ss: StraightStrikeView, l: int) -> StraightStrikeView {
    StraightStrikeView { to: ss.v[l], ..ss }
}

/// The chains that end with jump `ss`: `chain` with `ss` at its end, once
/// for each cell `ss` may land on, from the `l`-th on.
pub open spec fn stops(ss: StraightStrikeView, chain: StrikeView, l: int) -> Seq<MoveItemView>
    decreases ss.v.len() - l,
{
    if 0 <= l < ss.v.len() {
        seq![MoveItemView { strike: Some(chain.extended(landing(ss, l))), mov: None }] + stops(
            ss,
            chain,
            l + 1,
        )
    } else {
        Seq::empty()
    }
}

/// The capture chains that begin with `chain` and go on from the piece on
/// `pos` along a diagonal not in `ban`, each with all its jumps to the
/// point where no further jump exists.
pub open spec fn strikes_from(
    cells: Cells,
    env: &PositionEnvironment,
    pos: BoardPos,
    ban: Seq<i8>,
    for_front: bool,
    chain: StrikeView,
) -> Seq<MoveItemView>
    decreases unstricken(cells), 3int, 0int,
{
    if cells[pos as int].is_some() {
        strikes_on_rays(cells, env, pos, ban, for_front, chain, 0)
    } else {
        Seq::empty()
    }
}

/// The capture chains of [`strikes_from`] whose next jump is along the
/// `k`-th ray of `pos` or a later one.
pub open spec fn strikes_on_rays(
    cells: Cells,
    env: &PositionEnvironment,
    pos: BoardPos,
    ban: Seq<i8>,
    for_front: bool,
    chain: StrikeView,
    k: int,
) -> Seq<MoveItemView>
    decreases unstricken(cells), 2int, env.vectors_map@[pos as int]@.len() - k,
{
    let rays = env.vectors_map@[pos as int]@;
    if 0 <= k < rays.len() {
        let here = if ray_open(cells[pos as int].unwrap(), rays[k].direction, ban, true) {
            match jump_on(cells, env, rays[k].points@) {
                Some(ss) => strikes_on_jump(cells, env, ss, rays[k].direction, for_front, chain),
                None => Seq::empty(),
            }
        } else {
            Seq::empty()
        };
        here + strikes_on_rays(cells, env, pos, ban, for_front, chain, k + 1)
    } else {
        Seq::empty()
    }
}

/// The capture chains that begin with `chain` followed by jump `ss` along
/// diagonal `dir`: those that go on from a cell `ss` may land on, if there
/// are any; else those that end with `ss`.
pub open spec fn strikes_on_jump(
    cells: Cells,
    env: &PositionEnvironment,
    ss: StraightStrikeView,
    dir: i8,
    for_front: bool,
    chain: StrikeView,
) -> Seq<MoveItemView>
    decreases unstricken(cells), 1int, 0int,
{
    let deeper = strikes_beyond(cells, env, ss, dir, for_front, chain, 0);
    if deeper.len() > 0 {
        deeper
    } else {
        stops(ss, chain, 0)
    }
}

/// The capture chains that begin with `chain` followed by jump `ss` and
/// then go on from the `l`-th cell `ss` may land on, or from a later one.
pub open spec fn strikes_beyond(
    cells: Cells,
    env: &PositionEnvironment,
    ss: StraightStrikeView,
    dir: i8,
    for_front: bool,
    chain: StrikeView,
    l: int,
) -> Seq<MoveItemView>
    decreases unstricken(cells), 0int, ss.v.len() - l,
{
    if 0 <= l < ss.v.len() && step_ok(cells, ss.from, ss.v[l], Some(ss.take), ss.king_move) {
        let j = landing(ss, l);
        let after = step_cells(cells, j.from, j.to, Some(j.take), j.king_move);
        proof {
            lemma_jump_uses_up(cells, j.from, j.to, j.take, j.king_move);
        }
        strikes_from(after, env, j.to, ban_after(dir, l, for_front), for_front, chain.extended(j))
            + strikes_beyond(cells, env, ss, dir, for_front, chain, l + 1)
    } else {
        Seq::empty()
    }
}

/// How far along a ray the piece on its first cell looks when it does not
/// capture: a king to the end, a man to the next cell.
pub open spec fn quiet_reach(piece: Piece, pts: Seq<BoardPos>) -> int {
    if piece.is_king { pts.len() as int } else { 2 }
}

/// The quiet moves of `piece` along ray `pts`: to each cell from the second
/// up to the first occupied one or the end of its reach.
pub open spec fn quiet_on_ray(cells: Cells, env: &PositionEnvironment, piece: Piece, pts: Seq<BoardPos>) -> Seq<
    MoveItemView,
> {
    let end = first_piece(cells, pts, 1, quiet_reach(piece, pts));
    Seq::new(
        (end - 1) as nat,
        |i: int|
            MoveItemView {
                strike: None,
                mov: Some(
                    QuietMove {
                        from: piece.pos,
                        to: pts[i + 1],
                        king_move: env.king_move_for(piece, pts[i + 1]),
                    },
                ),
            },
    )
}

/// The quiet moves of the piece on `pos` along its `k`-th ray and the later
/// ones.
pub open spec fn quiet_on_rays(cells: Cells, env: &PositionEnvironment, pos: BoardPos, k: int) -> Seq<
    MoveItemView,
>
    decreases env.vectors_map@[pos as int]@.len() - k,
{
    let rays = env.vectors_map@[pos as int]@;
    if 0 <= k < rays.len() {
        let piece = cells[pos as int].unwrap();
        let here = if ray_open(piece, rays[k].direction, Seq::empty(), false) {
            quiet_on_ray(cells, env, piece, rays[k].points@)
        } else {
            Seq::empty()
        };
        here + quiet_on_rays(cells, env, pos, k + 1)
    } else {
        Seq::empty()
    }
}

/// The quiet moves of the piece on `pos`, if a piece stands there.
pub open spec fn quiet_from(cells: Cells, env: &PositionEnvironment, pos: BoardPos) -> Seq<MoveItemView> {
    if cells[pos as int].is_some() {
        quiet_on_rays(cells, env, pos, 0)
    } else {
        Seq::empty()
    }
}

/// The capture chains of the pieces of `color` on cells `c` and later.
pub open spec fn all_strikes(
    cells: Cells,
    env: &PositionEnvironment,
    color: Color,
    for_front: bool,
    c: int,
) -> Seq<MoveItemView>
    decreases cells.len() - c,
{
    if 0 <= c < cells.len() {
        let here = match cells[c] {
            Some(p) => if p.color == color {
                strikes_from(
                    cells,
                    env,
                    c as BoardPos,
                    Seq::empty(),
                    for_front,
                    StrikeView { vec: Seq::empty(), king_move: false },
                )
            } else {
                Seq::empty()
            },
            None => Seq::empty(),
        };
        here + all_strikes(cells, env, color, for_front, c + 1)
    } else {
        Seq::empty()
    }
}

/// The quiet moves of the pieces of `color` on cells `c` and later.
pub open spec fn all_quiet(cells: Cells, env: &PositionEnvironment, color: Color, c: int) -> Seq<
    MoveItemView,
>
    decreases cells.len() - c,
{
    if 0 <= c < cells.len() {
        let here = match cells[c] {
            Some(p) => if p.color == color {
                quiet_from(cells, env, c as BoardPos)
            } else {
                Seq::empty()
            },
            None => Seq::empty(),
        };
        here + all_quiet(cells, env, color, c + 1)
    } else {
        Seq::empty()
    }
}

/// The legal moves of side `color`: its capture chains if it has any, for
/// capturing is mandatory; else its quiet moves. Pieces are taken in the
/// order of their cells, rays in the order of their directions.
pub open spec fn legal_moves(cells: Cells, env: &PositionEnvironment, color: Color, for_front: bool) -> Seq<
    MoveItemView,
> {
    let strikes = all_strikes(cells, env, color, for_front, 0);
    if strikes.len() > 0 {
        strikes
    } else {
        all_quiet(cells, env, color, 0)
    }
}

} // verus!
