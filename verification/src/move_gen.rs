use vstd::prelude::*;
use crate::board::{applicable, lemma_step_undone, step_cells, step_ok, strike_applicable, takes_of, Cells};
use crate::color::Color;
use crate::moves::{BoardPos, QuietMove, StraightStrike, StraightStrikeView};
use crate::moves_list::{jumps_view, MoveItem, MoveItemView, MoveList, Strike, StrikeView};
use crate::piece::Piece;
use crate::position::Position;
use crate::position_environment::PositionEnvironment;
use crate::rules::{
    all_quiet, all_strikes, ban_after, can_jump, first_piece, has_capture, jump_on, jump_reach, landing,
    legal_moves, quiet_from, quiet_on_ray, quiet_on_rays, quiet_reach, ray_open, stops, strikes_beyond,
    strikes_from, strikes_on_jump, strikes_on_rays, unstricken,
};

verus! {

/// Whether `dir` is among the banned directions.
fn banned(ban: &Vec<i8>, dir: i8) -> (r: bool)
    ensures
        r == ban@.contains(dir),
{
    let mut i: usize = 0;
    while i < ban.len()
        invariant
            i <= ban@.len(),
            forall|k: int| 0 <= k < i ==> ban@[k] != dir,
        decreases ban@.len() - i,
    {
        if ban[i] == dir {
            return true;
        }
        i += 1;
    }
    false
}

/// Whether a piece may leave along diagonal `dir`.
fn direction_open(piece: &Piece, dir: i8, ban: &Vec<i8>, for_strike: bool) -> (r: bool)
    ensures
        r == ray_open(*piece, dir, ban@, for_strike),
{
    let side = if piece.is_king || for_strike {
        0 <= dir && dir < 4
    } else if piece.color == Color::White {
        dir == 0 || dir == 1
    } else {
        dir == 2 || dir == 3
    };
    side && !banned(ban, dir)
}

/// The first occupied cell among `pts[a..top]` lies in that range, and the
/// cells before it are empty.
pub proof fn lemma_first_piece(cells: Cells, pts: Seq<BoardPos>, a: int, top: int)
    requires
        a <= top,
    ensures
        a <= first_piece(cells, pts, a, top) <= top,
        forall|i: int| a <= i < first_piece(cells, pts, a, top) ==> cells[(#[trigger] pts[i]) as int].is_none(),
        first_piece(cells, pts, a, top) < top ==> cells[pts[first_piece(cells, pts, a, top)] as int].is_some(),
    decreases top - a,
{
    if a < top && cells[pts[a] as int].is_none() {
        lemma_first_piece(cells, pts, a + 1, top);
    }
}

/// What makes a jump one that can be made on `cells`: it may land on at
/// least one cell, and it can be taken as a step to each of them.
pub open spec fn jump_fits(cells: Cells, ss: StraightStrikeView) -> bool {
    &&& ss.v.len() > 0
    &&& ss.to == ss.v[0]
    &&& forall|l: int| 0 <= l < ss.v.len() ==> {
        &&& step_ok(cells, ss.from, #[trigger] ss.v[l], Some(ss.take), ss.king_move)
        &&& cells[ss.v[l] as int].is_none()
    }
}

/// The jump found along a ray can be made.
pub proof fn lemma_jump_fits(cells: Cells, env: &PositionEnvironment, pts: Seq<BoardPos>)
    requires
        jump_on(cells, env, pts).is_some(),
        forall|i: int| 0 <= i < pts.len() ==> (#[trigger] pts[i]) < cells.len(),
    ensures
        jump_fits(cells, jump_on(cells, env, pts).unwrap()),
        jump_on(cells, env, pts).unwrap().from == pts[0],
{
    let piece = cells[pts[0] as int].unwrap();
    let top = jump_reach(piece, pts);
    lemma_first_piece(cells, pts, 1, top - 1);
    let k = first_piece(cells, pts, 1, top - 1);
    lemma_first_piece(cells, pts, k + 1, top);
    let ss = jump_on(cells, env, pts).unwrap();
    assert(ss.v.len() > 0);
    assert forall|l: int| 0 <= l < ss.v.len() implies {
        &&& step_ok(cells, ss.from, #[trigger] ss.v[l], Some(ss.take), ss.king_move)
        &&& cells[ss.v[l] as int].is_none()
    } by {
        assert(ss.v[l] == pts[k + 1 + l]);
    }
}


/// How the board `cur`, reached by playing the jumps of `chain` on `base`,
/// relates to `base`, with the jumping piece now on `pos`: the pieces jumped
/// over are marked, the jumping piece has left its first cell and stands on
/// `pos`, crowned if the chain crowned it, and every other cell is as on
/// `base`. The chain can be made as a move on `base`.
pub open spec fn chain_state(base: Cells, cur: Cells, chain: StrikeView, pos: BoardPos) -> bool {
    if chain.vec.len() == 0 {
        cur == base && !chain.king_move
    } else {
        let from0 = chain.vec[0].from;
        let takes = takes_of(chain);
        &&& cur.len() == base.len()
        &&& chain.vec.last().to == pos
        &&& strike_applicable(base, chain)
        &&& forall|i: int| 0 <= i < takes.len() ==> cur[(#[trigger] takes[i]) as int] == Some(
            Piece { stricken: true, ..base[takes[i] as int].unwrap() },
        )
        &&& cur[pos as int] == Some(
            Piece {
                pos,
                is_king: base[from0 as int].unwrap().is_king || chain.king_move,
                ..base[from0 as int].unwrap()
            },
        )
        &&& from0 != pos ==> cur[from0 as int].is_none()
        &&& forall|c: int|
            0 <= c < cur.len() && c != pos && c != from0 && !takes.contains(c as BoardPos) ==> #[trigger] cur[c]
                == base[c]
    }
}

/// One more jump keeps a chain one that can be made on the board it
/// started from.
pub proof fn lemma_chain_grows(base: Cells, cur: Cells, chain: StrikeView, pos: BoardPos, j: StraightStrikeView)
    requires
        chain_state(base, cur, chain, pos),
        j.from == pos,
        step_ok(cur, pos, j.to, Some(j.take), j.king_move),
        cur[j.to as int].is_none(),
    ensures
        chain_state(
            base,
            step_cells(cur, pos, j.to, Some(j.take), j.king_move),
            chain.extended(j),
            j.to,
        ),
        strike_applicable(base, chain.extended(j)),
        !(chain.king_move && j.king_move),
{
    let next = chain.extended(j);
    let after = step_cells(cur, pos, j.to, Some(j.take), j.king_move);
    let takes = takes_of(chain);
    let takes2 = takes_of(next);
    assert(takes2 =~= takes.push(j.take));
    assert(next.vec.last() == j);
    if chain.vec.len() == 0 {
        assert(next.vec[0] == j);
        assert(strike_applicable(base, next));
        assert(takes2[0] == j.take);
        assert forall|c: int|
            0 <= c < after.len() && c != j.to && c != j.from && !takes2.contains(
                c as BoardPos,
            ) implies #[trigger] after[c] == base[c] by {
            if c == j.take {
                assert(takes2[0] == c as BoardPos);
            }
        }
        assert(chain_state(base, after, next, j.to));
    } else {
        let from0 = chain.vec[0].from;
        assert(next.vec[0] == chain.vec[0]);
        assert forall|i: int| 0 <= i < takes.len() implies takes[i] != j.take && takes[i] != j.to by {
            assert(cur[takes[i] as int].unwrap().stricken);
        }
        assert(!takes.contains(j.take));
        assert(!takes.contains(j.to));
        assert(j.take != from0);
        assert(base[j.take as int] == cur[j.take as int]);
        assert(j.to == from0 || base[j.to as int] == cur[j.to as int]);
        assert(strike_applicable(base, next)) by {
            assert forall|a: int, b: int| 0 <= a < b < takes2.len() implies takes2[a] != takes2[b] by {
                if b == takes.len() {
                    assert(takes2[a] == takes[a]);
                }
            }
            assert forall|i: int| 0 <= i < takes2.len() implies {
                &&& (#[trigger] takes2[i]) < base.len()
                &&& base[takes2[i] as int].is_some()
                &&& takes2[i] != next.vec[0].from
                &&& takes2[i] != next.vec.last().to
            } by {
                if i < takes.len() {
                    assert(takes2[i] == takes[i]);
                }
            }
        }
        assert forall|i: int| 0 <= i < takes2.len() implies after[(#[trigger] takes2[i]) as int] == Some(
            Piece { stricken: true, ..base[takes2[i] as int].unwrap() },
        ) by {
            if i < takes.len() {
                assert(takes2[i] == takes[i]);
            }
        }
        assert forall|c: int|
            0 <= c < after.len() && c != j.to && c != from0 && !takes2.contains(
                c as BoardPos,
            ) implies #[trigger] after[c] == base[c] by {
            assert(c != j.take) by {
                assert(takes2[takes.len() as int] == j.take);
            }
            if takes.contains(c as BoardPos) {
                let i = choose|i: int| 0 <= i < takes.len() && takes[i] == c as BoardPos;
                assert(takes2[i] == c as BoardPos);
            }
        }
        assert(chain_state(base, after, next, j.to));
    }
}

impl Position {
    /// The jump that the piece on the first cell of ray `v` has along it.
    pub fn straight_strike(&self, v: &Vec<BoardPos>) -> (r: Option<StraightStrike>)
        requires
            forall|i: int| 0 <= i < v@.len() ==> (#[trigger] v@[i]) < self.cells@.len(),
        ensures
            match r {
                Some(s) => jump_on(self.cells@, &self.environment, v@) == Some(s@),
                None => jump_on(self.cells@, &self.environment, v@).is_none(),
            },
    {
        if v.len() < 3 {
            return None;
        }
        let piece = match self.cells[v[0]] {
            Some(p) => p,
            None => {
                return None;
            },
        };
        let search_steps_top = if piece.is_king { v.len() } else { 3 };
        let mut i: usize = 2;
        while i < search_steps_top
            invariant
                2 <= i <= search_steps_top <= v@.len(),
                search_steps_top == jump_reach(piece, v@),
                self.cells@[v@[0] as int] == Some(piece),
                forall|n: int| 0 <= n < v@.len() ==> (#[trigger] v@[n]) < self.cells@.len(),
                first_piece(self.cells@, v@, 1, search_steps_top - 1) == first_piece(
                    self.cells@,
                    v@,
                    i - 1,
                    search_steps_top - 1,
                ),
            decreases search_steps_top - i,
        {
            match self.cells[v[i - 1]] {
                Some(candidate) => {
                    if self.cells[v[i]].is_none() && candidate.color != piece.color && !candidate.stricken {
                        let mut i_next = i;
                        let mut ve: Vec<BoardPos> = Vec::new();
                        while i_next < search_steps_top && self.cells[v[i_next]].is_none()
                            invariant
                                i <= i_next <= search_steps_top <= v@.len(),
                                forall|n: int| 0 <= n < v@.len() ==> (#[trigger] v@[n]) < self.cells@.len(),
                                ve@ == v@.subrange(i as int, i_next as int),
                                first_piece(self.cells@, v@, i as int, search_steps_top as int)
                                    == first_piece(self.cells@, v@, i_next as int, search_steps_top as int),
                            decreases search_steps_top - i_next,
                        {
                            ve.push(v[i_next]);
                            i_next += 1;
                            assert(ve@ =~= v@.subrange(i as int, i_next as int));
                        }
                        let strike = StraightStrike {
                            v: ve,
                            from: v[0],
                            to: v[i],
                            take: v[i - 1],
                            king_move: self.environment.is_king_move_for(&piece, v[i]),
                        };
                        return Some(strike);
                    } else {
                        return None;
                    }
                },
                None => {},
            }
            i += 1;
        }
        None
    }
}

/// A capture chain and nothing else.
pub open spec fn is_capture(m: MoveItemView) -> bool {
    m.strike.is_some() && m.mov.is_none()
}

impl Position {
    /// Adds to `move_list` the capture chains that begin with
    /// `current_chain` and go on from the piece on `pos`. The board is
    /// changed while the chains are explored and is the same again at the
    /// end. Returns whether the piece has a jump.
    fn strike_search(
        &mut self,
        pos: BoardPos,
        move_list: &mut MoveList,
        ban_directions: &Vec<i8>,
        for_front: bool,
        current_chain: &mut Strike,
        Ghost(base): Ghost<Cells>,
    ) -> (success: bool)
        requires
            old(self).shape(),
            pos < old(self).cells@.len(),
            chain_state(base, old(self).cells@, old(current_chain)@, pos),
        ensures
            final(self).shape(),
            final(self).same_as(old(self)),
            final(current_chain)@ == old(current_chain)@,
            final(move_list)@.current_chain == old(move_list)@.current_chain,
            final(move_list)@.list == old(move_list)@.list + strikes_from(
                old(self).cells@,
                &old(self).environment,
                pos,
                ban_directions@,
                for_front,
                old(current_chain)@,
            ),
            success == (final(move_list)@.list.len() > old(move_list)@.list.len()),
            success == can_jump(old(self).cells@, &old(self).environment, pos, ban_directions@),
            forall|i: int|
                old(move_list)@.list.len() <= i < final(move_list)@.list.len() ==> is_capture(
                    #[trigger] final(move_list)@.list[i],
                ) && applicable(base, final(move_list)@.list[i]),
        decreases unstricken(old(self).cells@), 1int,
    {
        let mut success_call = false;
        let piece = match self.cells[pos] {
            Some(p) => p,
            None => {
                assert(move_list@.list + Seq::<MoveItemView>::empty() =~= move_list@.list);
                return false;
            },
        };
        let env = self.environment.clone();
        let rays = env.get_vectors(pos);
        let ghost cells = self.cells@;
        let ghost chain = current_chain@;
        let ghost before = move_list@.list;
        let mut k: usize = 0;
        while k < rays.len()
            invariant
                self.shape(),
                self.same_as(old(self)),
                cells == old(self).cells@,
                env == old(self).environment,
                rays == &env.vectors_map@[pos as int],
                pos < cells.len(),
                cells[pos as int] == Some(piece),
                chain_state(base, cells, chain, pos),
                current_chain@ == chain,
                before == old(move_list)@.list,
                move_list@.current_chain == old(move_list)@.current_chain,
                k <= rays@.len(),
                move_list@.list + strikes_on_rays(cells, &env, pos, ban_directions@, for_front, chain, k as int)
                    == before + strikes_on_rays(cells, &env, pos, ban_directions@, for_front, chain, 0),
                move_list@.list.len() >= before.len(),
                success_call == (move_list@.list.len() > before.len()),
                success_call == exists|n: int|
                    0 <= n < k && ray_open(piece, (#[trigger] rays@[n]).direction, ban_directions@, true)
                        && jump_on(cells, &env, rays@[n].points@).is_some(),
                forall|i: int|
                    before.len() <= i < move_list@.list.len() ==> is_capture(#[trigger] move_list@.list[i])
                        && applicable(base, move_list@.list[i]),
            decreases rays@.len() - k,
        {
            let v = &rays[k];
            let ghost rest = strikes_on_rays(cells, &env, pos, ban_directions@, for_front, chain, k + 1);
            let ghost list0 = move_list@.list;
            if direction_open(&piece, v.direction, ban_directions, true) {
                let strike = self.straight_strike(&v.points);
                if let Some(straight_strike) = strike {
                    success_call = true;
                    proof {
                        lemma_jump_fits(cells, &env, v.points@);
                    }
                    self.strike_along(&straight_strike, v.direction, move_list, for_front, current_chain, Ghost(base));
                    proof {
                        let here = strikes_on_jump(cells, &env, straight_strike@, v.direction, for_front, chain);
                        assert((list0 + here) + rest =~= list0 + (here + rest));
                    }
                } else {
                    assert(list0 + (Seq::<MoveItemView>::empty() + rest) =~= list0 + rest);
                }
            } else {
                assert(list0 + (Seq::<MoveItemView>::empty() + rest) =~= list0 + rest);
            }
            k += 1;
        }
        proof {
            assert(move_list@.list + Seq::<MoveItemView>::empty() =~= move_list@.list);
        }
        success_call
    }

    /// Adds to `move_list` the capture chains that begin with
    /// `current_chain` followed by jump `ss` along diagonal `dir`.
    fn strike_along(
        &mut self,
        ss: &StraightStrike,
        dir: i8,
        move_list: &mut MoveList,
        for_front: bool,
        current_chain: &mut Strike,
        Ghost(base): Ghost<Cells>,
    )
        requires
            old(self).shape(),
            0 <= dir < 4,
            ss.from < old(self).cells@.len(),
            jump_fits(old(self).cells@, ss@),
            chain_state(base, old(self).cells@, old(current_chain)@, ss.from),
        ensures
            final(self).shape(),
            final(self).same_as(old(self)),
            final(current_chain)@ == old(current_chain)@,
            final(move_list)@.current_chain == old(move_list)@.current_chain,
            final(move_list)@.list == old(move_list)@.list + strikes_on_jump(
                old(self).cells@,
                &old(self).environment,
                ss@,
                dir,
                for_front,
                old(current_chain)@,
            ),
            final(move_list)@.list.len() > old(move_list)@.list.len(),
            forall|i: int|
                old(move_list)@.list.len() <= i < final(move_list)@.list.len() ==> is_capture(
                    #[trigger] final(move_list)@.list[i],
                ) && applicable(base, final(move_list)@.list[i]),
        decreases unstricken(old(self).cells@), 0int,
    {
        let back: i8 = (dir + 2) % 4;
        let mut ban: Vec<i8> = Vec::new();
        ban.push(back);
        let mut recurrent_chain = false;
        let ghost cells = self.cells@;
        let ghost env = self.environment;
        let ghost chain = current_chain@;
        let ghost before = move_list@.list;
        let ghost state = self.state;
        let mut l: usize = 0;
        while l < ss.v.len()
            invariant
                self.shape(),
                self.same_as(old(self)),
                cells == old(self).cells@,
                env == old(self).environment,
                0 <= dir < 4,
                back == ((dir + 2) % 4) as i8,
                jump_fits(cells, ss@),
                ss.from < cells.len(),
                chain_state(base, cells, chain, ss.from),
                current_chain@ == chain,
                before == old(move_list)@.list,
                move_list@.current_chain == old(move_list)@.current_chain,
                l <= ss.v@.len(),
                state == old(self).state,
                state.counts(cells),
                ban@ == ban_after(dir, l as int, for_front),
                move_list@.list + strikes_beyond(cells, &env, ss@, dir, for_front, chain, l as int)
                    == before + strikes_beyond(cells, &env, ss@, dir, for_front, chain, 0),
                move_list@.list.len() >= before.len(),
                recurrent_chain == (move_list@.list.len() > before.len()),
                forall|i: int|
                    before.len() <= i < move_list@.list.len() ==> is_capture(#[trigger] move_list@.list[i])
                        && applicable(base, move_list@.list[i]),
            decreases ss.v@.len() - l,
        {
            let land = ss.v[l];
            let mut strike_move = ss.clone();
            strike_move.to = land;
            let ghost j = landing(ss@, l as int);
            let ghost list0 = move_list@.list;
            let ghost rest = strikes_beyond(cells, &env, ss@, dir, for_front, chain, l + 1);
            proof {
                assert(strike_move@ == j);
                lemma_chain_grows(base, cells, chain, ss.from, j);
                lemma_step_undone(cells, ss.from, land, Some(ss.take), ss.king_move);
                crate::rules::lemma_jump_uses_up(cells, ss.from, land, ss.take, ss.king_move);
            }
            self.make_strike_or_move(ss.from, land, Some(ss.take), ss.king_move);
            let king = strike_move.king_move;
            let ghost raw = current_chain.vec@;
            current_chain.vec.push(strike_move);
            if king {
                current_chain.king_move = true;
            }
            proof {
                assert(current_chain@.vec =~= chain.vec.push(j));
                assert(current_chain@ == chain.extended(j));
            }
            if self.strike_search(land, move_list, &ban, for_front, current_chain, Ghost(base)) {
                recurrent_chain = true;
            }
            let ghost mid = current_chain.vec@;
            proof {
                assert(jumps_view(mid) == chain.vec.push(j));
                assert(mid.len() == chain.vec.len() + 1);
            }
            current_chain.vec.pop();
            if king {
                current_chain.king_move = false;
            }
            proof {
                assert(current_chain.vec@ =~= mid.drop_last());
                assert forall|i: int| 0 <= i < chain.vec.len() implies current_chain@.vec[i] == chain.vec[i] by {
                    assert(jumps_view(mid)[i] == mid[i]@);
                    assert(chain.vec.push(j)[i] == chain.vec[i]);
                }
                assert(current_chain@.vec =~= chain.vec);
            }
            self.unmake_strike_or_move(ss.from, land, Some(ss.take), ss.king_move);
            if !for_front && ban.len() < 2 {
                ban.push(dir);
            }
            proof {
                let here = strikes_from(
                    step_cells(cells, ss.from, land, Some(ss.take), ss.king_move),
                    &env,
                    land,
                    ban_after(dir, l as int, for_front),
                    for_front,
                    chain.extended(j),
                );
                assert((list0 + here) + rest =~= list0 + (here + rest));
                assert(ban@ =~= ban_after(dir, l + 1, for_front));
                assert(self.cells@ == cells);
                assert(self.state.black == state.black);
                assert(self.state.white == state.white);
                assert(self.state == state);
            }
            l += 1;
        }
        proof {
            assert(move_list@.list + Seq::<MoveItemView>::empty() =~= move_list@.list);
        }
        if !recurrent_chain {
            let mut l: usize = 0;
            while l < ss.v.len()
                invariant
                    self.shape(),
                    self.same_as(old(self)),
                    cells == old(self).cells@,
                    jump_fits(cells, ss@),
                    chain_state(base, cells, chain, ss.from),
                    current_chain@ == chain,
                    before == old(move_list)@.list,
                    move_list@.current_chain == old(move_list)@.current_chain,
                    l <= ss.v@.len(),
                    move_list@.list + stops(ss@, chain, l as int) == before + stops(ss@, chain, 0),
                    move_list@.list.len() == before.len() + l,
                    forall|i: int|
                        before.len() <= i < move_list@.list.len() ==> is_capture(#[trigger] move_list@.list[i])
                            && applicable(base, move_list@.list[i]),
                decreases ss.v@.len() - l,
            {
                let mut strike_move = ss.clone();
                strike_move.to = ss.v[l];
                let mut chain_copy = current_chain.clone();
                if strike_move.king_move {
                    chain_copy.king_move = true;
                }
                let ghost j = landing(ss@, l as int);
                let ghost list0 = move_list@.list;
                let ghost rest = stops(ss@, chain, l + 1);
                proof {
                    assert(strike_move@ == j);
                    lemma_chain_grows(base, cells, chain, ss.from, j);
                }
                chain_copy.vec.push(strike_move);
                proof {
                    assert(chain_copy@.vec =~= chain.vec.push(j));
                    assert(chain_copy@ == chain.extended(j));
                }
                let item = MoveItem { strike: Some(chain_copy), mov: None };
                move_list.list.push(item);
                proof {
                    let here = seq![MoveItemView { strike: Some(chain.extended(j)), mov: None }];
                    assert(move_list@.list =~= list0 + here);
                    assert((list0 + here) + rest =~= list0 + (here + rest));
                }
                l += 1;
            }
            proof {
                assert(move_list@.list + Seq::<MoveItemView>::empty() =~= move_list@.list);
            }
        }
    }

    /// Adds to `move_list` the capture chains of the piece on `pos` whose
    /// first jump is not along a diagonal in `ban_directions`; with
    /// `for_front`, for every cell a jump may land on. The chain being built
    /// is empty when the search starts and empty again when it ends; the
    /// board is changed while chains are explored and is the same again at
    /// the end. Returns whether the piece has a jump.
    pub fn get_strike_list(
        &mut self,
        pos: BoardPos,
        move_list: &mut MoveList,
        ban_directions: &Vec<i8>,
        for_front: bool,
        current_chain: &mut Strike,
    ) -> (success: bool)
        requires
            old(self).shape(),
            pos < old(self).cells@.len(),
            old(current_chain)@ == (StrikeView { vec: Seq::empty(), king_move: false }),
        ensures
            final(self).shape(),
            final(self).same_as(old(self)),
            final(current_chain)@ == old(current_chain)@,
            final(move_list)@.current_chain == old(move_list)@.current_chain,
            final(move_list)@.list == old(move_list)@.list + strikes_from(
                old(self).cells@,
                &old(self).environment,
                pos,
                ban_directions@,
                for_front,
                old(current_chain)@,
            ),
            success == (final(move_list)@.list.len() > old(move_list)@.list.len()),
            success == can_jump(old(self).cells@, &old(self).environment, pos, ban_directions@),
            forall|i: int|
                old(move_list)@.list.len() <= i < final(move_list)@.list.len() ==> is_capture(
                    #[trigger] final(move_list)@.list[i],
                ) && applicable(old(self).cells@, final(move_list)@.list[i]),
    {
        self.strike_search(pos, move_list, ban_directions, for_front, current_chain, Ghost(self.cells@))
    }
}

/// What holds of the list of legal moves of side `color` on `cells`: it is
/// the list the rules give; each move is a quiet move or a capture chain
/// with at least one jump, and can be made on `cells`; and where the side
/// has a piece with a jump, the list is not empty and holds capture chains
/// only.
pub open spec fn listed(
    list: Seq<MoveItemView>,
    cells: Cells,
    env: &PositionEnvironment,
    color: Color,
    for_front: bool,
) -> bool {
    &&& list == legal_moves(cells, env, color, for_front)
    &&& forall|i: int| 0 <= i < list.len() ==> (#[trigger] list[i]).wf() && applicable(cells, list[i])
    &&& has_capture(cells, env, color) ==> list.len() > 0 && forall|i: int|
        0 <= i < list.len() ==> is_capture(#[trigger] list[i])
}

impl Position {
    /// Adds to `move_list` the quiet moves of the piece on `pos`: along each
    /// diagonal open to it, to every cell up to the first occupied one (a
    /// man one cell at most). Returns whether a piece stands on `pos` and
    /// the list holds a move afterwards.
    pub fn get_quiet_move_list(&mut self, pos: BoardPos, move_list: &mut MoveList) -> (r: bool)
        requires
            old(self).shape(),
            pos < old(self).cells@.len(),
        ensures
            final(self).shape(),
            final(self).same_as(old(self)),
            final(move_list)@.current_chain == old(move_list)@.current_chain,
            final(move_list)@.list == old(move_list)@.list + quiet_from(
                old(self).cells@,
                &old(self).environment,
                pos,
            ),
            r == (old(self).cells@[pos as int].is_some() && final(move_list)@.list.len() > 0),
            forall|i: int|
                old(move_list)@.list.len() <= i < final(move_list)@.list.len() ==> {
                    &&& (#[trigger] final(move_list)@.list[i]).wf()
                    &&& !is_capture(final(move_list)@.list[i])
                    &&& applicable(old(self).cells@, final(move_list)@.list[i])
                },
    {
        let piece = match self.cells[pos] {
            Some(p) => p,
            None => {
                assert(move_list@.list + Seq::<MoveItemView>::empty() =~= move_list@.list);
                return false;
            },
        };
        let env = self.environment.clone();
        let rays = env.get_vectors(pos);
        let no_ban: Vec<i8> = Vec::new();
        assert(no_ban@ =~= Seq::<i8>::empty());
        let ghost cells = self.cells@;
        let ghost before = move_list@.list;
        let mut k: usize = 0;
        while k < rays.len()
            invariant
                self.shape(),
                self.same_as(old(self)),
                cells == old(self).cells@,
                env == old(self).environment,
                rays == &env.vectors_map@[pos as int],
                pos < cells.len(),
                cells[pos as int] == Some(piece),
                no_ban@ == Seq::<i8>::empty(),
                before == old(move_list)@.list,
                move_list@.current_chain == old(move_list)@.current_chain,
                k <= rays@.len(),
                move_list@.list.len() >= before.len(),
                move_list@.list + quiet_on_rays(cells, &env, pos, k as int) == before + quiet_on_rays(
                    cells,
                    &env,
                    pos,
                    0,
                ),
                forall|i: int|
                    before.len() <= i < move_list@.list.len() ==> {
                        &&& (#[trigger] move_list@.list[i]).wf()
                        &&& !is_capture(move_list@.list[i])
                        &&& applicable(cells, move_list@.list[i])
                    },
            decreases rays@.len() - k,
        {
            let vector = &rays[k];
            let ghost rest = quiet_on_rays(cells, &env, pos, k + 1);
            let ghost list0 = move_list@.list;
            if direction_open(&piece, vector.direction, &no_ban, false) {
                let points = &vector.points;
                let top = if piece.is_king { points.len() } else { 2 };
                let ghost here = quiet_on_ray(cells, &env, piece, points@);
                let mut i: usize = 1;
                proof {
                    lemma_first_piece(cells, points@, 1, top as int);
                }
                while i < top && self.cells[points[i]].is_none()
                    invariant
                        self.shape(),
                        self.same_as(old(self)),
                        cells == old(self).cells@,
                        env == old(self).environment,
                        pos < cells.len(),
                        cells[pos as int] == Some(piece),
                        points@.len() >= 2,
                        forall|n: int| 0 <= n < points@.len() ==> (#[trigger] points@[n]) < cells.len(),
                        top == quiet_reach(piece, points@),
                        1 <= i <= top <= points@.len(),
                        here == quiet_on_ray(cells, &env, piece, points@),
                        i <= first_piece(cells, points@, 1, top as int),
                        first_piece(cells, points@, 1, top as int) == first_piece(
                            cells,
                            points@,
                            i as int,
                            top as int,
                        ),
                        move_list@.current_chain == old(move_list)@.current_chain,
                        move_list@.list == list0 + here.take(i - 1),
                        list0.len() >= before.len(),
                        forall|n: int|
                            before.len() <= n < move_list@.list.len() ==> {
                                &&& (#[trigger] move_list@.list[n]).wf()
                                &&& !is_capture(move_list@.list[n])
                                &&& applicable(cells, move_list@.list[n])
                            },
                    decreases top - i,
                {
                    let point = points[i];
                    let ghost list1 = move_list@.list;
                    proof {
                        lemma_first_piece(cells, points@, i + 1, top as int);
                    }
                    let item = MoveItem {
                        mov: Some(
                            QuietMove { from: pos, to: point, king_move: env.is_king_move_for(&piece, point) },
                        ),
                        strike: None,
                    };
                    move_list.list.push(item);
                    proof {
                        assert(here[i - 1] == item@);
                        assert(move_list@.list =~= list1.push(item@));
                        assert(here.take(i as int) =~= here.take(i - 1).push(item@));
                        assert(move_list@.list =~= list0 + here.take(i as int));
                    }
                    i += 1;
                }
                proof {
                    lemma_first_piece(cells, points@, i as int, top as int);
                    assert(here.take(i - 1) =~= here);
                    assert((list0 + here) + rest =~= list0 + (here + rest));
                }
            } else {
                assert(list0 + (Seq::<MoveItemView>::empty() + rest) =~= list0 + rest);
            }
            k += 1;
        }
        proof {
            assert(move_list@.list + Seq::<MoveItemView>::empty() =~= move_list@.list);
        }
        move_list.list.len() > 0
    }

    /// The legal moves of the side to move: its capture chains if it has
    /// any, else its quiet moves. With `for_front`, a capture chain is
    /// listed for every cell each of its jumps may land on. A side must be
    /// to move. The board is changed while capture chains are explored and
    /// is the same again at the end.
    pub fn get_move_list(&mut self, for_front: bool) -> (r: MoveList)
        requires
            old(self).shape(),
            old(self).next_move.is_some(),
        ensures
            final(self).shape(),
            final(self).same_as(old(self)),
            r@.current_chain == (StrikeView { vec: Seq::empty(), king_move: false }),
            listed(
                r@.list,
                old(self).cells@,
                &old(self).environment,
                old(self).next_move.unwrap(),
                for_front,
            ),
    {
        let color = self.next_move.unwrap();
        let mut move_list = MoveList::new();
        let no_ban: Vec<i8> = Vec::new();
        assert(no_ban@ =~= Seq::<i8>::empty());
        let ghost cells = self.cells@;
        let ghost env = self.environment;
        let ghost none = StrikeView { vec: Seq::empty(), king_move: false };
        let n = self.cells.len();
        let mut c: usize = 0;
        while c < n
            invariant
                self.shape(),
                self.same_as(old(self)),
                cells == old(self).cells@,
                env == old(self).environment,
                n == cells.len(),
                c <= n,
                no_ban@ == Seq::<i8>::empty(),
                none == (StrikeView { vec: Seq::empty(), king_move: false }),
                move_list@.current_chain == none,
                move_list@.list + all_strikes(cells, &env, color, for_front, c as int) == all_strikes(
                    cells,
                    &env,
                    color,
                    for_front,
                    0,
                ),
                (move_list@.list.len() > 0) == exists|x: int|
                    0 <= x < c && (#[trigger] cells[x]).is_some() && cells[x].unwrap().color == color
                        && can_jump(cells, &env, x as BoardPos, Seq::empty()),
                forall|i: int|
                    0 <= i < move_list@.list.len() ==> is_capture(#[trigger] move_list@.list[i]) && applicable(
                        cells,
                        move_list@.list[i],
                    ),
            decreases n - c,
        {
            let ghost rest = all_strikes(cells, &env, color, for_front, c + 1);
            let ghost list0 = move_list@.list;
            let mine = match self.cells[c] {
                Some(p) => p.color == color,
                None => false,
            };
            if mine {
                let mut chain = Strike::new();
                self.get_strike_list(c, &mut move_list, &no_ban, for_front, &mut chain);
                proof {
                    let here = strikes_from(cells, &env, c, Seq::empty(), for_front, none);
                    assert((list0 + here) + rest =~= list0 + (here + rest));
                }
            } else {
                assert(list0 + (Seq::<MoveItemView>::empty() + rest) =~= list0 + rest);
            }
            c += 1;
        }
        proof {
            assert(move_list@.list + Seq::<MoveItemView>::empty() =~= move_list@.list);
            assert((move_list@.list.len() > 0) == has_capture(cells, &env, color));
        }
        if move_list.list.len() == 0 {
            let mut c: usize = 0;
            while c < n
                invariant
                    self.shape(),
                    self.same_as(old(self)),
                    cells == old(self).cells@,
                    env == old(self).environment,
                    n == cells.len(),
                    c <= n,
                    move_list@.current_chain == none,
                    move_list@.list + all_quiet(cells, &env, color, c as int) == all_quiet(cells, &env, color, 0),
                    forall|i: int|
                        0 <= i < move_list@.list.len() ==> {
                            &&& (#[trigger] move_list@.list[i]).wf()
                            &&& applicable(cells, move_list@.list[i])
                        },
                decreases n - c,
            {
                let ghost rest = all_quiet(cells, &env, color, c + 1);
                let ghost list0 = move_list@.list;
                let mine = match self.cells[c] {
                    Some(p) => p.color == color,
                    None => false,
                };
                if mine {
                    self.get_quiet_move_list(c, &mut move_list);
                    proof {
                        let here = quiet_from(cells, &env, c);
                        assert((list0 + here) + rest =~= list0 + (here + rest));
                    }
                } else {
                    assert(list0 + (Seq::<MoveItemView>::empty() + rest) =~= list0 + rest);
                }
                c += 1;
            }
            proof {
                assert(move_list@.list + Seq::<MoveItemView>::empty() =~= move_list@.list);
            }
        }
        move_list
    }
}

impl Position {
    /// The list of moves that is kept, if one is, is the list of legal
    /// moves of the side to move, and the evaluation that is kept, if one
    /// is, lies within a quarter of the range of its type on either side of
    /// zero.
    pub open spec fn cache_ok(&self) -> bool {
        &&& match self.move_list {
            Some(l) => {
                &&& self.next_move.is_some()
                &&& l@.current_chain == (StrikeView { vec: Seq::empty(), king_move: false })
                &&& listed(l@.list, self.cells@, &self.environment, self.next_move.unwrap(), false)
            },
            None => true,
        }
        &&& match self.eval {
            Some(e) => -0x3000_0000 < e < 0x3000_0000,
            None => true,
        }
    }

    /// The position is sound: its board is, and so is what it keeps of
    /// earlier computations.
    pub open spec fn wf(&self) -> bool {
        self.shape() && self.cache_ok()
    }

    /// The legal moves of the side to move, computed at the first call and
    /// kept until the board changes.
    pub fn get_move_list_cached(&mut self) -> (r: MoveList)
        requires
            old(self).wf(),
            old(self).next_move.is_some(),
        ensures
            final(self).wf(),
            final(self).cells@ == old(self).cells@,
            final(self).state == old(self).state,
            final(self).next_move == old(self).next_move,
            final(self).eval == old(self).eval,
            final(self).environment == old(self).environment,
            final(self).took_pieces@ == old(self).took_pieces@,
            final(self).kept_moves() == Some(r@),
            r@.current_chain == (StrikeView { vec: Seq::empty(), king_move: false }),
            listed(
                r@.list,
                old(self).cells@,
                &old(self).environment,
                old(self).next_move.unwrap(),
                false,
            ),
    {
        if self.move_list.is_none() {
            let move_li = self.get_move_list(false);
            self.move_list = Some(move_li);
        }
        match &self.move_list {
            Some(l) => l.clone(),
            None => MoveList::new(),
        }
    }
}

impl Position {
    /// The number of legal moves of the side to move; the list is computed
    /// and kept if it was not.
    pub fn count_moves(&mut self) -> (n: usize)
        requires
            old(self).wf(),
            old(self).next_move.is_some(),
        ensures
            final(self).wf(),
            final(self).cells@ == old(self).cells@,
            final(self).state == old(self).state,
            final(self).next_move == old(self).next_move,
            final(self).eval == old(self).eval,
            final(self).environment == old(self).environment,
            final(self).took_pieces@ == old(self).took_pieces@,
            final(self).move_list.is_some(),
            n == legal_moves(
                old(self).cells@,
                &old(self).environment,
                old(self).next_move.unwrap(),
                false,
            ).len(),
    {
        if self.move_list.is_none() {
            let move_li = self.get_move_list(false);
            self.move_list = Some(move_li);
        }
        match &self.move_list {
            Some(l) => l.list.len(),
            None => 0,
        }
    }

    /// A copy of the `i`-th legal move of the side to move; the list is
    /// computed and kept if it was not.
    pub fn nth_move(&mut self, i: usize) -> (m: MoveItem)
        requires
            old(self).wf(),
            old(self).next_move.is_some(),
            i < legal_moves(
                old(self).cells@,
                &old(self).environment,
                old(self).next_move.unwrap(),
                false,
            ).len(),
        ensures
            final(self).wf(),
            final(self).cells@ == old(self).cells@,
            final(self).state == old(self).state,
            final(self).next_move == old(self).next_move,
            final(self).eval == old(self).eval,
            final(self).environment == old(self).environment,
            final(self).took_pieces@ == old(self).took_pieces@,
            final(self).move_list.is_some(),
            m@ == legal_moves(
                old(self).cells@,
                &old(self).environment,
                old(self).next_move.unwrap(),
                false,
            )[i as int],
            m@.wf(),
            applicable(old(self).cells@, m@),
    {
        if self.move_list.is_none() {
            let move_li = self.get_move_list(false);
            self.move_list = Some(move_li);
        }
        match &self.move_list {
            Some(l) => {
                assert(l@.list[i as int] == l.list@[i as int]@);
                l.list[i].clone()
            },
            None => MoveItem { strike: None, mov: None },
        }
    }

    /// Makes the `i`-th legal move and returns a copy of the position
    /// reached, with the move. The position itself is changed while the move
    /// is made and is the same again at the end, buffer of captured pieces
    /// and list of legal moves included.
    pub fn child_position(&mut self, i: usize) -> (r: crate::position_history::PositionAndMove)
        requires
            old(self).wf(),
            old(self).next_move.is_some(),
            i < legal_moves(
                old(self).cells@,
                &old(self).environment,
                old(self).next_move.unwrap(),
                false,
            ).len(),
        ensures
            final(self).wf(),
            final(self).cells@ == old(self).cells@,
            final(self).state == old(self).state,
            final(self).next_move == old(self).next_move,
            final(self).environment == old(self).environment,
            final(self).took_pieces@ == old(self).took_pieces@,
            final(self).move_list.is_some(),
            r.pos.wf(),
            r.pos.made_by(
                old(self),
                legal_moves(
                    old(self).cells@,
                    &old(self).environment,
                    old(self).next_move.unwrap(),
                    false,
                )[i as int],
            ),
            r.move_view() == Some(
                legal_moves(
                    old(self).cells@,
                    &old(self).environment,
                    old(self).next_move.unwrap(),
                    false,
                )[i as int],
            ),
            r.deep_eval.is_none(),
            r.sound(),
    {
        let x = self.nth_move(i);
        let kept = match &self.move_list {
            Some(l) => Some(l.clone()),
            None => None,
        };
        let buffer = crate::position::copy_cells(&self.took_pieces);
        let ghost before = *self;
        proof {
            crate::board::lemma_move_undone(self.cells@, self.took_pieces@, x@);
        }
        let r = self.make_move_and_get_position(&x);
        let ghost made = *self;
        self.unmake_move(&x);
        proof {
            crate::position::law_unmake_restores(before, made, *self, x@);
        }
        self.move_list = kept;
        self.took_pieces = buffer;
        r
    }
}

} // verus!
