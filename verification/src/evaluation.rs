use vstd::prelude::*;
use crate::board::{cells_wf, Cells};
use crate::chance::random_below;
use crate::color::Color;
use crate::moves::BoardPos;
use crate::piece::Piece;
use crate::position::Position;
use crate::position_environment::PositionEnvironment;
use crate::rules::{legal_moves, ray_open};
use crate::vector::Vector;

verus! {

/// Whether a piece of the colour of `piece` stands on cell `p`.
pub open spec fn friend(cells: Cells, piece: Piece, p: BoardPos) -> bool {
    match cells[p as int] {
        Some(q) => q.color == piece.color,
        None => false,
    }
}

/// What ray `pts` adds to the score of the man `piece` on its first cell,
/// in units of the man's weight: one for each of the next two cells that
/// holds a piece of its colour, as long as no enemy stands in between, and
/// two if the next cell is empty.
pub open spec fn ray_units(cells: Cells, piece: Piece, pts: Seq<BoardPos>) -> int {
    let second: int = if pts.len() > 2 && friend(cells, piece, pts[2]) { 1 } else { 0 };
    match cells[pts[1] as int] {
        Some(q) => if q.color == piece.color { 1 + second } else { 0 },
        None => second + 2,
    }
}

/// The units of the first `k` of `rays` that are open to the quiet moves of
/// `piece`.
pub open spec fn piece_units(cells: Cells, piece: Piece, rays: Seq<Vector<BoardPos>>, k: int) -> int
    decreases k,
{
    if k <= 0 {
        0
    } else {
        piece_units(cells, piece, rays, k - 1) + if ray_open(
            piece,
            rays[k - 1].direction,
            Seq::empty(),
            false,
        ) {
            ray_units(cells, piece, rays[k - 1].points@)
        } else {
            0
        }
    }
}

/// What the piece on cell `c` adds to the positional score: nothing for an
/// empty cell or a king; for a man its units times its weight `draws[c]`,
/// counted for White and against Black.
pub open spec fn cell_score(cells: Cells, env: &PositionEnvironment, draws: Seq<i32>, c: int) -> int {
    match cells[c] {
        Some(p) => if p.is_king {
            0
        } else {
            let rays = env.vectors_map@[p.pos as int]@;
            let s: int = if p.color == Color::White { draws[c] as int } else { -(draws[c] as int) };
            s * piece_units(cells, p, rays, rays.len() as int)
        },
        None => 0,
    }
}

/// The positional score of the first `n` cells.
pub open spec fn positional(cells: Cells, env: &PositionEnvironment, draws: Seq<i32>, n: int) -> int
    decreases n,
{
    if n <= 0 {
        0
    } else {
        positional(cells, env, draws, n - 1) + cell_score(cells, env, draws, n - 1)
    }
}

/// One weight for each cell, between 6 and 9 where a piece stands.
pub open spec fn valid_draws(draws: Seq<i32>, cells: Cells) -> bool {
    &&& draws.len() == cells.len()
    &&& forall|c: int| 0 <= c < cells.len() && cells[c].is_some() ==> 6 <= #[trigger] draws[c] < 10
}

/// The score of a side that cannot move: as low as a quarter of the range
/// when White is to move, as high when not.
pub open spec fn terminal_score(no_moves: bool, next: Option<Color>) -> int {
    if no_moves {
        if next == Some(Color::White) {
            -536870912
        } else {
            536870911
        }
    } else {
        0
    }
}

/// The evaluation of a position in which `color` is to move, with the
/// weights `draws`: positive favours White. It is the score of a side that
/// cannot move, plus the positional score unless only the material is
/// wanted, plus the material balance.
pub open spec fn score(pos: &Position, state_only: bool, draws: Seq<i32>) -> int {
    terminal_score(
        legal_moves(pos.cells@, &pos.environment, pos.next_move.unwrap(), false).len() == 0,
        pos.next_move,
    ) + (if state_only {
        0
    } else {
        positional(pos.cells@, &pos.environment, draws, pos.cells@.len() as int)
    }) + pos.state.material()
}

/// The positional score stays within 144 a cell.
pub proof fn lemma_positional_bound(cells: Cells, env: &PositionEnvironment, draws: Seq<i32>, n: int)
    requires
        env.wf(),
        cells.len() == env.cell_count(),
        cells_wf(cells),
        valid_draws(draws, cells),
        0 <= n <= cells.len(),
    ensures
        -144 * n <= positional(cells, env, draws, n) <= 144 * n,
    decreases n,
{
    if n > 0 {
        lemma_positional_bound(cells, env, draws, n - 1);
        match cells[n - 1] {
            Some(p) => {
                let rays = env.vectors_map@[p.pos as int]@;
                lemma_units_bound(cells, p, rays, rays.len() as int);
                let u = piece_units(cells, p, rays, rays.len() as int);
                let d = draws[n - 1] as int;
                assert(-144 <= d * u <= 144 && -144 <= (-d) * u <= 144) by (nonlinear_arith)
                    requires
                        6 <= d < 10,
                        0 <= u <= 16,
                ;
            },
            None => {},
        }
    }
}

/// A piece collects at most four units a ray.
pub proof fn lemma_units_bound(cells: Cells, piece: Piece, rays: Seq<Vector<BoardPos>>, k: int)
    requires
        0 <= k <= rays.len() <= 4,
    ensures
        0 <= piece_units(cells, piece, rays, k) <= 4 * k,
    decreases k,
{
    if k > 0 {
        lemma_units_bound(cells, piece, rays, k - 1);
    }
}

impl Position {
    /// One weight for each cell: drawn at random between 6 and 9 where a
    /// piece stands, 0 elsewhere.
    pub fn draw_weights(&self) -> (draws: Vec<i32>)
        ensures
            valid_draws(draws@, self.cells@),
    {
        let mut draws: Vec<i32> = Vec::new();
        let mut c: usize = 0;
        while c < self.cells.len()
            invariant
                c <= self.cells@.len(),
                draws@.len() == c,
                forall|x: int| 0 <= x < c && self.cells@[x].is_some() ==> 6 <= #[trigger] draws@[x] < 10,
            decreases self.cells@.len() - c,
        {
            if self.cells[c].is_some() {
                let empir = random_below(4);
                draws.push(6 + empir as i32);
            } else {
                draws.push(0);
            }
            c += 1;
        }
        draws
    }

    /// The units the man `piece` collects on the rays of its cell.
    fn units_of(&self, piece: &Piece) -> (u: i32)
        requires
            self.shape(),
            piece.pos < self.cells@.len(),
        ensures
            u == piece_units(
                self.cells@,
                *piece,
                self.environment.vectors_map@[piece.pos as int]@,
                self.environment.vectors_map@[piece.pos as int]@.len() as int,
            ),
            0 <= u <= 16,
    {
        let rays = self.environment.get_vectors(piece.pos);
        let mut u: i32 = 0;
        let mut k: usize = 0;
        while k < rays.len()
            invariant
                self.shape(),
                piece.pos < self.cells@.len(),
                rays == &self.environment.vectors_map@[piece.pos as int],
                k <= rays@.len() <= 4,
                u == piece_units(self.cells@, *piece, rays@, k as int),
                0 <= u <= 4 * k,
            decreases rays@.len() - k,
        {
            let v = &rays[k];
            let open = if piece.is_king {
                0 <= v.direction && v.direction < 4
            } else if piece.color == Color::White {
                v.direction == 0 || v.direction == 1
            } else {
                v.direction == 2 || v.direction == 3
            };
            assert(open == ray_open(*piece, v.direction, Seq::empty(), false));
            if open {
                let mut met_enemy = false;
                match self.cells[v.points[1]] {
                    Some(neighbour) => {
                        if neighbour.color == piece.color {
                            u += 1;
                        } else {
                            met_enemy = true;
                        }
                    },
                    None => {},
                }
                if !met_enemy && v.points.len() > 2 {
                    match self.cells[v.points[2]] {
                        Some(neighbour) => {
                            if neighbour.color == piece.color {
                                u += 1;
                            }
                        },
                        None => {},
                    }
                }
                // opposition
                if self.cells[v.points[1]].is_none() {
                    u += 2;
                }
            }
            k += 1;
        }
        u
    }

    /// The positional score of the board with the weights `draws`.
    pub fn positional_score(&self, draws: &Vec<i32>) -> (r: i32)
        requires
            self.shape(),
            valid_draws(draws@, self.cells@),
        ensures
            r == positional(self.cells@, &self.environment, draws@, self.cells@.len() as int),
            -144 * self.cells@.len() <= r <= 144 * self.cells@.len(),
    {
        let mut eval: i32 = 0;
        let mut c: usize = 0;
        while c < self.cells.len()
            invariant
                self.shape(),
                valid_draws(draws@, self.cells@),
                c <= self.cells@.len(),
                eval == positional(self.cells@, &self.environment, draws@, c as int),
                -144 * c <= eval <= 144 * c,
            decreases self.cells@.len() - c,
        {
            proof {
                lemma_positional_bound(self.cells@, &self.environment, draws@, c + 1);
            }
            match self.cells[c] {
                Some(piece) => {
                    if !piece.is_king {
                        let s = if piece.color == Color::White { draws[c] } else { -draws[c] };
                        let u = self.units_of(&piece);
                        assert(-144 <= s * u <= 144) by (nonlinear_arith)
                            requires
                                -10 < s < 10,
                                0 <= u <= 16,
                        ;
                        eval += s * u;
                    }
                },
                None => {},
            }
            c += 1;
        }
        eval
    }

    /// The evaluation of the position; positive favours White. A side must
    /// be to move. The result is kept, and a kept result is returned as it
    /// is. Else the weights of the men are drawn at random, unless only the
    /// material is wanted.
    pub fn evaluate(&mut self, state_only: bool) -> (r: i32)
        requires
            old(self).wf(),
            old(self).next_move.is_some(),
        ensures
            final(self).wf(),
            final(self).cells@ == old(self).cells@,
            final(self).state == old(self).state,
            final(self).next_move == old(self).next_move,
            final(self).environment == old(self).environment,
            final(self).took_pieces@ == old(self).took_pieces@,
            final(self).eval == Some(r),
            -0x3000_0000 < r < 0x3000_0000,
            old(self).eval.is_some() ==> r == old(self).eval.unwrap() && final(self).kept_moves() == old(
                self,
            ).kept_moves(),
            old(self).eval.is_none() ==> exists|draws: Seq<i32>|
                valid_draws(draws, old(self).cells@) && r == score(old(self), state_only, draws),
    {
        if let Some(e) = self.eval {
            return e;
        }
        let list = self.get_move_list_cached();
        // white advantage if positive signature of evaluate, black - negative
        let mut eval: i32 = if list.list.len() == 0 {
            match self.next_move {
                Some(Color::White) => i32::MIN / 4,
                _ => i32::MAX / 4,
            }
        } else {
            0
        };
        let ghost mut weights: Seq<i32> = Seq::new(self.cells@.len(), |c: int| 6i32);
        if !state_only {
            let draws = self.draw_weights();
            eval += self.positional_score(&draws);
            proof {
                weights = draws@;
            }
        }
        proof {
            self.lemma_fits();
        }
        eval += self.state.evaluate();
        self.eval = Some(eval);
        proof {
            assert(valid_draws(weights, old(self).cells@) && eval == score(old(self), state_only, weights));
        }
        eval
    }
}

} // verus!
