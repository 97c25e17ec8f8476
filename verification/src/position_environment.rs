use vstd::prelude::*;
use crate::color::Color;
use crate::moves::BoardPos;
use crate::piece::Piece;
use crate::vector::Vector;

verus! {

/// How many rays leave a cell towards each side, and how many cells they
/// cover together.
#[derive(Copy, Clone, Debug, PartialEq, Eq, Structural)]
pub struct Grade {
    pub black: i16,
    pub white: i16,
    pub is_king: i16,
}

impl Grade {
    /// The figure that applies to `piece`: the king's for a king, else the
    /// one of the piece's colour.
    pub open spec fn of(self, piece: Piece) -> i16 {
        if piece.is_king {
            self.is_king
        } else if piece.color == Color::Black {
            self.black
        } else {
            self.white
        }
    }

    /// The grade with the figure that applies to `piece` replaced.
    pub open spec fn with(self, piece: Piece, v: i16) -> Grade {
        if piece.is_king {
            Grade { is_king: v, ..self }
        } else if piece.color == Color::Black {
            Grade { black: v, ..self }
        } else {
            Grade { white: v, ..self }
        }
    }

    /// The figure that applies to `piece`, to read or to change.
    pub fn get(&mut self, piece: &Piece) -> (r: &mut i16)
        ensures
            *r == old(self).of(*piece),
            *final(self) == old(self).with(*piece, *final(r)),
    {
        if piece.is_king {
            return &mut self.is_king;
        }
        match piece.color {
            Color::Black => &mut self.black,
            Color::White => &mut self.white,
        }
    }
}

/// The sizes a board can have: even, at least 2, and small enough for the
/// square of the size to fit the type of the size.
pub open spec fn valid_size(size: int) -> bool {
    size == 2 || size == 4 || size == 6 || size == 8 || size == 10
}

/// Whether square `i` of the full board (rows of `size` squares, counted
/// from 0) is a dark, playable square.
pub open spec fn is_black_cell(size: int, i: int) -> bool {
    (i / size + i % 2) % 2 == 0
}

/// Whether `i` is a dark square of the board.
pub open spec fn is_on_board(size: int, i: int) -> bool {
    0 <= i < size * size && is_black_cell(size, i)
}

/// The packed index of dark square `i`: the number of dark squares before it.
pub open spec fn packed(i: int) -> int {
    i / 2
}

/// The full-board index of the dark square with packed index `j`.
pub open spec fn unpacked(size: int, j: int) -> int {
    2 * j + (2 * j / size) % 2
}

/// The distance, in full-board indices, between neighbours along diagonal
/// `dir` (0: up-right, 1: up-left, 2: down-left, 3: down-right).
pub open spec fn ray_step(size: int, dir: int) -> int {
    if dir == 0 {
        size + 1
    } else if dir == 1 {
        size - 1
    } else if dir == 2 {
        -(size + 1)
    } else {
        -(size - 1)
    }
}

/// What bounds the number of squares that can follow `p` on a ray.
pub open spec fn ray_room(size: int, p: int, step: int) -> int {
    if step > 0 { size * size - p } else { p + 1 }
}

/// The packed indices of the dark squares that follow square `p` in steps of
/// `step`, up to the first square that is off the board or not dark.
pub open spec fn ray_tail(size: int, p: int, step: int) -> Seq<BoardPos>
    decreases ray_room(size, p, step),
{
    if step != 0 && is_on_board(size, p + step) {
        seq![packed(p + step) as BoardPos] + ray_tail(size, p + step, step)
    } else {
        Seq::empty()
    }
}

/// The ray that leaves dark square `i` along diagonal `dir`: the packed
/// index of `i` itself, then of each dark square that follows.
pub open spec fn ray(size: int, i: int, dir: int) -> Seq<BoardPos> {
    seq![packed(i) as BoardPos] + ray_tail(size, i, ray_step(size, dir))
}

/// The rays of dark square `i` along diagonals `dir..4` that reach at least
/// one other square, each with its direction.
pub open spec fn cell_rays(size: int, i: int, dir: int) -> Seq<(i8, Seq<BoardPos>)>
    decreases 4 - dir,
{
    if 0 <= dir < 4 {
        let r = ray(size, i, dir);
        let rest = cell_rays(size, i, dir + 1);
        if r.len() > 1 { seq![(dir as i8, r)] + rest } else { rest }
    } else {
        Seq::empty()
    }
}

/// Whether `vs` holds exactly the rays `rays`, in order and without windows.
pub open spec fn vectors_are(vs: Seq<Vector<BoardPos>>, rays: Seq<(i8, Seq<BoardPos>)>) -> bool {
    &&& vs.len() == rays.len()
    &&& forall|k: int| 0 <= k < vs.len() ==> {
        &&& (#[trigger] vs[k]).direction == rays[k].0
        &&& vs[k].points@ == rays[k].1
        &&& vs[k].range() == (None::<usize>, None::<usize>)
    }
}

/// The number of the first `n` rays of `vs` that point up the board
/// (`up`), or down the board (`!up`).
pub open spec fn count_side(vs: Seq<Vector<BoardPos>>, n: int, up: bool) -> int
    decreases n,
{
    if n <= 0 {
        0
    } else {
        count_side(vs, n - 1, up) + if (vs[n - 1].direction < 2) == up { 1int } else { 0int }
    }
}

/// The number of cells on the first `n` rays of `vs`, start cells included.
pub open spec fn count_points(vs: Seq<Vector<BoardPos>>, n: int) -> int
    decreases n,
{
    if n <= 0 {
        0
    } else {
        count_points(vs, n - 1) + vs[n - 1].points@.len()
    }
}

/// The grade of a cell with rays `vs`.
pub open spec fn grade_is(g: Grade, vs: Seq<Vector<BoardPos>>) -> bool {
    &&& g.white == count_side(vs, vs.len() as int, true)
    &&& g.black == count_side(vs, vs.len() as int, false)
    &&& g.is_king == count_points(vs, vs.len() as int)
}


/// What the engine needs of the rays `vs` of cell `c` on a board of `cells`
/// cells: directions in `0..4` and increasing, at least two points on each
/// ray, the first of them `c`, none outside the board, and a length that
/// leaves room for sums.
pub open spec fn rays_fit(vs: Seq<Vector<BoardPos>>, c: int, cells: int) -> bool {
    &&& vs.len() <= 4
    &&& forall|k: int| 0 <= k < vs.len() ==> {
        let v = #[trigger] vs[k];
        &&& 0 <= v.direction < 4
        &&& 2 <= v.points@.len() <= 102
        &&& v.points@[0] == c
        &&& forall|n: int| 0 <= n < v.points@.len() ==> (#[trigger] v.points@[n]) < cells
    }
    &&& forall|k: int, l: int| 0 <= k < l < vs.len() ==>
        (#[trigger] vs[k]).direction < (#[trigger] vs[l]).direction
}

/// The square of a valid size lies between 4 and 100 and is even.
proof fn lemma_size(size: int)
    requires
        valid_size(size),
    ensures
        4 <= size * size <= 100,
        (size * size) % 2 == 0,
        size <= size * size,
        size * size - size >= 2,
{
    if size == 2 {
    } else if size == 4 {
    } else if size == 6 {
    } else if size == 8 {
    } else {
    }
}

/// An even square and the square after it lie in the same row.
proof fn lemma_same_row(size: int, i: int)
    requires
        valid_size(size),
        0 <= i,
        i % 2 == 0,
    ensures
        (i + 1) / size == i / size,
{
    let m = i / 2;
    assert(i == 2 * m);
    if size == 2 {
        assert(i / 2 == m && (i + 1) / 2 == m);
    } else if size == 4 {
        let a = m / 2;
        assert(i / 4 == a && (i + 1) / 4 == a);
    } else if size == 6 {
        let a = m / 3;
        assert(i / 6 == a && (i + 1) / 6 == a);
    } else if size == 8 {
        let a = m / 4;
        assert(i / 8 == a && (i + 1) / 8 == a);
    } else {
        let a = m / 5;
        assert(i / 10 == a && (i + 1) / 10 == a);
    }
}

/// Of two squares side by side, `2k` and `2k + 1`, exactly one is dark, and
/// packing and unpacking a dark square gives it back.
proof fn lemma_dark_squares(size: int, i: int)
    requires
        valid_size(size),
        0 <= i < size * size,
    ensures
        i % 2 == 0 ==> is_black_cell(size, i) != is_black_cell(size, i + 1),
        i % 2 == 1 ==> is_black_cell(size, i) != is_black_cell(size, i - 1),
        is_black_cell(size, i) ==> unpacked(size, packed(i)) == i,
        0 <= packed(i) < size * size / 2,
{
    lemma_size(size);
    let e = if i % 2 == 0 { i } else { i - 1 };
    lemma_same_row(size, e);
    let r = e / size;
    assert(i / size == r);
    assert(2 * packed(i) == e);
}

/// Unpacking a cell gives a dark square of the board whose packed index is
/// the cell.
proof fn lemma_unpacked(size: int, j: int)
    requires
        valid_size(size),
        0 <= j < size * size / 2,
    ensures
        is_on_board(size, unpacked(size, j)),
        packed(unpacked(size, j)) == j,
{
    lemma_size(size);
    lemma_same_row(size, 2 * j);
    let r = (2 * j) / size;
    let u = unpacked(size, j);
    assert(u == 2 * j || u == 2 * j + 1);
    assert(u / size == r);
}

/// A vector of `n` zeros.
fn zeros(n: usize) -> (v: Vec<BoardPos>)
    ensures
        v@.len() == n,
        forall|i: int| 0 <= i < n ==> #[trigger] v@[i] == 0,
{
    let mut v: Vec<BoardPos> = Vec::new();
    let mut i: usize = 0;
    while i < n
        invariant
            i <= n,
            v@.len() == i,
            forall|k: int| 0 <= k < i ==> #[trigger] v@[k] == 0,
        decreases n - i,
    {
        v.push(0);
        i += 1;
    }
    v
}

/// Whether square `i` is dark.
fn is_black(size: usize, i: usize) -> (r: bool)
    requires
        size > 0,
        i < 0x10000,
    ensures
        r == is_black_cell(size as int, i as int),
{
    (i / size + i % 2) % 2 == 0
}

/// The ray that leaves dark square `i` along diagonal `dir`.
fn build_ray(n: usize, i: usize, dir: i8, board_to_pack: &Vec<BoardPos>) -> (points: Vec<BoardPos>)
    requires
        valid_size(n as int),
        0 <= dir < 4,
        is_on_board(n as int, i as int),
        board_to_pack@.len() == n * n,
        forall|x: int| 0 <= x < n * n ==>
            #[trigger] board_to_pack@[x] == if is_black_cell(n as int, x) { packed(x) } else { 0 },
    ensures
        points@ == ray(n as int, i as int, dir as int),
        1 <= points@.len() <= 102,
        points@[0] == packed(i as int),
        forall|k: int| 0 <= k < points@.len() ==> (#[trigger] points@[k]) < n * n / 2,
{
    proof {
        lemma_size(n as int);
    }
    let size2: i64 = (n * n) as i64;
    let m: i64 = n as i64;
    let step: i64 = if dir == 0 {
        m + 1
    } else if dir == 1 {
        m - 1
    } else if dir == 2 {
        -(m + 1)
    } else {
        -(m - 1)
    };
    let mut points: Vec<BoardPos> = Vec::new();
    proof {
        lemma_dark_squares(n as int, i as int);
    }
    points.push(board_to_pack[i]);
    let mut p: i64 = i as i64;
    let mut q: i64 = p + step;
    while 0 <= q && q < size2 && is_black(n, q as usize)
        invariant
            valid_size(n as int),
            size2 == n * n,
            step == ray_step(n as int, dir as int),
            step != 0,
            -11 <= step <= 11,
            0 <= p < size2,
            q == p + step,
            board_to_pack@.len() == n * n,
            forall|x: int| 0 <= x < n * n ==>
                #[trigger] board_to_pack@[x] == if is_black_cell(n as int, x) { packed(x) } else { 0 },
            points@ + ray_tail(n as int, p as int, step as int) == ray(n as int, i as int, dir as int),
            points@.len() >= 1,
            points@.len() + ray_room(n as int, p as int, step as int) <= 102,
            points@[0] == packed(i as int),
            forall|k: int| 0 <= k < points@.len() ==> (#[trigger] points@[k]) < n * n / 2,
            4 <= size2 <= 100,
        decreases ray_room(n as int, p as int, step as int),
    {
        proof {
            lemma_dark_squares(n as int, q as int);
            assert(ray_tail(n as int, p as int, step as int) == seq![packed(q as int) as BoardPos]
                + ray_tail(n as int, q as int, step as int));
            assert(points@.push(packed(q as int) as BoardPos) + ray_tail(n as int, q as int, step as int)
                =~= points@ + ray_tail(n as int, p as int, step as int));
        }
        points.push(board_to_pack[q as usize]);
        p = q;
        q = p + step;
    }
    proof {
        assert(ray_tail(n as int, p as int, step as int) =~= Seq::<BoardPos>::empty());
        assert(points@ + Seq::<BoardPos>::empty() =~= points@);
    }
    points
}

/// The rays of dark square `i` that reach at least one other square.
fn cell_vectors(n: usize, i: usize, board_to_pack: &Vec<BoardPos>) -> (list: Vec<Vector<BoardPos>>)
    requires
        valid_size(n as int),
        is_on_board(n as int, i as int),
        board_to_pack@.len() == n * n,
        forall|x: int| 0 <= x < n * n ==>
            #[trigger] board_to_pack@[x] == if is_black_cell(n as int, x) { packed(x) } else { 0 },
    ensures
        vectors_are(list@, cell_rays(n as int, i as int, 0)),
        rays_fit(list@, packed(i as int), (n * n / 2) as int),
        i == 0 ==> list@.len() > 0,
{
    let mut list: Vec<Vector<BoardPos>> = Vec::new();
    let ghost mut acc: Seq<(i8, Seq<BoardPos>)> = Seq::empty();
    let mut dir: i8 = 0;
    while dir < 4
        invariant
            valid_size(n as int),
            is_on_board(n as int, i as int),
            board_to_pack@.len() == n * n,
            forall|x: int| 0 <= x < n * n ==>
                #[trigger] board_to_pack@[x] == if is_black_cell(n as int, x) { packed(x) } else { 0 },
            0 <= dir <= 4,
            vectors_are(list@, acc),
            acc + cell_rays(n as int, i as int, dir as int) == cell_rays(n as int, i as int, 0),
            list@.len() <= dir,
            forall|k: int| 0 <= k < list@.len() ==> {
                let v = #[trigger] list@[k];
                &&& 0 <= v.direction < dir
                &&& 2 <= v.points@.len() <= 102
                &&& v.points@[0] == packed(i as int)
                &&& forall|x: int| 0 <= x < v.points@.len() ==> (#[trigger] v.points@[x]) < n * n / 2
            },
            forall|k: int, l: int| 0 <= k < l < list@.len() ==>
                (#[trigger] list@[k]).direction < (#[trigger] list@[l]).direction,
            i == 0 && dir > 0 ==> list@.len() > 0,
        decreases 4 - dir,
    {
        let points = build_ray(n, i, dir, board_to_pack);
        proof {
            if i == 0 && dir == 0 {
                lemma_main_road(n as int);
            }
        }
        if points.len() > 1 {
            let v: Vector<BoardPos> = Vector::new(dir, points);
            proof {
                assert(acc.push((dir, v.points@)) + cell_rays(n as int, i as int, dir + 1)
                    =~= acc + cell_rays(n as int, i as int, dir as int));
                acc = acc.push((dir, v.points@));
            }
            list.push(v);
        }
        dir += 1;
    }
    proof {
        assert(acc + Seq::<(i8, Seq<BoardPos>)>::empty() =~= acc);
    }
    list
}

/// The long diagonal that leaves square 0 reaches at least one more square.
proof fn lemma_main_road(size: int)
    requires
        valid_size(size),
    ensures
        ray(size, 0, 0).len() > 1,
{
    assert(is_on_board(size, size + 1)) by {
        if size == 2 {
        } else if size == 4 {
        } else if size == 6 {
        } else if size == 8 {
        } else {
        }
    }
    assert(ray_tail(size, 0, size + 1).len() > 0);
}

/// The grade of cell `c` from its rays.
fn grade_of(vs: &Vec<Vector<BoardPos>>, Ghost(c): Ghost<int>, Ghost(cells): Ghost<int>) -> (g: Grade)
    requires
        rays_fit(vs@, c, cells),
    ensures
        grade_is(g, vs@),
{
    let mut b: i16 = 0;
    let mut k: i16 = 0;
    let mut w: i16 = 0;
    let mut x: usize = 0;
    while x < vs.len()
        invariant
            rays_fit(vs@, c, cells),
            x <= vs@.len(),
            w == count_side(vs@, x as int, true),
            b == count_side(vs@, x as int, false),
            k == count_points(vs@, x as int),
            0 <= w <= x,
            0 <= b <= x,
            0 <= k <= 102 * x,
        decreases vs@.len() - x,
    {
        let v_d = &vs[x];
        if v_d.direction < 2 {
            w += 1;
        } else {
            b += 1;
        }
        k += v_d.points.len() as i16;
        x += 1;
    }
    Grade { white: w, is_king: k, black: b }
}

/// The geometry of a board: how its dark squares are numbered and which
/// cells lie on each diagonal ray leaving each cell.
#[derive(Debug)]
pub struct PositionEnvironment {
    pub size: i8,
    pub king_row_black: usize,
    pub king_row_white: usize,
    pub vectors_map: Vec<Vec<Vector<BoardPos>>>,
    pub board_to_pack: Vec<BoardPos>,
    pub pack_to_board: Vec<BoardPos>,
    pub cell_grade: Vec<Grade>,
}

impl PositionEnvironment {
    /// The number of playable cells.
    pub open spec fn cell_count(&self) -> int {
        self.vectors_map@.len() as int
    }

    /// What the engine relies on: a cell has at most four rays; every ray
    /// starts at its own cell, reaches at least one more, stays inside the
    /// board and has a direction in `0..4`; the rays of a cell have distinct
    /// directions; cell 0 has a ray (the main road).
    pub open spec fn wf(&self) -> bool {
        &&& self.cell_count() > 0
        &&& self.vectors_map@[0]@.len() > 0
        &&& forall|c: int| 0 <= c < self.cell_count() ==> (#[trigger] self.vectors_map@[c])@.len() <= 4
        &&& forall|c: int, k: int|
            0 <= c < self.cell_count() && 0 <= k < self.vectors_map@[c]@.len() ==> {
                let v = #[trigger] self.vectors_map@[c]@[k];
                &&& 0 <= v.direction < 4
                &&& v.points@.len() >= 2
                &&& v.points@[0] == c
                &&& forall|n: int| 0 <= n < v.points@.len() ==> (#[trigger] v.points@[n]) < self.cell_count()
            }
        &&& forall|c: int, k: int, l: int|
            0 <= c < self.cell_count() && 0 <= k < l < self.vectors_map@[c]@.len() ==>
                (#[trigger] self.vectors_map@[c]@[k]).direction
                    != (#[trigger] self.vectors_map@[c]@[l]).direction
    }

    /// The environment is exactly the geometry of the board of side `size`.
    pub open spec fn is_board(&self, size: int) -> bool {
        &&& self.size == size
        &&& self.king_row_black == size / 2
        &&& self.king_row_white == (size * size - size) / 2 - 1
        &&& self.board_to_pack@.len() == size * size
        &&& forall|i: int| 0 <= i < size * size ==>
            #[trigger] self.board_to_pack@[i] == if is_black_cell(size, i) { packed(i) } else { 0 }
        &&& self.pack_to_board@.len() == size * size / 2
        &&& forall|j: int| 0 <= j < size * size / 2 ==>
            #[trigger] self.pack_to_board@[j] == unpacked(size, j)
        &&& self.vectors_map@.len() == size * size / 2
        &&& forall|c: int| 0 <= c < size * size / 2 ==>
            vectors_are(#[trigger] self.vectors_map@[c]@, cell_rays(size, unpacked(size, c), 0))
        &&& self.cell_grade@.len() == size * size / 2
        &&& forall|c: int| 0 <= c < size * size / 2 ==>
            grade_is(#[trigger] self.cell_grade@[c], self.vectors_map@[c]@)
    }

    /// Builds the geometry of the board of side `size`.
    pub fn new(size: i8) -> (env: PositionEnvironment)
        requires
            valid_size(size as int),
        ensures
            env.is_board(size as int),
            env.wf(),
    {
        let n: usize = size as usize;
        proof {
            lemma_size(n as int);
        }
        let size2: usize = n * n;
        let ncells: usize = size2 / 2;
        let mut board_to_pack: Vec<BoardPos> = zeros(size2);
        let mut pack_to_board: Vec<BoardPos> = zeros(ncells);
        // the packed board holds the dark squares only
        let mut j: usize = 0;
        let mut i: usize = 0;
        while i < size2
            invariant
                valid_size(n as int),
                size2 == n * n,
                4 <= size2 <= 100,
                ncells == size2 / 2,
                i <= size2,
                board_to_pack@.len() == size2,
                pack_to_board@.len() == ncells,
                j == i / 2 + if i % 2 == 1 && is_black_cell(n as int, i - 1) { 1int } else { 0int },
                forall|x: int| 0 <= x < i ==>
                    #[trigger] board_to_pack@[x] == if is_black_cell(n as int, x) { packed(x) } else { 0 },
                forall|x: int| i <= x < size2 ==> #[trigger] board_to_pack@[x] == 0,
                forall|y: int| 0 <= y < j ==> #[trigger] pack_to_board@[y] == unpacked(n as int, y),
            decreases size2 - i,
        {
            proof {
                lemma_dark_squares(n as int, i as int);
            }
            if is_black(n, i) {
                board_to_pack.set(i, j);
                pack_to_board.set(j, i);
                j += 1;
            }
            i += 1;
        }
        let mut vectors_map: Vec<Vec<Vector<BoardPos>>> = Vec::new();
        let mut c: usize = 0;
        while c < ncells
            invariant
                valid_size(n as int),
                size2 == n * n,
                ncells == size2 / 2,
                c <= ncells,
                board_to_pack@.len() == size2,
                pack_to_board@.len() == ncells,
                forall|x: int| 0 <= x < size2 ==>
                    #[trigger] board_to_pack@[x] == if is_black_cell(n as int, x) { packed(x) } else { 0 },
                forall|y: int| 0 <= y < ncells ==> #[trigger] pack_to_board@[y] == unpacked(n as int, y),
                vectors_map@.len() == c,
                forall|x: int| 0 <= x < c ==>
                    vectors_are(#[trigger] vectors_map@[x]@, cell_rays(n as int, unpacked(n as int, x), 0)),
                forall|x: int| 0 <= x < c ==> rays_fit(#[trigger] vectors_map@[x]@, x, ncells as int),
                c > 0 ==> vectors_map@[0]@.len() > 0,
            decreases ncells - c,
        {
            let i = pack_to_board[c];
            proof {
                lemma_unpacked(n as int, c as int);
            }
            let list = cell_vectors(n, i, &board_to_pack);
            vectors_map.push(list);
            c += 1;
        }
        let mut cell_grade: Vec<Grade> = Vec::new();
        let mut c: usize = 0;
        while c < ncells
            invariant
                c <= ncells,
                vectors_map@.len() == ncells,
                forall|x: int| 0 <= x < ncells ==> rays_fit(#[trigger] vectors_map@[x]@, x, ncells as int),
                cell_grade@.len() == c,
                forall|x: int| 0 <= x < c ==> grade_is(#[trigger] cell_grade@[x], vectors_map@[x]@),
            decreases ncells - c,
        {
            let g = grade_of(&vectors_map[c], Ghost(c as int), Ghost(ncells as int));
            cell_grade.push(g);
            c += 1;
        }
        proof {
            lemma_size(n as int);
        }
        let row_white: usize = (size2 - n) / 2 - 1;
        let env = PositionEnvironment {
            pack_to_board,
            board_to_pack,
            cell_grade,
            vectors_map,
            size,
            king_row_black: n / 2,
            king_row_white: row_white,
        };
        proof {
            assert forall|c: int| 0 <= c < env.cell_count() implies (#[trigger] env.vectors_map@[c])@.len()
                <= 4 by {
                assert(rays_fit(env.vectors_map@[c]@, c, ncells as int));
            }
            assert forall|c: int, k: int|
                0 <= c < env.cell_count() && 0 <= k < env.vectors_map@[c]@.len() implies {
                let v = #[trigger] env.vectors_map@[c]@[k];
                &&& 0 <= v.direction < 4
                &&& v.points@.len() >= 2
                &&& v.points@[0] == c
                &&& forall|n: int| 0 <= n < v.points@.len() ==> (#[trigger] v.points@[n]) < env.cell_count()
            } by {
                assert(rays_fit(env.vectors_map@[c]@, c, ncells as int));
            }
            assert forall|c: int, k: int, l: int|
                0 <= c < env.cell_count() && 0 <= k < l < env.vectors_map@[c]@.len() implies
                (#[trigger] env.vectors_map@[c]@[k]).direction
                    != (#[trigger] env.vectors_map@[c]@[l]).direction by {
                assert(rays_fit(env.vectors_map@[c]@, c, ncells as int));
            }
        }
        env
    }

    /// Whether `piece` is promoted when it arrives on `pos`: a White man
    /// beyond the last-but-one row, a Black man before the second row.
    pub open spec fn king_move_for(&self, piece: Piece, pos: BoardPos) -> bool {
        if piece.is_king {
            false
        } else if piece.color == Color::White {
            pos > self.king_row_white
        } else {
            pos < self.king_row_black
        }
    }

    pub fn is_king_move_for(&self, piece: &Piece, pos: BoardPos) -> (r: bool)
        ensures
            r == self.king_move_for(*piece, pos),
    {
        if piece.is_king {
            return false;
        }
        if piece.color == Color::White {
            pos > self.king_row_white
        } else {
            pos < self.king_row_black
        }
    }

    /// The rays that leave cell `pos`.
    pub fn get_vectors(&self, pos: usize) -> (r: &Vec<Vector<BoardPos>>)
        requires
            pos < self.cell_count(),
        ensures
            r == &self.vectors_map@[pos as int],
    {
        &self.vectors_map[pos]
    }
}

} // verus!
