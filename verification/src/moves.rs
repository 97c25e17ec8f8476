use vstd::prelude::*;

verus! {

/// Index of a playable square in the packed board.
pub type BoardPos = usize;

/// One jump of a capture: a piece leaves `from`, passes over the enemy piece
/// on `take` and lands on `to`.
///
/// `v` lists every cell the jumping piece could stop on after this jump, in
/// the order of the ray (a man has exactly one such cell, a king may have
/// several). `king_move` tells that the piece is promoted by this jump.
#[derive(Debug)]
pub struct StraightStrike {
    pub v: Vec<BoardPos>,
    pub from: BoardPos,
    pub take: BoardPos,
    pub to: BoardPos,
    pub king_move: bool,
}

/// The mathematical value of a [`StraightStrike`].
pub struct StraightStrikeView {
    pub v: Seq<BoardPos>,
    pub from: BoardPos,
    pub take: BoardPos,
    pub to: BoardPos,
    pub king_move: bool,
}

impl View for StraightStrike {
    type V = StraightStrikeView;

    open spec fn view(&self) -> StraightStrikeView {
        StraightStrikeView {
            v: self.v@,
            from: self.from,
            take: self.take,
            to: self.to,
            king_move: self.king_move,
        }
    }
}

impl Clone for StraightStrike {
    fn clone(&self) -> (r: Self)
        ensures
            r@ == self@,
    {
        let mut v: Vec<BoardPos> = Vec::new();
        let mut i: usize = 0;
        while i < self.v.len()
            invariant
                i <= self.v.len(),
                v@ == self.v@.subrange(0, i as int),
            decreases self.v.len() - i,
        {
            v.push(self.v[i]);
            i += 1;
        }
        assert(v@ =~= self.v@);
        StraightStrike { v, from: self.from, take: self.take, to: self.to, king_move: self.king_move }
    }
}

impl StraightStrike {
    /// The cell of the captured piece.
    pub fn take(&self) -> (r: Option<BoardPos>)
        ensures
            r == Some(self.take),
    {
        Some(self.take)
    }

    pub fn from(&self) -> (r: BoardPos)
        ensures
            r == self.from,
    {
        self.from
    }

    pub fn to(&self) -> (r: BoardPos)
        ensures
            r == self.to,
    {
        self.to
    }

    /// Marks the jump as one that promotes the piece.
    pub fn set_as_king(&mut self)
        ensures
            final(self)@ == (StraightStrikeView { king_move: true, ..old(self)@ }),
    {
        self.king_move = true;
    }

    pub fn is_king(&self) -> (r: bool)
        ensures
            r == self.king_move,
    {
        self.king_move
    }

    /// Starts a walk over the cells the jump may land on.
    pub fn into_iter(&self) -> (it: StraightStrikeIter<'_>)
        ensures
            it.v@ == self.v@,
            it.rest == 0,
    {
        StraightStrikeIter { rest: 0, v: &self.v }
    }
}

/// A walk over the landing cells of a [`StraightStrike`].
pub struct StraightStrikeIter<'a> {
    pub v: &'a Vec<BoardPos>,
    pub rest: BoardPos,
}

impl<'a> StraightStrikeIter<'a> {
    /// Yields the next landing cell, or `None` after the last one.
    pub fn next(&mut self) -> (r: Option<BoardPos>)
        ensures
            final(self).v == old(self).v,
            old(self).rest < old(self).v@.len() ==> {
                &&& r == Some(old(self).v@[old(self).rest as int])
                &&& final(self).rest == old(self).rest + 1
            },
            old(self).rest >= old(self).v@.len() ==> {
                &&& r.is_none()
                &&& final(self).rest == old(self).rest
            },
    {
        if self.rest < self.v.len() {
            self.rest += 1;
            Some(self.v[self.rest - 1])
        } else {
            None
        }
    }
}

/// A move that captures nothing: the piece on `from` goes to the empty cell
/// `to`. `king_move` tells that the piece is promoted on arrival.
#[derive(Copy, Clone, Debug, PartialEq, Eq, Structural)]
pub struct QuietMove {
    pub from: BoardPos,
    pub to: BoardPos,
    pub king_move: bool,
}

impl QuietMove {
    /// A quiet move captures nothing.
    pub fn take(&self) -> (r: Option<BoardPos>)
        ensures
            r.is_none(),
    {
        None
    }

    pub fn from(&self) -> (r: BoardPos)
        ensures
            r == self.from,
    {
        self.from
    }

    pub fn to(&self) -> (r: BoardPos)
        ensures
            r == self.to,
    {
        self.to
    }

    /// Marks the move as one that promotes the piece.
    pub fn set_as_king(&mut self)
        ensures
            *final(self) == (QuietMove { king_move: true, ..*old(self) }),
    {
        self.king_move = true;
    }

    pub fn is_king(&self) -> (r: bool)
        ensures
            r == self.king_move,
    {
        self.king_move
    }

    pub fn is_king_move(&self) -> (r: bool)
        ensures
            r == self.king_move,
    {
        self.king_move
    }
}

} // verus!
