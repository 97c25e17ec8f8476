use vstd::prelude::*;
use crate::moves::{BoardPos, QuietMove, StraightStrike, StraightStrikeView};

verus! {

/// A capture chain: one or more consecutive jumps by the same piece.
/// `king_move` tells that the piece is promoted somewhere along the chain.
#[derive(Debug)]
pub struct Strike {
    pub vec: Vec<StraightStrike>,
    pub king_move: bool,
}

/// The mathematical value of a [`Strike`].
pub struct StrikeView {
    pub vec: Seq<StraightStrikeView>,
    pub king_move: bool,
}

/// The values of a sequence of jumps.
pub open spec fn jumps_view(s: Seq<StraightStrike>) -> Seq<StraightStrikeView> {
    Seq::new(s.len(), |i: int| s[i]@)
}

impl View for Strike {
    type V = StrikeView;

    open spec fn view(&self) -> StrikeView {
        StrikeView { vec: jumps_view(self.vec@), king_move: self.king_move }
    }
}

impl StrikeView {
    /// The chain with one more jump at its end; the chain promotes if it did
    /// before or if the new jump does.
    pub open spec fn extended(self, jump: StraightStrikeView) -> StrikeView {
        StrikeView { vec: self.vec.push(jump), king_move: self.king_move || jump.king_move }
    }
}

impl Clone for Strike {
    fn clone(&self) -> (r: Self)
        ensures
            r@ == self@,
    {
        let mut vec: Vec<StraightStrike> = Vec::new();
        let mut i: usize = 0;
        while i < self.vec.len()
            invariant
                i <= self.vec.len(),
                vec@.len() == i,
                forall|k: int| 0 <= k < i ==> vec@[k]@ == self.vec@[k]@,
            decreases self.vec.len() - i,
        {
            vec.push(self.vec[i].clone());
            i += 1;
        }
        assert(jumps_view(vec@) =~= jumps_view(self.vec@));
        Strike { vec, king_move: self.king_move }
    }
}

impl Strike {
    /// The empty chain.
    pub fn new() -> (s: Strike)
        ensures
            s@ == (StrikeView { vec: Seq::empty(), king_move: false }),
    {
        let s = Strike { vec: Vec::new(), king_move: false };
        assert(s@.vec =~= Seq::empty());
        s
    }

    /// The cell the capturing piece starts from.
    pub fn from(&self) -> (r: BoardPos)
        requires
            self.vec@.len() > 0,
        ensures
            r == self@.vec[0].from,
    {
        self.vec[0].from
    }

    /// The cell the capturing piece ends on.
    pub fn to(&self) -> (r: BoardPos)
        requires
            self.vec@.len() > 0,
        ensures
            r == self@.vec.last().to,
    {
        self.vec[self.vec.len() - 1].to
    }

    pub fn set_as_king(&mut self)
        ensures
            final(self)@ == (StrikeView { king_move: true, ..old(self)@ }),
    {
        self.king_move = true;
    }

    pub fn is_king_move(&self) -> (r: bool)
        ensures
            r == self.king_move,
    {
        self.king_move
    }
}

/// One legal move: either a quiet move or a capture chain, never both.
#[derive(Debug)]
pub struct MoveItem {
    pub strike: Option<Strike>,
    pub mov: Option<QuietMove>,
}

/// The mathematical value of a [`MoveItem`].
pub struct MoveItemView {
    pub strike: Option<StrikeView>,
    pub mov: Option<QuietMove>,
}

impl View for MoveItem {
    type V = MoveItemView;

    open spec fn view(&self) -> MoveItemView {
        MoveItemView {
            strike: match self.strike {
                Some(s) => Some(s@),
                None => None,
            },
            mov: self.mov,
        }
    }
}

impl MoveItemView {
    /// Exactly one of the two variants is populated, and a capture chain has
    /// at least one jump.
    pub open spec fn wf(self) -> bool {
        match (self.strike, self.mov) {
            (Some(s), None) => s.vec.len() > 0,
            (None, Some(_)) => true,
            _ => false,
        }
    }

    /// Something can be read from the item: a variant is populated, and a
    /// populated chain is not empty. The chain is looked at first.
    pub open spec fn readable(self) -> bool {
        match self.strike {
            Some(s) => s.vec.len() > 0,
            None => self.mov.is_some(),
        }
    }

    pub open spec fn from(self) -> BoardPos {
        match self.strike {
            Some(s) => s.vec[0].from,
            None => self.mov.unwrap().from,
        }
    }

    pub open spec fn to(self) -> BoardPos {
        match self.strike {
            Some(s) => s.vec.last().to,
            None => self.mov.unwrap().to,
        }
    }

    pub open spec fn is_king_move(self) -> bool {
        match self.strike {
            Some(s) => s.king_move,
            None => self.mov.unwrap().king_move,
        }
    }

    /// The single steps of the move as pairs `(from, to)`: one pair for a
    /// quiet move, one per jump for a capture chain.
    pub open spec fn steps(self) -> Seq<(BoardPos, BoardPos)> {
        match self.mov {
            Some(m) => seq![(m.from, m.to)],
            None => match self.strike {
                Some(s) => Seq::new(s.vec.len(), |i: int| (s.vec[i].from, s.vec[i].to)),
                None => Seq::empty(),
            },
        }
    }
}

impl Clone for MoveItem {
    fn clone(&self) -> (r: Self)
        ensures
            r@ == self@,
    {
        let strike = match &self.strike {
            Some(s) => Some(s.clone()),
            None => None,
        };
        MoveItem { strike, mov: self.mov }
    }
}

/// Whether two jumps are the same.
pub fn same_jump(a: &StraightStrike, b: &StraightStrike) -> (r: bool)
    ensures
        r == (a@ == b@),
{
    if a.from != b.from || a.to != b.to || a.take != b.take || a.king_move != b.king_move || a.v.len()
        != b.v.len() {
        return false;
    }
    let mut i: usize = 0;
    while i < a.v.len()
        invariant
            i <= a.v@.len(),
            a.v@.len() == b.v@.len(),
            forall|k: int| 0 <= k < i ==> a.v@[k] == b.v@[k],
        decreases a.v@.len() - i,
    {
        if a.v[i] != b.v[i] {
            return false;
        }
        i += 1;
    }
    assert(a.v@ =~= b.v@);
    true
}

/// Whether two capture chains are the same.
pub fn same_strike(a: &Strike, b: &Strike) -> (r: bool)
    ensures
        r == (a@ == b@),
{
    if a.king_move != b.king_move || a.vec.len() != b.vec.len() {
        assert(a@.vec.len() != b@.vec.len() || a@.king_move != b@.king_move);
        return false;
    }
    let mut i: usize = 0;
    while i < a.vec.len()
        invariant
            i <= a.vec@.len(),
            a.vec@.len() == b.vec@.len(),
            forall|k: int| 0 <= k < i ==> a.vec@[k]@ == b.vec@[k]@,
        decreases a.vec@.len() - i,
    {
        if !same_jump(&a.vec[i], &b.vec[i]) {
            assert(a@.vec[i as int] != b@.vec[i as int]);
            return false;
        }
        i += 1;
    }
    assert(a@.vec =~= b@.vec);
    true
}

impl MoveItem {
    /// Whether two moves are the same.
    pub fn same_move(&self, other: &MoveItem) -> (r: bool)
        ensures
            r == (self@ == other@),
    {
        let quiet = match (&self.mov, &other.mov) {
            (Some(a), Some(b)) => a.from == b.from && a.to == b.to && a.king_move == b.king_move,
            (None, None) => true,
            _ => false,
        };
        if !quiet {
            return false;
        }
        match (&self.strike, &other.strike) {
            (Some(a), Some(b)) => same_strike(a, b),
            (None, None) => true,
            _ => false,
        }
    }

    /// Whether something can be read from the item.
    pub fn is_readable(&self) -> (r: bool)
        ensures
            r == self@.readable(),
    {
        match &self.strike {
            Some(s) => s.vec.len() > 0,
            None => self.mov.is_some(),
        }
    }

    /// The cell the moving piece starts from.
    pub fn from(&self) -> (r: BoardPos)
        requires
            self@.readable(),
        ensures
            r == self@.from(),
    {
        match &self.strike {
            Some(s) => s.from(),
            None => match &self.mov {
                Some(m) => m.from,
                None => 0,
            },
        }
    }

    /// The cell the moving piece ends on.
    pub fn to(&self) -> (r: BoardPos)
        requires
            self@.readable(),
        ensures
            r == self@.to(),
    {
        match &self.strike {
            Some(s) => s.to(),
            None => match &self.mov {
                Some(m) => m.to,
                None => 0,
            },
        }
    }

    /// Whether the move promotes the piece.
    pub fn is_king_move(&self) -> (r: bool)
        requires
            self@.readable(),
        ensures
            r == self@.is_king_move(),
    {
        match &self.strike {
            Some(s) => s.king_move,
            None => match &self.mov {
                Some(m) => m.king_move,
                None => false,
            },
        }
    }

    /// The single steps of the move, in order.
    pub fn steps(&self) -> (r: Vec<(BoardPos, BoardPos)>)
        ensures
            r@ == self@.steps(),
    {
        let mut r: Vec<(BoardPos, BoardPos)> = Vec::new();
        match &self.mov {
            Some(m) => {
                r.push((m.from, m.to));
                assert(r@ =~= self@.steps());
            },
            None => match &self.strike {
                Some(s) => {
                    let mut i: usize = 0;
                    while i < s.vec.len()
                        invariant
                            i <= s.vec.len(),
                            r@.len() == i,
                            forall|k: int| 0 <= k < i ==> r@[k] == (s@.vec[k].from, s@.vec[k].to),
                        decreases s.vec.len() - i,
                    {
                        r.push((s.vec[i].from, s.vec[i].to));
                        i += 1;
                    }
                    assert(r@ =~= self@.steps());
                },
                None => {
                    assert(r@ =~= self@.steps());
                },
            },
        }
        r
    }
}

/// The moves found for a position, with the capture chain that is being built
/// while the search is under way.
#[derive(Debug)]
pub struct MoveList {
    pub list: Vec<MoveItem>,
    pub current_chain: Strike,
}

/// The values of a sequence of moves.
pub open spec fn items_view(s: Seq<MoveItem>) -> Seq<MoveItemView> {
    Seq::new(s.len(), |i: int| s[i]@)
}

/// The mathematical value of a [`MoveList`].
pub struct MoveListView {
    pub list: Seq<MoveItemView>,
    pub current_chain: StrikeView,
}

impl View for MoveList {
    type V = MoveListView;

    open spec fn view(&self) -> MoveListView {
        MoveListView { list: items_view(self.list@), current_chain: self.current_chain@ }
    }
}

impl Clone for MoveList {
    fn clone(&self) -> (r: Self)
        ensures
            r@ == self@,
    {
        let mut list: Vec<MoveItem> = Vec::new();
        let mut i: usize = 0;
        while i < self.list.len()
            invariant
                i <= self.list.len(),
                list@.len() == i,
                forall|k: int| 0 <= k < i ==> list@[k]@ == self.list@[k]@,
            decreases self.list.len() - i,
        {
            list.push(self.list[i].clone());
            i += 1;
        }
        assert(items_view(list@) =~= items_view(self.list@));
        MoveList { list, current_chain: self.current_chain.clone() }
    }
}

impl MoveList {
    /// An empty list with an empty chain.
    pub fn new() -> (l: MoveList)
        ensures
            l@.list == Seq::<MoveItemView>::empty(),
            l@.current_chain == (StrikeView { vec: Seq::empty(), king_move: false }),
    {
        let l = MoveList { list: Vec::new(), current_chain: Strike::new() };
        assert(l@.list =~= Seq::<MoveItemView>::empty());
        l
    }
}

} // verus!
