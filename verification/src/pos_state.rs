use vstd::prelude::*;
use crate::board::{census, Cells};
use crate::color::Color;

verus! {

/// The largest number of cells a position may have. With more, the
/// evaluation of the material could leave the range of its type.
pub const MAX_CELLS: usize = 4096;

/// How many men and kings one side has.
#[derive(Copy, Clone, Debug, PartialEq, Eq, Structural)]
pub struct PieceCount {
    pub simple: u32,
    pub king: u32,
}

/// The summary of a position: the piece counts of both sides, and the
/// plies at which the runs watched by the draw rules began.
///
/// Two summaries compare equal with `==` in executable code when their
/// piece counts are equal, whatever the runs.
#[derive(Copy, Clone, Debug)]
pub struct PosState {
    pub black: PieceCount,
    pub white: PieceCount,
    pub kings_start_at: Option<usize>,
    pub kings_only_move_start_at: Option<usize>,
    pub triangle_start_at: Option<usize>,
    pub power_equal_start_at: Option<usize>,
    pub main_road_start_at: Option<usize>,
    pub repeats: u8,
}

impl PartialEq for PosState {
    fn eq(&self, other: &Self) -> (r: bool) {
        self.black.simple == other.black.simple && self.black.king == other.black.king
            && self.white.simple == other.white.simple && self.white.king == other.white.king
    }
}

impl vstd::std_specs::cmp::PartialEqSpecImpl for PosState {
    open spec fn obeys_eq_spec() -> bool {
        true
    }

    open spec fn eq_spec(&self, other: &Self) -> bool {
        self.black.simple == other.black.simple && self.black.king == other.black.king
            && self.white.simple == other.white.simple && self.white.king == other.white.king
    }
}

impl PartialOrd for PosState {
    /// Summaries are ordered by their material balance.
    fn partial_cmp(&self, other: &Self) -> (r: Option<std::cmp::Ordering>) {
        let a = self.balance();
        let b = other.balance();
        if a < b {
            Some(std::cmp::Ordering::Less)
        } else if a > b {
            Some(std::cmp::Ordering::Greater)
        } else {
            Some(std::cmp::Ordering::Equal)
        }
    }
}

impl vstd::std_specs::cmp::PartialOrdSpecImpl for PosState {
    open spec fn obeys_partial_cmp_spec() -> bool {
        true
    }

    open spec fn partial_cmp_spec(&self, other: &Self) -> Option<std::cmp::Ordering> {
        if self.material() < other.material() {
            Some(std::cmp::Ordering::Less)
        } else if self.material() > other.material() {
            Some(std::cmp::Ordering::Greater)
        } else {
            Some(std::cmp::Ordering::Equal)
        }
    }
}

impl PosState {
    /// The material balance in a type wide enough for any counts.
    pub fn balance(&self) -> (r: i64)
        ensures
            r == self.material(),
    {
        self.white.simple as i64 * 10000 + self.white.king as i64 * 30000 - self.black.simple as i64 * 10000
            - self.black.king as i64 * 30000
    }

    /// The summary of an empty board with no run under way.
    pub open spec fn empty() -> PosState {
        PosState {
            black: PieceCount { simple: 0, king: 0 },
            white: PieceCount { simple: 0, king: 0 },
            kings_start_at: None,
            kings_only_move_start_at: None,
            triangle_start_at: None,
            power_equal_start_at: None,
            main_road_start_at: None,
            repeats: 0,
        }
    }

    /// The counts of one side.
    pub open spec fn count_of(self, color: Color) -> PieceCount {
        if color == Color::Black { self.black } else { self.white }
    }

    /// The summary with the counts of one side replaced.
    pub open spec fn with_count(self, color: Color, count: PieceCount) -> PosState {
        if color == Color::Black {
            PosState { black: count, ..self }
        } else {
            PosState { white: count, ..self }
        }
    }

    /// The summary with one count of one side moved by `delta`.
    pub open spec fn changed(self, color: Color, king: bool, delta: int) -> PosState {
        let c = self.count_of(color);
        let c2 = if king {
            PieceCount { king: (c.king + delta) as u32, ..c }
        } else {
            PieceCount { simple: (c.simple + delta) as u32, ..c }
        };
        self.with_count(color, c2)
    }

    /// The two summaries hold the same piece counts.
    pub open spec fn same_counts(self, other: PosState) -> bool {
        self.black == other.black && self.white == other.white
    }

    /// No count exceeds the number of cells a position may have.
    pub open spec fn fits(self) -> bool {
        &&& self.black.simple <= MAX_CELLS
        &&& self.black.king <= MAX_CELLS
        &&& self.white.simple <= MAX_CELLS
        &&& self.white.king <= MAX_CELLS
    }

    /// The counts are those of the pieces on `cells`.
    pub open spec fn counts(self, cells: Cells) -> bool {
        &&& self.black.simple == census(cells, Color::Black, false)
        &&& self.black.king == census(cells, Color::Black, true)
        &&& self.white.simple == census(cells, Color::White, false)
        &&& self.white.king == census(cells, Color::White, true)
    }

    /// The number of pieces on the board.
    pub open spec fn total(self) -> int {
        self.black.king + self.black.simple + self.white.king + self.white.simple
    }

    /// The material balance: 10000 a man, 30000 a king, White's less
    /// Black's.
    pub open spec fn material(self) -> int {
        self.white.simple * 10000 + self.white.king * 30000 - self.black.simple * 10000
            - self.black.king * 30000
    }

    /// The counts of one side, to read or to change.
    pub fn get_count(&mut self, color: Color) -> (r: &mut PieceCount)
        ensures
            *r == old(self).count_of(color),
            *final(self) == old(self).with_count(color, *final(r)),
    {
        if color == Color::Black {
            &mut self.black
        } else {
            &mut self.white
        }
    }

    /// Whether the two summaries hold the same piece counts.
    pub fn eq_counts(&self, other: &PosState) -> (r: bool)
        ensures
            r == self.same_counts(*other),
    {
        self.black.simple == other.black.simple && self.black.king == other.black.king
            && self.white.simple == other.white.simple && self.white.king == other.white.king
    }

    pub fn get_total(&self) -> (r: i32)
        requires
            self.fits(),
        ensures
            r == self.total(),
    {
        (self.black.king + self.black.simple + self.white.king + self.white.simple) as i32
    }

    /// The number of pieces of one side.
    pub fn get_total_color(&mut self, color: Color) -> (r: i32)
        requires
            old(self).fits(),
        ensures
            r == old(self).count_of(color).king + old(self).count_of(color).simple,
            *final(self) == *old(self),
    {
        let cnt = self.get_count(color);
        (cnt.king + cnt.simple) as i32
    }

    pub fn evaluate(&self) -> (r: i32)
        requires
            self.fits(),
        ensures
            r == self.material(),
    {
        self.white.simple as i32 * 10000 + self.white.king as i32 * 30000 - self.black.simple as i32
            * 10000 - self.black.king as i32 * 30000
    }
}

} // verus!
