use vstd::prelude::*;
use std::cmp::Ordering;

verus! {

/// How a game ended: one of the five draws, or a win.
///
/// In executable code `==` holds all draws equal. Comparing with `<` and
/// `>` looks at the left side first: a win of Black is less than anything
/// but a win of Black, a win of White greater than anything but a win of
/// White, and a draw on the left compares as equal to everything.
#[derive(Copy, Clone, Debug)]
pub enum FinishType {
    /// Only kings moved for more than fifteen plies.
    Draw1,
    /// The position occurred for the third time.
    Draw2,
    /// One king stood against three or more for fifteen plies.
    Draw3,
    /// The material did not change for too long.
    Draw4,
    /// A lone king held the main road for ten plies.
    Draw5,
    BlackWin,
    WhiteWin,
}

impl FinishType {
    /// Whether the game ended in a draw.
    pub open spec fn is_draw(self) -> bool {
        !(self is BlackWin) && !(self is WhiteWin)
    }

    /// Whether two results are the same: both draws, or wins of the same
    /// side.
    pub open spec fn same(self, other: FinishType) -> bool {
        (self.is_draw() && other.is_draw()) || (self is BlackWin && other is BlackWin) || (self is WhiteWin
            && other is WhiteWin)
    }

    /// The result as a number: -1 a win of Black, 1 a win of White, 0 a
    /// draw.
    pub open spec fn rank(self) -> int {
        if self is BlackWin {
            -1
        } else if self is WhiteWin {
            1
        } else {
            0
        }
    }

    /// Whether the game ended in a draw.
    pub fn draw(&self) -> (r: bool)
        ensures
            r == self.is_draw(),
    {
        match self {
            FinishType::BlackWin => false,
            FinishType::WhiteWin => false,
            _ => true,
        }
    }

    /// The result seen from White: 1 a win, -1 a loss, 0 a draw.
    pub fn signum(&self) -> (r: i64)
        ensures
            r == self.rank(),
    {
        match self {
            FinishType::BlackWin => -1,
            FinishType::WhiteWin => 1,
            _ => 0,
        }
    }
}

impl PartialEq for FinishType {
    fn eq(&self, other: &Self) -> (r: bool) {
        self.signum() == other.signum()
    }
}

impl Eq for FinishType {

}

impl vstd::std_specs::cmp::PartialEqSpecImpl for FinishType {
    open spec fn obeys_eq_spec() -> bool {
        true
    }

    open spec fn eq_spec(&self, other: &Self) -> bool {
        self.same(*other)
    }
}

impl PartialOrd for FinishType {
    fn partial_cmp(&self, other: &Self) -> (r: Option<Ordering>) {
        let a = self.signum();
        let b = other.signum();
        if a == -1 && b != -1 {
            Some(Ordering::Less)
        } else if a == 1 && b != 1 {
            Some(Ordering::Greater)
        } else {
            Some(Ordering::Equal)
        }
    }
}

impl vstd::std_specs::cmp::PartialOrdSpecImpl for FinishType {
    open spec fn obeys_partial_cmp_spec() -> bool {
        true
    }

    open spec fn partial_cmp_spec(&self, other: &Self) -> Option<Ordering> {
        if self is BlackWin && !(other is BlackWin) {
            Some(Ordering::Less)
        } else if self is WhiteWin && !(other is WhiteWin) {
            Some(Ordering::Greater)
        } else {
            Some(Ordering::Equal)
        }
    }
}

} // verus!
