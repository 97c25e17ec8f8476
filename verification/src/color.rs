use vstd::prelude::*;

verus! {

/// The two sides of the game.
#[derive(Copy, Clone, Debug, PartialEq, Eq, Structural)]
pub enum Color {
    Black,
    White,
}

impl Color {
    /// The opposite side.
    pub open spec fn opposite(self) -> Color {
        match self {
            Color::White => Color::Black,
            Color::Black => Color::White,
        }
    }

    /// Flips the colour in place.
    pub fn reverse(&mut self)
        ensures
            *final(self) == old(self).opposite(),
    {
        *self = if *self == Color::Black {
            Color::White
        } else {
            Color::Black
        }
    }

    /// Returns the opposite side, leaving `self` untouched.
    pub fn inverse(&self) -> (r: Color)
        ensures
            r == self.opposite(),
    {
        if *self == Color::White {
            Color::Black
        } else {
            Color::White
        }
    }
}

} // verus!
