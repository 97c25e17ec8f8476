use vstd::prelude::*;
use crate::color::Color;
use crate::moves::BoardPos;

verus! {

/// A piece standing on one playable square.
///
/// `pos` is the index of the square in the packed board (dark squares only).
/// `stricken` marks a piece that has been jumped over during a capture chain
/// that is still being explored; such a piece stays on the board until the
/// chain is finished.
#[derive(Copy, Clone, Debug, PartialEq, Eq, Structural)]
pub struct Piece {
    pub pos: BoardPos,
    pub color: Color,
    pub is_king: bool,
    pub stricken: bool,
}

impl Piece {
    /// A fresh, un-stricken piece.
    pub fn new(pos: BoardPos, color: Color, is_king: bool) -> (p: Piece)
        ensures
            p == (Piece { pos, color, is_king, stricken: false }),
    {
        Piece { pos, color, is_king, stricken: false }
    }

    /// The weight of the piece in the signed board encoding:
    /// a king counts three, a man one; White is positive, Black negative.
    pub open spec fn signed_weight(self) -> int {
        let w: int = if self.is_king { 3 } else { 1 };
        if self.color == Color::Black { -w } else { w }
    }
}

} // verus!
