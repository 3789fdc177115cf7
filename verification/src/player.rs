//! The two sides of the game.

use vstd::prelude::*;

verus! {

/// One of the two sides.  White owns the pawn group packed in the low
/// fields and moves first in the standard initial layout.
#[derive(Copy, Clone, Debug, Hash, PartialEq, Eq, Structural)]
pub enum Player {
    White,
    Black,
}

impl Player {
    /// The other side.
    pub fn opponent(&self) -> (r: Player)
        ensures
            r == self.spec_opponent(),
    {
        match self {
            Self::White => Self::Black,
            Self::Black => Self::White,
        }
    }

    /// The other side, as a specification function.
    pub open spec fn spec_opponent(self) -> Player {
        match self {
            Player::White => Player::Black,
            Player::Black => Player::White,
        }
    }
}

} // verus!
