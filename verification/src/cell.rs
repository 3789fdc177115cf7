//! Classification of a single board cell.

use vstd::prelude::*;
use crate::player::Player;

verus! {

/// What occupies one cell of the 5x5 board.
#[derive(Hash, Copy, Clone, Debug, PartialEq, Eq, Structural)]
pub enum CellState {
    Empty,
    WhitePawn,
    BlackPawn,
    WhiteKing,
    BlackKing,
}

impl CellState {
    /// Whether the occupant is a king; only kings may come to rest on the
    /// center cell.
    pub fn is_king(&self) -> (r: bool)
        ensures
            r == self.spec_is_king(),
    {
        match self {
            Self::WhiteKing | Self::BlackKing => true,
            _ => false,
        }
    }

    pub open spec fn spec_is_king(self) -> bool {
        self == CellState::WhiteKing || self == CellState::BlackKing
    }

    /// Whether the occupant belongs to the given side.
    pub fn is_player(&self, player: Player) -> (r: bool)
        ensures
            r == self.spec_is_player(player),
    {
        match (self, player) {
            (Self::WhitePawn, Player::White) => true,
            (Self::BlackPawn, Player::Black) => true,
            (Self::WhiteKing, Player::White) => true,
            (Self::BlackKing, Player::Black) => true,
            _ => false,
        }
    }

    pub open spec fn spec_is_player(self, player: Player) -> bool {
        match player {
            Player::White => self == CellState::WhitePawn || self == CellState::WhiteKing,
            Player::Black => self == CellState::BlackPawn || self == CellState::BlackKing,
        }
    }
}

} // verus!
