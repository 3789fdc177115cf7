//! Search engine for a two-player race game on a 5x5 board: each side owns
//! four pawns and a king, every piece slides the maximal unobstructed
//! distance in one of eight directions, and the first king to reach the
//! center cell wins.  Positions are kept in a bit-packed canonical form; the
//! engine runs iterative-deepening alpha-beta search over them.

pub mod board;
pub mod board2;
pub mod cell;
pub mod geometry;
pub mod player;
pub mod search;

pub use search::{find_best_move, PartialSearchResult, SearchResult};
