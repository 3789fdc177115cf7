//! The direct cell-array board: a 5x5 grid of cell classes with a
//! step-by-step move generator.  It is the plain-representation
//! counterpart of the packed position and serves as its correctness
//! oracle.

use vstd::prelude::*;

use crate::board2::Board2;
use crate::cell::CellState;
use crate::geometry::{
    dir_of_index, dir_from_index, lemma_slide_free, lemma_slide_in_range, lemma_step_room, room,
    spec_slide, step_cell,
};
use crate::player::Player;
use rand::Rng;

pub use crate::geometry::Dir;

verus! {

/// A position as a plain 5x5 array of cell classes.
#[derive(Clone, Copy, Hash, PartialEq, Eq)]
pub struct BoardState {
    pub state: [[CellState; 5]; 5],
}

/// The occupant of the standard initial layout at cell `i`.
pub open spec fn spec_initial_class(i: int) -> CellState {
    if i == 2 {
        CellState::WhiteKing
    } else if i == 22 {
        CellState::BlackKing
    } else if 0 <= i < 5 {
        CellState::WhitePawn
    } else if 20 <= i < 25 {
        CellState::BlackPawn
    } else {
        CellState::Empty
    }
}

/// The initial layout with the kings exchanged, at cell `i`.
pub open spec fn spec_inversed_class(i: int) -> CellState {
    if i == 2 {
        CellState::BlackKing
    } else if i == 22 {
        CellState::WhiteKing
    } else if 0 <= i < 5 {
        CellState::WhitePawn
    } else if 20 <= i < 25 {
        CellState::BlackPawn
    } else {
        CellState::Empty
    }
}

impl BoardState {
    /// The occupant of the cell in row `r`, column `c`.
    pub open spec fn cell(self, r: int, c: int) -> CellState {
        self.state[r][c]
    }

    /// The occupant of the cell with index `i` (row-major).
    pub open spec fn cell_at(self, i: int) -> CellState {
        self.cell(i / 5, i % 5)
    }

    /// The occupancy of the board as a predicate on cell indices.
    pub open spec fn occ(self) -> spec_fn(int) -> bool {
        |i: int| self.cell(i / 5, i % 5) != CellState::Empty
    }

    /// The standard initial layout: each side's pawns and king on its own
    /// back rank.
    pub fn new() -> (r: BoardState)
        ensures
            forall|i: int| 0 <= i < 25 ==> #[trigger] r.cell_at(i) == spec_initial_class(i),
    {
        let b = BoardState {
            state: [
                [
                    CellState::WhitePawn,
                    CellState::WhitePawn,
                    CellState::WhiteKing,
                    CellState::WhitePawn,
                    CellState::WhitePawn,
                ],
                [
                    CellState::Empty,
                    CellState::Empty,
                    CellState::Empty,
                    CellState::Empty,
                    CellState::Empty,
                ],
                [
                    CellState::Empty,
                    CellState::Empty,
                    CellState::Empty,
                    CellState::Empty,
                    CellState::Empty,
                ],
                [
                    CellState::Empty,
                    CellState::Empty,
                    CellState::Empty,
                    CellState::Empty,
                    CellState::Empty,
                ],
                [
                    CellState::BlackPawn,
                    CellState::BlackPawn,
                    CellState::BlackKing,
                    CellState::BlackPawn,
                    CellState::BlackPawn,
                ],
            ],
        };
        proof {
            assert forall|i: int| 0 <= i < 25 implies #[trigger] b.cell_at(i)
                == spec_initial_class(i) by {
                assert(0 <= i / 5 < 5 && 0 <= i % 5 < 5);
            }
        }
        b
    }

    /// The initial layout with the two kings exchanged.
    pub fn new_with_king_inversed() -> (r: BoardState)
        ensures
            forall|i: int| 0 <= i < 25 ==> #[trigger] r.cell_at(i) == spec_inversed_class(i),
    {
        let b = BoardState {
            state: [
                [
                    CellState::WhitePawn,
                    CellState::WhitePawn,
                    CellState::BlackKing,
                    CellState::WhitePawn,
                    CellState::WhitePawn,
                ],
                [
                    CellState::Empty,
                    CellState::Empty,
                    CellState::Empty,
                    CellState::Empty,
                    CellState::Empty,
                ],
                [
                    CellState::Empty,
                    CellState::Empty,
                    CellState::Empty,
                    CellState::Empty,
                    CellState::Empty,
                ],
                [
                    CellState::Empty,
                    CellState::Empty,
                    CellState::Empty,
                    CellState::Empty,
                    CellState::Empty,
                ],
                [
                    CellState::BlackPawn,
                    CellState::BlackPawn,
                    CellState::WhiteKing,
                    CellState::BlackPawn,
                    CellState::BlackPawn,
                ],
            ],
        };
        proof {
            assert forall|i: int| 0 <= i < 25 implies #[trigger] b.cell_at(i)
                == spec_inversed_class(i) by {
                assert(0 <= i / 5 < 5 && 0 <= i % 5 < 5);
            }
        }
        b
    }

    /// Which side has won: the owner of a king standing on the center.
    pub open spec fn spec_winner(self) -> Option<Player> {
        if self.cell(2, 2) == CellState::WhiteKing {
            Option::Some(Player::White)
        } else if self.cell(2, 2) == CellState::BlackKing {
            Option::Some(Player::Black)
        } else {
            Option::None
        }
    }

    pub fn winner(&self) -> (r: Option<Player>)
        ensures
            r == self.spec_winner(),
    {
        match self.state[2][2] {
            CellState::WhiteKing => Option::Some(Player::White),
            CellState::BlackKing => Option::Some(Player::Black),
            _ => Option::None,
        }
    }
}

impl BoardState {
    /// Read one cell by its row-major index.
    fn cell_index(&self, i: u8) -> (r: CellState)
        requires
            i < 25,
        ensures
            r == self.cell_at(i as int),
    {
        let row = (i / 5) as usize;
        let col = (i % 5) as usize;
        self.state[row][col]
    }

    /// Whether the slide from `c0` toward `d` is a legal move for the
    /// piece standing there: it makes progress, and only a king may come
    /// to rest on the center.
    pub open spec fn board_move_allowed(self, c0: int, d: Dir) -> bool {
        let t = spec_slide(self.occ(), c0, d);
        &&& t != c0
        &&& (self.cell_at(c0).spec_is_king() || t != 12)
    }

    /// The plain-board move relation: the occupant of `c0` moved to the
    /// maximal-slide destination, every other cell is unchanged.
    pub open spec fn board_move_rel(self, c0: int, d: Dir, b: BoardState) -> bool {
        let t = spec_slide(self.occ(), c0, d);
        forall|i: int|
            0 <= i < 25 ==> #[trigger] b.cell_at(i) == (if i == c0 {
                CellState::Empty
            } else if i == t {
                self.cell_at(c0)
            } else {
                self.cell_at(i)
            })
    }

    /// Slide the piece at `from` as far as it can travel toward `dir`;
    /// nothing when the slide is blocked at once or would rest a pawn on
    /// the center.
    pub fn make_move(&self, from: (usize, usize), dir: Dir) -> (r: Option<BoardState>)
        requires
            from.0 < 5,
            from.1 < 5,
        ensures
            (r is Some) == self.board_move_allowed((5 * from.0 + from.1) as int, dir),
            (match r {
                Option::Some(b) => self.board_move_rel((5 * from.0 + from.1) as int, dir, b),
                Option::None => true,
            }),
    {
        let c0: u8 = (5 * from.0 + from.1) as u8;
        let cellv = self.cell_index(c0);
        let mut cur: u8 = c0;
        loop
            invariant
                cur < 25,
                c0 == 5 * from.0 + from.1,
                from.0 < 5,
                from.1 < 5,
                spec_slide(self.occ(), c0 as int, dir) == spec_slide(self.occ(), cur as int, dir),
            ensures
                cur < 25,
                cur as int == spec_slide(self.occ(), c0 as int, dir),
            decreases room(cur as int, dir),
        {
            match step_cell(cur, dir) {
                Option::None => {
                    proof {
                        assert(spec_slide(self.occ(), cur as int, dir) == cur as int);
                    }
                    break ;
                },
                Option::Some(n) => {
                    if !matches!(self.cell_index(n), CellState::Empty) {
                        proof {
                            assert(self.occ()(n as int));
                            assert(spec_slide(self.occ(), cur as int, dir) == cur as int);
                        }
                        break ;
                    } else {
                        proof {
                            assert(!self.occ()(n as int));
                            assert(spec_slide(self.occ(), cur as int, dir) == spec_slide(
                                self.occ(),
                                n as int,
                                dir,
                            ));
                            lemma_step_room(cur as int, dir);
                        }
                        cur = n;
                    }
                },
            }
        }
        if cur == c0 {
            return Option::None;
        }
        if !cellv.is_king() && cur == 12 {
            return Option::None;
        }
        let tr = (cur / 5) as usize;
        let tc = (cur % 5) as usize;
        let mut st = self.state;
        let mut fr_row = st[from.0];
        fr_row[from.1] = CellState::Empty;
        st[from.0] = fr_row;
        let mut to_row = st[tr];
        to_row[tc] = cellv;
        st[tr] = to_row;
        let b = BoardState { state: st };
        proof {
            let c0i = c0 as int;
            let t = spec_slide(self.occ(), c0i, dir);
            assert(t == cur as int);
            assert(tr as int == t / 5 && tc as int == t % 5);
            assert(from.0 as int == c0i / 5 && from.1 as int == c0i % 5);
            assert forall|i: int| 0 <= i < 25 implies #[trigger] b.cell_at(i) == (if i == c0i {
                CellState::Empty
            } else if i == t {
                self.cell_at(c0i)
            } else {
                self.cell_at(i)
            }) by {
                assert(0 <= i / 5 < 5 && 0 <= i % 5 < 5);
                assert(i == 5 * (i / 5) + i % 5);
            }
        }
        Option::Some(b)
    }

    /// Whether the `n`-th cell-direction pair (cell `n / 8`, direction
    /// `n % 8`) yields a move for `player`.
    pub open spec fn pair_allowed(self, player: Player, n: int) -> bool {
        &&& self.cell_at(n / 8).spec_is_player(player)
        &&& self.board_move_allowed(n / 8, dir_of_index(n % 8))
    }

    /// The indices of the allowed pairs among the first `n` of the 200
    /// cell-direction pairs, in board scan order.
    pub open spec fn board_moves_prefix(self, player: Player, n: int) -> Seq<int>
        decreases n,
    {
        if n <= 0 {
            Seq::empty()
        } else {
            self.board_moves_prefix(player, n - 1) + (if self.pair_allowed(player, n - 1) {
                seq![n - 1]
            } else {
                Seq::empty()
            })
        }
    }

    /// Every legal cell-direction pair of `player`, scanning cells in
    /// row-major order and directions in the fixed enumeration order.
    pub open spec fn spec_move_pairs(self, player: Player) -> Seq<int> {
        self.board_moves_prefix(player, 200)
    }

    /// All positions `player` can reach in one move; empty when the game
    /// is already decided.
    pub fn next_moves(&self, player: Player) -> (r: Vec<BoardState>)
        ensures
            (self.spec_winner() is Some) ==> r@.len() == 0,
            (self.spec_winner() is None) ==> r@.len() == self.spec_move_pairs(player).len(),
            (self.spec_winner() is None) ==> forall|q: int|
                0 <= q < r@.len() ==> self.board_move_rel(
                    #[trigger] self.spec_move_pairs(player)[q] / 8,
                    dir_of_index(self.spec_move_pairs(player)[q] % 8),
                    r@[q],
                ),
    {
        let mut moves: Vec<BoardState> = Vec::new();
        if self.winner().is_some() {
            return moves;
        }
        let mut c0: usize = 0;
        while c0 < 25
            invariant
                c0 <= 25,
                self.spec_winner() is None,
                moves@.len() == self.board_moves_prefix(player, 8 * c0).len(),
                forall|q: int|
                    0 <= q < moves@.len() ==> self.board_move_rel(
                        #[trigger] self.board_moves_prefix(player, 8 * c0)[q] / 8,
                        dir_of_index(self.board_moves_prefix(player, 8 * c0)[q] % 8),
                        moves@[q],
                    ),
            decreases 25 - c0,
        {
            let pos = (c0 / 5, c0 % 5);
            let cellv = self.cell_index(c0 as u8);
            proof {
                assert(cellv == self.cell_at(c0 as int));
            }
            if cellv.is_player(player) {
                let mut d: usize = 0;
                while d < 8
                    invariant
                        d <= 8,
                        c0 < 25,
                        pos == ((c0 / 5), (c0 % 5)),
                        self.spec_winner() is None,
                        self.cell_at(c0 as int).spec_is_player(player),
                        moves@.len() == self.board_moves_prefix(player, 8 * c0 + d).len(),
                        forall|q: int|
                            0 <= q < moves@.len() ==> self.board_move_rel(
                                #[trigger] self.board_moves_prefix(player, 8 * c0 + d)[q] / 8,
                                dir_of_index(self.board_moves_prefix(player, 8 * c0 + d)[q] % 8),
                                moves@[q],
                            ),
                    decreases 8 - d,
                {
                    let dir = dir_from_index(d);
                    let ghost n1 = 8 * c0 + d + 1;
                    proof {
                        assert((n1 - 1) / 8 == c0 as int && (n1 - 1) % 8 == d as int);
                        assert(5 * (c0 as int / 5) + c0 as int % 5 == c0 as int);
                    }
                    match self.make_move(pos, dir) {
                        Option::Some(b) => {
                            proof {
                                assert(self.pair_allowed(player, n1 - 1));
                            }
                            moves.push(b);
                        },
                        Option::None => {
                            proof {
                                assert(!self.pair_allowed(player, n1 - 1));
                            }
                        },
                    }
                    d = d + 1;
                }
            } else {
                proof {
                    lemma_prefix_skip_cell(*self, player, c0 as int);
                }
            }
            c0 = c0 + 1;
        }
        moves
    }
}

/// A cell whose occupant is not `player`'s contributes no pairs.
proof fn lemma_prefix_skip_cell(b: BoardState, player: Player, c0: int)
    requires
        0 <= c0 < 25,
        !b.cell_at(c0).spec_is_player(player),
    ensures
        b.board_moves_prefix(player, 8 * c0 + 8) == b.board_moves_prefix(player, 8 * c0),
{
    assert forall|d: int| 0 <= d < 8 implies !(#[trigger] b.pair_allowed(player, 8 * c0 + d)) by {
        assert((8 * c0 + d) / 8 == c0);
    }
    assert(b.board_moves_prefix(player, 8 * c0 + 1) == b.board_moves_prefix(player, 8 * c0));
    assert(b.board_moves_prefix(player, 8 * c0 + 2) == b.board_moves_prefix(player, 8 * c0 + 1));
    assert(b.board_moves_prefix(player, 8 * c0 + 3) == b.board_moves_prefix(player, 8 * c0 + 2));
    assert(b.board_moves_prefix(player, 8 * c0 + 4) == b.board_moves_prefix(player, 8 * c0 + 3));
    assert(b.board_moves_prefix(player, 8 * c0 + 5) == b.board_moves_prefix(player, 8 * c0 + 4));
    assert(b.board_moves_prefix(player, 8 * c0 + 6) == b.board_moves_prefix(player, 8 * c0 + 5));
    assert(b.board_moves_prefix(player, 8 * c0 + 7) == b.board_moves_prefix(player, 8 * c0 + 6));
    assert(b.board_moves_prefix(player, 8 * c0 + 8) == b.board_moves_prefix(player, 8 * c0 + 7));
}

/// The signed value one occupied cell contributes to the plain-board score.
pub open spec fn spec_cell_value(cs: CellState, c: int) -> int {
    match cs {
        CellState::Empty => 0,
        CellState::WhitePawn => crate::board2::spec_pawn_weight(c as u64),
        CellState::BlackPawn => -crate::board2::spec_pawn_weight(c as u64),
        CellState::WhiteKing => crate::board2::spec_king_weight(c as u64),
        CellState::BlackKing => -crate::board2::spec_king_weight(c as u64),
    }
}

impl BoardState {
    /// The positional sum over the first `n` cells.
    pub open spec fn score_prefix(self, n: int) -> int
        decreases n,
    {
        if n <= 0 {
            0
        } else {
            self.score_prefix(n - 1) + spec_cell_value(self.cell_at(n - 1), n - 1)
        }
    }

    /// The static evaluation: the decisive constant for a decided game,
    /// otherwise the per-cell positional sum, white minus black.
    pub open spec fn spec_board_score(self) -> int {
        if self.spec_winner() == Option::Some(Player::White) {
            100000
        } else if self.spec_winner() == Option::Some(Player::Black) {
            -100000
        } else {
            self.score_prefix(25)
        }
    }

    /// Static evaluation of the position, positive for white.
    pub fn score(&self) -> (r: i32)
        ensures
            r as int == self.spec_board_score(),
            -100000 <= r <= 100000,
    {
        match self.winner() {
            Option::Some(Player::White) => 100000,
            Option::Some(Player::Black) => -100000,
            Option::None => {
                let mut score: i32 = 0;
                let mut c0: usize = 0;
                while c0 < 25
                    invariant
                        c0 <= 25,
                        self.spec_winner() is None,
                        score as int == self.score_prefix(c0 as int),
                        -50 * c0 <= score as int <= 50 * c0,
                    decreases 25 - c0,
                {
                    let cellv = self.cell_index(c0 as u8);
                    proof {
                        assert(cellv == self.cell_at(c0 as int));
                        if c0 == 12 {
                            assert(12int / 5 == 2 && 12int % 5 == 2);
                            assert(!cellv.spec_is_king());
                        }
                    }
                    let v: i32 = match cellv {
                        CellState::Empty => 0,
                        CellState::WhitePawn => crate::board2::pawn_weight(c0 as u64),
                        CellState::BlackPawn => -crate::board2::pawn_weight(c0 as u64),
                        CellState::WhiteKing => crate::board2::king_weight(c0 as u64),
                        CellState::BlackKing => -crate::board2::king_weight(c0 as u64),
                    };
                    score = score + v;
                    c0 = c0 + 1;
                }
                score
            },
        }
    }
}

/// Counting a class over a longer prefix never loses occurrences.
proof fn lemma_count_mono(b: BoardState, cs: CellState, m: int, n: int)
    requires
        0 <= m <= n,
    ensures
        b.class_count(cs, m) <= b.class_count(cs, n),
    decreases n,
{
    if n > m {
        lemma_count_mono(b, cs, m, n - 1);
    }
}

impl BoardState {
    /// How many of the first `n` cells hold class `cs`.
    pub open spec fn class_count(self, cs: CellState, n: int) -> int
        decreases n,
    {
        if n <= 0 {
            0
        } else {
            self.class_count(cs, n - 1) + if self.cell_at(n - 1) == cs {
                1int
            } else {
                0int
            }
        }
    }

    /// The board holds exactly each side's four pawns and one king.
    pub open spec fn board_wf(self) -> bool {
        &&& self.class_count(CellState::WhitePawn, 25) == 4
        &&& self.class_count(CellState::BlackPawn, 25) == 4
        &&& self.class_count(CellState::WhiteKing, 25) == 1
        &&& self.class_count(CellState::BlackKing, 25) == 1
    }

    /// Pack this board into the canonical bit-packed position: the pawn
    /// cells of each side are collected in ascending order, so the result
    /// is canonical and shows the same occupant on every cell.
    pub fn to_board2(&self, player: Player) -> (r: Board2)
        requires
            self.board_wf(),
        ensures
            r.wf(),
            r.turn() == (player == Player::White),
            forall|c: int| 0 <= c < 25 ==> #[trigger] r.cell_class(c as u64) == self.cell_at(c),
            corresponds(*self, player, r),
    {
        let mut w: Vec<u8> = Vec::new();
        let mut bl: Vec<u8> = Vec::new();
        let mut wk: u8 = 0;
        let mut bk: u8 = 0;
        let mut wk_found = false;
        let mut bk_found = false;
        let mut c0: usize = 0;
        while c0 < 25
            invariant
                c0 <= 25,
                self.board_wf(),
                w@.len() == self.class_count(CellState::WhitePawn, c0 as int),
                bl@.len() == self.class_count(CellState::BlackPawn, c0 as int),
                (if wk_found {
                    1int
                } else {
                    0int
                }) == self.class_count(CellState::WhiteKing, c0 as int),
                (if bk_found {
                    1int
                } else {
                    0int
                }) == self.class_count(CellState::BlackKing, c0 as int),
                forall|q: int| 0 <= q < w@.len() ==> #[trigger] w@[q] < c0,
                forall|q: int|
                    0 <= q < w@.len() ==> self.cell_at(#[trigger] w@[q] as int)
                        == CellState::WhitePawn,
                forall|q: int, q2: int| 0 <= q < q2 < w@.len() ==> w@[q] < w@[q2],
                forall|q: int| 0 <= q < bl@.len() ==> #[trigger] bl@[q] < c0,
                forall|q: int|
                    0 <= q < bl@.len() ==> self.cell_at(#[trigger] bl@[q] as int)
                        == CellState::BlackPawn,
                forall|q: int, q2: int| 0 <= q < q2 < bl@.len() ==> bl@[q] < bl@[q2],
                wk_found ==> wk < c0 && self.cell_at(wk as int) == CellState::WhiteKing,
                bk_found ==> bk < c0 && self.cell_at(bk as int) == CellState::BlackKing,
                forall|i: int|
                    0 <= i < c0 && #[trigger] self.cell_at(i) == CellState::WhitePawn
                        ==> exists|q: int| 0 <= q < w@.len() && #[trigger] w@[q] as int == i,
                forall|i: int|
                    0 <= i < c0 && #[trigger] self.cell_at(i) == CellState::BlackPawn
                        ==> exists|q: int| 0 <= q < bl@.len() && #[trigger] bl@[q] as int == i,
                forall|i: int|
                    0 <= i < c0 && #[trigger] self.cell_at(i) == CellState::WhiteKing ==> wk_found
                        && wk as int == i,
                forall|i: int|
                    0 <= i < c0 && #[trigger] self.cell_at(i) == CellState::BlackKing ==> bk_found
                        && bk as int == i,
            decreases 25 - c0,
        {
            let cellv = self.cell_index(c0 as u8);
            proof {
                assert(cellv == self.cell_at(c0 as int));
                lemma_count_mono(*self, CellState::WhiteKing, c0 as int + 1, 25);
                lemma_count_mono(*self, CellState::BlackKing, c0 as int + 1, 25);
            }
            match cellv {
                CellState::WhitePawn => {
                    let ghost w0 = w@;
                    w.push(c0 as u8);
                    proof {
                        assert forall|i: int|
                            0 <= i < c0 + 1 && #[trigger] self.cell_at(i) == CellState::WhitePawn
                                implies exists|q: int|
                            0 <= q < w@.len() && #[trigger] w@[q] as int == i by {
                            if i < c0 {
                                let q = choose|q: int|
                                    0 <= q < w0.len() && #[trigger] w0[q] as int == i;
                                assert(w@[q] as int == i);
                            } else {
                                assert(w@[w@.len() - 1] as int == i);
                            }
                        }
                    }
                },
                CellState::BlackPawn => {
                    let ghost bl0 = bl@;
                    bl.push(c0 as u8);
                    proof {
                        assert forall|i: int|
                            0 <= i < c0 + 1 && #[trigger] self.cell_at(i) == CellState::BlackPawn
                                implies exists|q: int|
                            0 <= q < bl@.len() && #[trigger] bl@[q] as int == i by {
                            if i < c0 {
                                let q = choose|q: int|
                                    0 <= q < bl0.len() && #[trigger] bl0[q] as int == i;
                                assert(bl@[q] as int == i);
                            } else {
                                assert(bl@[bl@.len() - 1] as int == i);
                            }
                        }
                    }
                },
                CellState::WhiteKing => {
                    wk = c0 as u8;
                    wk_found = true;
                },
                CellState::BlackKing => {
                    bk = c0 as u8;
                    bk_found = true;
                },
                CellState::Empty => {},
            }
            c0 = c0 + 1;
        }
        proof {
            assert(w@.len() == 4 && bl@.len() == 4 && wk_found && bk_found);
        }
        let mut p: Vec<u8> = Vec::new();
        p.push(w[0]);
        p.push(w[1]);
        p.push(w[2]);
        p.push(w[3]);
        p.push(bl[0]);
        p.push(bl[1]);
        p.push(bl[2]);
        p.push(bl[3]);
        p.push(wk);
        p.push(bk);
        let r = Board2::from_fields(&p, matches!(player, Player::White));
        proof {
            assert(r.in_range()) by {
                assert forall|i: int| 0 <= i < 10 implies #[trigger] r.pos(i) < 25 by {
                    assert(r.pos(i) == p@[i]);
                }
            }
            assert(r.groups_sorted()) by {
                assert(r.pos(0) == w@[0] && r.pos(1) == w@[1] && r.pos(2) == w@[2] && r.pos(3)
                    == w@[3]);
                assert(r.pos(4) == bl@[0] && r.pos(5) == bl@[1] && r.pos(6) == bl@[2] && r.pos(7)
                    == bl@[3]);
            }
            assert(r.distinct()) by {
                assert forall|x: int, y: int| 0 <= x < y < 10 implies #[trigger] r.pos(x)
                    != #[trigger] r.pos(y) by {
                    assert(r.pos(x) == p@[x] && r.pos(y) == p@[y]);
                    let cx = self.cell_at(p@[x] as int);
                    let cy = self.cell_at(p@[y] as int);
                    assert(cx == (if x < 4 {
                        CellState::WhitePawn
                    } else if x < 8 {
                        CellState::BlackPawn
                    } else if x == 8 {
                        CellState::WhiteKing
                    } else {
                        CellState::BlackKing
                    }));
                    assert(cy == (if y < 4 {
                        CellState::WhitePawn
                    } else if y < 8 {
                        CellState::BlackPawn
                    } else if y == 8 {
                        CellState::WhiteKing
                    } else {
                        CellState::BlackKing
                    }));
                    if x < 4 && y < 4 {
                        assert(w@[x] < w@[y]);
                    } else if 4 <= x && x < 8 && 4 <= y && y < 8 {
                        assert(bl@[x - 4] < bl@[y - 4]);
                    } else {
                        assert(cx != cy);
                    }
                }
            }
            assert(r.wf());
            assert forall|c: int| 0 <= c < 25 implies #[trigger] r.cell_class(c as u64)
                == self.cell_at(c) by {
                assert(forall|k: int| 0 <= k < 10 ==> #[trigger] r.pos(k) == p@[k]);
                let cls = self.cell_at(c);
                if cls == CellState::BlackKing {
                    assert(bk as int == c);
                    assert(r.pos(9) == c as u64);
                } else if cls == CellState::WhiteKing {
                    assert(wk as int == c);
                    assert(r.pos(8) == c as u64);
                    assert(r.pos(9) == bk && self.cell_at(bk as int) == CellState::BlackKing);
                    assert(r.pos(9) != c as u64);
                } else if cls == CellState::BlackPawn {
                    let q = choose|q: int| 0 <= q < bl@.len() && #[trigger] bl@[q] as int == c;
                    assert(r.pos(4 + q) == c as u64);
                    assert(r.pos(8) != c as u64 && r.pos(9) != c as u64);
                    assert(r.cell_class(c as u64) == CellState::BlackPawn);
                } else if cls == CellState::WhitePawn {
                    let q = choose|q: int| 0 <= q < w@.len() && #[trigger] w@[q] as int == c;
                    assert(r.pos(q) == c as u64);
                    assert(r.pos(8) != c as u64 && r.pos(9) != c as u64);
                    assert(r.pos(4) != c as u64 && r.pos(5) != c as u64 && r.pos(6) != c as u64
                        && r.pos(7) != c as u64);
                    assert(r.cell_class(c as u64) == CellState::WhitePawn);
                } else {
                    assert forall|k: int| 0 <= k < 10 implies #[trigger] r.pos(k) != c as u64 by {
                        assert(self.cell_at(p@[k] as int) != CellState::Empty);
                    }
                    assert(r.cell_class(c as u64) == CellState::Empty);
                }
            }
        }
        r
    }
}

/// The packed position `p` depicts the plain board `b` with `player` to
/// move: both are well-formed, the turn flags agree, and every cell shows
/// the same occupant.
pub open spec fn corresponds(b: BoardState, player: Player, p: Board2) -> bool {
    &&& b.board_wf()
    &&& p.wf()
    &&& p.turn() == (player == Player::White)
    &&& forall|c: int| 0 <= c < 25 ==> #[trigger] p.cell_class(c as u64) == b.cell_at(c)
}

/// Corresponding positions have the same occupancy.
proof fn lemma_occ_agree(b: BoardState, player: Player, p: Board2)
    requires
        corresponds(b, player, p),
    ensures
        forall|i: int| 0 <= i < 25 ==> #[trigger] b.occ()(i) == p.occ_fn()(i),
{
    assert forall|i: int| 0 <= i < 25 implies #[trigger] b.occ()(i) == p.occ_fn()(i) by {
        crate::board2::lemma_class_occ(p, i as u64);
        assert(p.cell_class(i as u64) == b.cell_at(i));
    }
}

/// Generator equivalence, piece by piece: on corresponding positions, the
/// occupancy-driven packed generator and the direct cell-array generator
/// see the same piece at each slot of the side to move and allow exactly
/// the same slides, pawn-center exclusion included.
pub proof fn lemma_generators_agree(
    b: BoardState,
    player: Player,
    p: Board2,
    k: int,
    d_idx: int,
)
    requires
        corresponds(b, player, p),
        0 <= k < 5,
        0 <= d_idx < 8,
    ensures
        ({
            let j = p.side_slot(k);
            let c0 = p.pos(j) as int;
            &&& 0 <= c0 < 25
            &&& b.cell_at(c0).spec_is_player(player)
            &&& p.slide_dest(j, dir_of_index(d_idx)) == spec_slide(b.occ(), c0, dir_of_index(
                d_idx,
            ))
            &&& p.move_allowed(j, dir_of_index(d_idx)) == b.board_move_allowed(c0, dir_of_index(
                d_idx,
            ))
        }),
{
    let j = p.side_slot(k);
    let c0 = p.pos(j) as int;
    let d = dir_of_index(d_idx);
    assert(0 <= j < 10);
    crate::board2::lemma_class_of_slot(p, j);
    assert(b.cell_at(c0) == p.cell_class(c0 as u64));
    lemma_occ_agree(b, player, p);
    crate::geometry::lemma_slide_occ_congruence(p.occ_fn(), b.occ(), c0, d);
    assert(b.cell_at(c0).spec_is_king() == (j >= 8));
}

/// Generator equivalence, coverage: every piece of the side to move on
/// the plain board stands at the cell of some slot of the packed side.
pub proof fn lemma_side_pieces_covered(b: BoardState, player: Player, p: Board2, c0: int)
    requires
        corresponds(b, player, p),
        0 <= c0 < 25,
        b.cell_at(c0).spec_is_player(player),
    ensures
        exists|k: int| 0 <= k < 5 && #[trigger] p.pos(p.side_slot(k)) == c0 as u64,
{
    let cls = b.cell_at(c0);
    assert(p.cell_class(c0 as u64) == cls);
    match player {
        Player::White => {
            if cls == CellState::WhiteKing {
                assert(p.pos(p.side_slot(4)) == c0 as u64);
            } else {
                assert(cls == CellState::WhitePawn);
                if p.pos(0) == c0 as u64 {
                    assert(p.pos(p.side_slot(0)) == c0 as u64);
                } else if p.pos(1) == c0 as u64 {
                    assert(p.pos(p.side_slot(1)) == c0 as u64);
                } else if p.pos(2) == c0 as u64 {
                    assert(p.pos(p.side_slot(2)) == c0 as u64);
                } else {
                    assert(p.pos(3) == c0 as u64);
                    assert(p.pos(p.side_slot(3)) == c0 as u64);
                }
            }
        },
        Player::Black => {
            if cls == CellState::BlackKing {
                assert(p.pos(p.side_slot(4)) == c0 as u64);
            } else {
                assert(cls == CellState::BlackPawn);
                if p.pos(4) == c0 as u64 {
                    assert(p.pos(p.side_slot(0)) == c0 as u64);
                } else if p.pos(5) == c0 as u64 {
                    assert(p.pos(p.side_slot(1)) == c0 as u64);
                } else if p.pos(6) == c0 as u64 {
                    assert(p.pos(p.side_slot(2)) == c0 as u64);
                } else {
                    assert(p.pos(7) == c0 as u64);
                    assert(p.pos(p.side_slot(3)) == c0 as u64);
                }
            }
        },
    }
}

/// Generator equivalence, results: applying the same allowed slide to
/// corresponding positions yields corresponding positions again.  With
/// canonical uniqueness this pins the packed successor to the packed
/// image of the plain successor, so the two generators produce the same
/// set of canonical states.
#[verifier::rlimit(60)]
pub proof fn lemma_move_results_correspond(
    b: BoardState,
    player: Player,
    p: Board2,
    k: int,
    d_idx: int,
    s2: Board2,
    b2: BoardState,
)
    requires
        corresponds(b, player, p),
        0 <= k < 5,
        0 <= d_idx < 8,
        p.move_allowed(p.side_slot(k), dir_of_index(d_idx)),
        crate::board2::do_move_rel(
            p,
            p.move_at(p.side_slot(k), dir_of_index(d_idx)),
            s2,
        ),
        b.board_move_rel(p.pos(p.side_slot(k)) as int, dir_of_index(d_idx), b2),
    ensures
        corresponds(b2, player.spec_opponent(), s2),
{
    let j = p.side_slot(k);
    let d = dir_of_index(d_idx);
    let c0i = p.pos(j) as int;
    let m = p.move_at(j, d);
    let t = p.slide_dest(j, d);
    assert(0 <= j < 10);
    lemma_generators_agree(b, player, p, k, d_idx);
    lemma_move_preserves_board_wf(b, b2, c0i, d);
    lemma_occ_agree(b, player, p);
    crate::geometry::lemma_slide_in_range(p.occ_fn(), c0i, d);
    crate::geometry::lemma_slide_free(p.occ_fn(), c0i, d);
    assert(!p.occupied(t as u64));
    assert(forall|x: int| 0 <= x < 10 ==> #[trigger] p.pos(x) != t as u64);
    assert(m.slot() == j) by {
        assert((5 * j) as u8 as int / 5 == j);
    }
    assert(m.to as u64 == t as u64);
    assert(spec_slide(b.occ(), c0i, d) == t);
    assert(s2.turn() == (player.spec_opponent() == Player::White));
    crate::board2::lemma_class_of_slot(p, j);
    let moved_cls = b.cell_at(c0i);
    assert(moved_cls == p.cell_class(c0i as u64));
    assert(forall|x: int| 0 <= x < 10 && x != j ==> #[trigger] p.pos(x) != p.pos(j));
    assert forall|c: int| 0 <= c < 25 implies #[trigger] s2.cell_class(c as u64) == b2.cell_at(
        c,
    ) by {
        let cu = c as u64;
        crate::board2::lemma_group_membership(p, j, cu);
        crate::board2::lemma_group_membership(s2, j, cu);
        assert(s2.group_has(j, cu) == (cu == m.to as u64 || (cu != p.pos(j) && p.group_has(
            j,
            cu,
        ))));
        assert(forall|x: int|
            0 <= x < 10 && !crate::board2::in_group(j, x) ==> #[trigger] s2.pos(x) == p.pos(x));
        assert(p.cell_class(cu) == b.cell_at(c));
        if c == c0i {
            assert(b2.cell_at(c) == CellState::Empty);
            assert(s2.cell_class(cu) == CellState::Empty);
        } else if c == t {
            assert(b2.cell_at(c) == moved_cls);
            assert(s2.cell_class(cu) == moved_cls);
        } else {
            assert(b2.cell_at(c) == b.cell_at(c));
            assert(s2.cell_class(cu) == p.cell_class(cu));
        }
    }
}

/// Counting the classes over the cells of the position one move yields.
proof fn lemma_move_counts(
    b1: BoardState,
    b2: BoardState,
    c0: int,
    t: int,
    cs: CellState,
    n: int,
)
    requires
        0 <= c0 < 25,
        0 <= t < 25,
        c0 != t,
        b1.cell_at(t) == CellState::Empty,
        cs != CellState::Empty,
        forall|i: int|
            0 <= i < 25 ==> #[trigger] b2.cell_at(i) == (if i == c0 {
                CellState::Empty
            } else if i == t {
                b1.cell_at(c0)
            } else {
                b1.cell_at(i)
            }),
        0 <= n <= 25,
    ensures
        b2.class_count(cs, n) == b1.class_count(cs, n) - (if c0 < n && b1.cell_at(c0) == cs {
            1int
        } else {
            0int
        }) + (if t < n && b1.cell_at(c0) == cs {
            1int
        } else {
            0int
        }),
    decreases n,
{
    if n > 0 {
        lemma_move_counts(b1, b2, c0, t, cs, n - 1);
    }
}

/// One legal move never creates or destroys a piece: the class counts, and
/// with them well-formedness, carry over to the new position.
pub proof fn lemma_move_preserves_board_wf(b1: BoardState, b2: BoardState, c0: int, d: Dir)
    requires
        b1.board_wf(),
        0 <= c0 < 25,
        b1.board_move_allowed(c0, d),
        b1.board_move_rel(c0, d, b2),
    ensures
        b2.board_wf(),
{
    let t = spec_slide(b1.occ(), c0, d);
    lemma_slide_in_range(b1.occ(), c0, d);
    lemma_slide_free(b1.occ(), c0, d);
    assert(b1.cell_at(t) == CellState::Empty) by {
        assert(!b1.occ()(t));
    }
    lemma_move_counts(b1, b2, c0, t, CellState::WhitePawn, 25);
    lemma_move_counts(b1, b2, c0, t, CellState::BlackPawn, 25);
    lemma_move_counts(b1, b2, c0, t, CellState::WhiteKing, 25);
    lemma_move_counts(b1, b2, c0, t, CellState::BlackKing, 25);
}

/// Every pair the move-pair scan selects is in range and allowed.
pub proof fn lemma_move_pairs_allowed(b: BoardState, player: Player, n: int)
    requires
        0 <= n <= 200,
    ensures
        forall|q: int|
            0 <= q < b.board_moves_prefix(player, n).len() ==> {
                let p = #[trigger] b.board_moves_prefix(player, n)[q];
                0 <= p < n && b.pair_allowed(player, p)
            },
    decreases n,
{
    if n > 0 {
        lemma_move_pairs_allowed(b, player, n - 1);
        let pre = b.board_moves_prefix(player, n - 1);
        let cur = b.board_moves_prefix(player, n);
        assert forall|q: int| 0 <= q < cur.len() implies {
            let p = #[trigger] cur[q];
            0 <= p < n && b.pair_allowed(player, p)
        } by {
            if q < pre.len() {
                assert(cur[q] == pre[q]);
            } else {
                assert(b.pair_allowed(player, n - 1));
                assert(cur[q] == n - 1);
            }
        }
    }
}

/// The standard layouts hold each side's four pawns and one king.
proof fn lemma_layout_wf(b: BoardState)
    requires
        (forall|i: int| 0 <= i < 25 ==> #[trigger] b.cell_at(i) == spec_initial_class(i)) || (
        forall|i: int| 0 <= i < 25 ==> #[trigger] b.cell_at(i) == spec_inversed_class(i)),
    ensures
        b.board_wf(),
        b.spec_winner() is None,
{
    reveal_with_fuel(BoardState::class_count, 26);
    assert(b.cell(2, 2) == b.cell_at(12)) by {
        assert(12int / 5 == 2 && 12int % 5 == 2);
    }
}

/// One legal self-play transition: some piece of `player` makes an
/// allowed maximal slide.
pub open spec fn spec_step_rel(b1: BoardState, player: Player, b2: BoardState) -> bool {
    exists|n: int|
        0 <= n < 200 && #[trigger] b1.pair_allowed(player, n) && b1.board_move_rel(
            n / 8,
            dir_of_index(n % 8),
            b2,
        )
}

/// Reached from the standard initial layout by exactly `k` plies of legal
/// alternating self-play (white first), never entering a decided position.
pub open spec fn spec_selfplay_reachable(b: BoardState, player: Player, k: int) -> bool
    decreases k,
{
    if k <= 0 {
        player == Player::White && (forall|i: int|
            0 <= i < 25 ==> #[trigger] b.cell_at(i) == spec_initial_class(i))
    } else {
        exists|b0: BoardState|
            spec_selfplay_reachable(b0, player.spec_opponent(), k - 1) && #[trigger] spec_step_rel(
                b0,
                player.spec_opponent(),
                b,
            ) && b.spec_winner() is None
    }
}

/// Relies on rand::Rng::gen_range on the thread-local generator: a
/// uniformly random index strictly below the bound.
#[verifier::external_body]
fn random_below(n: usize) -> (r: usize)
    requires
        n > 0,
    ensures
        r < n,
{
    rand::thread_rng().gen_range(0..n)
}

impl BoardState {
    /// A position drawn by randomized self-play: up to one hundred plies
    /// from the initial layout, never stepping into a decided position.
    /// Whatever the random choices were, the result is a well-formed,
    /// undecided board, reachable by legal alternating self-play, together
    /// with the side whose turn it is.
    pub fn random() -> (r: (BoardState, Player))
        ensures
            r.0.board_wf(),
            r.0.spec_winner() is None,
            exists|k: int| 0 <= k <= 100 && #[trigger] spec_selfplay_reachable(r.0, r.1, k),
    {
        let mut state = BoardState::new();
        let mut player = Player::White;
        proof {
            lemma_layout_wf(state);
            assert(spec_selfplay_reachable(state, player, 0));
        }
        let mut i: usize = 0;
        while i < 100
            invariant
                i <= 100,
                state.board_wf(),
                state.spec_winner() is None,
                spec_selfplay_reachable(state, player, i as int),
            decreases 100 - i,
        {
            let moves = state.next_moves(player);
            let mut cand: Vec<BoardState> = Vec::new();
            let mut q: usize = 0;
            while q < moves.len()
                invariant
                    q <= moves@.len(),
                    state.board_wf(),
                    state.spec_winner() is None,
                    moves@.len() == state.spec_move_pairs(player).len(),
                    forall|x: int|
                        0 <= x < moves@.len() ==> state.board_move_rel(
                            #[trigger] state.spec_move_pairs(player)[x] / 8,
                            dir_of_index(state.spec_move_pairs(player)[x] % 8),
                            moves@[x],
                        ),
                    forall|x: int|
                        0 <= x < cand@.len() ==> (#[trigger] cand@[x]).board_wf() && cand@[x]
                            .spec_winner() is None && spec_step_rel(state, player, cand@[x]),
                decreases moves@.len() - q,
            {
                let m = moves[q];
                proof {
                    lemma_move_pairs_allowed(state, player, 200);
                    let p = state.spec_move_pairs(player)[q as int];
                    assert(state.pair_allowed(player, p));
                    lemma_move_preserves_board_wf(state, m, p / 8, dir_of_index(p % 8));
                    assert(spec_step_rel(state, player, m));
                }
                if m.winner().is_none() {
                    cand.push(m);
                }
                q = q + 1;
            }
            if cand.len() == 0 {
                break ;
            }
            let pick = random_below(cand.len());
            let ghost prev = state;
            let ghost mover = player;
            state = cand[pick];
            player = player.opponent();
            proof {
                assert(player.spec_opponent() == mover);
                assert(spec_selfplay_reachable(prev, player.spec_opponent(), i as int));
                assert(spec_step_rel(prev, player.spec_opponent(), state));
                assert(state.spec_winner() is None);
                assert(spec_selfplay_reachable(state, player, i + 1));
            }
            i = i + 1;
        }
        let result = (state, player);
        proof {
            assert(result.0 == state && result.1 == player);
            assert(spec_selfplay_reachable(result.0, result.1, i as int) && 0 <= i <= 100);
        }
        result
    }
}

} // verus!
