//! The packed position: ten 5-bit cell indices and the side-to-move bit in
//! one 64-bit word, kept in a canonical form so that permutation-equivalent
//! pawn arrangements compare and hash identically.
//!
//! Field layout (bit offsets): white pawns at 0, 5, 10, 15; black pawns at
//! 20, 25, 30, 35; white king at 40; black king at 45; side to move at 50.
//! The canonical-form invariant: all ten cells are pairwise distinct and each
//! side's four pawn fields are sorted non-decreasing.

use vstd::prelude::*;

use crate::cell::CellState;
use crate::geometry::{
    Dir, dir_from_index, dir_of_index, lemma_slide_free, lemma_slide_in_range, lemma_step_room,
    room, spec_slide, step_cell,
};

verus! {

/// A move: which field moved (by its bit offset) and the destination cell.
/// A move is only meaningful relative to the position it was generated from.
#[derive(Clone, Copy, Debug, Hash, PartialEq, Eq, Structural)]
pub struct Move {
    pub from_offset: u8,
    pub to: u8,
}

impl Move {
    pub fn new(from_offset: u8, to: u8) -> (r: Move)
        ensures
            r.from_offset == from_offset,
            r.to == to,
    {
        Move { from_offset, to }
    }

    /// The index (0..10) of the piece field this move displaces.
    pub open spec fn slot(self) -> int {
        self.from_offset as int / 5
    }

    /// The move names one of the ten fields and an on-board destination.
    pub open spec fn valid_shape(self) -> bool {
        &&& self.from_offset <= 45
        &&& self.from_offset % 5 == 0
        &&& self.to < 25
    }
}

/// The field at index `k` (0..10) of a packed word.
pub open spec fn fld(data: u64, k: int) -> u64 {
    (data >> ((5 * k) as u64)) & 0x1f
}

/// Whether some field of the group around slot `j` holds the cell `v`.
pub open spec fn data_group_has(data: u64, j: int, v: u64) -> bool {
    exists|k: int| in_group(j, k) && #[trigger] fld(data, k) == v
}

/// First slot of the pawn group containing slot `j`; a king is its own group.
pub open spec fn group_lo(j: int) -> int {
    if j < 4 {
        0
    } else if j < 8 {
        4
    } else {
        j
    }
}

/// Last slot of the pawn group containing slot `j`.
pub open spec fn group_hi(j: int) -> int {
    if j < 4 {
        3
    } else if j < 8 {
        7
    } else {
        j
    }
}

pub open spec fn in_group(j: int, k: int) -> bool {
    group_lo(j) <= k <= group_hi(j)
}

/// A full position in one 64-bit word.
#[derive(Hash, Clone, Copy, Debug, PartialEq, Eq, PartialOrd, Ord, Structural)]
pub struct Board2 {
    data: u64,
}

impl Board2 {
    /// The raw packed word.
    pub closed spec fn packed(self) -> u64 {
        self.data
    }

    /// The cell index held by field `i` (0..10).
    pub closed spec fn pos(self, i: int) -> u64 {
        fld(self.data, i)
    }

    /// True when the maximizing side (white) is to move.
    pub closed spec fn turn(self) -> bool {
        (self.data >> 50) & 1 == 1
    }

    /// All ten fields name on-board cells.
    pub open spec fn in_range(self) -> bool {
        forall|i: int| 0 <= i < 10 ==> #[trigger] self.pos(i) < 25
    }

    /// Invariant I1: the ten occupied cells are pairwise distinct.
    pub open spec fn distinct(self) -> bool {
        forall|i: int, j: int|
            0 <= i < j < 10 ==> #[trigger] self.pos(i) != #[trigger] self.pos(j)
    }

    /// Invariant I2 (canonical form): each pawn group is sorted.
    pub open spec fn groups_sorted(self) -> bool {
        &&& self.pos(0) <= self.pos(1)
        &&& self.pos(1) <= self.pos(2)
        &&& self.pos(2) <= self.pos(3)
        &&& self.pos(4) <= self.pos(5)
        &&& self.pos(5) <= self.pos(6)
        &&& self.pos(6) <= self.pos(7)
    }

    /// No stray bits above the side-to-move bit.
    pub closed spec fn upper_clear(self) -> bool {
        self.data >> 51 == 0
    }

    /// A well-formed canonical position.
    pub open spec fn wf(self) -> bool {
        &&& self.in_range()
        &&& self.distinct()
        &&& self.groups_sorted()
        &&& self.upper_clear()
    }

    /// Whether any piece occupies cell `c`.
    pub open spec fn occupied(self, c: u64) -> bool {
        exists|i: int| 0 <= i < 10 && #[trigger] self.pos(i) == c
    }

    pub open spec fn group_has(self, j: int, v: u64) -> bool {
        exists|k: int| in_group(j, k) && #[trigger] self.pos(k) == v
    }

    /// The game is over: a king stands on the center cell.
    pub open spec fn spec_ended(self) -> bool {
        self.pos(8) == 12 || self.pos(9) == 12
    }

    pub fn new(data: u64) -> (r: Board2)
        ensures
            r.packed() == data,
    {
        Board2 { data }
    }

    /// The raw packed word, for hashing and interchange.
    pub fn raw(self) -> (r: u64)
        ensures
            r == self.packed(),
    {
        self.data
    }

    /// Whether the game has been decided (a king on the center).
    pub fn ended(self) -> (r: bool)
        ensures
            r == self.spec_ended(),
    {
        (self.data >> 40) & 0x1f == 12 || (self.data >> 45) & 0x1f == 12
    }

    /// Whether the side to move is the maximizing one.
    pub fn maximizing(self) -> (r: bool)
        ensures
            r == self.turn(),
    {
        let d = self.data;
        proof {
            assert((d >> 50) & 1 == 0 || (d >> 50) & 1 == 1) by (bit_vector);
        }
        (d >> 50) & 1 != 0
    }
}

/// Positional value of a pawn on cell `c`: central ring cells are best.
pub open spec fn spec_pawn_weight(c: u64) -> int {
    if c == 6 || c == 7 || c == 8 || c == 11 || c == 13 || c == 16 || c == 17 || c == 18 {
        25
    } else if c == 1 || c == 3 || c == 5 || c == 9 || c == 15 || c == 19 || c == 21 || c == 23 {
        3
    } else {
        0
    }
}

/// Positional value of a king on cell `c`.  The center entry is defensive
/// dead weight: the explicit win check intercepts scoring before any king
/// weight is read for a king on the center.
pub open spec fn spec_king_weight(c: u64) -> int {
    if c == 12 {
        100000
    } else if c == 6 || c == 7 || c == 8 || c == 11 || c == 13 || c == 16 || c == 17 || c == 18 {
        50
    } else if c == 0 || c == 2 || c == 4 || c == 10 || c == 14 || c == 20 || c == 22 || c == 24 {
        10
    } else {
        0
    }
}

pub(crate) fn pawn_weight(c: u64) -> (r: i32)
    requires
        c < 25,
    ensures
        r as int == spec_pawn_weight(c),
        0 <= r <= 25,
{
    if c == 6 || c == 7 || c == 8 || c == 11 || c == 13 || c == 16 || c == 17 || c == 18 {
        25
    } else if c == 1 || c == 3 || c == 5 || c == 9 || c == 15 || c == 19 || c == 21 || c == 23 {
        3
    } else {
        0
    }
}

pub(crate) fn king_weight(c: u64) -> (r: i32)
    requires
        c < 25,
    ensures
        r as int == spec_king_weight(c),
        0 <= r <= 100000,
        c != 12 ==> r <= 50,
{
    if c == 12 {
        100000
    } else if c == 6 || c == 7 || c == 8 || c == 11 || c == 13 || c == 16 || c == 17 || c == 18 {
        50
    } else if c == 0 || c == 2 || c == 4 || c == 10 || c == 14 || c == 20 || c == 22 || c == 24 {
        10
    } else {
        0
    }
}

impl Board2 {
    /// The static evaluation: a decided game scores the decisive constant
    /// for the winner; otherwise per-cell positional weights, white minus
    /// black.
    pub open spec fn spec_score(self) -> int {
        if self.pos(8) == 12 {
            100000
        } else if self.pos(9) == 12 {
            -100000
        } else {
            spec_king_weight(self.pos(8)) - spec_king_weight(self.pos(9)) + spec_pawn_weight(
                self.pos(0),
            ) + spec_pawn_weight(self.pos(1)) + spec_pawn_weight(self.pos(2)) + spec_pawn_weight(
                self.pos(3),
            ) - spec_pawn_weight(self.pos(4)) - spec_pawn_weight(self.pos(5)) - spec_pawn_weight(
                self.pos(6),
            ) - spec_pawn_weight(self.pos(7))
        }
    }

    /// Static evaluation of the position, positive for white.
    pub fn score(&self) -> (r: i32)
        requires
            self.in_range(),
        ensures
            r as int == self.spec_score(),
            -100000 <= r <= 100000,
    {
        let data = self.data;
        let white_king_pos = field_get(data, 40);
        let black_king_pos = field_get(data, 45);
        proof {
            assert(white_king_pos == self.pos(8) && black_king_pos == self.pos(9));
            assert(self.pos(8) < 25 && self.pos(9) < 25);
        }
        if white_king_pos == 12 {
            return 100000;
        }
        if black_king_pos == 12 {
            return -100000;
        }
        let mut score: i32 = 0;
        score = score + king_weight(white_king_pos);
        score = score - king_weight(black_king_pos);
        proof {
            assert(self.pos(0) < 25 && self.pos(1) < 25 && self.pos(2) < 25 && self.pos(3) < 25);
            assert(self.pos(4) < 25 && self.pos(5) < 25 && self.pos(6) < 25 && self.pos(7) < 25);
        }
        score = score + pawn_weight(field_get(data, 0));
        score = score + pawn_weight(field_get(data, 5));
        score = score + pawn_weight(field_get(data, 10));
        score = score + pawn_weight(field_get(data, 15));
        score = score - pawn_weight(field_get(data, 20));
        score = score - pawn_weight(field_get(data, 25));
        score = score - pawn_weight(field_get(data, 30));
        score = score - pawn_weight(field_get(data, 35));
        score
    }
}

/// Pack ten field values and the side-to-move flag into one word.
fn encode_fields(p: &Vec<u8>, white_to_move: bool) -> (r: u64)
    requires
        p@.len() == 10,
        forall|i: int| 0 <= i < 10 ==> p@[i] < 32,
    ensures
        forall|k: int| 0 <= k < 10 ==> #[trigger] fld(r, k) == p@[k],
        ((r >> 50) & 1 == 1) == white_to_move,
        r >> 51 == 0,
{
    let mut data: u64 = if white_to_move {
        1u64 << 50
    } else {
        0u64
    };
    proof {
        lemma_encode_init();
        assert forall|k: int| 0 <= k < 10 implies #[trigger] fld(data, k) == 0 by {
            let o2 = (5 * k) as u64;
            assert(o2 <= 45 && o2 % 5 == 0);
            assert(((1u64 << 50) >> o2) & 0x1f == 0);
            assert((0u64 >> o2) & 0x1f == 0);
        }
    }
    let mut i: usize = 0;
    while i < 10
        invariant
            i <= 10,
            p@.len() == 10,
            forall|q: int| 0 <= q < 10 ==> p@[q] < 32,
            forall|k: int| 0 <= k < i ==> #[trigger] fld(data, k) == p@[k],
            forall|k: int| i <= k < 10 ==> #[trigger] fld(data, k) == 0,
            ((data >> 50) & 1 == 1) == white_to_move,
            data >> 51 == 0,
        decreases 10 - i,
    {
        data = field_set(data, (5 * i) as u64, p[i] as u64);
        i = i + 1;
    }
    data
}

proof fn lemma_encode_init()
    by (bit_vector)
    ensures
        forall|o2: u64| o2 <= 45 && o2 % 5 == 0 ==> #[trigger] (((1u64 << 50) >> o2) & 0x1f) == 0,
        forall|o2: u64| o2 <= 45 && o2 % 5 == 0 ==> #[trigger] ((0u64 >> o2) & 0x1f) == 0,
        ((1u64 << 50) >> 50) & 1 == 1,
        (1u64 << 50) >> 51 == 0,
        (0u64 >> 50) & 1 == 0,
        0u64 >> 51 == 0,
{
}

impl Board2 {
    /// Pack ten field values and a side-to-move flag.
    pub(crate) fn from_fields(p: &Vec<u8>, white_to_move: bool) -> (r: Board2)
        requires
            p@.len() == 10,
            forall|i: int| 0 <= i < 10 ==> p@[i] < 32,
        ensures
            forall|k: int| 0 <= k < 10 ==> #[trigger] r.pos(k) == p@[k],
            r.turn() == white_to_move,
            r.upper_clear(),
    {
        Board2 { data: encode_fields(p, white_to_move) }
    }

    /// The standard initial layout: pawns on each back rank around their
    /// own king, white to move.
    pub fn new_original() -> (r: Board2)
        ensures
            r.wf(),
            r.turn(),
            r.pos(0) == 0 && r.pos(1) == 1 && r.pos(2) == 3 && r.pos(3) == 4,
            r.pos(4) == 20 && r.pos(5) == 21 && r.pos(6) == 23 && r.pos(7) == 24,
            r.pos(8) == 2 && r.pos(9) == 22,
    {
        let mut p: Vec<u8> = Vec::new();
        p.push(0);
        p.push(1);
        p.push(3);
        p.push(4);
        p.push(20);
        p.push(21);
        p.push(23);
        p.push(24);
        p.push(2);
        p.push(22);
        let data = encode_fields(&p, true);
        Board2 { data }
    }

    /// The initial layout with the two kings exchanged, so each king must
    /// race across the board.
    pub fn new_with_king_inversed() -> (r: Board2)
        ensures
            r.wf(),
            r.turn(),
            r.pos(0) == 0 && r.pos(1) == 1 && r.pos(2) == 3 && r.pos(3) == 4,
            r.pos(4) == 20 && r.pos(5) == 21 && r.pos(6) == 23 && r.pos(7) == 24,
            r.pos(8) == 22 && r.pos(9) == 2,
    {
        let mut p: Vec<u8> = Vec::new();
        p.push(0);
        p.push(1);
        p.push(3);
        p.push(4);
        p.push(20);
        p.push(21);
        p.push(23);
        p.push(24);
        p.push(22);
        p.push(2);
        let data = encode_fields(&p, true);
        Board2 { data }
    }
}

/// Extract one field.
fn field_get(data: u64, off: u64) -> (r: u64)
    requires
        off <= 45,
        off % 5 == 0,
    ensures
        r == fld(data, off as int / 5),
        r < 32,
{
    proof {
        lemma_field_get(data, off);
    }
    (data >> off) & 0x1f
}

proof fn lemma_field_get(data: u64, off: u64)
    by (bit_vector)
    requires
        off <= 45,
        off % 5 == 0,
    ensures
        (data >> off) & 0x1f == (data >> ((5 * (off as int / 5)) as u64)) & 0x1f,
        (data >> off) & 0x1f < 32,
{
}

/// Replace one field, leaving every other field, the side-to-move bit, and
/// the high bits untouched.
fn field_set(data: u64, off: u64, v: u64) -> (r: u64)
    requires
        off <= 45,
        off % 5 == 0,
        v < 32,
    ensures
        fld(r, off as int / 5) == v,
        forall|k: int| 0 <= k < 10 && k != off as int / 5 ==> #[trigger] fld(r, k) == fld(data, k),
        (r >> 50) & 1 == (data >> 50) & 1,
        data >> 51 == 0 ==> r >> 51 == 0,
{
    let r = (data & !(0x1fu64 << off)) | (v << off);
    proof {
        lemma_field_set(data, off, v, r);
        assert forall|k: int| 0 <= k < 10 && k != off as int / 5 implies #[trigger] fld(r, k)
            == fld(data, k) by {
            let o2 = (5 * k) as u64;
            assert(o2 <= 50 && o2 % 5 == 0 && o2 != off);
            assert((r >> o2) & 0x1f == (data >> o2) & 0x1f);
        }
        assert(fld(r, off as int / 5) == v) by {
            assert((5 * (off as int / 5)) as u64 == off);
        }
    }
    r
}

proof fn lemma_field_set(data: u64, off: u64, v: u64, r: u64)
    by (bit_vector)
    requires
        off <= 45,
        off % 5 == 0,
        v < 32,
        r == (data & !(0x1fu64 << off)) | (v << off),
    ensures
        (r >> off) & 0x1f == v,
        forall|o2: u64|
            o2 <= 50 && o2 % 5 == 0 && o2 != off ==> #[trigger] ((r >> o2) & 0x1f) == (data >> o2)
                & 0x1f,
        (r >> 50) & 1 == (data >> 50) & 1,
        data >> 51 == 0 ==> r >> 51 == 0,
{
}

/// The ten fields of a packed word name pairwise distinct cells.
pub open spec fn data_distinct(data: u64) -> bool {
    forall|i: int, j: int| 0 <= i < j < 10 ==> #[trigger] fld(data, i) != #[trigger] fld(data, j)
}

/// The group around slot `j` is sorted once slot `j` itself is ignored.
pub open spec fn sorted_except(data: u64, j: int) -> bool {
    forall|k: int, l: int|
        in_group(j, k) && in_group(j, l) && k < l && k != j && l != j ==> #[trigger] fld(data, k)
            <= #[trigger] fld(data, l)
}

/// Every group slot before `j` holds a value no larger than slot `j`.
pub open spec fn prefix_below(data: u64, j: int) -> bool {
    forall|k: int| in_group(j, k) && k < j ==> #[trigger] fld(data, k) <= fld(data, j)
}

/// Every group slot after `j` holds a value no smaller than slot `j`.
pub open spec fn suffix_above(data: u64, j: int) -> bool {
    forall|k: int| in_group(j, k) && k > j ==> fld(data, j) <= #[trigger] fld(data, k)
}

/// The whole group around slot `j` is sorted.
pub open spec fn group_sorted_at(data: u64, j: int) -> bool {
    forall|k: int, l: int|
        in_group(j, k) && in_group(j, l) && k < l ==> #[trigger] fld(data, k) <= #[trigger] fld(
            data,
            l,
        )
}

/// Index map of the adjacent swap used by the bubble passes.
pub open spec fn swap_idx(j: int, k: int) -> int {
    if k == j {
        j + 1
    } else if k == j + 1 {
        j
    } else {
        k
    }
}

proof fn lemma_field_swap_bv(data: u64, off: u64, a: u64, b: u64, r: u64)
    by (bit_vector)
    requires
        off <= 30,
        off % 5 == 0,
        a == (data >> off) & 0x1f,
        b == (data >> ((off + 5) as u64)) & 0x1f,
        r == (data & !(0x3ffu64 << off)) | (b << off) | (a << ((off + 5) as u64)),
    ensures
        (r >> off) & 0x1f == b,
        (r >> ((off + 5) as u64)) & 0x1f == a,
        forall|o2: u64|
            o2 <= 50 && o2 % 5 == 0 && o2 != off && o2 != (off + 5) as u64 ==> #[trigger] ((r
                >> o2) & 0x1f) == (data >> o2) & 0x1f,
        (r >> 50) & 1 == (data >> 50) & 1,
        data >> 51 == 0 ==> r >> 51 == 0,
{
}

/// Swapping two adjacent fields permutes the field sequence by `swap_idx`.
proof fn lemma_swap_fields(data: u64, off: u64, nd: u64)
    requires
        off <= 30,
        off % 5 == 0,
        nd == (data & !(0x3ffu64 << off)) | ((((data >> ((off + 5) as u64)) & 0x1f)) << off) | ((((
        data >> off) & 0x1f)) << ((off + 5) as u64)),
    ensures
        forall|k: int|
            0 <= k < 10 ==> #[trigger] fld(nd, k) == fld(data, swap_idx(off as int / 5, k)),
        (nd >> 50) & 1 == (data >> 50) & 1,
        data >> 51 == 0 ==> nd >> 51 == 0,
{
    let j = off as int / 5;
    lemma_field_swap_bv(data, off, (data >> off) & 0x1f, (data >> ((off + 5) as u64)) & 0x1f, nd);
    assert forall|k: int| 0 <= k < 10 implies #[trigger] fld(nd, k) == fld(
        data,
        swap_idx(j, k),
    ) by {
        let o2 = (5 * k) as u64;
        assert(o2 <= 45 && o2 % 5 == 0);
        assert((5 * j) as u64 == off);
        assert((5 * (j + 1)) as u64 == (off + 5) as u64);
        if k == j {
            assert(fld(nd, j) == (nd >> off) & 0x1f);
            assert(fld(data, j + 1) == (data >> ((off + 5) as u64)) & 0x1f);
        } else if k == j + 1 {
            assert(fld(nd, j + 1) == (nd >> ((off + 5) as u64)) & 0x1f);
            assert(fld(data, j) == (data >> off) & 0x1f);
        } else {
            assert(o2 != off && o2 != (off + 5) as u64);
            assert((nd >> o2) & 0x1f == (data >> o2) & 0x1f);
        }
    }
}

/// Restore group order after slot `offset / 5` grew: bubble the value
/// upward within its pawn group.  King fields and the last slot of a group
/// need no pass.
fn normalize_greater(data: u64, offset: u8) -> (r: u64)
    requires
        offset <= 45,
        offset % 5 == 0,
        data_distinct(data),
        sorted_except(data, offset as int / 5),
        prefix_below(data, offset as int / 5),
    ensures
        group_sorted_at(r, offset as int / 5),
        forall|k: int|
            0 <= k < 10 && !in_group(offset as int / 5, k) ==> #[trigger] fld(r, k) == fld(
                data,
                k,
            ),
        forall|v: u64|
            #[trigger] data_group_has(r, offset as int / 5, v) <==> data_group_has(
                data,
                offset as int / 5,
                v,
            ),
        data_distinct(r),
        (r >> 50) & 1 == (data >> 50) & 1,
        data >> 51 == 0 ==> r >> 51 == 0,
    decreases 50 - offset,
{
    let ghost j = offset as int / 5;
    if offset < 40 {
        if offset == 15 || offset == 35 {
            proof {
                assert(j == group_hi(j));
            }
            data
        } else {
            let off: u64 = offset as u64;
            let pos = field_get(data, off);
            let next_pos = field_get(data, off + 5);
            proof {
                assert(j + 1 <= group_hi(j));
                assert(pos == fld(data, j) && next_pos == fld(data, j + 1)) by {
                    assert(off as int / 5 == j && (off + 5) as int / 5 == j + 1);
                }
            }
            if pos > next_pos {
                let next_data = (data & !(0x3ffu64 << off)) | (next_pos << off) | (pos << (off
                    + 5));
                proof {
                    assert(pos == (data >> off) & 0x1f && next_pos == (data >> ((off + 5) as u64))
                        & 0x1f) by {
                        assert((5 * j) as u64 == off && (5 * (j + 1)) as u64 == (off + 5) as u64);
                    }
                    lemma_swap_fields(data, off, next_data);
                    assert(group_lo(j + 1) == group_lo(j) && group_hi(j + 1) == group_hi(j));
                    assert forall|x: int, y: int| 0 <= x < y < 10 implies #[trigger] fld(
                        next_data,
                        x,
                    ) != #[trigger] fld(next_data, y) by {
                        assert(fld(next_data, x) == fld(data, swap_idx(j, x)));
                        assert(fld(next_data, y) == fld(data, swap_idx(j, y)));
                    }
                    assert(sorted_except(next_data, j + 1)) by {
                        assert forall|k: int, l: int|
                            in_group(j + 1, k) && in_group(j + 1, l) && k < l && k != j + 1 && l
                                != j + 1 implies #[trigger] fld(next_data, k) <= #[trigger] fld(
                            next_data,
                            l,
                        ) by {
                            assert(fld(next_data, k) == fld(data, swap_idx(j, k)));
                            assert(fld(next_data, l) == fld(data, swap_idx(j, l)));
                        }
                    }
                    assert(prefix_below(next_data, j + 1)) by {
                        assert forall|k: int| in_group(j + 1, k) && k < j + 1 implies #[trigger]
                        fld(next_data, k) <= fld(next_data, j + 1) by {
                            assert(fld(next_data, k) == fld(data, swap_idx(j, k)));
                            assert(fld(next_data, j + 1) == fld(data, j));
                        }
                    }
                }
                let r = normalize_greater(next_data, offset + 5);
                proof {
                    assert(group_sorted_at(r, j)) by {
                        assert forall|k: int, l: int|
                            in_group(j, k) && in_group(j, l) && k < l implies #[trigger] fld(r, k)
                            <= #[trigger] fld(r, l) by {
                            assert(in_group(j + 1, k) && in_group(j + 1, l));
                        }
                    }
                    assert forall|k: int| 0 <= k < 10 && !in_group(j, k) implies #[trigger] fld(
                        r,
                        k,
                    ) == fld(data, k) by {
                        assert(!in_group(j + 1, k));
                        assert(fld(next_data, k) == fld(data, swap_idx(j, k)));
                    }
                    assert forall|v: u64|
                        data_group_has(r, j, v) <==> data_group_has(data, j, v) by {
                        if data_group_has(r, j, v) {
                            assert(data_group_has(r, j + 1, v));
                            assert(data_group_has(next_data, j + 1, v));
                            let k = choose|k: int|
                                in_group(j + 1, k) && #[trigger] fld(next_data, k) == v;
                            assert(fld(data, swap_idx(j, k)) == v);
                            assert(in_group(j, swap_idx(j, k)));
                            assert(data_group_has(data, j, v));
                        }
                        if data_group_has(data, j, v) {
                            let k = choose|k: int| in_group(j, k) && #[trigger] fld(data, k) == v;
                            assert(fld(next_data, swap_idx(j, k)) == fld(
                                data,
                                swap_idx(j, swap_idx(j, k)),
                            ));
                            assert(fld(next_data, swap_idx(j, k)) == v);
                            assert(in_group(j + 1, swap_idx(j, k)));
                            assert(data_group_has(next_data, j + 1, v));
                            assert(data_group_has(r, j + 1, v));
                            assert(data_group_has(r, j, v));
                        }
                    }
                }
                r
            } else {
                data
            }
        }
    } else {
        data
    }
}

/// Restore group order after slot `offset / 5` shrank: bubble the value
/// downward within its pawn group.
fn normalize_less(data: u64, offset: u8) -> (r: u64)
    requires
        offset <= 45,
        offset % 5 == 0,
        data_distinct(data),
        sorted_except(data, offset as int / 5),
        suffix_above(data, offset as int / 5),
    ensures
        group_sorted_at(r, offset as int / 5),
        forall|k: int|
            0 <= k < 10 && !in_group(offset as int / 5, k) ==> #[trigger] fld(r, k) == fld(
                data,
                k,
            ),
        forall|v: u64|
            #[trigger] data_group_has(r, offset as int / 5, v) <==> data_group_has(
                data,
                offset as int / 5,
                v,
            ),
        data_distinct(r),
        (r >> 50) & 1 == (data >> 50) & 1,
        data >> 51 == 0 ==> r >> 51 == 0,
    decreases offset,
{
    let ghost j = offset as int / 5;
    if offset < 40 {
        if offset == 0 || offset == 20 {
            proof {
                assert(j == group_lo(j));
            }
            data
        } else {
            let off: u64 = (offset - 5) as u64;
            let pos = field_get(data, off + 5);
            let next_pos = field_get(data, off);
            proof {
                assert(group_lo(j) <= j - 1);
                assert(pos == fld(data, j) && next_pos == fld(data, j - 1)) by {
                    assert((off + 5) as int / 5 == j && off as int / 5 == j - 1);
                }
            }
            if pos < next_pos {
                let next_data = (data & !(0x3ffu64 << off)) | (pos << off) | (next_pos << (off
                    + 5));
                proof {
                    assert(next_pos == (data >> off) & 0x1f && pos == (data >> ((off + 5) as u64))
                        & 0x1f) by {
                        assert((5 * (j - 1)) as u64 == off && (5 * j) as u64 == (off + 5) as u64);
                    }
                    lemma_swap_fields(data, off, next_data);
                    assert(group_lo(j - 1) == group_lo(j) && group_hi(j - 1) == group_hi(j));
                    assert forall|x: int, y: int| 0 <= x < y < 10 implies #[trigger] fld(
                        next_data,
                        x,
                    ) != #[trigger] fld(next_data, y) by {
                        assert(fld(next_data, x) == fld(data, swap_idx(j - 1, x)));
                        assert(fld(next_data, y) == fld(data, swap_idx(j - 1, y)));
                    }
                    assert(sorted_except(next_data, j - 1)) by {
                        assert forall|k: int, l: int|
                            in_group(j - 1, k) && in_group(j - 1, l) && k < l && k != j - 1 && l
                                != j - 1 implies #[trigger] fld(next_data, k) <= #[trigger] fld(
                            next_data,
                            l,
                        ) by {
                            assert(fld(next_data, k) == fld(data, swap_idx(j - 1, k)));
                            assert(fld(next_data, l) == fld(data, swap_idx(j - 1, l)));
                        }
                    }
                    assert(suffix_above(next_data, j - 1)) by {
                        assert forall|k: int| in_group(j - 1, k) && k > j - 1 implies fld(
                            next_data,
                            j - 1,
                        ) <= #[trigger] fld(next_data, k) by {
                            assert(fld(next_data, k) == fld(data, swap_idx(j - 1, k)));
                            assert(fld(next_data, j - 1) == fld(data, j));
                        }
                    }
                }
                let r = normalize_less(next_data, offset - 5);
                proof {
                    assert(group_sorted_at(r, j)) by {
                        assert forall|k: int, l: int|
                            in_group(j, k) && in_group(j, l) && k < l implies #[trigger] fld(r, k)
                            <= #[trigger] fld(r, l) by {
                            assert(in_group(j - 1, k) && in_group(j - 1, l));
                        }
                    }
                    assert forall|k: int| 0 <= k < 10 && !in_group(j, k) implies #[trigger] fld(
                        r,
                        k,
                    ) == fld(data, k) by {
                        assert(!in_group(j - 1, k));
                        assert(fld(next_data, k) == fld(data, swap_idx(j - 1, k)));
                    }
                    assert forall|v: u64|
                        data_group_has(r, j, v) <==> data_group_has(data, j, v) by {
                        if data_group_has(r, j, v) {
                            assert(data_group_has(r, j - 1, v));
                            assert(data_group_has(next_data, j - 1, v));
                            let k = choose|k: int|
                                in_group(j - 1, k) && #[trigger] fld(next_data, k) == v;
                            assert(fld(data, swap_idx(j - 1, k)) == v);
                            assert(in_group(j, swap_idx(j - 1, k)));
                            assert(data_group_has(data, j, v));
                        }
                        if data_group_has(data, j, v) {
                            let k = choose|k: int| in_group(j, k) && #[trigger] fld(data, k) == v;
                            assert(fld(next_data, swap_idx(j - 1, k)) == fld(
                                data,
                                swap_idx(j - 1, swap_idx(j - 1, k)),
                            ));
                            assert(fld(next_data, swap_idx(j - 1, k)) == v);
                            assert(in_group(j - 1, swap_idx(j - 1, k)));
                            assert(data_group_has(next_data, j - 1, v));
                            assert(data_group_has(r, j - 1, v));
                        }
                    }
                }
                r
            } else {
                data
            }
        }
    } else {
        data
    }
}

proof fn lemma_turn_flip(data: u64, r: u64)
    by (bit_vector)
    requires
        r == data ^ (1u64 << 50),
    ensures
        forall|o2: u64|
            o2 <= 45 && o2 % 5 == 0 ==> #[trigger] ((r >> o2) & 0x1f) == (data >> o2) & 0x1f,
        ((r >> 50) & 1 == 1) == !((data >> 50) & 1 == 1),
        data >> 51 == 0 ==> r >> 51 == 0,
{
}

/// How applying a move relates the new position to the old one: the moved
/// side's group now holds the destination in place of the source cell, all
/// other fields are untouched, the side to move has flipped, and the result
/// is again canonical (invariants I1 and I2 hold - the canonicalization law).
pub open spec fn do_move_rel(pre: Board2, m: Move, post: Board2) -> bool {
    &&& post.wf()
    &&& post.turn() == !pre.turn()
    &&& forall|k: int|
        0 <= k < 10 && !in_group(m.slot(), k) ==> #[trigger] post.pos(k) == pre.pos(k)
    &&& forall|v: u64|
        #[trigger] post.group_has(m.slot(), v) <==> (v == m.to as u64 || (v != pre.pos(m.slot())
            && pre.group_has(m.slot(), v)))
}

impl Board2 {
    /// A move the position can accept without breaking its invariants: it
    /// names a real field, an empty destination cell, and never parks a
    /// pawn on the center.
    pub open spec fn move_ok(self, m: Move) -> bool {
        &&& m.valid_shape()
        &&& !self.occupied(m.to as u64)
        &&& (m.from_offset < 40 ==> m.to != 12)
    }

    /// Apply a move: write the destination into the moved field, flip the
    /// side to move, and restore the canonical order of the moved side's
    /// pawn group with one bubble pass.
    #[verifier::rlimit(80)]
    pub fn do_move(self, m: Move) -> (r: Board2)
        requires
            self.wf(),
            self.move_ok(m),
        ensures
            do_move_rel(self, m, r),
    {
        let ghost j = m.slot();
        let data0 = self.data;
        let off: u64 = m.from_offset as u64;
        let to: u64 = m.to as u64;
        let pos = field_get(data0, off);
        proof {
            assert(off as int / 5 == j);
            assert(pos == self.pos(j));
            assert(self.occupied(pos));
            assert(to != pos);
            assert(forall|k: int| 0 <= k < 10 ==> to != #[trigger] self.pos(k));
            assert(self.pos(0) <= self.pos(1) && self.pos(0) <= self.pos(2) && self.pos(0)
                <= self.pos(3) && self.pos(1) <= self.pos(2) && self.pos(1) <= self.pos(3)
                && self.pos(2) <= self.pos(3));
            assert(self.pos(4) <= self.pos(5) && self.pos(4) <= self.pos(6) && self.pos(4)
                <= self.pos(7) && self.pos(5) <= self.pos(6) && self.pos(5) <= self.pos(7)
                && self.pos(6) <= self.pos(7));
        }
        let data1 = field_set(data0, off, to);
        let data2 = data1 ^ (1u64 << 50);
        proof {
            lemma_turn_flip(data1, data2);
            assert forall|k: int| 0 <= k < 10 implies #[trigger] fld(data2, k) == fld(
                data1,
                k,
            ) by {
                let o2 = (5 * k) as u64;
                assert(o2 <= 45 && o2 % 5 == 0);
                assert((data2 >> o2) & 0x1f == (data1 >> o2) & 0x1f);
            }
            assert(fld(data2, j) == to);
            assert(forall|k: int|
                0 <= k < 10 && k != j ==> #[trigger] fld(data2, k) == self.pos(k));
            assert(data_distinct(data2)) by {
                assert forall|x: int, y: int| 0 <= x < y < 10 implies #[trigger] fld(data2, x)
                    != #[trigger] fld(data2, y) by {
                    if x != j && y != j {
                        assert(self.pos(x) != self.pos(y));
                    }
                }
            }
            assert(sorted_except(data2, j));
            if to > pos {
                assert(prefix_below(data2, j));
            } else {
                assert(suffix_above(data2, j));
            }
        }
        let rdata = if to > pos {
            normalize_greater(data2, m.from_offset)
        } else {
            normalize_less(data2, m.from_offset)
        };
        let r = Board2 { data: rdata };
        proof {
            assert(r.upper_clear()) by {
                assert(data0 >> 51 == 0);
            }
            assert(r.turn() == !self.turn());
            assert forall|k: int| 0 <= k < 10 && !in_group(j, k) implies #[trigger] r.pos(k)
                == self.pos(k) by {
                assert(fld(rdata, k) == fld(data2, k));
            }
            assert forall|v: u64|
                #[trigger] r.group_has(j, v) <==> (v == to || (v != pos && self.group_has(
                    j,
                    v,
                ))) by {
                if r.group_has(j, v) {
                    let k = choose|k: int| in_group(j, k) && #[trigger] r.pos(k) == v;
                    assert(fld(rdata, k) == v);
                    assert(data_group_has(rdata, j, v));
                }
                if data_group_has(rdata, j, v) {
                    let k = choose|k: int| in_group(j, k) && #[trigger] fld(rdata, k) == v;
                    assert(r.pos(k) == v);
                    assert(r.group_has(j, v));
                }
                assert(r.group_has(j, v) == data_group_has(rdata, j, v));
                assert(data_group_has(rdata, j, v) == data_group_has(data2, j, v));
                if data_group_has(data2, j, v) {
                    let k = choose|k: int| in_group(j, k) && #[trigger] fld(data2, k) == v;
                    if k != j {
                        assert(self.pos(k) == v);
                        assert(v != pos);
                        assert(self.group_has(j, v));
                    }
                }
                if v == to {
                    assert(in_group(j, j) && fld(data2, j) == v);
                    assert(data_group_has(data2, j, v));
                }
                if v != to && v != pos && self.group_has(j, v) {
                    let k = choose|k: int| in_group(j, k) && #[trigger] self.pos(k) == v;
                    assert(k != j);
                    assert(fld(data2, k) == v);
                    assert(data_group_has(data2, j, v));
                }
            }
            assert(r.in_range()) by {
                assert forall|i: int| 0 <= i < 10 implies #[trigger] r.pos(i) < 25 by {
                    if in_group(j, i) {
                        let v = r.pos(i);
                        assert(r.group_has(j, v));
                    } else {
                        assert(r.pos(i) == self.pos(i));
                    }
                }
            }
            assert(r.distinct());
            assert(r.groups_sorted()) by {
                if j < 4 {
                    assert(in_group(j, 0) && in_group(j, 1) && in_group(j, 2) && in_group(j, 3));
                    assert(group_sorted_at(rdata, j));
                    assert(r.pos(4) == self.pos(4) && r.pos(5) == self.pos(5) && r.pos(6)
                        == self.pos(6) && r.pos(7) == self.pos(7));
                } else if j < 8 {
                    assert(in_group(j, 4) && in_group(j, 5) && in_group(j, 6) && in_group(j, 7));
                    assert(group_sorted_at(rdata, j));
                    assert(r.pos(0) == self.pos(0) && r.pos(1) == self.pos(1) && r.pos(2)
                        == self.pos(2) && r.pos(3) == self.pos(3));
                } else {
                    assert(forall|k: int|
                        0 <= k < 8 ==> #[trigger] r.pos(k) == self.pos(k));
                }
            }
        }
        r
    }
}

proof fn lemma_bit_set(acc: u32, p: u32, r: u32)
    by (bit_vector)
    requires
        p < 32,
        r == acc | (1u32 << p),
    ensures
        forall|c: u32| c < 32 ==> (#[trigger] ((r >> c) & 1) == 1 <==> ((acc >> c) & 1 == 1 || c == p)),
{
}

proof fn lemma_bit_empty()
    by (bit_vector)
    ensures
        forall|c: u32| c < 32 ==> #[trigger] ((0u32 >> c) & 1) == 0,
{
}

impl Board2 {
    /// The 25-bit occupancy set: bit `c` is set exactly when some piece
    /// stands on cell `c`.
    pub fn flatten_to_bitarray(self) -> (r: u32)
        requires
            self.in_range(),
        ensures
            forall|c: u64| c < 32 ==> (#[trigger] ((r >> (c as u32)) & 1) == 1 <==> self.occupied(c)),
    {
        let mut arr: u32 = 0;
        proof {
            lemma_bit_empty();
        }
        let mut i: usize = 0;
        while i < 10
            invariant
                i <= 10,
                self.in_range(),
                forall|c: u64|
                    c < 32 ==> (#[trigger] ((arr >> (c as u32)) & 1) == 1 <==> exists|q: int|
                        0 <= q < i && #[trigger] self.pos(q) == c),
            decreases 10 - i,
        {
            let p = field_get(self.data, (5 * i) as u64);
            let ghost arr0 = arr;
            proof {
                assert(p == self.pos(i as int));
            }
            arr = arr | (1u32 << (p as u32));
            proof {
                lemma_bit_set(arr0, p as u32, arr);
                assert forall|c: u64|
                    c < 32 implies (#[trigger] ((arr >> (c as u32)) & 1) == 1 <==> exists|q: int|
                        0 <= q < i + 1 && #[trigger] self.pos(q) == c) by {
                    if (arr >> (c as u32)) & 1 == 1 {
                        if (arr0 >> (c as u32)) & 1 == 1 {
                            let q = choose|q: int| 0 <= q < i && #[trigger] self.pos(q) == c;
                            assert(0 <= q < i + 1 && self.pos(q) == c);
                        } else {
                            assert(c as u32 == p as u32);
                            assert(self.pos(i as int) == c);
                        }
                    }
                    if exists|q: int| 0 <= q < i + 1 && #[trigger] self.pos(q) == c {
                        let q = choose|q: int| 0 <= q < i + 1 && #[trigger] self.pos(q) == c;
                        if q < i {
                            assert((arr0 >> (c as u32)) & 1 == 1);
                        } else {
                            assert(c == p);
                        }
                    }
                }
            }
            i = i + 1;
        }
        proof {
            assert forall|c: u64| c < 32 implies (#[trigger] ((arr >> (c as u32)) & 1) == 1
                <==> self.occupied(c)) by {
                if self.occupied(c) {
                    let q = choose|q: int| 0 <= q < 10 && #[trigger] self.pos(q) == c;
                    assert(0 <= q < 10 && self.pos(q) == c);
                }
            }
        }
        arr
    }
}

impl Board2 {
    /// The occupancy of the board as a predicate on cell indices.
    pub open spec fn occ_fn(self) -> spec_fn(int) -> bool {
        |c: int| self.occupied(c as u64)
    }

    /// The field index of the `k`-th piece (0..5) of the side to move:
    /// its four pawns in field order, then its king.
    pub open spec fn side_slot(self, k: int) -> int {
        if self.turn() {
            if k < 4 {
                k
            } else {
                8
            }
        } else {
            if k < 4 {
                4 + k
            } else {
                9
            }
        }
    }

    /// Where the piece in field `j` comes to rest sliding in direction `d`.
    pub open spec fn slide_dest(self, j: int, d: Dir) -> int {
        spec_slide(self.occ_fn(), self.pos(j) as int, d)
    }

    /// Whether sliding the piece in field `j` toward `d` yields a legal
    /// move: the slide must make progress, and a pawn may not come to rest
    /// on the center cell.
    pub open spec fn move_allowed(self, j: int, d: Dir) -> bool {
        &&& self.slide_dest(j, d) != self.pos(j) as int
        &&& (j < 8 ==> self.slide_dest(j, d) != 12)
    }

    pub open spec fn move_at(self, j: int, d: Dir) -> Move {
        Move { from_offset: (5 * j) as u8, to: self.slide_dest(j, d) as u8 }
    }

    /// The legal moves among the first `n` of the 40 piece-direction pairs
    /// of the side to move.
    pub open spec fn moves_prefix(self, n: int) -> Seq<Move>
        decreases n,
    {
        if n <= 0 {
            Seq::empty()
        } else {
            let j = self.side_slot((n - 1) / 8);
            let d = dir_of_index((n - 1) % 8);
            self.moves_prefix(n - 1) + (if self.move_allowed(j, d) {
                seq![self.move_at(j, d)]
            } else {
                Seq::empty()
            })
        }
    }

    /// Every legal move of the side to move, in a fixed piece-then-
    /// direction order: for each piece and each direction, the single
    /// maximal-slide destination, when the slide makes progress and does
    /// not rest a pawn on the center.
    pub open spec fn spec_moves(self) -> Seq<Move> {
        self.moves_prefix(40)
    }

    proof fn lemma_move_at_ok(self, j: int, d: Dir)
        requires
            self.wf(),
            0 <= j < 10,
            self.move_allowed(j, d),
        ensures
            self.move_ok(self.move_at(j, d)),
            self.move_at(j, d).slot() == j,
    {
        let c = self.pos(j) as int;
        let t = self.slide_dest(j, d);
        lemma_slide_in_range(self.occ_fn(), c, d);
        lemma_slide_free(self.occ_fn(), c, d);
        assert(!self.occ_fn()(t));
        assert(t as u64 == self.move_at(j, d).to as u64);
        assert((5 * j) as u8 as int / 5 == j);
    }

    /// All legal moves, paired with the canonical position each yields.
    pub fn all_moves_with(self) -> (r: Vec<(Move, Board2)>)
        requires
            self.wf(),
        ensures
            r@.len() == self.spec_moves().len(),
            forall|q: int| 0 <= q < r@.len() ==> #[trigger] r@[q].0 == self.spec_moves()[q],
            forall|q: int|
                0 <= q < r@.len() ==> self.move_ok(#[trigger] r@[q].0) && do_move_rel(
                    self,
                    r@[q].0,
                    r@[q].1,
                ),
    {
        let mut res: Vec<(Move, Board2)> = Vec::new();
        let flat = self.flatten_to_bitarray();
        let maxing = self.maximizing();
        let mut k: usize = 0;
        while k < 5
            invariant
                k <= 5,
                self.wf(),
                maxing == self.turn(),
                forall|c: u64|
                    c < 32 ==> (#[trigger] ((flat >> (c as u32)) & 1) == 1 <==> self.occupied(c)),
                res@.len() == self.moves_prefix(8 * k).len(),
                forall|q: int|
                    0 <= q < res@.len() ==> #[trigger] res@[q].0 == self.moves_prefix(8 * k)[q],
                forall|q: int|
                    0 <= q < res@.len() ==> self.move_ok(#[trigger] res@[q].0) && do_move_rel(
                        self,
                        res@[q].0,
                        res@[q].1,
                    ),
            decreases 5 - k,
        {
            let slot: usize = if maxing {
                if k < 4 {
                    k
                } else {
                    8
                }
            } else {
                if k < 4 {
                    4 + k
                } else {
                    9
                }
            };
            proof {
                assert(slot as int == self.side_slot(k as int));
            }
            let c0 = field_get(self.data, (5 * slot) as u64);
            proof {
                assert(c0 == self.pos(slot as int));
                assert(c0 < 25);
            }
            let mut d: usize = 0;
            while d < 8
                invariant
                    d <= 8,
                    k < 5,
                    self.wf(),
                    maxing == self.turn(),
                    slot as int == self.side_slot(k as int),
                    c0 == self.pos(slot as int),
                    c0 < 25,
                    slot < 10,
                    forall|c: u64|
                        c < 32 ==> (#[trigger] ((flat >> (c as u32)) & 1) == 1 <==> self.occupied(
                            c,
                        )),
                    res@.len() == self.moves_prefix(8 * k + d).len(),
                    forall|q: int|
                        0 <= q < res@.len() ==> #[trigger] res@[q].0 == self.moves_prefix(
                            8 * k + d,
                        )[q],
                    forall|q: int|
                        0 <= q < res@.len() ==> self.move_ok(#[trigger] res@[q].0) && do_move_rel(
                            self,
                            res@[q].0,
                            res@[q].1,
                        ),
                decreases 8 - d,
            {
                let dir = dir_from_index(d);
                let ghost n1 = 8 * k + d + 1;
                proof {
                    assert((n1 - 1) / 8 == k as int && (n1 - 1) % 8 == d as int);
                    assert(self.moves_prefix(n1) == self.moves_prefix(n1 - 1) + (if self
                        .move_allowed(slot as int, dir) {
                        seq![self.move_at(slot as int, dir)]
                    } else {
                        Seq::<Move>::empty()
                    }));
                }
                let mut cur: u8 = c0 as u8;
                proof {
                    assert(spec_slide(self.occ_fn(), c0 as int, dir) == spec_slide(
                        self.occ_fn(),
                        cur as int,
                        dir,
                    ));
                }
                loop
                    invariant
                        cur < 25,
                        self.wf(),
                        forall|c: u64|
                            c < 32 ==> (#[trigger] ((flat >> (c as u32)) & 1) == 1
                                <==> self.occupied(c)),
                        spec_slide(self.occ_fn(), c0 as int, dir) == spec_slide(
                            self.occ_fn(),
                            cur as int,
                            dir,
                        ),
                    ensures
                        cur < 25,
                        cur as int == spec_slide(self.occ_fn(), c0 as int, dir),
                    decreases room(cur as int, dir),
                {
                    match step_cell(cur, dir) {
                        Option::None => {
                            proof {
                                assert(spec_slide(self.occ_fn(), cur as int, dir) == cur as int);
                            }
                            break ;
                        },
                        Option::Some(n) => {
                            if (flat >> (n as u32)) & 1 == 1 {
                                proof {
                                    assert(self.occupied(n as u64));
                                    assert(self.occ_fn()(n as int));
                                    assert(spec_slide(self.occ_fn(), cur as int, dir)
                                        == cur as int);
                                }
                                break ;
                            } else {
                                proof {
                                    assert(!self.occupied(n as u64));
                                    assert(!self.occ_fn()(n as int));
                                    assert(spec_slide(self.occ_fn(), cur as int, dir)
                                        == spec_slide(self.occ_fn(), n as int, dir));
                                    lemma_step_room(cur as int, dir);
                                }
                                cur = n;
                            }
                        },
                    }
                }
                let is_king = slot >= 8;
                if cur as u64 != c0 && (is_king || cur != 12) {
                    let m = Move { from_offset: (5 * slot) as u8, to: cur };
                    proof {
                        assert(self.move_allowed(slot as int, dir));
                        assert(m == self.move_at(slot as int, dir));
                        self.lemma_move_at_ok(slot as int, dir);
                    }
                    let nb = self.do_move(m);
                    res.push((m, nb));
                    proof {
                        assert(res@.len() == self.moves_prefix(n1).len());
                        assert(forall|q: int|
                            0 <= q < res@.len() ==> #[trigger] res@[q].0 == self.moves_prefix(
                                n1,
                            )[q]);
                    }
                } else {
                    proof {
                        assert(!self.move_allowed(slot as int, dir)) by {
                            if cur as u64 == c0 {
                            } else {
                                assert(slot < 8 && cur == 12);
                            }
                        }
                        assert(self.moves_prefix(n1) == self.moves_prefix(n1 - 1));
                    }
                }
                d = d + 1;
            }
            k = k + 1;
        }
        res
    }

    /// Every position reachable in one move from this one.
    pub fn all_moves(self) -> (r: Vec<Board2>)
        requires
            self.wf(),
        ensures
            r@.len() == self.spec_moves().len(),
            forall|q: int|
                0 <= q < r@.len() ==> do_move_rel(self, self.spec_moves()[q], #[trigger] r@[q]),
    {
        let pairs = self.all_moves_with();
        let mut res: Vec<Board2> = Vec::new();
        let mut i: usize = 0;
        while i < pairs.len()
            invariant
                i <= pairs@.len(),
                res@.len() == i,
                pairs@.len() == self.spec_moves().len(),
                forall|q: int| 0 <= q < pairs@.len() ==> #[trigger] pairs@[q].0 == self.spec_moves()[q],
                forall|q: int|
                    0 <= q < pairs@.len() ==> self.move_ok(#[trigger] pairs@[q].0) && do_move_rel(
                        self,
                        pairs@[q].0,
                        pairs@[q].1,
                    ),
                forall|q: int|
                    0 <= q < i ==> do_move_rel(self, self.spec_moves()[q], #[trigger] res@[q]),
            decreases pairs@.len() - i,
        {
            let p = pairs[i];
            res.push(p.1);
            proof {
                assert(pairs@[i as int].0 == self.spec_moves()[i as int]);
                assert(do_move_rel(self, pairs@[i as int].0, pairs@[i as int].1));
            }
            i = i + 1;
        }
        res
    }
}

impl Board2 {
    /// The occupant class of cell `c`, with later fields taking priority
    /// exactly as the expansion writes them (irrelevant once cells are
    /// distinct).
    pub open spec fn cell_class(self, c: u64) -> CellState {
        if self.pos(9) == c {
            CellState::BlackKing
        } else if self.pos(8) == c {
            CellState::WhiteKing
        } else if self.pos(4) == c || self.pos(5) == c || self.pos(6) == c || self.pos(7) == c {
            CellState::BlackPawn
        } else if self.pos(0) == c || self.pos(1) == c || self.pos(2) == c || self.pos(3) == c {
            CellState::WhitePawn
        } else {
            CellState::Empty
        }
    }

    /// Expand the packed word into a 25-cell array naming each cell's
    /// occupant class.
    pub fn flatten(self) -> (r: [CellState; 25])
        requires
            self.in_range(),
        ensures
            forall|c: int| 0 <= c < 25 ==> #[trigger] r@[c] == self.cell_class(c as u64),
    {
        let mut board: [CellState; 25] = vstd::array::array_fill_for_copy_types(CellState::Empty);
        let p0 = field_get(self.data, 0) as usize;
        let p1 = field_get(self.data, 5) as usize;
        let p2 = field_get(self.data, 10) as usize;
        let p3 = field_get(self.data, 15) as usize;
        let p4 = field_get(self.data, 20) as usize;
        let p5 = field_get(self.data, 25) as usize;
        let p6 = field_get(self.data, 30) as usize;
        let p7 = field_get(self.data, 35) as usize;
        let p8 = field_get(self.data, 40) as usize;
        let p9 = field_get(self.data, 45) as usize;
        proof {
            assert(p0 == self.pos(0) && p1 == self.pos(1) && p2 == self.pos(2) && p3 == self.pos(
                3,
            ));
            assert(p4 == self.pos(4) && p5 == self.pos(5) && p6 == self.pos(6) && p7 == self.pos(
                7,
            ));
            assert(p8 == self.pos(8) && p9 == self.pos(9));
            assert(p0 < 25 && p1 < 25 && p2 < 25 && p3 < 25 && p4 < 25);
            assert(p5 < 25 && p6 < 25 && p7 < 25 && p8 < 25 && p9 < 25);
        }
        board[p0] = CellState::WhitePawn;
        board[p1] = CellState::WhitePawn;
        board[p2] = CellState::WhitePawn;
        board[p3] = CellState::WhitePawn;
        board[p4] = CellState::BlackPawn;
        board[p5] = CellState::BlackPawn;
        board[p6] = CellState::BlackPawn;
        board[p7] = CellState::BlackPawn;
        board[p8] = CellState::WhiteKing;
        board[p9] = CellState::BlackKing;
        board
    }
}

/// Group membership written out over the individual fields.
pub proof fn lemma_group_membership(p: Board2, j: int, c: u64)
    requires
        0 <= j < 10,
    ensures
        p.group_has(j, c) == (if j < 4 {
            p.pos(0) == c || p.pos(1) == c || p.pos(2) == c || p.pos(3) == c
        } else if j < 8 {
            p.pos(4) == c || p.pos(5) == c || p.pos(6) == c || p.pos(7) == c
        } else {
            p.pos(j) == c
        }),
{
    if p.group_has(j, c) {
        let x = choose|x: int| in_group(j, x) && #[trigger] p.pos(x) == c;
        assert(group_lo(j) <= x <= group_hi(j));
    }
    if j < 4 {
        if p.pos(0) == c {
            assert(in_group(j, 0) && p.pos(0) == c);
        } else if p.pos(1) == c {
            assert(in_group(j, 1) && p.pos(1) == c);
        } else if p.pos(2) == c {
            assert(in_group(j, 2) && p.pos(2) == c);
        } else if p.pos(3) == c {
            assert(in_group(j, 3) && p.pos(3) == c);
        }
    } else if j < 8 {
        if p.pos(4) == c {
            assert(in_group(j, 4) && p.pos(4) == c);
        } else if p.pos(5) == c {
            assert(in_group(j, 5) && p.pos(5) == c);
        } else if p.pos(6) == c {
            assert(in_group(j, 6) && p.pos(6) == c);
        } else if p.pos(7) == c {
            assert(in_group(j, 7) && p.pos(7) == c);
        }
    } else {
        if p.pos(j) == c {
            assert(in_group(j, j) && p.pos(j) == c);
        }
    }
}

/// A cell's class is empty exactly when no piece stands on it.
pub proof fn lemma_class_occ(p: Board2, c: u64)
    requires
        p.wf(),
    ensures
        (p.cell_class(c) == CellState::Empty) == !p.occupied(c),
{
    if p.occupied(c) {
        let k = choose|k: int| 0 <= k < 10 && #[trigger] p.pos(k) == c;
        assert(p.cell_class(c) != CellState::Empty);
    }
    if p.cell_class(c) != CellState::Empty {
        if p.pos(9) == c {
            assert(p.occupied(c));
        } else if p.pos(8) == c {
            assert(p.occupied(c));
        } else if p.pos(4) == c || p.pos(5) == c || p.pos(6) == c || p.pos(7) == c {
            assert(p.occupied(c));
        } else {
            assert(p.pos(0) == c || p.pos(1) == c || p.pos(2) == c || p.pos(3) == c);
            assert(p.occupied(c));
        }
    }
}

/// In a well-formed position each field's cell carries the class of the
/// piece the field stands for.
pub proof fn lemma_class_of_slot(p: Board2, j: int)
    requires
        p.wf(),
        0 <= j < 10,
    ensures
        p.cell_class(p.pos(j)) == (if j < 4 {
            CellState::WhitePawn
        } else if j < 8 {
            CellState::BlackPawn
        } else if j == 8 {
            CellState::WhiteKing
        } else {
            CellState::BlackKing
        }),
{
    let c = p.pos(j);
    assert(forall|x: int, y: int| 0 <= x < 10 && 0 <= y < 10 && x != y ==> #[trigger] p.pos(x)
        != #[trigger] p.pos(y));
}

proof fn lemma_fields_eq_bv(d1: u64, d2: u64)
    by (bit_vector)
    requires
        (d1 >> 0) & 0x1f == (d2 >> 0) & 0x1f,
        (d1 >> 5) & 0x1f == (d2 >> 5) & 0x1f,
        (d1 >> 10) & 0x1f == (d2 >> 10) & 0x1f,
        (d1 >> 15) & 0x1f == (d2 >> 15) & 0x1f,
        (d1 >> 20) & 0x1f == (d2 >> 20) & 0x1f,
        (d1 >> 25) & 0x1f == (d2 >> 25) & 0x1f,
        (d1 >> 30) & 0x1f == (d2 >> 30) & 0x1f,
        (d1 >> 35) & 0x1f == (d2 >> 35) & 0x1f,
        (d1 >> 40) & 0x1f == (d2 >> 40) & 0x1f,
        (d1 >> 45) & 0x1f == (d2 >> 45) & 0x1f,
        ((d1 >> 50) & 1 == 1) == ((d2 >> 50) & 1 == 1),
        d1 >> 51 == 0,
        d2 >> 51 == 0,
    ensures
        d1 == d2,
{
}

/// One sorted, duplicate-free pawn group of each position holds the same
/// cells as the other's.
proof fn lemma_group_unique(a: Board2, b: Board2, lo: int)
    requires
        a.wf(),
        b.wf(),
        lo == 0 || lo == 4,
        forall|v: u64| #[trigger] a.group_has(lo, v) <==> b.group_has(lo, v),
    ensures
        forall|k: int| lo <= k < lo + 4 ==> #[trigger] a.pos(k) == b.pos(k),
{
    assert(group_lo(lo) == lo && group_hi(lo) == lo + 3);
    assert forall|k: int| lo <= k < lo + 4 implies #[trigger] a.pos(k) == b.pos(k) by {
        lemma_group_unique_at(a, b, lo, k);
    }
}

proof fn lemma_group_unique_at(a: Board2, b: Board2, lo: int, k: int)
    requires
        a.wf(),
        b.wf(),
        lo == 0 || lo == 4,
        lo <= k < lo + 4,
        forall|v: u64| #[trigger] a.group_has(lo, v) <==> b.group_has(lo, v),
    ensures
        a.pos(k) == b.pos(k),
    decreases k,
{
    // every earlier slot already agrees
    assert(forall|q: int| lo <= q < k ==> #[trigger] a.pos(q) == b.pos(q)) by {
        assert forall|q: int| lo <= q < k implies #[trigger] a.pos(q) == b.pos(q) by {
            lemma_group_unique_at(a, b, lo, q);
        }
    }
    let va = a.pos(k);
    assert(a.group_has(lo, va)) by {
        assert(in_group(lo, k) && a.pos(k) == va);
    }
    assert(b.group_has(lo, va));
    let kb = choose|q: int| in_group(lo, q) && #[trigger] b.pos(q) == va;
    // va appears in b's group at kb; sortedness forces kb >= k
    assert(b.pos(kb) == va);
    if kb < k {
        assert(a.pos(kb) == b.pos(kb));
        assert(a.pos(kb) == va);
        assert(false);
    }
    assert(b.pos(k) <= b.pos(kb)) by {
        assert(b.groups_sorted());
    }
    let vb = b.pos(k);
    assert(b.group_has(lo, vb)) by {
        assert(in_group(lo, k) && b.pos(k) == vb);
    }
    assert(a.group_has(lo, vb));
    let ka = choose|q: int| in_group(lo, q) && #[trigger] a.pos(q) == vb;
    if ka < k {
        assert(a.pos(ka) == b.pos(ka));
        assert(false);
    }
    assert(a.pos(k) <= a.pos(ka)) by {
        assert(a.groups_sorted());
    }
}

/// Canonical form is unique: two well-formed positions with the same turn,
/// the same kings, and the same cells in each pawn group are the same
/// packed word.
pub proof fn lemma_canonical_unique(a: Board2, b: Board2)
    requires
        a.wf(),
        b.wf(),
        a.turn() == b.turn(),
        a.pos(8) == b.pos(8),
        a.pos(9) == b.pos(9),
        forall|v: u64| #[trigger] a.group_has(0, v) <==> b.group_has(0, v),
        forall|v: u64| #[trigger] a.group_has(4, v) <==> b.group_has(4, v),
    ensures
        a == b,
{
    lemma_group_unique(a, b, 0);
    lemma_group_unique(a, b, 4);
    assert(forall|k: int| 0 <= k < 10 ==> #[trigger] a.pos(k) == b.pos(k));
    assert(fld(a.packed(), 0) == fld(b.packed(), 0));
    assert(fld(a.packed(), 1) == fld(b.packed(), 1));
    assert(fld(a.packed(), 2) == fld(b.packed(), 2));
    assert(fld(a.packed(), 3) == fld(b.packed(), 3));
    assert(fld(a.packed(), 4) == fld(b.packed(), 4));
    assert(fld(a.packed(), 5) == fld(b.packed(), 5));
    assert(fld(a.packed(), 6) == fld(b.packed(), 6));
    assert(fld(a.packed(), 7) == fld(b.packed(), 7));
    assert(fld(a.packed(), 8) == fld(b.packed(), 8));
    assert(fld(a.packed(), 9) == fld(b.packed(), 9));
    lemma_fields_eq_bv(a.packed(), b.packed());
}

/// Applying one move has exactly one canonical outcome: any two positions
/// related to the same move from the same position are equal.
pub proof fn lemma_do_move_rel_deterministic(pre: Board2, m: Move, a: Board2, b: Board2)
    requires
        pre.wf(),
        m.valid_shape(),
        do_move_rel(pre, m, a),
        do_move_rel(pre, m, b),
    ensures
        a == b,
{
    let j = m.slot();
    assert(0 <= j < 10);
    assert(a.turn() == b.turn());
    assert(a.pos(8) == b.pos(8)) by {
        if in_group(j, 8) {
            assert(j == 8);
            lemma_group_membership(a, 8, a.pos(8));
            assert(a.group_has(8, a.pos(8)));
            assert(a.pos(8) == m.to as u64 || (a.pos(8) != pre.pos(8) && pre.group_has(
                8,
                a.pos(8),
            )));
            lemma_group_membership(pre, 8, a.pos(8));
            lemma_group_membership(b, 8, m.to as u64);
            assert(b.group_has(8, m.to as u64));
            assert(a.pos(8) == m.to as u64);
        }
    }
    assert(a.pos(9) == b.pos(9)) by {
        if in_group(j, 9) {
            assert(j == 9);
            lemma_group_membership(a, 9, a.pos(9));
            assert(a.group_has(9, a.pos(9)));
            lemma_group_membership(pre, 9, a.pos(9));
            lemma_group_membership(b, 9, m.to as u64);
            assert(b.group_has(9, m.to as u64));
            assert(a.pos(9) == m.to as u64);
        }
    }
    assert forall|v: u64| #[trigger] a.group_has(0, v) <==> b.group_has(0, v) by {
        if j < 4 {
            assert(a.group_has(j, v) <==> (v == m.to as u64 || (v != pre.pos(j) && pre.group_has(
                j,
                v,
            ))));
            assert(b.group_has(j, v) <==> (v == m.to as u64 || (v != pre.pos(j) && pre.group_has(
                j,
                v,
            ))));
        } else {
            lemma_group_membership(a, 0, v);
            lemma_group_membership(b, 0, v);
            assert(!in_group(j, 0) && !in_group(j, 1) && !in_group(j, 2) && !in_group(j, 3));
            assert(a.pos(0) == pre.pos(0) && a.pos(1) == pre.pos(1) && a.pos(2) == pre.pos(2)
                && a.pos(3) == pre.pos(3));
            assert(b.pos(0) == pre.pos(0) && b.pos(1) == pre.pos(1) && b.pos(2) == pre.pos(2)
                && b.pos(3) == pre.pos(3));
        }
    }
    assert forall|v: u64| #[trigger] a.group_has(4, v) <==> b.group_has(4, v) by {
        if 4 <= j < 8 {
            assert(a.group_has(j, v) <==> (v == m.to as u64 || (v != pre.pos(j) && pre.group_has(
                j,
                v,
            ))));
            assert(b.group_has(j, v) <==> (v == m.to as u64 || (v != pre.pos(j) && pre.group_has(
                j,
                v,
            ))));
        } else {
            lemma_group_membership(a, 4, v);
            lemma_group_membership(b, 4, v);
            assert(!in_group(j, 4) && !in_group(j, 5) && !in_group(j, 6) && !in_group(j, 7));
            assert(a.pos(4) == pre.pos(4) && a.pos(5) == pre.pos(5) && a.pos(6) == pre.pos(6)
                && a.pos(7) == pre.pos(7));
            assert(b.pos(4) == pre.pos(4) && b.pos(5) == pre.pos(5) && b.pos(6) == pre.pos(6)
                && b.pos(7) == pre.pos(7));
        }
    }
    lemma_canonical_unique(a, b);
}

/// Two positions with the same packed word are the same position.
pub proof fn lemma_packed_injective(a: Board2, b: Board2)
    ensures
        a.packed() == b.packed() ==> a == b,
{
}

/// A valid boundary encoding: ten on-board, pairwise distinct cell indices
/// followed by the side-to-move flag.
pub open spec fn positions_valid(s: Seq<u8>) -> bool {
    &&& s.len() == 11
    &&& forall|i: int| 0 <= i < 10 ==> #[trigger] s[i] < 25
    &&& forall|i: int, j: int| 0 <= i < j < 10 ==> s[i] != s[j]
}

/// How a decoded position relates to the encoding it came from: same kings,
/// same turn flag, and each pawn group holds exactly the listed cells.
pub open spec fn decode_rel(s: Seq<u8>, b: Board2) -> bool {
    &&& b.wf()
    &&& b.turn() == (s[10] != 0)
    &&& b.pos(8) == s[8] as u64
    &&& b.pos(9) == s[9] as u64
    &&& forall|v: u64|
        #[trigger] b.group_has(0, v) <==> (exists|k: int| 0 <= k < 4 && #[trigger] s[k] as u64 == v)
    &&& forall|v: u64|
        #[trigger] b.group_has(4, v) <==> (exists|k: int| 4 <= k < 8 && #[trigger] s[k] as u64 == v)
}

/// Order a pair.
fn cswap(x: u8, y: u8) -> (r: (u8, u8))
    ensures
        r.0 <= r.1,
        (r.0 == x && r.1 == y) || (r.0 == y && r.1 == x),
{
    if x <= y {
        (x, y)
    } else {
        (y, x)
    }
}

/// Whether `(r0, r1, r2, r3)` holds the same values as `(a, b, c, d)`.
pub open spec fn same_vals4(r0: u8, r1: u8, r2: u8, r3: u8, a: u8, b: u8, c: u8, d: u8) -> bool {
    &&& (r0 == a || r0 == b || r0 == c || r0 == d)
    &&& (r1 == a || r1 == b || r1 == c || r1 == d)
    &&& (r2 == a || r2 == b || r2 == c || r2 == d)
    &&& (r3 == a || r3 == b || r3 == c || r3 == d)
    &&& (a == r0 || a == r1 || a == r2 || a == r3)
    &&& (b == r0 || b == r1 || b == r2 || b == r3)
    &&& (c == r0 || c == r1 || c == r2 || c == r3)
    &&& (d == r0 || d == r1 || d == r2 || d == r3)
}

/// Sort four values with a fixed compare-exchange network.
fn sort4(a: u8, b: u8, c: u8, d: u8) -> (r: (u8, u8, u8, u8))
    ensures
        r.0 <= r.1 && r.1 <= r.2 && r.2 <= r.3,
        same_vals4(r.0, r.1, r.2, r.3, a, b, c, d),
{
    let (a1, b1) = cswap(a, b);
    let (c1, d1) = cswap(c, d);
    let (a2, c2) = cswap(a1, c1);
    let (b2, d2) = cswap(b1, d1);
    let (b3, c3) = cswap(b2, c2);
    (a2, b3, c3, d2)
}

impl Board2 {
    /// The boundary encoding of this position: the ten cell indices in
    /// field order, then the side-to-move flag.
    pub open spec fn spec_positions(self) -> Seq<u8> {
        Seq::new(
            11,
            |i: int|
                if i < 10 {
                    self.pos(i) as u8
                } else if self.turn() {
                    1u8
                } else {
                    0u8
                },
        )
    }

    /// Decode the position to its ten-cell boundary form.
    pub fn positions(&self) -> (r: Vec<u8>)
        ensures
            r@ == self.spec_positions(),
    {
        let mut r: Vec<u8> = Vec::new();
        let mut i: usize = 0;
        while i < 10
            invariant
                i <= 10,
                r@.len() == i,
                forall|k: int| 0 <= k < i ==> #[trigger] r@[k] == self.pos(k) as u8,
            decreases 10 - i,
        {
            let v = field_get(self.data, (5 * i) as u64);
            r.push(v as u8);
            i = i + 1;
        }
        if self.maximizing() {
            r.push(1);
        } else {
            r.push(0);
        }
        proof {
            assert(r@ =~= self.spec_positions());
        }
        r
    }

    /// Build a canonical position from a boundary encoding: ten cell
    /// indices (white pawns, black pawns, white king, black king) and the
    /// side-to-move flag.  Each pawn group is sorted on ingestion; an
    /// encoding with a short list, an off-board cell, or a duplicated cell
    /// is rejected.
    pub fn from_positions(pos: &Vec<u8>) -> (r: Option<Board2>)
        ensures
            (r is Some) == positions_valid(pos@),
            (match r {
                Option::Some(b) => decode_rel(pos@, b),
                Option::None => true,
            }),
    {
        if pos.len() != 11 {
            return Option::None;
        }
        let mut i: usize = 0;
        while i < 10
            invariant
                i <= 10,
                pos@.len() == 11,
                forall|k: int| 0 <= k < i ==> #[trigger] pos@[k] < 25,
            decreases 10 - i,
        {
            if pos[i] >= 25 {
                return Option::None;
            }
            i = i + 1;
        }
        let mut x: usize = 0;
        while x < 10
            invariant
                x <= 10,
                pos@.len() == 11,
                forall|k: int| 0 <= k < 10 ==> #[trigger] pos@[k] < 25,
                forall|k: int, l: int| 0 <= k < l < 10 && k < x ==> pos@[k] != pos@[l],
            decreases 10 - x,
        {
            let mut y: usize = x + 1;
            while y < 10
                invariant
                    x < y <= 10,
                    pos@.len() == 11,
                    forall|k: int| 0 <= k < 10 ==> #[trigger] pos@[k] < 25,
                    forall|k: int, l: int| 0 <= k < l < 10 && k < x ==> pos@[k] != pos@[l],
                    forall|l: int| x < l < y ==> pos@[x as int] != #[trigger] pos@[l],
                decreases 10 - y,
            {
                if pos[x] == pos[y] {
                    return Option::None;
                }
                y = y + 1;
            }
            x = x + 1;
        }
        let (w0, w1, w2, w3) = sort4(pos[0], pos[1], pos[2], pos[3]);
        let (b0, b1, b2, b3) = sort4(pos[4], pos[5], pos[6], pos[7]);
        let mut p: Vec<u8> = Vec::new();
        p.push(w0);
        p.push(w1);
        p.push(w2);
        p.push(w3);
        p.push(b0);
        p.push(b1);
        p.push(b2);
        p.push(b3);
        p.push(pos[8]);
        p.push(pos[9]);
        let white_to_move = pos[10] != 0;
        let data = encode_fields(&p, white_to_move);
        let b = Board2 { data };
        proof {
            assert(forall|k: int| 0 <= k < 10 ==> #[trigger] b.pos(k) == p@[k]);
            assert(b.in_range());
            assert(b.groups_sorted());
            assert(b.distinct()) by {
                assert forall|k: int, l: int| 0 <= k < l < 10 implies #[trigger] b.pos(k)
                    != #[trigger] b.pos(l) by {
                    assert(p@[k] != p@[l]) by {
                        assert(same_vals4(w0, w1, w2, w3, pos@[0], pos@[1], pos@[2], pos@[3]));
                        assert(same_vals4(b0, b1, b2, b3, pos@[4], pos@[5], pos@[6], pos@[7]));
                    }
                }
            }
            assert(b.upper_clear());
            assert(b.turn() == (pos@[10] != 0));
            assert forall|v: u64|
                #[trigger] b.group_has(0, v) <==> (exists|k: int|
                    0 <= k < 4 && #[trigger] pos@[k] as u64 == v) by {
                if b.group_has(0, v) {
                    let q = choose|q: int| in_group(0, q) && #[trigger] b.pos(q) == v;
                    assert(p@[q] as u64 == v);
                    assert(p@[q] == pos@[0] || p@[q] == pos@[1] || p@[q] == pos@[2] || p@[q]
                        == pos@[3]);
                }
                if exists|k: int| 0 <= k < 4 && #[trigger] pos@[k] as u64 == v {
                    let k = choose|k: int| 0 <= k < 4 && #[trigger] pos@[k] as u64 == v;
                    assert(pos@[k] == w0 || pos@[k] == w1 || pos@[k] == w2 || pos@[k] == w3);
                    assert(exists|q: int| in_group(0, q) && #[trigger] b.pos(q) == v) by {
                        if pos@[k] == w0 {
                            assert(in_group(0, 0) && b.pos(0) == v);
                        } else if pos@[k] == w1 {
                            assert(in_group(0, 1) && b.pos(1) == v);
                        } else if pos@[k] == w2 {
                            assert(in_group(0, 2) && b.pos(2) == v);
                        } else {
                            assert(in_group(0, 3) && b.pos(3) == v);
                        }
                    }
                }
            }
            assert forall|v: u64|
                #[trigger] b.group_has(4, v) <==> (exists|k: int|
                    4 <= k < 8 && #[trigger] pos@[k] as u64 == v) by {
                if b.group_has(4, v) {
                    let q = choose|q: int| in_group(4, q) && #[trigger] b.pos(q) == v;
                    assert(p@[q] as u64 == v);
                    assert(p@[q] == pos@[4] || p@[q] == pos@[5] || p@[q] == pos@[6] || p@[q]
                        == pos@[7]);
                }
                if exists|k: int| 4 <= k < 8 && #[trigger] pos@[k] as u64 == v {
                    let k = choose|k: int| 4 <= k < 8 && #[trigger] pos@[k] as u64 == v;
                    assert(pos@[k] == b0 || pos@[k] == b1 || pos@[k] == b2 || pos@[k] == b3);
                    assert(exists|q: int| in_group(4, q) && #[trigger] b.pos(q) == v) by {
                        if pos@[k] == b0 {
                            assert(in_group(4, 4) && b.pos(4) == v);
                        } else if pos@[k] == b1 {
                            assert(in_group(4, 5) && b.pos(5) == v);
                        } else if pos@[k] == b2 {
                            assert(in_group(4, 6) && b.pos(6) == v);
                        } else {
                            assert(in_group(4, 7) && b.pos(7) == v);
                        }
                    }
                }
            }
        }
        Option::Some(b)
    }
}

/// Packing round-trip law: any position related to the boundary encoding
/// of a canonical position `b` the way `from_positions` relates its result
/// to its input is `b` itself; re-encoding a decoded state changes nothing.
pub proof fn lemma_pack_round_trip(b: Board2, b2: Board2)
    requires
        b.wf(),
        decode_rel(b.spec_positions(), b2),
    ensures
        b2 == b,
{
    let s = b.spec_positions();
    assert(s[10] == if b.turn() { 1u8 } else { 0u8 });
    assert(b2.turn() == b.turn());
    assert(b2.pos(8) == b.pos(8) && b2.pos(9) == b.pos(9)) by {
        assert(s[8] == b.pos(8) as u8 && s[9] == b.pos(9) as u8);
        assert(b.pos(8) < 25 && b.pos(9) < 25);
    }
    assert forall|v: u64| #[trigger] b2.group_has(0, v) <==> b.group_has(0, v) by {
        assert(b2.group_has(0, v) <==> (exists|k: int|
            0 <= k < 4 && #[trigger] s[k] as u64 == v));
        if exists|k: int| 0 <= k < 4 && #[trigger] s[k] as u64 == v {
            let k = choose|k: int| 0 <= k < 4 && #[trigger] s[k] as u64 == v;
            assert(b.pos(k) < 25);
            assert(b.pos(k) == v);
            assert(in_group(0, k));
        }
        if b.group_has(0, v) {
            let k = choose|k: int| in_group(0, k) && #[trigger] b.pos(k) == v;
            assert(b.pos(k) < 25);
            assert(s[k] as u64 == v);
        }
    }
    assert forall|v: u64| #[trigger] b2.group_has(4, v) <==> b.group_has(4, v) by {
        assert(b2.group_has(4, v) <==> (exists|k: int|
            4 <= k < 8 && #[trigger] s[k] as u64 == v));
        if exists|k: int| 4 <= k < 8 && #[trigger] s[k] as u64 == v {
            let k = choose|k: int| 4 <= k < 8 && #[trigger] s[k] as u64 == v;
            assert(b.pos(k) < 25);
            assert(b.pos(k) == v);
            assert(in_group(4, k));
        }
        if b.group_has(4, v) {
            let k = choose|k: int| in_group(4, k) && #[trigger] b.pos(k) == v;
            assert(b.pos(k) < 25);
            assert(s[k] as u64 == v);
        }
    }
    lemma_canonical_unique(b2, b);
}

/// The boundary encoding of a canonical position is always accepted by the
/// decoder.
pub proof fn lemma_positions_encodable(b: Board2)
    requires
        b.wf(),
    ensures
        positions_valid(b.spec_positions()),
{
    let s = b.spec_positions();
    assert forall|i: int| 0 <= i < 10 implies #[trigger] s[i] < 25 by {
        assert(b.pos(i) < 25);
    }
    assert forall|i: int, j: int| 0 <= i < j < 10 implies s[i] != s[j] by {
        assert(b.pos(i) != b.pos(j));
        assert(b.pos(i) < 25 && b.pos(j) < 25);
    }
}

} // verus!
