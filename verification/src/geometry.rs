//! Board geometry: the eight slide directions on the 5x5 grid and the
//! maximal-slide rule.  For every cell and direction, a slide visits the
//! ordered ray of cells toward the edge and stops on the last free cell
//! before the first occupied one (or the edge).

use vstd::prelude::*;

verus! {

/// One of the eight slide directions (four orthogonal, four diagonal).
#[derive(Copy, Clone, Debug, PartialEq, Eq, Structural)]
pub enum Dir {
    Up,
    Down,
    Left,
    Right,
    UpLeft,
    UpRight,
    DownLeft,
    DownRight,
}

/// Row change of one step.
pub open spec fn dir_dr(d: Dir) -> int {
    match d {
        Dir::Up => -1,
        Dir::Down => 1,
        Dir::Left => 0,
        Dir::Right => 0,
        Dir::UpLeft => -1,
        Dir::UpRight => -1,
        Dir::DownLeft => 1,
        Dir::DownRight => 1,
    }
}

/// Column change of one step.
pub open spec fn dir_dc(d: Dir) -> int {
    match d {
        Dir::Up => 0,
        Dir::Down => 0,
        Dir::Left => -1,
        Dir::Right => 1,
        Dir::UpLeft => -1,
        Dir::UpRight => 1,
        Dir::DownLeft => -1,
        Dir::DownRight => 1,
    }
}

/// The fixed enumeration order of the eight directions.
pub open spec fn dir_of_index(n: int) -> Dir {
    if n == 0 {
        Dir::Up
    } else if n == 1 {
        Dir::UpLeft
    } else if n == 2 {
        Dir::Left
    } else if n == 3 {
        Dir::DownLeft
    } else if n == 4 {
        Dir::Down
    } else if n == 5 {
        Dir::DownRight
    } else if n == 6 {
        Dir::Right
    } else {
        Dir::UpRight
    }
}

impl Dir {
    /// All eight directions, in the fixed enumeration order.
    pub fn all() -> (r: [Dir; 8])
        ensures
            forall|n: int| 0 <= n < 8 ==> #[trigger] r@[n] == dir_of_index(n),
    {
        [
            Dir::Up,
            Dir::UpLeft,
            Dir::Left,
            Dir::DownLeft,
            Dir::Down,
            Dir::DownRight,
            Dir::Right,
            Dir::UpRight,
        ]
    }
}

/// The direction at position `n` of the enumeration order.
pub fn dir_from_index(n: usize) -> (r: Dir)
    requires
        n < 8,
    ensures
        r == dir_of_index(n as int),
{
    if n == 0 {
        Dir::Up
    } else if n == 1 {
        Dir::UpLeft
    } else if n == 2 {
        Dir::Left
    } else if n == 3 {
        Dir::DownLeft
    } else if n == 4 {
        Dir::Down
    } else if n == 5 {
        Dir::DownRight
    } else if n == 6 {
        Dir::Right
    } else {
        Dir::UpRight
    }
}

/// One step from cell `c` in direction `d`, or nothing at the board edge.
pub open spec fn spec_step(c: int, d: Dir) -> Option<int> {
    let nr = c / 5 + dir_dr(d);
    let nc = c % 5 + dir_dc(d);
    if 0 <= nr < 5 && 0 <= nc < 5 {
        Option::Some(5 * nr + nc)
    } else {
        Option::None
    }
}

/// How many steps remain before the edge in direction `d`.
pub open spec fn room(c: int, d: Dir) -> int {
    let rr = if dir_dr(d) < 0 {
        c / 5
    } else if dir_dr(d) > 0 {
        4 - c / 5
    } else {
        10
    };
    let cc = if dir_dc(d) < 0 {
        c % 5
    } else if dir_dc(d) > 0 {
        4 - c % 5
    } else {
        10
    };
    if rr < cc {
        rr
    } else {
        cc
    }
}

pub proof fn lemma_step_room(c: int, d: Dir)
    requires
        0 <= c < 25,
        spec_step(c, d) is Some,
    ensures
        0 <= spec_step(c, d)->Some_0 < 25,
        room(spec_step(c, d)->Some_0, d) < room(c, d),
        0 <= room(c, d),
{
    let n = spec_step(c, d)->Some_0;
    assert(n == 5 * (c / 5 + dir_dr(d)) + (c % 5 + dir_dc(d)));
    assert(n / 5 == c / 5 + dir_dr(d) && n % 5 == c % 5 + dir_dc(d)) by (nonlinear_arith)
        requires
            n == 5 * (c / 5 + dir_dr(d)) + (c % 5 + dir_dc(d)),
            0 <= c / 5 + dir_dr(d) < 5,
            0 <= c % 5 + dir_dc(d) < 5,
    {
    }
}

/// The maximal slide: the cell reached by stepping in direction `d` from
/// `c` until the edge or the first occupied cell; `c` itself when no step
/// is possible.
pub open spec fn spec_slide(occ: spec_fn(int) -> bool, c: int, d: Dir) -> int
    decreases room(c, d),
        when 0 <= c < 25 via slide_decreases
{
    match spec_step(c, d) {
        Option::None => c,
        Option::Some(n) => if occ(n) {
            c
        } else {
            spec_slide(occ, n, d)
        },
    }
}

#[via_fn]
proof fn slide_decreases(occ: spec_fn(int) -> bool, c: int, d: Dir) {
    if spec_step(c, d) is Some {
        lemma_step_room(c, d);
    }
}

/// A slide never leaves the board.
pub proof fn lemma_slide_in_range(occ: spec_fn(int) -> bool, c: int, d: Dir)
    requires
        0 <= c < 25,
    ensures
        0 <= spec_slide(occ, c, d) < 25,
    decreases room(c, d),
{
    if spec_step(c, d) is Some {
        lemma_step_room(c, d);
        let n = spec_step(c, d)->Some_0;
        if !occ(n) {
            lemma_slide_in_range(occ, n, d);
        }
    }
}

/// A slide that moves at all ends on a free cell.
pub proof fn lemma_slide_free(occ: spec_fn(int) -> bool, c: int, d: Dir)
    requires
        0 <= c < 25,
        spec_slide(occ, c, d) != c,
    ensures
        !occ(spec_slide(occ, c, d)),
    decreases room(c, d),
{
    lemma_step_room(c, d);
    let n = spec_step(c, d)->Some_0;
    if spec_slide(occ, n, d) != n {
        lemma_slide_free(occ, n, d);
    }
}

/// A slide only reads the occupancy of on-board cells: two occupancies
/// that agree there drive it to the same destination.
pub proof fn lemma_slide_occ_congruence(
    occ1: spec_fn(int) -> bool,
    occ2: spec_fn(int) -> bool,
    c: int,
    d: Dir,
)
    requires
        0 <= c < 25,
        forall|i: int| 0 <= i < 25 ==> #[trigger] occ1(i) == occ2(i),
    ensures
        spec_slide(occ1, c, d) == spec_slide(occ2, c, d),
    decreases room(c, d),
{
    if spec_step(c, d) is Some {
        lemma_step_room(c, d);
        let n = spec_step(c, d)->Some_0;
        if !occ1(n) {
            lemma_slide_occ_congruence(occ1, occ2, n, d);
        }
    }
}

/// One step from a cell index, or nothing at the board edge.
pub fn step_cell(c: u8, d: Dir) -> (r: Option<u8>)
    requires
        c < 25,
    ensures
        (match r {
            Option::Some(n) => spec_step(c as int, d) == Option::Some(n as int) && n < 25,
            Option::None => spec_step(c as int, d) is None,
        }),
{
    let row = c / 5;
    let col = c % 5;
    proof {
        assert(c as int / 5 == row as int && c as int % 5 == col as int);
        assert(row < 5 && col < 5);
    }
    let r: Option<u8> = match d {
        Dir::Up => if row == 0 {
            Option::None
        } else {
            Option::Some(c - 5)
        },
        Dir::Down => if row == 4 {
            Option::None
        } else {
            Option::Some(c + 5)
        },
        Dir::Left => if col == 0 {
            Option::None
        } else {
            Option::Some(c - 1)
        },
        Dir::Right => if col == 4 {
            Option::None
        } else {
            Option::Some(c + 1)
        },
        Dir::UpLeft => if row == 0 || col == 0 {
            Option::None
        } else {
            Option::Some(c - 6)
        },
        Dir::UpRight => if row == 0 || col == 4 {
            Option::None
        } else {
            Option::Some(c - 4)
        },
        Dir::DownLeft => if row == 4 || col == 0 {
            Option::None
        } else {
            Option::Some(c + 4)
        },
        Dir::DownRight => if row == 4 || col == 4 {
            Option::None
        } else {
            Option::Some(c + 6)
        },
    };
    proof {
        if r is Some {
            let n = r->Some_0;
            assert(n as int == 5 * (c as int / 5 + dir_dr(d)) + (c as int % 5 + dir_dc(d)));
        }
    }
    r
}

} // verus!
