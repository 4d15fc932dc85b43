//! Incremental A* pathfinding on a fixed-size square grid.
//!
//! The grid is a flat vector of per-cell states addressed by
//! `row * row_length + column`. A cell is traversable unless it is `Solid`;
//! the remaining states (`Normal`, `Opened`, `Closed`, `Path`) are search
//! bookkeeping that never affects traversability. The search itself lives in
//! the [`astar`] module, in a run-to-completion form and a one-expansion-per-
//! call form for animated execution.

use vstd::prelude::*;

pub mod astar;

verus! {

/// A grid coordinate pair `(column, row)`; compared by exact equality on
/// both components.
#[derive(Clone, Copy, PartialEq, Eq, Structural, Debug)]
pub struct Position(pub u16, pub u16);

impl Position {
    pub fn new(x: u16, y: u16) -> (p: Position)
        ensures
            p == Position(x, y),
    {
        Position(x, y)
    }
}

/// The status of one grid cell. Only `Solid` affects traversability; the
/// other states record the progress of a search over the grid.
#[derive(Clone, Copy, PartialEq, Eq, Structural, Debug)]
pub enum CellState {
    Solid,
    Normal,
    Path,
    Opened,
    Closed,
}

/// Both coordinates of `p` lie inside a square grid with `row_length` cells
/// per row.
pub open spec fn in_bounds(p: Position, row_length: u32) -> bool {
    (p.0 as int) < (row_length as int) && (p.1 as int) < (row_length as int)
}

/// The flat index of `p` in a grid stored row by row.
pub open spec fn cell_index(p: Position, row_length: u32) -> int {
    (p.1 as int) * (row_length as int) + (p.0 as int)
}

/// The two positions differ by at most one step in each axis and are not
/// the same cell: `b` is one of the eight cells surrounding `a`.
pub open spec fn adjacent8(a: Position, b: Position) -> bool {
    &&& a != b
    &&& -1 <= (a.0 as int) - (b.0 as int) <= 1
    &&& -1 <= (a.1 as int) - (b.1 as int) <= 1
}

pub open spec fn abs_diff(a: int, b: int) -> int {
    if a >= b {
        a - b
    } else {
        b - a
    }
}

/// The Manhattan distance: the sum of the coordinate differences.
pub open spec fn manhattan_distance(a: Position, b: Position) -> int {
    abs_diff(a.0 as int, b.0 as int) + abs_diff(a.1 as int, b.1 as int)
}

/// The Chebyshev distance: the larger of the two coordinate differences.
pub open spec fn chebyshev_distance(a: Position, b: Position) -> int {
    if abs_diff(a.0 as int, b.0 as int) >= abs_diff(a.1 as int, b.1 as int) {
        abs_diff(a.0 as int, b.0 as int)
    } else {
        abs_diff(a.1 as int, b.1 as int)
    }
}

pub fn manhattan(pa: Position, pb: Position) -> (r: u32)
    ensures
        r == manhattan_distance(pa, pb),
{
    let dx: u32 = if pb.0 >= pa.0 {
        (pb.0 - pa.0) as u32
    } else {
        (pa.0 - pb.0) as u32
    };
    let dy: u32 = if pb.1 >= pa.1 {
        (pb.1 - pa.1) as u32
    } else {
        (pa.1 - pb.1) as u32
    };
    dx + dy
}

pub fn tchebychev(pa: Position, pb: Position) -> (r: u32)
    ensures
        r == chebyshev_distance(pa, pb),
{
    let dx: u32 = if pb.0 >= pa.0 {
        (pb.0 - pa.0) as u32
    } else {
        (pa.0 - pb.0) as u32
    };
    let dy: u32 = if pb.1 >= pa.1 {
        (pb.1 - pa.1) as u32
    } else {
        (pa.1 - pb.1) as u32
    };
    if dx >= dy {
        dx
    } else {
        dy
    }
}

/// An in-bounds position has a flat index inside the grid vector.
pub proof fn lemma_cell_index_bound(p: Position, row_length: u32)
    requires
        in_bounds(p, row_length),
    ensures
        0 <= cell_index(p, row_length) < (row_length as int) * (row_length as int),
{
    assert(0 <= (p.1 as int) * (row_length as int) + (p.0 as int) < (row_length as int) * (row_length as int)) by (nonlinear_arith)
        requires
            0 <= (p.0 as int) < (row_length as int),
            0 <= (p.1 as int) < (row_length as int),
    ;
}

/// Distinct in-bounds positions have distinct flat indices.
pub proof fn lemma_cell_index_injective(p: Position, q: Position, row_length: u32)
    requires
        in_bounds(p, row_length),
        in_bounds(q, row_length),
        cell_index(p, row_length) == cell_index(q, row_length),
    ensures
        p == q,
{
    assert(p.0 == q.0 && p.1 == q.1) by (nonlinear_arith)
        requires
            0 <= (p.0 as int) < (row_length as int),
            0 <= (p.1 as int) < (row_length as int),
            0 <= (q.0 as int) < (row_length as int),
            0 <= (q.1 as int) < (row_length as int),
            (p.1 as int) * (row_length as int) + (p.0 as int) == (q.1 as int) * (row_length as int) + (q.0 as int),
    ;
}

/// Computes the flat index of an in-bounds position.
pub fn flat_index(p: Position, row_length: u32) -> (i: usize)
    requires
        1 <= row_length <= 65535,
        in_bounds(p, row_length),
    ensures
        i == cell_index(p, row_length),
        i < (row_length as int) * (row_length as int),
{
    proof {
        lemma_cell_index_bound(p, row_length);
        assert((p.1 as int) * (row_length as int) + (p.0 as int) <= u32::MAX as int) by (nonlinear_arith)
            requires
                0 <= (p.0 as int) < (row_length as int),
                0 <= (p.1 as int) < (row_length as int),
                (row_length as int) <= 65535,
        ;
    }
    let idx: u32 = (p.1 as u32) * row_length + (p.0 as u32);
    idx as usize
}

} // verus!
