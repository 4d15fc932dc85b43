//! The A* search engine: node model, frontier management and path
//! reconstruction.

use vstd::prelude::*;
use crate::{CellState, Position, adjacent8, cell_index, chebyshev_distance, in_bounds, flat_index, lemma_cell_index_bound};

verus! {

/// One visited-or-candidate grid cell during a single search run.
///
/// `parent` is an index into the closed list naming the predecessor on the
/// best-known route to this node; it is `None` only for the start node.
/// `g_cost` holds the scaled Chebyshev distance to the target and `h_cost`
/// the cost accumulated from the start (note the two names are swapped
/// relative to the usual A* convention); `f_cost` is their sum and orders
/// the frontier.
#[derive(Clone, Copy, Debug)]
pub struct Node {
    pub parent: Option<u32>,
    pub pos: Position,
    pub g_cost: u32,
    pub h_cost: u32,
    pub f_cost: u32,
}

/// The outcome of one expansion step of the incremental search.
#[derive(Clone, Copy, PartialEq, Eq, Structural, Debug)]
pub enum StepResult {
    /// The node expanded this step is the target; the path has been marked.
    Found,
    /// The target was not reached this step; call again to continue.
    Searching,
    /// The frontier is empty: no path to the target exists.
    Exhausted,
}

/// The step increment added to a parent's accumulated cost: 14 when the move
/// changes both coordinates (diagonal), 1 otherwise.
pub open spec fn step_increment(a: Position, b: Position) -> int {
    if a.0 != b.0 && a.1 != b.1 {
        14
    } else {
        1
    }
}

/// The accumulated cost a node receives from its parent in the closed list:
/// the parent's accumulated cost plus the step increment, or 0 for a node
/// without a parent.
pub open spec fn accumulated_cost(n: Node, nodes: Seq<Node>) -> int {
    match n.parent {
        Some(j) => nodes[j as int].h_cost as int + step_increment(n.pos, nodes[j as int].pos),
        None => 0,
    }
}

/// Every parent reference in `nodes` points strictly backwards: parents are
/// always expanded before their children.
pub open spec fn parents_ok(nodes: Seq<Node>) -> bool {
    forall|i: int|
        0 <= i < nodes.len() ==> (#[trigger] nodes[i].parent matches Some(j) ==> j < i)
}

/// Some node in `s` sits at position `p`.
pub open spec fn list_has_pos(s: Seq<Node>, p: Position) -> bool {
    exists|i: int| 0 <= i < s.len() && s[i].pos == p
}

/// No two nodes in `s` share a position.
pub open spec fn positions_distinct(s: Seq<Node>) -> bool {
    forall|i: int, j: int| 0 <= i < j < s.len() ==> s[i].pos != s[j].pos
}

/// No node of `a` shares a position with a node of `b`.
pub open spec fn lists_disjoint(a: Seq<Node>, b: Seq<Node>) -> bool {
    forall|i: int, j: int|
        0 <= i < a.len() && 0 <= j < b.len() ==> a[i].pos != b[j].pos
}

/// The route from the start node to `nodes[i]`, read off the parent links:
/// the chain ends at `nodes[i]` and begins at the unique ancestor without a
/// parent.
pub open spec fn spec_chain(nodes: Seq<Node>, i: int) -> Seq<Node>
    decreases i,
{
    match nodes[i].parent {
        Some(j) => if 0 <= j < i {
            spec_chain(nodes, j as int).push(nodes[i])
        } else {
            seq![nodes[i]]
        },
        None => seq![nodes[i]],
    }
}

/// Two nodes are equal exactly when their positions are equal; the cost
/// fields play no part in identity.
impl PartialEq for Node {
    fn eq(&self, other: &Node) -> (r: bool)
        ensures
            r == (self.pos == other.pos),
    {
        self.pos == other.pos
    }
}

impl vstd::std_specs::cmp::PartialEqSpecImpl for Node {
    open spec fn obeys_eq_spec() -> bool {
        true
    }

    open spec fn eq_spec(&self, other: &Node) -> bool {
        self.pos == other.pos
    }
}

impl Node {
    pub fn new(pos: Position, gcost: u32, hcost: u32) -> (n: Node)
        requires
            gcost + hcost <= u32::MAX,
        ensures
            n.parent is None,
            n.pos == pos,
            n.g_cost == gcost,
            n.h_cost == hcost,
            n.f_cost == gcost + hcost,
    {
        Node { parent: None, pos, g_cost: gcost, h_cost: hcost, f_cost: gcost + hcost }
    }

    /// Recomputes this node's costs: the accumulated cost comes from the
    /// parent entry in `nodes`, the estimate is the scaled Chebyshev
    /// distance to `target`, and the ordering cost is their sum.
    pub fn compute_costs(&mut self, target: Node, nodes: &Vec<Node>) -> (r: (u32, u32, u32))
        requires
            old(self).parent matches Some(j) ==> j < nodes@.len(),
            accumulated_cost(*old(self), nodes@) + chebyshev_distance(old(self).pos, target.pos)
                * 10 <= u32::MAX,
        ensures
            final(self).pos == old(self).pos,
            final(self).parent == old(self).parent,
            final(self).h_cost == accumulated_cost(*old(self), nodes@),
            final(self).g_cost == chebyshev_distance(old(self).pos, target.pos) * 10,
            final(self).f_cost == final(self).g_cost + final(self).h_cost,
            r == (final(self).g_cost, final(self).h_cost, final(self).f_cost),
    {
        let h_cost: u32 = match self.parent {
            Some(index) => {
                let px: u16 = nodes[index as usize].pos.0;
                let py: u16 = nodes[index as usize].pos.1;
                if self.pos.1 != py && self.pos.0 != px {
                    nodes[index as usize].h_cost + 14
                } else {
                    nodes[index as usize].h_cost + 1
                }
            },
            None => 0,
        };
        let g_cost: u32 = crate::tchebychev(self.pos, target.pos) * 10;
        let f_cost: u32 = g_cost + h_cost;

        self.g_cost = g_cost;
        self.h_cost = h_cost;
        self.f_cost = f_cost;

        (g_cost, h_cost, f_cost)
    }

    /// A by-value convenience form of [`Node::compute_costs`].
    pub fn computed(self, target: Node, nodes: &Vec<Node>) -> (n: Node)
        requires
            self.parent matches Some(j) ==> j < nodes@.len(),
            accumulated_cost(self, nodes@) + chebyshev_distance(self.pos, target.pos) * 10
                <= u32::MAX,
        ensures
            n.pos == self.pos,
            n.parent == self.parent,
            n.h_cost == accumulated_cost(self, nodes@),
            n.g_cost == chebyshev_distance(n.pos, target.pos) * 10,
            n.f_cost == n.g_cost + n.h_cost,
    {
        let mut n = self;
        n.compute_costs(target, nodes);
        n
    }

    /// This node's cell exists in the grid vector and is not `Solid`.
    pub fn is_traversable(&self, states: &Vec<CellState>, row_length: u32) -> (r: bool)
        requires
            row_length <= 65535,
        ensures
            r == spec_traversable(states@, self.pos, row_length),
    {
        proof {
            assert((self.pos.1 as int) * (row_length as int) + (self.pos.0 as int) <= u32::MAX
                as int) by (nonlinear_arith)
                requires
                    0 <= (self.pos.0 as int) <= 65535,
                    0 <= (self.pos.1 as int) <= 65535,
                    0 <= (row_length as int) <= 65535,
            ;
        }
        let idx: u32 = (self.pos.1 as u32) * row_length + (self.pos.0 as u32);
        if (idx as usize) < states.len() {
            if let CellState::Solid = states[idx as usize] {
                false
            } else {
                true
            }
        } else {
            false
        }
    }
}

/// The grid vector has a cell for `p` and that cell is not `Solid`.
pub open spec fn spec_traversable(states: Seq<CellState>, p: Position, row_length: u32) -> bool {
    &&& 0 <= cell_index(p, row_length) < states.len()
    &&& !(states[cell_index(p, row_length)] is Solid)
}

/// The positions at most one step away in each axis: `b` is one of the four
/// cells sharing an edge with `a`.
pub open spec fn adjacent4(a: Position, b: Position) -> bool {
    crate::manhattan_distance(a, b) == 1
}

/// The column offset of the `k`-th of the eight surrounding cells.
pub open spec fn offset8_dx(k: int) -> int {
    if k == 0 || k == 1 || k == 2 {
        -1
    } else if k == 3 || k == 4 {
        0
    } else {
        1
    }
}

/// The row offset of the `k`-th of the eight surrounding cells.
pub open spec fn offset8_dy(k: int) -> int {
    if k == 0 || k == 3 || k == 5 {
        -1
    } else if k == 1 || k == 6 {
        0
    } else {
        1
    }
}

/// The column offset of the `k`-th of the four edge-sharing cells.
pub open spec fn offset4_dx(k: int) -> int {
    if k == 0 {
        -1
    } else if k == 1 {
        1
    } else {
        0
    }
}

/// The row offset of the `k`-th of the four edge-sharing cells.
pub open spec fn offset4_dy(k: int) -> int {
    if k == 2 {
        -1
    } else if k == 3 {
        1
    } else {
        0
    }
}

/// The candidate position one `(dx, dy)` step away from `p`, as a pair of
/// unbounded coordinates.
pub open spec fn shifted_x(p: Position, dx: int) -> int {
    (p.0 as int) + dx
}

pub open spec fn shifted_y(p: Position, dy: int) -> int {
    (p.1 as int) + dy
}

/// The candidate one step away lies inside the grid.
pub open spec fn shift_in_bounds(p: Position, dx: int, dy: int, row_length: u32) -> bool {
    &&& 0 <= shifted_x(p, dx) < (row_length as int)
    &&& 0 <= shifted_y(p, dy) < (row_length as int)
}

/// The candidate one step away, as a position; meaningful when the shift is
/// in bounds.
pub open spec fn shifted_pos(p: Position, dx: int, dy: int) -> Position {
    Position(shifted_x(p, dx) as u16, shifted_y(p, dy) as u16)
}

/// Every in-bounds cell adjacent to `p` in the eight-connected sense is one
/// of the eight offset candidates.
pub proof fn lemma_adjacent8_is_offset(p: Position, q: Position, row_length: u32)
    requires
        adjacent8(p, q),
        in_bounds(q, row_length),
    ensures
        exists|k: int|
            0 <= k < 8 && shift_in_bounds(p, offset8_dx(k), offset8_dy(k), row_length)
                && shifted_pos(p, offset8_dx(k), offset8_dy(k)) == q,
{
    let dx = (q.0 as int) - (p.0 as int);
    let dy = (q.1 as int) - (p.1 as int);
    let k: int = if dx == -1 {
        if dy == -1 {
            0
        } else if dy == 0 {
            1
        } else {
            2
        }
    } else if dx == 0 {
        if dy == -1 {
            3
        } else {
            4
        }
    } else {
        if dy == -1 {
            5
        } else if dy == 0 {
            6
        } else {
            7
        }
    };
    assert(offset8_dx(k) == dx && offset8_dy(k) == dy);
    assert(shifted_pos(p, dx, dy) == q);
    assert(shift_in_bounds(p, dx, dy, row_length));
}

/// Every in-bounds cell adjacent to `p` in the four-connected sense is one
/// of the four offset candidates.
pub proof fn lemma_adjacent4_is_offset(p: Position, q: Position, row_length: u32)
    requires
        adjacent4(p, q),
        in_bounds(q, row_length),
    ensures
        exists|k: int|
            0 <= k < 4 && shift_in_bounds(p, offset4_dx(k), offset4_dy(k), row_length)
                && shifted_pos(p, offset4_dx(k), offset4_dy(k)) == q,
{
    let dx = (q.0 as int) - (p.0 as int);
    let dy = (q.1 as int) - (p.1 as int);
    let k: int = if dx == -1 {
        0
    } else if dx == 1 {
        1
    } else if dy == -1 {
        2
    } else {
        3
    };
    assert(offset4_dx(k) == dx && offset4_dy(k) == dy);
    assert(shifted_pos(p, dx, dy) == q);
    assert(shift_in_bounds(p, dx, dy, row_length));
}

impl Node {
    /// Appends to `r` the copy of this node moved by `(ox, oy)`, with its
    /// parent cleared, provided the moved position stays inside the grid.
    fn push_shifted(&self, r: &mut Vec<Node>, ox: i32, oy: i32, row_length: u32) -> (pushed: bool)
        requires
            row_length <= 65535,
            -1 <= ox <= 1,
            -1 <= oy <= 1,
        ensures
            pushed == shift_in_bounds(self.pos, ox as int, oy as int, row_length),
            pushed ==> final(r)@ == old(r)@.push(
                (Node {
                    parent: None,
                    pos: shifted_pos(self.pos, ox as int, oy as int),
                    g_cost: self.g_cost,
                    h_cost: self.h_cost,
                    f_cost: self.f_cost,
                }),
            ),
            !pushed ==> final(r)@ == old(r)@,
    {
        let nx: i32 = (self.pos.0 as i32) + ox;
        let ny: i32 = (self.pos.1 as i32) + oy;
        if 0 <= nx && nx < (row_length as i32) && 0 <= ny && ny < (row_length as i32) {
            let node = Node {
                parent: None,
                pos: Position(nx as u16, ny as u16),
                g_cost: self.g_cost,
                h_cost: self.h_cost,
                f_cost: self.f_cost,
            };
            r.push(node);
            true
        } else {
            false
        }
    }

    /// All eight surrounding cells, clipped to the grid: each returned node
    /// carries the moved position, this node's current costs, and no parent
    /// (the search driver assigns parents on frontier insertion).
    pub fn get_neighbours(&self, row_length: u32) -> (r: Vec<Node>)
        requires
            row_length <= 65535,
        ensures
            r@.len() <= 8,
            positions_distinct(r@),
            forall|i: int|
                0 <= i < r@.len() ==> adjacent8(self.pos, #[trigger] r@[i].pos) && in_bounds(
                    r@[i].pos,
                    row_length,
                ) && r@[i].parent is None,
            forall|q: Position|
                adjacent8(self.pos, q) && in_bounds(q, row_length) ==> list_has_pos(r@, q),
    {
        let mut r: Vec<Node> = Vec::new();
        let mut k: usize = 0;
        while k < 8
            invariant
                row_length <= 65535,
                k <= 8,
                r@.len() <= k,
                forall|i: int|
                    0 <= i < r@.len() ==> exists|kk: int|
                        0 <= kk < k && shift_in_bounds(
                            self.pos,
                            offset8_dx(kk),
                            offset8_dy(kk),
                            row_length,
                        ) && (#[trigger] r@[i]).pos == shifted_pos(
                            self.pos,
                            offset8_dx(kk),
                            offset8_dy(kk),
                        ),
                positions_distinct(r@),
                forall|i: int|
                    0 <= i < r@.len() ==> adjacent8(self.pos, #[trigger] r@[i].pos) && in_bounds(
                        r@[i].pos,
                        row_length,
                    ) && r@[i].parent is None,
                forall|kk: int|
                    0 <= kk < k && shift_in_bounds(
                        self.pos,
                        offset8_dx(kk),
                        offset8_dy(kk),
                        row_length,
                    ) ==> list_has_pos(r@, shifted_pos(self.pos, offset8_dx(kk), offset8_dy(kk))),
            decreases 8 - k,
        {
            let (ox, oy): (i32, i32) = match k {
                0 => (-1, -1),
                1 => (-1, 0),
                2 => (-1, 1),
                3 => (0, -1),
                4 => (0, 1),
                5 => (1, -1),
                6 => (1, 0),
                _ => (1, 1),
            };
            proof {
                assert(ox as int == offset8_dx(k as int) && oy as int == offset8_dy(k as int));
            }
            let ghost prev = r@;
            proof {
                // restate the element-wise facts for the snapshot
                assert(forall|i: int|
                    0 <= i < prev.len() ==> adjacent8(self.pos, #[trigger] prev[i].pos)
                        && in_bounds(prev[i].pos, row_length) && prev[i].parent is None);
            }
            let pushed = self.push_shifted(&mut r, ox, oy, row_length);
            proof {
                if pushed {
                    let q = shifted_pos(self.pos, ox as int, oy as int);
                    assert(r@[r@.len() - 1].pos == q);
                    assert(q.0 as int == shifted_x(self.pos, ox as int));
                    assert(q.1 as int == shifted_y(self.pos, oy as int));
                    assert(in_bounds(q, row_length));
                    assert(adjacent8(self.pos, q));
                }
                assert forall|i: int| 0 <= i < r@.len() implies exists|kk: int|
                    0 <= kk < k + 1 && shift_in_bounds(
                        self.pos,
                        offset8_dx(kk),
                        offset8_dy(kk),
                        row_length,
                    ) && (#[trigger] r@[i]).pos == shifted_pos(
                        self.pos,
                        offset8_dx(kk),
                        offset8_dy(kk),
                    ) by {
                    if i < prev.len() {
                        assert(r@[i] == prev[i]);
                        let kk = choose|kk: int|
                            0 <= kk < k && shift_in_bounds(
                                self.pos,
                                offset8_dx(kk),
                                offset8_dy(kk),
                                row_length,
                            ) && prev[i].pos == shifted_pos(
                                self.pos,
                                offset8_dx(kk),
                                offset8_dy(kk),
                            );
                        assert(r@[i].pos == shifted_pos(self.pos, offset8_dx(kk), offset8_dy(kk)));
                    } else {
                        assert(r@[i].pos == shifted_pos(
                            self.pos,
                            offset8_dx(k as int),
                            offset8_dy(k as int),
                        ));
                    }
                }
                assert forall|i: int, j: int| 0 <= i < j < r@.len() implies r@[i].pos
                    != r@[j].pos by {
                    if j < prev.len() {
                        assert(r@[i] == prev[i] && r@[j] == prev[j]);
                        assert(prev[i].pos != prev[j].pos);
                    } else {
                        assert(r@[i] == prev[i]);
                        let kk = choose|kk: int|
                            0 <= kk < k && shift_in_bounds(
                                self.pos,
                                offset8_dx(kk),
                                offset8_dy(kk),
                                row_length,
                            ) && prev[i].pos == shifted_pos(
                                self.pos,
                                offset8_dx(kk),
                                offset8_dy(kk),
                            );
                        assert(offset8_dx(kk) != offset8_dx(k as int) || offset8_dy(kk)
                            != offset8_dy(k as int));
                        assert(r@[i].pos.0 as int == shifted_x(self.pos, offset8_dx(kk)));
                        assert(r@[i].pos.1 as int == shifted_y(self.pos, offset8_dy(kk)));
                        assert(r@[j].pos.0 as int == shifted_x(self.pos, offset8_dx(k as int)));
                        assert(r@[j].pos.1 as int == shifted_y(self.pos, offset8_dy(k as int)));
                    }
                }
                assert forall|i: int| 0 <= i < r@.len() implies adjacent8(
                    self.pos,
                    #[trigger] r@[i].pos,
                ) && in_bounds(r@[i].pos, row_length) && r@[i].parent is None by {
                    if i < prev.len() {
                        assert(r@[i] == prev[i]);
                        assert(adjacent8(self.pos, prev[i].pos));
                        assert(in_bounds(prev[i].pos, row_length));
                        assert(prev[i].parent is None);
                    }
                }
                assert forall|kk: int|
                    0 <= kk < k + 1 && shift_in_bounds(
                        self.pos,
                        offset8_dx(kk),
                        offset8_dy(kk),
                        row_length,
                    ) implies list_has_pos(
                    r@,
                    shifted_pos(self.pos, offset8_dx(kk), offset8_dy(kk)),
                ) by {
                    let q = shifted_pos(self.pos, offset8_dx(kk), offset8_dy(kk));
                    if kk < k {
                        let i = choose|i: int| 0 <= i < prev.len() && prev[i].pos == q;
                        assert(r@[i].pos == q);
                    }
                }
            }
            k = k + 1;
        }
        proof {
            assert forall|q: Position|
                adjacent8(self.pos, q) && in_bounds(q, row_length) implies list_has_pos(
                r@,
                q,
            ) by {
                lemma_adjacent8_is_offset(self.pos, q, row_length);
            }
        }
        r
    }

    /// The four edge-sharing cells, clipped to the grid, in the same form as
    /// [`Node::get_neighbours`]; this is the connectivity the incremental
    /// search uses.
    pub fn get_neighbours_ovh(&self, row_length: u32) -> (r: Vec<Node>)
        requires
            row_length <= 65535,
        ensures
            r@.len() <= 4,
            positions_distinct(r@),
            forall|i: int|
                0 <= i < r@.len() ==> adjacent4(self.pos, #[trigger] r@[i].pos) && in_bounds(
                    r@[i].pos,
                    row_length,
                ) && r@[i].parent is None,
            forall|q: Position|
                adjacent4(self.pos, q) && in_bounds(q, row_length) ==> list_has_pos(r@, q),
    {
        let mut r: Vec<Node> = Vec::new();
        let mut k: usize = 0;
        while k < 4
            invariant
                row_length <= 65535,
                k <= 4,
                r@.len() <= k,
                forall|i: int|
                    0 <= i < r@.len() ==> exists|kk: int|
                        0 <= kk < k && shift_in_bounds(
                            self.pos,
                            offset4_dx(kk),
                            offset4_dy(kk),
                            row_length,
                        ) && (#[trigger] r@[i]).pos == shifted_pos(
                            self.pos,
                            offset4_dx(kk),
                            offset4_dy(kk),
                        ),
                positions_distinct(r@),
                forall|i: int|
                    0 <= i < r@.len() ==> adjacent4(self.pos, #[trigger] r@[i].pos) && in_bounds(
                        r@[i].pos,
                        row_length,
                    ) && r@[i].parent is None,
                forall|kk: int|
                    0 <= kk < k && shift_in_bounds(
                        self.pos,
                        offset4_dx(kk),
                        offset4_dy(kk),
                        row_length,
                    ) ==> list_has_pos(r@, shifted_pos(self.pos, offset4_dx(kk), offset4_dy(kk))),
            decreases 4 - k,
        {
            let (ox, oy): (i32, i32) = match k {
                0 => (-1, 0),
                1 => (1, 0),
                2 => (0, -1),
                _ => (0, 1),
            };
            proof {
                assert(ox as int == offset4_dx(k as int) && oy as int == offset4_dy(k as int));
            }
            let ghost prev = r@;
            let pushed = self.push_shifted(&mut r, ox, oy, row_length);
            proof {
                if pushed {
                    let q = shifted_pos(self.pos, ox as int, oy as int);
                    assert(r@[r@.len() - 1].pos == q);
                    assert(q.0 as int == shifted_x(self.pos, ox as int));
                    assert(q.1 as int == shifted_y(self.pos, oy as int));
                    assert(in_bounds(q, row_length));
                    assert(crate::manhattan_distance(self.pos, q) == 1);
                }
                assert forall|i: int| 0 <= i < r@.len() implies exists|kk: int|
                    0 <= kk < k + 1 && shift_in_bounds(
                        self.pos,
                        offset4_dx(kk),
                        offset4_dy(kk),
                        row_length,
                    ) && (#[trigger] r@[i]).pos == shifted_pos(
                        self.pos,
                        offset4_dx(kk),
                        offset4_dy(kk),
                    ) by {
                    if i < prev.len() {
                        assert(r@[i] == prev[i]);
                        let kk = choose|kk: int|
                            0 <= kk < k && shift_in_bounds(
                                self.pos,
                                offset4_dx(kk),
                                offset4_dy(kk),
                                row_length,
                            ) && prev[i].pos == shifted_pos(
                                self.pos,
                                offset4_dx(kk),
                                offset4_dy(kk),
                            );
                        assert(r@[i].pos == shifted_pos(self.pos, offset4_dx(kk), offset4_dy(kk)));
                    } else {
                        assert(r@[i].pos == shifted_pos(
                            self.pos,
                            offset4_dx(k as int),
                            offset4_dy(k as int),
                        ));
                    }
                }
                assert forall|i: int, j: int| 0 <= i < j < r@.len() implies r@[i].pos
                    != r@[j].pos by {
                    if j < prev.len() {
                        assert(r@[i] == prev[i] && r@[j] == prev[j]);
                        assert(prev[i].pos != prev[j].pos);
                    } else {
                        assert(r@[i] == prev[i]);
                        let kk = choose|kk: int|
                            0 <= kk < k && shift_in_bounds(
                                self.pos,
                                offset4_dx(kk),
                                offset4_dy(kk),
                                row_length,
                            ) && prev[i].pos == shifted_pos(
                                self.pos,
                                offset4_dx(kk),
                                offset4_dy(kk),
                            );
                        assert(offset4_dx(kk) != offset4_dx(k as int) || offset4_dy(kk)
                            != offset4_dy(k as int));
                        assert(r@[i].pos.0 as int == shifted_x(self.pos, offset4_dx(kk)));
                        assert(r@[i].pos.1 as int == shifted_y(self.pos, offset4_dy(kk)));
                        assert(r@[j].pos.0 as int == shifted_x(self.pos, offset4_dx(k as int)));
                        assert(r@[j].pos.1 as int == shifted_y(self.pos, offset4_dy(k as int)));
                    }
                }
                assert forall|i: int| 0 <= i < r@.len() implies adjacent4(
                    self.pos,
                    #[trigger] r@[i].pos,
                ) && in_bounds(r@[i].pos, row_length) && r@[i].parent is None by {
                    if i < prev.len() {
                        assert(r@[i] == prev[i]);
                        assert(adjacent4(self.pos, prev[i].pos));
                        assert(in_bounds(prev[i].pos, row_length));
                        assert(prev[i].parent is None);
                    }
                }
                assert forall|kk: int|
                    0 <= kk < k + 1 && shift_in_bounds(
                        self.pos,
                        offset4_dx(kk),
                        offset4_dy(kk),
                        row_length,
                    ) implies list_has_pos(
                    r@,
                    shifted_pos(self.pos, offset4_dx(kk), offset4_dy(kk)),
                ) by {
                    let q = shifted_pos(self.pos, offset4_dx(kk), offset4_dy(kk));
                    if kk < k {
                        let i = choose|i: int| 0 <= i < prev.len() && prev[i].pos == q;
                        assert(r@[i].pos == q);
                    }
                }
            }
            k = k + 1;
        }
        proof {
            assert forall|q: Position|
                adjacent4(self.pos, q) && in_bounds(q, row_length) implies list_has_pos(
                r@,
                q,
            ) by {
                lemma_adjacent4_is_offset(self.pos, q, row_length);
            }
        }
        r
    }
}

/// The set of `Solid` cells is the same in both grids: a search never digs
/// through a wall and never creates one.
pub open spec fn solid_same(a: Seq<CellState>, b: Seq<CellState>) -> bool {
    &&& a.len() == b.len()
    &&& forall|i: int| 0 <= i < a.len() ==> ((a[i] is Solid) <==> (#[trigger] b[i] is Solid))
}

/// Every cell either keeps its old state or carries one of the marks the
/// search writes.
pub open spec fn only_marked(a: Seq<CellState>, b: Seq<CellState>) -> bool {
    &&& a.len() == b.len()
    &&& forall|i: int|
        0 <= i < a.len() ==> (b[i] == a[i] || (#[trigger] b[i] is Opened) || (b[i] is Closed) || (
        b[i] is Path))
}

/// A node that may legitimately take part in a search: it lies on the grid,
/// its cell is not a wall, and its parent reference either points into the
/// closed list at an adjacent predecessor or is absent because the node is
/// the start.
pub open spec fn node_ok(
    n: Node,
    closed: Seq<Node>,
    states: Seq<CellState>,
    start: Node,
    row_length: u32,
) -> bool {
    &&& in_bounds(n.pos, row_length)
    &&& !(states[cell_index(n.pos, row_length)] is Solid)
    &&& match n.parent {
        Some(j) => 0 <= j < closed.len() && adjacent8(closed[j as int].pos, n.pos),
        None => n.pos == start.pos,
    }
}

/// The well-formedness of an in-flight search: the grid has its fixed size,
/// costs cannot overflow, every node on either list is sound, positions are
/// unique across both lists, and parent links point strictly backwards into
/// the closed list.
pub open spec fn search_inv(
    opened: Seq<Node>,
    closed: Seq<Node>,
    states: Seq<CellState>,
    start: Node,
    row_length: u32,
) -> bool {
    &&& 1 <= row_length <= 65535
    &&& states.len() == (row_length as int) * (row_length as int)
    &&& (start.h_cost as int) + 14 * ((row_length as int) * (row_length as int)) + 655350
        <= u32::MAX as int
    &&& in_bounds(start.pos, row_length)
    &&& parents_ok(closed)
    &&& positions_distinct(closed)
    &&& positions_distinct(opened)
    &&& lists_disjoint(opened, closed)
    &&& forall|i: int|
        0 <= i < closed.len() ==> node_ok(#[trigger] closed[i], closed, states, start, row_length)
            && (closed[i].h_cost as int) <= (start.h_cost as int) + 14 * i
    &&& forall|i: int|
        0 <= i < opened.len() ==> node_ok(#[trigger] opened[i], closed, states, start, row_length)
            && (opened[i].h_cost as int) <= (start.h_cost as int) + 14 * closed.len()
}

/// Every in-bounds, non-`Solid` cell adjacent to an expanded node has been
/// seen by the search: it sits on the closed list or on the frontier.
#[verifier::opaque]
pub open spec fn expansion_closed8(
    opened: Seq<Node>,
    closed: Seq<Node>,
    states: Seq<CellState>,
    row_length: u32,
) -> bool {
    forall|i: int, q: Position|
        0 <= i < closed.len() && #[trigger] adjacent8(closed[i].pos, q) && in_bounds(q, row_length)
            && !(states[cell_index(q, row_length)] is Solid) ==> list_has_pos(closed, q)
            || list_has_pos(opened, q)
}

/// A list of distinct in-bounds positions cannot outgrow the grid.
pub proof fn lemma_distinct_positions_bound(s: Seq<Node>, row_length: u32)
    requires
        1 <= row_length <= 65535,
        positions_distinct(s),
        forall|i: int| 0 <= i < s.len() ==> in_bounds((#[trigger] s[i]).pos, row_length),
    ensures
        s.len() <= (row_length as int) * (row_length as int),
{
    let n = (row_length as int) * (row_length as int);
    let f = |nd: Node| cell_index(nd.pos, row_length);
    let idxs = s.map_values(f);
    assert(idxs.len() == s.len());
    assert(idxs.no_duplicates()) by {
        assert forall|i: int, j: int|
            0 <= i < idxs.len() && 0 <= j < idxs.len() && i != j implies idxs[i] != idxs[j] by {
            assert(idxs[i] == cell_index(s[i].pos, row_length));
            assert(idxs[j] == cell_index(s[j].pos, row_length));
            if cell_index(s[i].pos, row_length) == cell_index(s[j].pos, row_length) {
                crate::lemma_cell_index_injective(s[i].pos, s[j].pos, row_length);
            }
        }
    }
    idxs.unique_seq_to_set();
    assert(idxs.to_set().subset_of(vstd::set_lib::set_int_range(0, n))) by {
        assert forall|x: int| idxs.to_set().contains(x) implies vstd::set_lib::set_int_range(
            0,
            n,
        ).contains(x) by {
            let i = choose|i: int| 0 <= i < idxs.len() && idxs[i] == x;
            assert(idxs[i] == cell_index(s[i].pos, row_length));
            crate::lemma_cell_index_bound(s[i].pos, row_length);
        }
    }
    vstd::set_lib::lemma_int_range(0, n);
    vstd::set_lib::lemma_len_subset(idxs.to_set(), vstd::set_lib::set_int_range(0, n));
}

/// On a grid with no walls, a closed list that contains the start and is
/// closed under taking in-bounds neighbours covers every in-bounds cell.
pub proof fn lemma_closed_covers(
    opened: Seq<Node>,
    closed: Seq<Node>,
    states: Seq<CellState>,
    start_pos: Position,
    q: Position,
    row_length: u32,
)
    requires
        opened.len() == 0,
        1 <= row_length <= 65535,
        states.len() == (row_length as int) * (row_length as int),
        forall|i: int| 0 <= i < states.len() ==> !((#[trigger] states[i]) is Solid),
        expansion_closed8(opened, closed, states, row_length),
        list_has_pos(closed, start_pos),
        in_bounds(start_pos, row_length),
        in_bounds(q, row_length),
    ensures
        list_has_pos(closed, q),
    decreases chebyshev_distance(start_pos, q),
{
    reveal(expansion_closed8);
    if q == start_pos {
    } else {
        let sx = start_pos.0 as int;
        let sy = start_pos.1 as int;
        let qx = q.0 as int;
        let qy = q.1 as int;
        let nx: int = if qx > sx {
            qx - 1
        } else if qx < sx {
            qx + 1
        } else {
            qx
        };
        let ny: int = if qy > sy {
            qy - 1
        } else if qy < sy {
            qy + 1
        } else {
            qy
        };
        let q2 = Position(nx as u16, ny as u16);
        assert(q2.0 as int == nx && q2.1 as int == ny);
        assert(in_bounds(q2, row_length));
        assert(chebyshev_distance(start_pos, q2) < chebyshev_distance(start_pos, q));
        lemma_closed_covers(opened, closed, states, start_pos, q2, row_length);
        let i = choose|i: int| 0 <= i < closed.len() && closed[i].pos == q2;
        assert(adjacent8(closed[i].pos, q));
        crate::lemma_cell_index_bound(q, row_length);
        assert(list_has_pos(closed, q) || list_has_pos(opened, q));
    }
}

/// The chain of parent links ending at `nodes[i]` is a well-formed route: it
/// begins at the start position, ends at `nodes[i]`, moves one step at a
/// time, and never touches a wall.
pub proof fn lemma_chain_props(
    nodes: Seq<Node>,
    i: int,
    states: Seq<CellState>,
    start: Node,
    row_length: u32,
)
    requires
        parents_ok(nodes),
        forall|k: int|
            0 <= k < nodes.len() ==> node_ok(#[trigger] nodes[k], nodes, states, start, row_length),
        0 <= i < nodes.len(),
    ensures
        spec_chain(nodes, i).len() >= 1,
        spec_chain(nodes, i).len() <= i + 1,
        spec_chain(nodes, i).last() == nodes[i],
        spec_chain(nodes, i)[0].pos == start.pos,
        nodes[i].parent is None ==> spec_chain(nodes, i).len() == 1,
        forall|k: int|
            0 <= k < spec_chain(nodes, i).len() ==> in_bounds(
                (#[trigger] spec_chain(nodes, i)[k]).pos,
                row_length,
            ) && !(states[cell_index(spec_chain(nodes, i)[k].pos, row_length)] is Solid),
        forall|k: int|
            0 <= k < spec_chain(nodes, i).len() - 1 ==> adjacent8(
                (#[trigger] spec_chain(nodes, i)[k]).pos,
                spec_chain(nodes, i)[k + 1].pos,
            ),
    decreases i,
{
    assert(node_ok(nodes[i], nodes, states, start, row_length));
    match nodes[i].parent {
        None => {},
        Some(j) => {
            assert(j < i);
            lemma_chain_props(nodes, j as int, states, start, row_length);
            let prevc = spec_chain(nodes, j as int);
            let c = spec_chain(nodes, i);
            assert(c == prevc.push(nodes[i]));
            assert(c[0] == prevc[0]);
            assert(c.last() == nodes[i]);
            assert(prevc.last() == nodes[j as int]);
            assert(adjacent8(nodes[j as int].pos, nodes[i].pos));
            assert forall|k: int|
                0 <= k < c.len() implies in_bounds((#[trigger] c[k]).pos, row_length) && !(
            states[cell_index(c[k].pos, row_length)] is Solid) by {
                if k < prevc.len() {
                    assert(c[k] == prevc[k]);
                } else {
                    assert(c[k] == nodes[i]);
                }
            }
            assert forall|k: int|
                0 <= k < c.len() - 1 implies adjacent8((#[trigger] c[k]).pos, c[k + 1].pos) by {
                if k < prevc.len() - 1 {
                    assert(c[k] == prevc[k] && c[k + 1] == prevc[k + 1]);
                } else {
                    assert(c[k] == prevc.last() && c[k + 1] == nodes[i]);
                }
            }
        },
    }
}

/// Linear scan for a node at position `p`.
fn contains_pos(v: &Vec<Node>, p: Position) -> (r: bool)
    ensures
        r == list_has_pos(v@, p),
{
    let mut i: usize = 0;
    while i < v.len()
        invariant
            i <= v@.len(),
            forall|k: int| 0 <= k < i ==> (#[trigger] v@[k]).pos != p,
        decreases v@.len() - i,
    {
        if v[i].pos == p {
            assert(v@[i as int].pos == p);
            return true;
        }
        i = i + 1;
    }
    false
}

/// The index of the frontier node with the lowest ordering cost; ties go to
/// the earliest such node, matching a linear minimum scan.
fn min_f_index(v: &Vec<Node>) -> (k: usize)
    requires
        v@.len() > 0,
    ensures
        k < v@.len(),
        forall|i: int| 0 <= i < v@.len() ==> v@[k as int].f_cost <= (#[trigger] v@[i]).f_cost,
        forall|i: int| 0 <= i < k ==> v@[k as int].f_cost < (#[trigger] v@[i]).f_cost,
{
    let mut k: usize = 0;
    let mut i: usize = 1;
    while i < v.len()
        invariant
            k < i <= v@.len(),
            v@.len() > 0,
            forall|j: int| 0 <= j < i ==> v@[k as int].f_cost <= (#[trigger] v@[j]).f_cost,
            forall|j: int| 0 <= j < k ==> v@[k as int].f_cost < (#[trigger] v@[j]).f_cost,
        decreases v@.len() - i,
    {
        if v[i].f_cost < v[k].f_cost {
            k = i;
        }
        i = i + 1;
    }
    k
}

/// Writes one cell of the grid.
fn set_cell(states: &mut Vec<CellState>, p: Position, row_length: u32, s: CellState)
    requires
        1 <= row_length <= 65535,
        in_bounds(p, row_length),
        old(states)@.len() == (row_length as int) * (row_length as int),
    ensures
        final(states)@ == old(states)@.update(cell_index(p, row_length), s),
{
    let i = flat_index(p, row_length);
    states.set(i, s);
}

/// Follows parent links from `nodes[i]` back to the start and returns the
/// route in start-to-end order.
fn collect_path(nodes: &Vec<Node>, i: usize) -> (r: Vec<Node>)
    requires
        parents_ok(nodes@),
        i < nodes@.len(),
    ensures
        r@ == spec_chain(nodes@, i as int),
    decreases i,
{
    let nd = nodes[i];
    proof {
        assert(nodes@[i as int].parent matches Some(j) ==> j < i as int);
    }
    match nd.parent {
        Some(j) => {
            if (j as usize) < i {
                let mut r = collect_path(nodes, j as usize);
                r.push(nd);
                r
            } else {
                let mut r: Vec<Node> = Vec::new();
                r.push(nd);
                r
            }
        },
        None => {
            let mut r: Vec<Node> = Vec::new();
            r.push(nd);
            r
        },
    }
}

/// Reconstructs the route that ends at `node`, the most recently expanded
/// entry of the closed list, by walking parent links backwards; the result
/// runs from the start node to `node`.
#[allow(unused_variables)]
pub fn get_path_nodes(node: &Node, nodes: &Vec<Node>) -> (r: Vec<Node>)
    requires
        parents_ok(nodes@),
        nodes@.len() > 0,
        *node == nodes@.last(),
    ensures
        r@ == spec_chain(nodes@, nodes@.len() - 1),
        r@.len() >= 1,
{
    collect_path(nodes, nodes.len() - 1)
}

/// Clears both lists and seeds the frontier with the start node. Always
/// succeeds and is idempotent: afterwards the frontier holds exactly the
/// start node and the closed list is empty, whatever state the lists were
/// in before.
pub fn start_path_finding(start_node: Node, opened: &mut Vec<Node>, closed: &mut Vec<Node>)
    ensures
        final(opened)@.len() == 1,
        final(opened)@[0] == start_node,
        final(closed)@.len() == 0,
{
    opened.clear();
    closed.clear();
    opened.push(start_node);
}

/// Freshly seeded lists form a well-formed search whenever the start node
/// lies on the grid, its cell is not a wall, its parent is unset, and its
/// accumulated cost leaves room for the costs a search can build on top.
pub proof fn lemma_seed_establishes_inv(
    start: Node,
    states: Seq<CellState>,
    row_length: u32,
)
    requires
        1 <= row_length <= 65535,
        states.len() == (row_length as int) * (row_length as int),
        (start.h_cost as int) + 14 * ((row_length as int) * (row_length as int)) + 655350
            <= u32::MAX as int,
        in_bounds(start.pos, row_length),
        !(states[cell_index(start.pos, row_length)] is Solid),
        start.parent is None,
    ensures
        search_inv(seq![start], Seq::<Node>::empty(), states, start, row_length),
{
    assert(node_ok(start, Seq::<Node>::empty(), states, start, row_length));
}

/// A position present in a prefix-preserved list is still present after the
/// list grows.
proof fn lemma_has_pos_extended(a: Seq<Node>, b: Seq<Node>, p: Position)
    requires
        list_has_pos(a, p),
        a.len() <= b.len(),
        forall|i: int| 0 <= i < a.len() ==> a[i] == b[i],
    ensures
        list_has_pos(b, p),
{
    let i = choose|i: int| 0 <= i < a.len() && a[i].pos == p;
    assert(b[i].pos == p);
}

/// A square grid with rows of at most 65535 cells has at most
/// 65535 * 65535 cells.
proof fn lemma_grid_area_bound(row_length: u32)
    requires
        row_length <= 65535,
    ensures
        (row_length as int) * (row_length as int) <= 4294836225,
{
    assert((row_length as int) * (row_length as int) <= 4294836225) by (nonlinear_arith)
        requires
            0 <= (row_length as int) <= 65535,
    ;
}

/// Marks written by the search never change which cells are `Solid`.
proof fn lemma_mark_keeps_solid(a: Seq<CellState>, j: int, v: CellState)
    requires
        0 <= j < a.len(),
        !(v is Solid),
        !(a[j] is Solid),
    ensures
        solid_same(a, a.update(j, v)),
{
}

/// The positions of the route reconstructed by the search, after one more
/// expansion has marked its cells: every cell of the chain carries `Path`.
pub open spec fn chain_marked(closed: Seq<Node>, states: Seq<CellState>, row_length: u32) -> bool {
    forall|k: int|
        0 <= k < spec_chain(closed, closed.len() - 1).len() ==> states[cell_index(
            (#[trigger] spec_chain(closed, closed.len() - 1)[k]).pos,
            row_length,
        )] is Path
}


/// Marking any cell with a non-`Solid` state preserves the well-formedness
/// of the search lists.
proof fn lemma_mark_preserves_inv(
    opened: Seq<Node>,
    closed: Seq<Node>,
    states: Seq<CellState>,
    j: int,
    v: CellState,
    start: Node,
    row_length: u32,
)
    requires
        search_inv(opened, closed, states, start, row_length),
        0 <= j < states.len(),
        !(v is Solid),
    ensures
        search_inv(opened, closed, states.update(j, v), start, row_length),
{
    let s2 = states.update(j, v);
    assert forall|i: int| 0 <= i < closed.len() implies node_ok(
        #[trigger] closed[i],
        closed,
        s2,
        start,
        row_length,
    ) by {
        assert(node_ok(closed[i], closed, states, start, row_length));
        lemma_cell_index_bound(closed[i].pos, row_length);
    }
    assert forall|i: int| 0 <= i < opened.len() implies node_ok(
        #[trigger] opened[i],
        closed,
        s2,
        start,
        row_length,
    ) by {
        assert(node_ok(opened[i], closed, states, start, row_length));
        lemma_cell_index_bound(opened[i].pos, row_length);
    }
}

/// Moving the frontier node at index `k` onto the closed list preserves the
/// well-formedness of the search lists.
proof fn lemma_pop_push_inv(
    o0: Seq<Node>,
    c0: Seq<Node>,
    states: Seq<CellState>,
    start: Node,
    row_length: u32,
    k: int,
)
    requires
        search_inv(o0, c0, states, start, row_length),
        0 <= k < o0.len(),
    ensures
        search_inv(o0.remove(k), c0.push(o0[k]), states, start, row_length),
{
    let opened = o0.remove(k);
    let closed = c0.push(o0[k]);
    let current = o0[k];
    o0.remove_ensures(k);
    assert forall|i: int, j: int| 0 <= i < j < opened.len() implies opened[i].pos
        != opened[j].pos by {
        let i0: int = if i < k {
            i
        } else {
            i + 1
        };
        let j0: int = if j < k {
            j
        } else {
            j + 1
        };
        assert(opened[i] == o0[i0] && opened[j] == o0[j0]);
    }
    assert forall|i: int, j: int|
        0 <= i < opened.len() && 0 <= j < closed.len() implies opened[i].pos != closed[j].pos by {
        let i0: int = if i < k {
            i
        } else {
            i + 1
        };
        assert(opened[i] == o0[i0]);
        if j < c0.len() {
            assert(closed[j] == c0[j]);
        } else {
            assert(closed[j] == o0[k]);
        }
    }
    assert(positions_distinct(closed)) by {
        assert forall|i: int, j: int| 0 <= i < j < closed.len() implies closed[i].pos
            != closed[j].pos by {
            if j < c0.len() {
                assert(closed[i] == c0[i] && closed[j] == c0[j]);
            } else {
                assert(closed[i] == c0[i] && closed[j] == o0[k]);
            }
        }
    }
    assert(node_ok(current, c0, states, start, row_length));
    assert(parents_ok(closed)) by {
        assert forall|i: int| 0 <= i < closed.len() implies (#[trigger] closed[i].parent
            matches Some(j) ==> j < i) by {
            if i < c0.len() {
                assert(closed[i] == c0[i]);
            } else {
                assert(closed[i] == current);
            }
        }
    }
    assert forall|i: int| 0 <= i < closed.len() implies node_ok(
        #[trigger] closed[i],
        closed,
        states,
        start,
        row_length,
    ) && (closed[i].h_cost as int) <= (start.h_cost as int) + 14 * i by {
        if i < c0.len() {
            assert(closed[i] == c0[i]);
            assert(node_ok(c0[i], c0, states, start, row_length));
        } else {
            assert(closed[i] == current);
            assert((current.h_cost as int) <= (start.h_cost as int) + 14 * c0.len());
        }
    }
    assert forall|i: int| 0 <= i < opened.len() implies node_ok(
        #[trigger] opened[i],
        closed,
        states,
        start,
        row_length,
    ) && (opened[i].h_cost as int) <= (start.h_cost as int) + 14 * closed.len() by {
        let i0: int = if i < k {
            i
        } else {
            i + 1
        };
        assert(opened[i] == o0[i0]);
        assert(node_ok(o0[i0], c0, states, start, row_length));
    }
}

/// The expansion-closure property restricted to the first `m` entries of the
/// closed list: every in-bounds, non-`Solid` cell adjacent to one of those
/// entries sits on the closed list or on the frontier.
#[verifier::opaque]
pub open spec fn expansion_closed8_upto(
    opened: Seq<Node>,
    closed: Seq<Node>,
    m: int,
    states: Seq<CellState>,
    row_length: u32,
) -> bool {
    forall|i: int, q: Position|
        0 <= i < m && #[trigger] adjacent8(closed[i].pos, q) && in_bounds(q, row_length) && !(
        states[cell_index(q, row_length)] is Solid) ==> list_has_pos(closed, q) || list_has_pos(
            opened,
            q,
        )
}

/// Positions on either list survive a pop-and-push move: whatever was on the
/// frontier or the closed list is still on one of them afterwards.
proof fn lemma_move_covers(o0: Seq<Node>, c0: Seq<Node>, k: int, p: Position)
    requires
        0 <= k < o0.len(),
        list_has_pos(o0, p) || list_has_pos(c0, p),
    ensures
        list_has_pos(o0.remove(k), p) || list_has_pos(c0.push(o0[k]), p),
{
    o0.remove_ensures(k);
    let opened = o0.remove(k);
    let closed = c0.push(o0[k]);
    if list_has_pos(c0, p) {
        lemma_has_pos_extended(c0, closed, p);
    } else {
        let w = choose|w: int| 0 <= w < o0.len() && o0[w].pos == p;
        if w == k {
            assert(closed[closed.len() - 1].pos == p);
        } else {
            let w1: int = if w < k {
                w
            } else {
                w - 1
            };
            assert(opened[w1] == o0[w]);
        }
    }
}

/// A pop-and-push move, together with non-`Solid` marks on the grid, keeps
/// the expansion closure of the entries that were already closed.
proof fn lemma_expansion_after_move(
    o0: Seq<Node>,
    c0: Seq<Node>,
    s0: Seq<CellState>,
    s2: Seq<CellState>,
    k: int,
    row_length: u32,
)
    requires
        expansion_closed8(o0, c0, s0, row_length),
        0 <= k < o0.len(),
        solid_same(s0, s2),
        1 <= row_length <= 65535,
        s0.len() == (row_length as int) * (row_length as int),
    ensures
        expansion_closed8_upto(o0.remove(k), c0.push(o0[k]), c0.len() as int, s2, row_length),
{
    reveal(expansion_closed8);
    reveal(expansion_closed8_upto);
    let opened = o0.remove(k);
    let closed = c0.push(o0[k]);
    assert forall|i: int, q: Position|
        0 <= i < c0.len() && #[trigger] adjacent8(closed[i].pos, q) && in_bounds(q, row_length)
            && !(s2[cell_index(q, row_length)] is Solid) implies list_has_pos(closed, q)
        || list_has_pos(opened, q) by {
        lemma_cell_index_bound(q, row_length);
        assert(closed[i] == c0[i]);
        assert(adjacent8(c0[i].pos, q));
        assert(!(s0[cell_index(q, row_length)] is Solid));
        assert(list_has_pos(c0, q) || list_has_pos(o0, q));
        lemma_move_covers(o0, c0, k, q);
    }
}

/// Growing the frontier and writing non-`Solid` marks keeps the expansion
/// closure of the already-closed entries.
proof fn lemma_expansion_upto_grow(
    o1: Seq<Node>,
    o2: Seq<Node>,
    closed: Seq<Node>,
    m: int,
    s1: Seq<CellState>,
    s2: Seq<CellState>,
    row_length: u32,
)
    requires
        expansion_closed8_upto(o1, closed, m, s1, row_length),
        o1.len() <= o2.len(),
        forall|i: int| 0 <= i < o1.len() ==> o1[i] == o2[i],
        solid_same(s1, s2),
        1 <= row_length <= 65535,
        s1.len() == (row_length as int) * (row_length as int),
    ensures
        expansion_closed8_upto(o2, closed, m, s2, row_length),
{
    reveal(expansion_closed8_upto);
    assert forall|i: int, q: Position|
        0 <= i < m && #[trigger] adjacent8(closed[i].pos, q) && in_bounds(q, row_length) && !(
        s2[cell_index(q, row_length)] is Solid) implies list_has_pos(closed, q) || list_has_pos(
            o2,
            q,
        ) by {
        lemma_cell_index_bound(q, row_length);
        assert(!(s1[cell_index(q, row_length)] is Solid));
        if !list_has_pos(closed, q) {
            assert(list_has_pos(o1, q));
            lemma_has_pos_extended(o1, o2, q);
        }
    }
}

/// The connectivity one expansion step uses: all eight surrounding cells
/// for the run-to-completion driver, the four edge-sharing cells for the
/// incremental driver.
pub open spec fn step_adjacent(a: Position, b: Position, diag: bool) -> bool {
    if diag {
        adjacent8(a, b)
    } else {
        adjacent4(a, b)
    }
}

/// A node that the expansion of `m` pushes onto the frontier: a traversable,
/// previously unseen neighbour of `m` in the step's connectivity, whose
/// parent names `m`'s entry — the most recent — in the closed list.
pub open spec fn new_frontier_node(
    n: Node,
    m: Node,
    opened0: Seq<Node>,
    closed1: Seq<Node>,
    states0: Seq<CellState>,
    row_length: u32,
    diag: bool,
) -> bool {
    &&& step_adjacent(m.pos, n.pos, diag)
    &&& in_bounds(n.pos, row_length)
    &&& !(states0[cell_index(n.pos, row_length)] is Solid)
    &&& !list_has_pos(opened0, n.pos)
    &&& !list_has_pos(closed1, n.pos)
    &&& n.parent == Some((closed1.len() - 1) as u32)
}

/// A non-terminal step changes a cell only by marking the expanded cell
/// `Closed` or a newly opened frontier cell `Opened`; every other cell keeps
/// its previous state.
pub open spec fn step_marks_only(
    s0: Seq<CellState>,
    s1: Seq<CellState>,
    m: Position,
    opened0: Seq<Node>,
    opened1: Seq<Node>,
    row_length: u32,
) -> bool {
    forall|i: int|
        0 <= i < s0.len() && (#[trigger] s1[i]) != s0[i] ==> ((i == cell_index(m, row_length) && (
        s1[i] is Closed)) || ((s1[i] is Opened) && (exists|q: Position|
            in_bounds(q, row_length) && cell_index(q, row_length) == i && #[trigger] list_has_pos(
                opened1,
                q,
            ) && !list_has_pos(opened0, q))))
}

/// A terminal step changes a cell only by marking a cell of the
/// reconstructed route `Path`; every other cell keeps its previous state.
pub open spec fn path_marks_only(
    s0: Seq<CellState>,
    s1: Seq<CellState>,
    closed: Seq<Node>,
    row_length: u32,
) -> bool {
    forall|i: int|
        0 <= i < s0.len() && (#[trigger] s1[i]) != s0[i] ==> (s1[i] is Path) && (exists|kk: int|
            0 <= kk < spec_chain(closed, closed.len() - 1).len() && cell_index(
                (#[trigger] spec_chain(closed, closed.len() - 1)[kk]).pos,
                row_length,
            ) == i)
}

/// Removing the entry at `k` from a duplicate-free list removes exactly its
/// position from the list's position set.
proof fn lemma_remove_pos_split(o0: Seq<Node>, k: int)
    requires
        positions_distinct(o0),
        0 <= k < o0.len(),
    ensures
        forall|q: Position|
            #[trigger] list_has_pos(o0, q) <==> (list_has_pos(o0.remove(k), q) || q == o0[k].pos),
{
    o0.remove_ensures(k);
    let o1 = o0.remove(k);
    assert forall|q: Position|
        #[trigger] list_has_pos(o0, q) <==> (list_has_pos(o1, q) || q == o0[k].pos) by {
        if list_has_pos(o0, q) {
            let w = choose|w: int| 0 <= w < o0.len() && o0[w].pos == q;
            if w != k {
                let w1: int = if w < k {
                    w
                } else {
                    w - 1
                };
                assert(o1[w1] == o0[w]);
            }
        }
        if list_has_pos(o1, q) {
            let w = choose|w: int| 0 <= w < o1.len() && o1[w].pos == q;
            let w0: int = if w < k {
                w
            } else {
                w + 1
            };
            assert(o1[w] == o0[w0]);
            assert(o0[w0].pos == q);
        }
    }
}

/// After a step, the frontier holds exactly the nodes that survived the pop
/// plus the newly pushed neighbours, and every non-popped position survives.
proof fn lemma_frontier_after_step(
    o0: Seq<Node>,
    o1: Seq<Node>,
    opened2: Seq<Node>,
    c1: Seq<Node>,
    s0: Seq<CellState>,
    m: Node,
    k: int,
    row_length: u32,
    diag: bool,
)
    requires
        positions_distinct(o0),
        0 <= k < o0.len(),
        o1 == o0.remove(k),
        m == o0[k],
        o1.len() <= opened2.len(),
        forall|i: int| 0 <= i < o1.len() ==> o1[i] == opened2[i],
        forall|i: int|
            0 <= i < opened2.len() ==> (exists|j: int|
                0 <= j < o1.len() && (#[trigger] opened2[i]) == o1[j]) || new_frontier_node(
                opened2[i],
                m,
                o0,
                c1,
                s0,
                row_length,
                diag,
            ),
    ensures
        forall|i: int|
            0 <= i < opened2.len() ==> (exists|j: int|
                0 <= j < o0.len() && (#[trigger] opened2[i]) == o0[j] && o0[j].pos != m.pos)
                || new_frontier_node(opened2[i], m, o0, c1, s0, row_length, diag),
        forall|j: int|
            0 <= j < o0.len() && (#[trigger] o0[j]).pos != m.pos ==> list_has_pos(
                opened2,
                o0[j].pos,
            ),
{
    o0.remove_ensures(k);
    assert forall|i: int|
        0 <= i < opened2.len() implies (exists|j: int|
        0 <= j < o0.len() && (#[trigger] opened2[i]) == o0[j] && o0[j].pos != m.pos)
        || new_frontier_node(opened2[i], m, o0, c1, s0, row_length, diag) by {
        if exists|j: int| 0 <= j < o1.len() && opened2[i] == o1[j] {
            let j = choose|j: int| 0 <= j < o1.len() && opened2[i] == o1[j];
            let j0: int = if j < k {
                j
            } else {
                j + 1
            };
            assert(o1[j] == o0[j0]);
            assert(o0[j0].pos != o0[k].pos);
        }
    }
    assert forall|j: int|
        0 <= j < o0.len() && (#[trigger] o0[j]).pos != m.pos implies list_has_pos(
        opened2,
        o0[j].pos,
    ) by {
        let j1: int = if j < k {
            j
        } else {
            j - 1
        };
        assert(j != k);
        assert(o1[j1] == o0[j]);
        assert(opened2[j1] == o0[j]);
    }
}

/// Pushing one fresh neighbour and marking its cell keeps the search lists
/// well formed and the grid evolution mark-only.
#[verifier::rlimit(100)]
proof fn lemma_push_wf(
    oprev: Seq<Node>,
    opened2: Seq<Node>,
    c1: Seq<Node>,
    sprev: Seq<CellState>,
    states2: Seq<CellState>,
    current: Node,
    nn: Node,
    start_node: Node,
    row_length: u32,
    diag: bool,
)
    requires
        1 <= row_length <= 65535,
        sprev.len() == (row_length as int) * (row_length as int),
        states2 == sprev.update(cell_index(nn.pos, row_length), CellState::Opened),
        opened2 == oprev.push(nn),
        search_inv(oprev, c1, sprev, start_node, row_length),
        c1.len() >= 1,
        c1.len() <= (row_length as int) * (row_length as int),
        c1.last() == current,
        in_bounds(nn.pos, row_length),
        step_adjacent(current.pos, nn.pos, diag),
        nn.parent == Some((c1.len() - 1) as u32),
        (nn.h_cost as int) <= (start_node.h_cost as int) + 14 * c1.len(),
        !(sprev[cell_index(nn.pos, row_length)] is Solid),
        !list_has_pos(oprev, nn.pos),
        !list_has_pos(c1, nn.pos),
    ensures
        search_inv(opened2, c1, states2, start_node, row_length),
        solid_same(sprev, states2),
        only_marked(sprev, states2),
        states2.len() == sprev.len(),
{
    lemma_cell_index_bound(nn.pos, row_length);
    lemma_grid_area_bound(row_length);
    assert(((c1.len() - 1) as u32) as int == c1.len() - 1);
    lemma_mark_keeps_solid(sprev, cell_index(nn.pos, row_length), CellState::Opened);
    assert(node_ok(nn, c1, sprev, start_node, row_length)) by {
        if diag {
            assert(adjacent8(c1[c1.len() - 1].pos, nn.pos));
        } else {
            assert(adjacent4(current.pos, nn.pos));
            assert(adjacent8(c1[c1.len() - 1].pos, nn.pos));
        }
    }
    assert forall|i: int, j: int| 0 <= i < j < opened2.len() implies opened2[i].pos
        != opened2[j].pos by {
        if j < oprev.len() {
            assert(opened2[i] == oprev[i] && opened2[j] == oprev[j]);
        } else {
            assert(opened2[i] == oprev[i] && opened2[j] == nn);
            assert(!list_has_pos(oprev, nn.pos));
        }
    }
    assert forall|i: int, j: int|
        0 <= i < opened2.len() && 0 <= j < c1.len() implies opened2[i].pos != c1[j].pos by {
        if i < oprev.len() {
            assert(opened2[i] == oprev[i]);
        } else {
            assert(opened2[i] == nn);
            assert(!list_has_pos(c1, nn.pos));
        }
    }
    assert forall|i: int| 0 <= i < opened2.len() implies node_ok(
        #[trigger] opened2[i],
        c1,
        sprev,
        start_node,
        row_length,
    ) && (opened2[i].h_cost as int) <= (start_node.h_cost as int) + 14 * c1.len() by {
        if i < oprev.len() {
            assert(opened2[i] == oprev[i]);
        } else {
            assert(opened2[i] == nn);
        }
    }
    assert(search_inv(opened2, c1, sprev, start_node, row_length));
    lemma_mark_preserves_inv(
        opened2,
        c1,
        sprev,
        cell_index(nn.pos, row_length),
        CellState::Opened,
        start_node,
        row_length,
    );
}

/// Pushing one fresh neighbour and marking its cell keeps the expansion
/// loop's accounting: the `Closed` mark on the expanded cell, the record of
/// which cells changed and why, and the record of each frontier node as a
/// survivor or a new entry.
#[verifier::rlimit(100)]
proof fn lemma_push_accounting(
    o0: Seq<Node>,
    o1: Seq<Node>,
    oprev: Seq<Node>,
    opened2: Seq<Node>,
    c1: Seq<Node>,
    s0: Seq<CellState>,
    sprev: Seq<CellState>,
    states2: Seq<CellState>,
    current: Node,
    nn: Node,
    row_length: u32,
    diag: bool,
)
    requires
        1 <= row_length <= 65535,
        s0.len() == sprev.len(),
        sprev.len() == (row_length as int) * (row_length as int),
        states2 == sprev.update(cell_index(nn.pos, row_length), CellState::Opened),
        opened2 == oprev.push(nn),
        solid_same(s0, sprev),
        c1.len() >= 1,
        c1.last() == current,
        in_bounds(current.pos, row_length),
        in_bounds(nn.pos, row_length),
        step_adjacent(current.pos, nn.pos, diag),
        nn.parent == Some((c1.len() - 1) as u32),
        !(sprev[cell_index(nn.pos, row_length)] is Solid),
        !list_has_pos(oprev, nn.pos),
        !list_has_pos(c1, nn.pos),
        forall|i: int| 0 <= i < o1.len() ==> o1[i] == oprev[i],
        o1.len() <= oprev.len(),
        forall|q: Position|
            #[trigger] list_has_pos(o0, q) <==> (list_has_pos(o1, q) || q == current.pos),
        sprev[cell_index(current.pos, row_length)] is Closed,
        step_marks_only(s0, sprev, current.pos, o0, oprev, row_length),
        forall|i: int|
            0 <= i < oprev.len() ==> (exists|j: int|
                0 <= j < o1.len() && (#[trigger] oprev[i]) == o1[j]) || new_frontier_node(
                oprev[i],
                current,
                o0,
                c1,
                s0,
                row_length,
                diag,
            ),
        forall|q: Position|
            #[trigger] list_has_pos(oprev, q) && !list_has_pos(o0, q) ==> sprev[cell_index(
                q,
                row_length,
            )] is Opened,
    ensures
        states2[cell_index(current.pos, row_length)] is Closed,
        step_marks_only(s0, states2, current.pos, o0, opened2, row_length),
        forall|i: int|
            0 <= i < opened2.len() ==> (exists|j: int|
                0 <= j < o1.len() && (#[trigger] opened2[i]) == o1[j]) || new_frontier_node(
                opened2[i],
                current,
                o0,
                c1,
                s0,
                row_length,
                diag,
            ),
        forall|q: Position|
            #[trigger] list_has_pos(opened2, q) && !list_has_pos(o0, q) ==> states2[cell_index(
                q,
                row_length,
            )] is Opened,
        list_has_pos(opened2, nn.pos),
{
    lemma_cell_index_bound(nn.pos, row_length);
    lemma_cell_index_bound(current.pos, row_length);
    assert(!list_has_pos(o1, nn.pos)) by {
        if list_has_pos(o1, nn.pos) {
            let w = choose|w: int| 0 <= w < o1.len() && o1[w].pos == nn.pos;
            assert(oprev[w].pos == nn.pos);
        }
    }
    assert(nn.pos != current.pos);
    assert(!list_has_pos(o0, nn.pos));
    assert(!(s0[cell_index(nn.pos, row_length)] is Solid));
    assert(new_frontier_node(nn, current, o0, c1, s0, row_length, diag));
    assert(opened2[opened2.len() - 1].pos == nn.pos);
    assert(list_has_pos(opened2, nn.pos));
    assert forall|i: int| 0 <= i < opened2.len() implies (exists|j: int|
        0 <= j < o1.len() && (#[trigger] opened2[i]) == o1[j]) || new_frontier_node(
        opened2[i],
        current,
        o0,
        c1,
        s0,
        row_length,
        diag,
    ) by {
        if i < oprev.len() {
            assert(opened2[i] == oprev[i]);
        } else {
            assert(opened2[i] == nn);
        }
    }
    assert(cell_index(nn.pos, row_length) != cell_index(current.pos, row_length)) by {
        if cell_index(nn.pos, row_length) == cell_index(current.pos, row_length) {
            crate::lemma_cell_index_injective(nn.pos, current.pos, row_length);
        }
    }
    assert(states2[cell_index(current.pos, row_length)] is Closed);
    assert forall|q: Position|
        #[trigger] list_has_pos(opened2, q) && !list_has_pos(o0, q) implies states2[cell_index(
        q,
        row_length,
    )] is Opened by {
        let w = choose|w: int| 0 <= w < opened2.len() && opened2[w].pos == q;
        if w < oprev.len() {
            assert(list_has_pos(oprev, q));
            assert(sprev[cell_index(q, row_length)] is Opened);
            lemma_cell_index_bound(q, row_length);
        } else {
            assert(q == nn.pos);
        }
    }
    assert forall|i: int|
        0 <= i < s0.len() && (#[trigger] states2[i]) != s0[i] implies ((i == cell_index(
        current.pos,
        row_length,
    ) && (states2[i] is Closed)) || ((states2[i] is Opened) && (exists|q: Position|
        in_bounds(q, row_length) && cell_index(q, row_length) == i && #[trigger] list_has_pos(
            opened2,
            q,
        ) && !list_has_pos(o0, q)))) by {
        if i == cell_index(nn.pos, row_length) {
            assert(states2[i] is Opened);
            assert(list_has_pos(opened2, nn.pos));
            assert(in_bounds(nn.pos, row_length) && cell_index(nn.pos, row_length) == i
                && list_has_pos(opened2, nn.pos) && !list_has_pos(o0, nn.pos));
        } else {
            assert(states2[i] == sprev[i]);
            if sprev[i] != s0[i] {
                if !(i == cell_index(current.pos, row_length) && (sprev[i] is Closed)) {
                    let q = choose|q: Position|
                        in_bounds(q, row_length) && cell_index(q, row_length) == i
                            && #[trigger] list_has_pos(oprev, q) && !list_has_pos(o0, q);
                    lemma_has_pos_extended(oprev, opened2, q);
                }
            }
        }
    }
    assert(step_marks_only(s0, states2, current.pos, o0, opened2, row_length));
}

/// Pushing one fresh, traversable neighbour of the node just expanded, and
/// marking its cell `Opened`, preserves every fact the expansion loop
/// maintains.
proof fn lemma_push_maintains(
    o0: Seq<Node>,
    o1: Seq<Node>,
    oprev: Seq<Node>,
    opened2: Seq<Node>,
    c1: Seq<Node>,
    s0: Seq<CellState>,
    sprev: Seq<CellState>,
    states2: Seq<CellState>,
    current: Node,
    nn: Node,
    start_node: Node,
    row_length: u32,
    diag: bool,
)
    requires
        1 <= row_length <= 65535,
        s0.len() == sprev.len(),
        sprev.len() == (row_length as int) * (row_length as int),
        states2 == sprev.update(cell_index(nn.pos, row_length), CellState::Opened),
        opened2 == oprev.push(nn),
        solid_same(s0, sprev),
        only_marked(s0, sprev),
        search_inv(oprev, c1, sprev, start_node, row_length),
        c1.len() >= 1,
        c1.len() <= (row_length as int) * (row_length as int),
        c1.last() == current,
        in_bounds(current.pos, row_length),
        in_bounds(nn.pos, row_length),
        step_adjacent(current.pos, nn.pos, diag),
        nn.parent == Some((c1.len() - 1) as u32),
        (nn.h_cost as int) <= (start_node.h_cost as int) + 14 * c1.len(),
        !(sprev[cell_index(nn.pos, row_length)] is Solid),
        !list_has_pos(oprev, nn.pos),
        !list_has_pos(c1, nn.pos),
        forall|i: int| 0 <= i < o1.len() ==> o1[i] == oprev[i],
        o1.len() <= oprev.len(),
        forall|q: Position|
            #[trigger] list_has_pos(o0, q) <==> (list_has_pos(o1, q) || q == current.pos),
        sprev[cell_index(current.pos, row_length)] is Closed,
        step_marks_only(s0, sprev, current.pos, o0, oprev, row_length),
        forall|i: int|
            0 <= i < oprev.len() ==> (exists|j: int|
                0 <= j < o1.len() && (#[trigger] oprev[i]) == o1[j]) || new_frontier_node(
                oprev[i],
                current,
                o0,
                c1,
                s0,
                row_length,
                diag,
            ),
        forall|q: Position|
            #[trigger] list_has_pos(oprev, q) && !list_has_pos(o0, q) ==> sprev[cell_index(
                q,
                row_length,
            )] is Opened,
    ensures
        search_inv(opened2, c1, states2, start_node, row_length),
        solid_same(sprev, states2),
        solid_same(s0, states2),
        only_marked(s0, states2),
        states2.len() == sprev.len(),
        states2[cell_index(current.pos, row_length)] is Closed,
        step_marks_only(s0, states2, current.pos, o0, opened2, row_length),
        forall|i: int|
            0 <= i < opened2.len() ==> (exists|j: int|
                0 <= j < o1.len() && (#[trigger] opened2[i]) == o1[j]) || new_frontier_node(
                opened2[i],
                current,
                o0,
                c1,
                s0,
                row_length,
                diag,
            ),
        forall|q: Position|
            #[trigger] list_has_pos(opened2, q) && !list_has_pos(o0, q) ==> states2[cell_index(
                q,
                row_length,
            )] is Opened,
        list_has_pos(opened2, nn.pos),
{
    lemma_push_wf(
        oprev,
        opened2,
        c1,
        sprev,
        states2,
        current,
        nn,
        start_node,
        row_length,
        diag,
    );
    lemma_grid_evolution_trans(s0, sprev, states2);
    lemma_push_accounting(
        o0,
        o1,
        oprev,
        opened2,
        c1,
        s0,
        sprev,
        states2,
        current,
        nn,
        row_length,
        diag,
    );
}

/// Performs one pop-and-expand cycle: removes the cheapest frontier node,
/// moves it to the closed list, marks its cell `Closed`, and either finishes
/// (target reached: reconstructs and marks the path), reports exhaustion
/// (empty frontier), or pushes the unseen traversable neighbours. `diag`
/// selects eight-connected expansion; otherwise the four edge-sharing
/// neighbours are used.
#[verifier::rlimit(100)]
fn step_search(
    start_node: Node,
    end_node: Node,
    states: &mut Vec<CellState>,
    opened: &mut Vec<Node>,
    closed: &mut Vec<Node>,
    row_length: u32,
    diag: bool,
) -> (r: StepResult)
    requires
        search_inv(old(opened)@, old(closed)@, old(states)@, start_node, row_length),
        diag ==> expansion_closed8(old(opened)@, old(closed)@, old(states)@, row_length),
    ensures
        search_inv(final(opened)@, final(closed)@, final(states)@, start_node, row_length),
        solid_same(old(states)@, final(states)@),
        only_marked(old(states)@, final(states)@),
        r is Exhausted <==> old(opened)@.len() == 0,
        r is Exhausted ==> final(opened)@ == old(opened)@ && final(closed)@ == old(closed)@
            && final(states)@ == old(states)@,
        !(r is Exhausted) ==> {
            &&& final(closed)@.len() <= (row_length as int) * (row_length as int)
            &&& final(closed)@.len() == old(closed)@.len() + 1
            &&& (forall|i: int| 0 <= i < old(closed)@.len() ==> final(closed)@[i] == old(closed)@[i])
            &&& (exists|k: int|
                0 <= k < old(opened)@.len() && final(closed)@.last() == old(opened)@[k] && (forall|
                    i: int,
                |
                    0 <= i < old(opened)@.len() ==> old(opened)@[k].f_cost <= (#[trigger] old(
                        opened,
                    )@[i]).f_cost) && (forall|i: int|
                    0 <= i < k ==> old(opened)@[k].f_cost < (#[trigger] old(opened)@[i]).f_cost))
            &&& (r is Found <==> final(closed)@.last().pos == end_node.pos)
            &&& (old(opened)@.len() == 1 ==> final(closed)@.last() == old(opened)@[0])
            &&& (forall|p: Position|
                #[trigger] list_has_pos(old(opened)@, p) || list_has_pos(old(closed)@, p)
                    ==> list_has_pos(final(opened)@, p) || list_has_pos(final(closed)@, p))
            &&& (forall|i: int|
                0 <= i < final(opened)@.len() ==> (exists|j: int|
                    0 <= j < old(opened)@.len() && ((#[trigger] final(opened)@[i])
                        == old(opened)@[j]) && old(opened)@[j].pos != final(closed)@.last().pos)
                    || new_frontier_node(
                    final(opened)@[i],
                    final(closed)@.last(),
                    old(opened)@,
                    final(closed)@,
                    old(states)@,
                    row_length,
                    diag,
                ))
            &&& (forall|j: int|
                0 <= j < old(opened)@.len() && (#[trigger] old(opened)@[j]).pos
                    != final(closed)@.last().pos ==> list_has_pos(
                    final(opened)@,
                    old(opened)@[j].pos,
                ))
            &&& (forall|q: Position|
                #[trigger] list_has_pos(final(opened)@, q) && !list_has_pos(old(opened)@, q)
                    ==> final(states)@[cell_index(q, row_length)] is Opened)
        },
        diag && r is Searching ==> expansion_closed8(
            final(opened)@,
            final(closed)@,
            final(states)@,
            row_length,
        ),
        r is Searching ==> final(states)@[cell_index(
            final(closed)@.last().pos,
            row_length,
        )] is Closed,
        r is Searching ==> step_marks_only(
            old(states)@,
            final(states)@,
            final(closed)@.last().pos,
            old(opened)@,
            final(opened)@,
            row_length,
        ),
        r is Found ==> path_marks_only(old(states)@, final(states)@, final(closed)@, row_length),
        r is Found ==> chain_marked(final(closed)@, final(states)@, row_length),
{
    let ghost o0 = opened@;
    let ghost c0 = closed@;
    let ghost s0 = states@;
    if opened.len() == 0 {
        return StepResult::Exhausted;
    }
    let k = min_f_index(opened);
    let current = opened[k];
    opened.remove(k);
    closed.push(current);
    proof {
        o0.remove_ensures(k as int);
        assert(closed@.last() == current && current == o0[k as int]);
        lemma_pop_push_inv(o0, c0, states@, start_node, row_length, k as int);
        lemma_cell_index_bound(current.pos, row_length);
        lemma_remove_pos_split(o0, k as int);
        assert forall|i: int| 0 <= i < closed@.len() implies in_bounds(
            (#[trigger] closed@[i]).pos,
            row_length,
        ) by {
            assert(node_ok(closed@[i], closed@, states@, start_node, row_length));
        }
        lemma_distinct_positions_bound(closed@, row_length);
        assert forall|p: Position|
            #[trigger] list_has_pos(o0, p) || list_has_pos(c0, p) implies list_has_pos(opened@, p)
                || list_has_pos(closed@, p) by {
            lemma_move_covers(o0, c0, k as int, p);
        }
    }
    set_cell(states, current.pos, row_length, CellState::Closed);
    proof {
        lemma_mark_keeps_solid(s0, cell_index(current.pos, row_length), CellState::Closed);
        lemma_mark_preserves_inv(
            opened@,
            closed@,
            s0,
            cell_index(current.pos, row_length),
            CellState::Closed,
            start_node,
            row_length,
        );
        if diag {
            lemma_expansion_after_move(o0, c0, s0, states@, k as int, row_length);
        }
        assert(states@[cell_index(current.pos, row_length)] is Closed);
        assert(step_marks_only(s0, states@, current.pos, o0, opened@, row_length));
    }
    let ghost o1 = opened@;
    let ghost c1 = closed@;
    let ghost s1 = states@;
    if current.pos == end_node.pos {
        // target reached: walk the parent links and mark the route
        let path = get_path_nodes(&current, closed);
        proof {
            lemma_chain_props(closed@, closed@.len() - 1, states@, start_node, row_length);
        }
        let mut pi: usize = 0;
        while pi < path.len()
            invariant
                1 <= row_length <= 65535,
                path@ == spec_chain(c1, c1.len() - 1),
                opened@ == o1,
                closed@ == c1,
                c1.len() >= 1,
                c1.len() <= (row_length as int) * (row_length as int),
                pi <= path@.len(),
                states@.len() == (row_length as int) * (row_length as int),
                s0.len() == states@.len(),
                s1 == s0.update(cell_index(current.pos, row_length), CellState::Closed),
                0 <= cell_index(current.pos, row_length) < s0.len(),
                forall|i: int|
                    0 <= i < s0.len() && (#[trigger] states@[i]) != s0[i] ==> ((states@[i] is Path)
                        && (exists|kk: int|
                        0 <= kk < path@.len() && cell_index(
                            (#[trigger] path@[kk]).pos,
                            row_length,
                        ) == i)) || (i == cell_index(current.pos, row_length) && (states@[i]
                        is Closed)),
                solid_same(s1, states@),
                only_marked(s1, states@),
                forall|j: int|
                    0 <= j < path@.len() ==> in_bounds((#[trigger] path@[j]).pos, row_length)
                        && !(s1[cell_index(path@[j].pos, row_length)] is Solid),
                forall|j: int|
                    0 <= j < pi ==> states@[cell_index(
                        (#[trigger] path@[j]).pos,
                        row_length,
                    )] is Path,
                search_inv(o1, c1, states@, start_node, row_length),
            decreases path@.len() - pi,
        {
            let ghost sprev = states@;
            let p = path[pi].pos;
            proof {
                lemma_cell_index_bound(p, row_length);
                assert(!(sprev[cell_index(p, row_length)] is Solid)) by {
                    assert(!(s1[cell_index(p, row_length)] is Solid));
                }
            }
            set_cell(states, p, row_length, CellState::Path);
            proof {
                lemma_mark_keeps_solid(sprev, cell_index(p, row_length), CellState::Path);
                assert forall|j: int| 0 <= j < pi + 1 implies states@[cell_index(
                    (#[trigger] path@[j]).pos,
                    row_length,
                )] is Path by {
                    lemma_cell_index_bound(path@[j].pos, row_length);
                    if j < pi {
                        assert(sprev[cell_index(path@[j].pos, row_length)] is Path);
                    }
                }
                assert forall|i: int|
                    0 <= i < s0.len() && (#[trigger] states@[i]) != s0[i] implies ((states@[i]
                    is Path) && (exists|kk: int|
                    0 <= kk < path@.len() && cell_index(
                        (#[trigger] path@[kk]).pos,
                        row_length,
                    ) == i)) || (i == cell_index(current.pos, row_length) && (states@[i]
                    is Closed)) by {
                    if i == cell_index(p, row_length) {
                        assert(cell_index((path@[pi as int]).pos, row_length) == i);
                        assert(states@[i] is Path);
                    } else {
                        assert(states@[i] == sprev[i]);
                    }
                }
                lemma_mark_preserves_inv(
                    o1,
                    c1,
                    sprev,
                    cell_index(p, row_length),
                    CellState::Path,
                    start_node,
                    row_length,
                );
            }
            pi = pi + 1;
        }
        proof {
            assert(chain_marked(closed@, states@, row_length));
            assert(path@.last() == current);
            assert(states@[cell_index(current.pos, row_length)] is Path);
            assert(path_marks_only(s0, states@, closed@, row_length)) by {
                assert forall|i: int|
                    0 <= i < s0.len() && (#[trigger] states@[i]) != s0[i] implies (states@[i]
                    is Path) && (exists|kk: int|
                    0 <= kk < spec_chain(closed@, closed@.len() - 1).len() && cell_index(
                        (#[trigger] spec_chain(closed@, closed@.len() - 1)[kk]).pos,
                        row_length,
                    ) == i) by {
                    if i == cell_index(current.pos, row_length) && !(states@[i] is Path) {
                        assert(false);
                    }
                }
            }
            // the frontier itself is untouched by a terminal step
            assert forall|i: int|
                0 <= i < opened@.len() implies exists|j: int|
                0 <= j < o1.len() && (#[trigger] opened@[i]) == o1[j] by {
                assert(opened@[i] == o1[i]);
            }
            lemma_frontier_after_step(
                o0,
                o1,
                opened@,
                closed@,
                s0,
                current,
                k as int,
                row_length,
                diag,
            );
            assert forall|q: Position|
                #[trigger] list_has_pos(opened@, q) && !list_has_pos(o0, q) implies states@[
                cell_index(q, row_length)] is Opened by {
                assert(list_has_pos(o1, q));
                assert(list_has_pos(o0, q));
            }
        }
        return StepResult::Found;
    }
    // expand the neighbours of the node just closed
    proof {
        assert forall|i: int| 0 <= i < opened@.len() implies (exists|j: int|
            0 <= j < o1.len() && (#[trigger] opened@[i]) == o1[j]) || new_frontier_node(
            opened@[i],
            current,
            o0,
            c1,
            s0,
            row_length,
            diag,
        ) by {
            assert(opened@[i] == o1[i]);
        }
        assert forall|q: Position|
            #[trigger] list_has_pos(opened@, q) && !list_has_pos(o0, q) implies states@[cell_index(
            q,
            row_length,
        )] is Opened by {
            assert(list_has_pos(o1, q));
        }
    }
    let neighbours = if diag {
        current.get_neighbours(row_length)
    } else {
        current.get_neighbours_ovh(row_length)
    };
    let mut ni: usize = 0;
    while ni < neighbours.len()
        invariant
            1 <= row_length <= 65535,
            diag ==> (forall|i: int|
                0 <= i < neighbours@.len() ==> adjacent8(
                    current.pos,
                    (#[trigger] neighbours@[i]).pos,
                ) && in_bounds(neighbours@[i].pos, row_length)),
            !diag ==> (forall|i: int|
                0 <= i < neighbours@.len() ==> adjacent4(
                    current.pos,
                    (#[trigger] neighbours@[i]).pos,
                ) && in_bounds(neighbours@[i].pos, row_length)),
            ni <= neighbours@.len(),
            search_inv(opened@, closed@, states@, start_node, row_length),
            solid_same(s0, states@),
            only_marked(s0, states@),
            s0.len() == states@.len(),
            closed@ == c1,
            c1.len() == c0.len() + 1,
            closed@.last() == current,
            forall|i: int| 0 <= i < o1.len() ==> o1[i] == opened@[i],
            o1.len() <= opened@.len(),
            positions_distinct(o0),
            0 <= (k as int) < o0.len(),
            o1 == o0.remove(k as int),
            current == o0[k as int],
            in_bounds(current.pos, row_length),
            0 <= cell_index(current.pos, row_length) < states@.len(),
            states@[cell_index(current.pos, row_length)] is Closed,
            step_marks_only(s0, states@, current.pos, o0, opened@, row_length),
            forall|q: Position|
                #[trigger] list_has_pos(o0, q) <==> (list_has_pos(o1, q) || q == current.pos),
            forall|i: int|
                0 <= i < opened@.len() ==> (exists|j: int|
                    0 <= j < o1.len() && (#[trigger] opened@[i]) == o1[j]) || new_frontier_node(
                    opened@[i],
                    current,
                    o0,
                    c1,
                    s0,
                    row_length,
                    diag,
                ),
            forall|q: Position|
                #[trigger] list_has_pos(opened@, q) && !list_has_pos(o0, q) ==> states@[cell_index(
                    q,
                    row_length,
                )] is Opened,
            forall|j: int|
                0 <= j < ni ==> (!(states@[cell_index(
                    (#[trigger] neighbours@[j]).pos,
                    row_length,
                )] is Solid) ==> list_has_pos(closed@, neighbours@[j].pos) || list_has_pos(
                    opened@,
                    neighbours@[j].pos,
                )),
            diag ==> expansion_closed8_upto(opened@, closed@, c0.len() as int, states@, row_length),
        decreases neighbours@.len() - ni,
    {
        let ghost oprev = opened@;
        let ghost sprev = states@;
        let nb = neighbours[ni];
        proof {
            lemma_cell_index_bound(nb.pos, row_length);
        }
        let trav = nb.is_traversable(states, row_length);
        if trav {
            let in_closed = contains_pos(closed, nb.pos);
            if !in_closed {
                let in_open = contains_pos(opened, nb.pos);
                if !in_open {
                    let mut nn = nb;
                    proof {
                        assert forall|i: int| 0 <= i < closed@.len() implies in_bounds(
                            (#[trigger] closed@[i]).pos,
                            row_length,
                        ) by {
                            assert(node_ok(closed@[i], closed@, states@, start_node, row_length));
                        }
                        lemma_distinct_positions_bound(closed@, row_length);
                        lemma_grid_area_bound(row_length);
                    }
                    nn.parent = Some((closed.len() - 1) as u32);
                    proof {
                        assert(accumulated_cost(nn, closed@) <= (start_node.h_cost as int) + 14
                            * closed@.len());
                        assert(closed@.len() <= (row_length as int) * (row_length as int));
                        assert(14 * closed@.len() <= 14 * ((row_length as int) * (row_length
                            as int)));
                        assert(chebyshev_distance(nn.pos, end_node.pos) <= 65535);
                        assert(accumulated_cost(nn, closed@) + chebyshev_distance(
                            nn.pos,
                            end_node.pos,
                        ) * 10 <= u32::MAX);
                    }
                    nn.compute_costs(end_node, closed);
                    proof {
                        assert((nn.h_cost as int) <= (start_node.h_cost as int) + 14
                            * closed@.len());
                        assert(nn.parent == Some((c1.len() - 1) as u32));
                        assert(step_adjacent(current.pos, nn.pos, diag));
                    }
                    opened.push(nn);
                    set_cell(states, nn.pos, row_length, CellState::Opened);
                    proof {
                        lemma_push_maintains(
                            o0,
                            o1,
                            oprev,
                            opened@,
                            c1,
                            s0,
                            sprev,
                            states@,
                            current,
                            nn,
                            start_node,
                            row_length,
                            diag,
                        );
                    }
                }
            }
        }
        proof {
            if diag {
                lemma_expansion_upto_grow(
                    oprev,
                    opened@,
                    closed@,
                    c0.len() as int,
                    sprev,
                    states@,
                    row_length,
                );
            }
            // every neighbour looked at so far is either a wall or on a list
            assert forall|j: int|
                0 <= j < ni + 1 implies (!(states@[cell_index(
                (#[trigger] neighbours@[j]).pos,
                row_length,
            )] is Solid) ==> list_has_pos(closed@, neighbours@[j].pos) || list_has_pos(
                opened@,
                neighbours@[j].pos,
            )) by {
                lemma_cell_index_bound(neighbours@[j].pos, row_length);
                if j < ni {
                    if !(states@[cell_index(neighbours@[j].pos, row_length)] is Solid) {
                        assert(!(sprev[cell_index(neighbours@[j].pos, row_length)] is Solid));
                        if list_has_pos(oprev, neighbours@[j].pos) {
                            lemma_has_pos_extended(oprev, opened@, neighbours@[j].pos);
                        }
                    }
                } else {
                    if !(states@[cell_index(nb.pos, row_length)] is Solid) {
                        assert(!(sprev[cell_index(nb.pos, row_length)] is Solid));
                        if !list_has_pos(closed@, nb.pos) {
                            if list_has_pos(oprev, nb.pos) {
                                lemma_has_pos_extended(oprev, opened@, nb.pos);
                            } else {
                                assert(opened@[opened@.len() - 1].pos == nb.pos);
                            }
                        }
                    }
                }
            }
        }
        ni = ni + 1;
    }
    proof {
        if diag {
            reveal(expansion_closed8);
            reveal(expansion_closed8_upto);
            assert forall|i: int, q: Position|
                0 <= i < closed@.len() && #[trigger] adjacent8(closed@[i].pos, q) && in_bounds(
                    q,
                    row_length,
                ) && !(states@[cell_index(q, row_length)] is Solid) implies list_has_pos(closed@, q)
                || list_has_pos(opened@, q) by {
                if i < c0.len() {
                } else {
                    assert(closed@[i] == current);
                    assert(list_has_pos(neighbours@, q));
                    let j = choose|j: int| 0 <= j < neighbours@.len() && neighbours@[j].pos == q;
                    assert(!(states@[cell_index(neighbours@[j].pos, row_length)] is Solid));
                }
            }
            assert(expansion_closed8(opened@, closed@, states@, row_length));
        }
        assert forall|p: Position|
            #[trigger] list_has_pos(o0, p) || list_has_pos(c0, p) implies list_has_pos(opened@, p)
                || list_has_pos(closed@, p) by {
            if list_has_pos(o1, p) || list_has_pos(c1, p) {
                if list_has_pos(o1, p) {
                    lemma_has_pos_extended(o1, opened@, p);
                }
            } else {
                lemma_move_covers(o0, c0, k as int, p);
                assert(list_has_pos(o1, p) || list_has_pos(c1, p));
            }
        }
        lemma_frontier_after_step(
            o0,
            o1,
            opened@,
            closed@,
            s0,
            current,
            k as int,
            row_length,
            diag,
        );
        assert(!(closed@.last().pos == end_node.pos));
    }
    StepResult::Searching
}

/// Wall preservation and mark-only mutation compose across successive
/// search steps.
proof fn lemma_grid_evolution_trans(a: Seq<CellState>, b: Seq<CellState>, c: Seq<CellState>)
    requires
        solid_same(a, b),
        solid_same(b, c),
        only_marked(a, b),
        only_marked(b, c),
    ensures
        solid_same(a, c),
        only_marked(a, c),
{
    assert forall|i: int| 0 <= i < a.len() implies ((a[i] is Solid) <==> (#[trigger] c[i]
        is Solid)) by {
        assert((a[i] is Solid) <==> (b[i] is Solid));
    }
    assert forall|i: int|
        0 <= i < a.len() implies (c[i] == a[i] || (#[trigger] c[i] is Opened) || (c[i] is Closed)
        || (c[i] is Path)) by {
        assert(b[i] == a[i] || (b[i] is Opened) || (b[i] is Closed) || (b[i] is Path));
    }
}

/// Performs exactly one expansion step of an incremental search, using
/// four-connected neighbour expansion, and preserves the search state across
/// calls. Returns `Found` when the node expanded this step is the target
/// (the route is then reconstructed and its cells marked `Path`),
/// `Exhausted` when the frontier was already empty (no route exists), and
/// `Searching` otherwise; the caller invokes it again to continue. Walls are
/// never disturbed: the set of `Solid` cells is unchanged, and every other
/// cell either keeps its state or receives a search mark.
pub fn update_path_finding(
    start_node: Node,
    end_node: Node,
    states: &mut Vec<CellState>,
    opened: &mut Vec<Node>,
    closed: &mut Vec<Node>,
    row_length: u32,
) -> (r: StepResult)
    requires
        search_inv(old(opened)@, old(closed)@, old(states)@, start_node, row_length),
    ensures
        search_inv(final(opened)@, final(closed)@, final(states)@, start_node, row_length),
        solid_same(old(states)@, final(states)@),
        only_marked(old(states)@, final(states)@),
        r is Exhausted <==> old(opened)@.len() == 0,
        r is Exhausted ==> final(opened)@ == old(opened)@ && final(closed)@ == old(closed)@
            && final(states)@ == old(states)@,
        !(r is Exhausted) ==> {
            &&& final(closed)@.len() == old(closed)@.len() + 1
            &&& (forall|i: int| 0 <= i < old(closed)@.len() ==> final(closed)@[i] == old(closed)@[i])
            &&& (exists|k: int|
                0 <= k < old(opened)@.len() && final(closed)@.last() == old(opened)@[k] && (forall|
                    i: int,
                |
                    0 <= i < old(opened)@.len() ==> old(opened)@[k].f_cost <= (#[trigger] old(
                        opened,
                    )@[i]).f_cost) && (forall|i: int|
                    0 <= i < k ==> old(opened)@[k].f_cost < (#[trigger] old(opened)@[i]).f_cost))
            &&& (r is Found <==> final(closed)@.last().pos == end_node.pos)
            &&& (old(opened)@.len() == 1 ==> final(closed)@.last() == old(opened)@[0])
            &&& (forall|p: Position|
                #[trigger] list_has_pos(old(opened)@, p) || list_has_pos(old(closed)@, p)
                    ==> list_has_pos(final(opened)@, p) || list_has_pos(final(closed)@, p))
            &&& (forall|i: int|
                0 <= i < final(opened)@.len() ==> (exists|j: int|
                    0 <= j < old(opened)@.len() && ((#[trigger] final(opened)@[i])
                        == old(opened)@[j]) && old(opened)@[j].pos != final(closed)@.last().pos)
                    || new_frontier_node(
                    final(opened)@[i],
                    final(closed)@.last(),
                    old(opened)@,
                    final(closed)@,
                    old(states)@,
                    row_length,
                    false,
                ))
            &&& (forall|j: int|
                0 <= j < old(opened)@.len() && (#[trigger] old(opened)@[j]).pos
                    != final(closed)@.last().pos ==> list_has_pos(
                    final(opened)@,
                    old(opened)@[j].pos,
                ))
            &&& (forall|q: Position|
                #[trigger] list_has_pos(final(opened)@, q) && !list_has_pos(old(opened)@, q)
                    ==> final(states)@[cell_index(q, row_length)] is Opened)
        },
        r is Searching ==> final(states)@[cell_index(
            final(closed)@.last().pos,
            row_length,
        )] is Closed,
        r is Searching ==> step_marks_only(
            old(states)@,
            final(states)@,
            final(closed)@.last().pos,
            old(opened)@,
            final(opened)@,
            row_length,
        ),
        r is Found ==> path_marks_only(old(states)@, final(states)@, final(closed)@, row_length),
        r is Found ==> chain_marked(final(closed)@, final(states)@, row_length),
{
    step_search(start_node, end_node, states, opened, closed, row_length, false)
}

/// A sequence of positions is a traversable route on the grid: non-empty,
/// every cell on it in bounds and not `Solid`, and each move one step in the
/// eight-connected sense.
pub open spec fn route_ok(route: Seq<Position>, states: Seq<CellState>, row_length: u32) -> bool {
    &&& route.len() >= 1
    &&& (forall|i: int|
        0 <= i < route.len() ==> in_bounds(#[trigger] route[i], row_length) && !(states[cell_index(
            route[i],
            row_length,
        )] is Solid))
    &&& (forall|i: int| 0 <= i < route.len() - 1 ==> adjacent8(#[trigger] route[i], route[i + 1]))
}

/// An exhausted search has expanded every cell that a traversable route
/// connects to an expanded cell: walls are the only thing that stops it.
proof fn lemma_route_covered(
    opened: Seq<Node>,
    closed: Seq<Node>,
    states: Seq<CellState>,
    s_init: Seq<CellState>,
    route: Seq<Position>,
    row_length: u32,
)
    requires
        1 <= row_length <= 65535,
        states.len() == (row_length as int) * (row_length as int),
        s_init.len() == states.len(),
        solid_same(s_init, states),
        opened.len() == 0,
        expansion_closed8(opened, closed, states, row_length),
        route_ok(route, s_init, row_length),
        list_has_pos(closed, route[0]),
    ensures
        list_has_pos(closed, route.last()),
    decreases route.len(),
{
    reveal(expansion_closed8);
    if route.len() > 1 {
        let pre = route.drop_last();
        assert(route_ok(pre, s_init, row_length)) by {
            assert(forall|i: int|
                0 <= i < pre.len() ==> in_bounds(#[trigger] pre[i], row_length) && !(
                s_init[cell_index(pre[i], row_length)] is Solid));
            assert(forall|i: int| 0 <= i < pre.len() - 1 ==> adjacent8(#[trigger] pre[i], pre[i + 1]));
        }
        lemma_route_covered(opened, closed, states, s_init, pre, row_length);
        let last = route.last();
        let i = choose|i: int| 0 <= i < closed.len() && closed[i].pos == pre.last();
        assert(adjacent8(closed[i].pos, last));
        lemma_cell_index_bound(last, row_length);
        assert(!(states[cell_index(last, row_length)] is Solid)) by {
            assert(!(s_init[cell_index(last, row_length)] is Solid));
        }
        assert(list_has_pos(closed, last) || list_has_pos(opened, last));
    }
}

/// The facts a finished, successful search yields about the reconstructed
/// route: it starts at the start position, ends at the target, moves one
/// step at a time, stays on the grid, avoids every wall, and its cells are
/// marked `Path`.
proof fn lemma_found_path_props(
    closed: Seq<Node>,
    states: Seq<CellState>,
    s_init: Seq<CellState>,
    path: Seq<Node>,
    start: Node,
    end: Node,
    row_length: u32,
)
    requires
        1 <= row_length <= 65535,
        states.len() == (row_length as int) * (row_length as int),
        parents_ok(closed),
        forall|k: int|
            0 <= k < closed.len() ==> node_ok(#[trigger] closed[k], closed, states, start, row_length),
        closed.len() >= 1,
        closed.last().pos == end.pos,
        path == spec_chain(closed, closed.len() - 1),
        chain_marked(closed, states, row_length),
        solid_same(s_init, states),
    ensures
        path.len() >= 1,
        path[0].pos == start.pos,
        path.last().pos == end.pos,
        forall|j: int|
            0 <= j < path.len() - 1 ==> adjacent8((#[trigger] path[j]).pos, path[j + 1].pos),
        forall|j: int|
            0 <= j < path.len() ==> in_bounds((#[trigger] path[j]).pos, row_length) && !(
            s_init[cell_index(path[j].pos, row_length)] is Solid) && (states[cell_index(
                path[j].pos,
                row_length,
            )] is Path),
{
    lemma_chain_props(closed, closed.len() - 1, states, start, row_length);
    assert forall|j: int| 0 <= j < path.len() implies in_bounds(
        (#[trigger] path[j]).pos,
        row_length,
    ) && !(s_init[cell_index(path[j].pos, row_length)] is Solid) && (states[cell_index(
        path[j].pos,
        row_length,
    )] is Path) by {
        lemma_cell_index_bound(path[j].pos, row_length);
        assert(!(states[cell_index(path[j].pos, row_length)] is Solid));
    }
}

/// On a grid without walls, an exhausted search has necessarily expanded
/// every in-bounds cell, the target among them.
proof fn lemma_free_grid_covers_target(
    opened: Seq<Node>,
    closed: Seq<Node>,
    states: Seq<CellState>,
    s_init: Seq<CellState>,
    start: Node,
    end: Node,
    row_length: u32,
)
    requires
        1 <= row_length <= 65535,
        states.len() == (row_length as int) * (row_length as int),
        s_init.len() == states.len(),
        opened.len() == 0,
        expansion_closed8(opened, closed, states, row_length),
        list_has_pos(opened, start.pos) || list_has_pos(closed, start.pos),
        in_bounds(start.pos, row_length),
        in_bounds(end.pos, row_length),
        forall|i: int| 0 <= i < s_init.len() ==> !((#[trigger] s_init[i]) is Solid),
        solid_same(s_init, states),
    ensures
        list_has_pos(closed, end.pos),
{
    assert forall|i: int| 0 <= i < states.len() implies !((#[trigger] states[i]) is Solid) by {
        assert(!(s_init[i] is Solid));
    }
    assert(list_has_pos(closed, start.pos));
    lemma_closed_covers(opened, closed, states, start.pos, end.pos, row_length);
}

/// Appending one non-target node keeps "the target has never been
/// expanded".
proof fn lemma_not_found_prefix(cb: Seq<Node>, cc: Seq<Node>, end: Node)
    requires
        cc.len() == cb.len() + 1,
        forall|i: int| 0 <= i < cb.len() ==> cc[i] == cb[i],
        forall|i: int| 0 <= i < cb.len() ==> (#[trigger] cb[i]).pos != end.pos,
        cc.last().pos != end.pos,
    ensures
        forall|i: int| 0 <= i < cc.len() ==> (#[trigger] cc[i]).pos != end.pos,
{
    assert forall|i: int| 0 <= i < cc.len() implies (#[trigger] cc[i]).pos != end.pos by {
        if i < cb.len() {
            assert(cc[i] == cb[i]);
        } else {
            assert(cc[i] == cc.last());
        }
    }
}

/// One driver iteration of the run-to-completion search: a single
/// eight-connected expansion step, together with the bookkeeping facts the
/// outer loop relies on.
#[verifier::rlimit(100)]
fn advance_search(
    start_node: Node,
    end_node: Node,
    states: &mut Vec<CellState>,
    opened: &mut Vec<Node>,
    closed: &mut Vec<Node>,
    row_length: u32,
) -> (r: StepResult)
    requires
        old(opened)@.len() > 0,
        search_inv(old(opened)@, old(closed)@, old(states)@, start_node, row_length),
        expansion_closed8(old(opened)@, old(closed)@, old(states)@, row_length),
        list_has_pos(old(opened)@, start_node.pos) || list_has_pos(old(closed)@, start_node.pos),
        forall|i: int|
            0 <= i < old(closed)@.len() ==> (#[trigger] old(closed)@[i]).pos != end_node.pos,
    ensures
        search_inv(final(opened)@, final(closed)@, final(states)@, start_node, row_length),
        solid_same(old(states)@, final(states)@),
        only_marked(old(states)@, final(states)@),
        !(r is Exhausted),
        final(closed)@.len() == old(closed)@.len() + 1,
        final(closed)@.len() <= (row_length as int) * (row_length as int),
        list_has_pos(final(opened)@, start_node.pos) || list_has_pos(
            final(closed)@,
            start_node.pos,
        ),
        r is Found <==> final(closed)@.last().pos == end_node.pos,
        r is Searching ==> expansion_closed8(
            final(opened)@,
            final(closed)@,
            final(states)@,
            row_length,
        ) && (forall|i: int|
            0 <= i < final(closed)@.len() ==> (#[trigger] final(closed)@[i]).pos != end_node.pos),
        r is Found ==> chain_marked(final(closed)@, final(states)@, row_length),
        r is Found ==> path_marks_only(old(states)@, final(states)@, final(closed)@, row_length),
        (start_node.pos == end_node.pos && old(closed)@.len() == 0 && old(opened)@ == seq![
            start_node,
        ]) ==> (r is Found && final(closed)@.len() == 1 && final(closed)@.last() == start_node),
{
    let ghost ob = opened@;
    let ghost cb = closed@;
    let r = step_search(start_node, end_node, states, opened, closed, row_length, true);
    proof {
        assert(!(r is Exhausted));
        assert(list_has_pos(ob, start_node.pos) || list_has_pos(cb, start_node.pos));
        assert(list_has_pos(opened@, start_node.pos) || list_has_pos(closed@, start_node.pos));
        if r is Searching {
            lemma_not_found_prefix(cb, closed@, end_node);
        }
        if start_node.pos == end_node.pos && cb.len() == 0 && ob == seq![start_node] {
            // the first expansion pops the seeded start node, which is
            // already the target, so the step must report success
            assert(ob.len() == 1);
            assert(closed@.last() == ob[0]);
            assert(closed@.last() == start_node);
            assert(r is Found);
        }
    }
    r
}

/// Runs the search to completion with eight-connected expansion.
///
/// Returns the reconstructed route from the start cell to the target cell
/// when one exists, or `None` when the frontier empties first. On success
/// the route begins at the start position, ends at the target position,
/// moves at most one cell per axis per step, avoids every wall, and each of
/// its cells is marked `Path` in the grid; when the start and target
/// coincide the route is the single start node. On a grid without walls the
/// search always succeeds for an in-bounds target. Walls are never
/// disturbed: the set of `Solid` cells is unchanged, and every other cell
/// either keeps its state or receives a search mark.
#[verifier::rlimit(100)]
pub fn find_path(
    start_node: Node,
    end_node: Node,
    states: &mut Vec<CellState>,
    row_length: u32,
) -> (r: Option<Vec<Node>>)
    requires
        1 <= row_length <= 65535,
        old(states)@.len() == (row_length as int) * (row_length as int),
        in_bounds(start_node.pos, row_length),
        !(old(states)@[cell_index(start_node.pos, row_length)] is Solid),
        start_node.parent is None,
        (start_node.h_cost as int) + 14 * ((row_length as int) * (row_length as int)) + 655350
            <= u32::MAX as int,
    ensures
        solid_same(old(states)@, final(states)@),
        only_marked(old(states)@, final(states)@),
        (match r {
            Some(path) => {
                &&& path@.len() >= 1
                &&& path@[0].pos == start_node.pos
                &&& path@.last().pos == end_node.pos
                &&& (forall|j: int|
                    0 <= j < path@.len() - 1 ==> adjacent8(
                        (#[trigger] path@[j]).pos,
                        path@[j + 1].pos,
                    ))
                &&& (forall|j: int|
                    0 <= j < path@.len() ==> in_bounds((#[trigger] path@[j]).pos, row_length) && !(
                    old(states)@[cell_index(path@[j].pos, row_length)] is Solid)
                        && (final(states)@[cell_index(path@[j].pos, row_length)] is Path))
            },
            None => true,
        }),
        r matches Some(path) ==> path@.len() <= (row_length as int) * (row_length as int),
        start_node.pos == end_node.pos ==> (r matches Some(path) && path@.len() == 1
            && path@[0] == start_node),
        start_node.pos == end_node.pos ==> (forall|i: int|
            0 <= i < old(states)@.len() && (#[trigger] final(states)@[i]) != old(states)@[i]
                ==> i == cell_index(start_node.pos, row_length)),
        (in_bounds(end_node.pos, row_length) && (forall|i: int|
            0 <= i < old(states)@.len() ==> !((#[trigger] old(states)@[i]) is Solid))) ==> r
            is Some,
        forall|route: Seq<Position>|
            #[trigger] route_ok(route, old(states)@, row_length) && route[0] == start_node.pos
                && route.last() == end_node.pos ==> r is Some,
{
    let ghost s_init = states@;
    let mut opened: Vec<Node> = Vec::new();
    let mut closed: Vec<Node> = Vec::new();
    opened.push(start_node);
    proof {
        assert(opened@ == seq![start_node]);
        lemma_seed_establishes_inv(start_node, states@, row_length);
        assert(opened@[0].pos == start_node.pos);
        assert(expansion_closed8(opened@, closed@, states@, row_length)) by {
            reveal(expansion_closed8);
        }
    }
    let mut result: Option<Vec<Node>> = None;
    loop
        invariant_except_break
            result is None,
            search_inv(opened@, closed@, states@, start_node, row_length),
            expansion_closed8(opened@, closed@, states@, row_length),
            list_has_pos(opened@, start_node.pos) || list_has_pos(closed@, start_node.pos),
            forall|i: int| 0 <= i < closed@.len() ==> (#[trigger] closed@[i]).pos != end_node.pos,
            start_node.pos == end_node.pos ==> (closed@.len() == 0 && opened@ == seq![start_node]
                && states@ == s_init),
            closed@.len() <= (row_length as int) * (row_length as int),
            solid_same(s_init, states@),
            only_marked(s_init, states@),
        ensures
            solid_same(s_init, states@),
            only_marked(s_init, states@),
            search_inv(opened@, closed@, states@, start_node, row_length),
            match result {
                Some(path) => {
                    &&& closed@.len() >= 1
                    &&& closed@.len() <= (row_length as int) * (row_length as int)
                    &&& closed@.last().pos == end_node.pos
                    &&& path@ == spec_chain(closed@, closed@.len() - 1)
                    &&& chain_marked(closed@, states@, row_length)
                    &&& (start_node.pos == end_node.pos ==> closed@.len() == 1
                        && closed@.last() == start_node && path_marks_only(
                        s_init,
                        states@,
                        closed@,
                        row_length,
                    ))
                },
                None => {
                    &&& opened@.len() == 0
                    &&& expansion_closed8(opened@, closed@, states@, row_length)
                    &&& (list_has_pos(opened@, start_node.pos) || list_has_pos(
                        closed@,
                        start_node.pos,
                    ))
                    &&& (forall|i: int|
                        0 <= i < closed@.len() ==> (#[trigger] closed@[i]).pos != end_node.pos)
                },
            },
        decreases (row_length as int) * (row_length as int) + 1 - closed@.len(),
    {
        let ghost sb = states@;
        if opened.len() == 0 {
            result = None;
            break;
        }
        let r = advance_search(start_node, end_node, states, &mut opened, &mut closed, row_length);
        proof {
            lemma_grid_evolution_trans(s_init, sb, states@);
        }
        if let StepResult::Found = r {
            let li = closed.len() - 1;
            let last = closed[li];
            let path = get_path_nodes(&last, &closed);
            result = Some(path);
            break;
        }
    }
    proof {
        match &result {
            Some(path) => {
                lemma_found_path_props(
                    closed@,
                    states@,
                    s_init,
                    path@,
                    start_node,
                    end_node,
                    row_length,
                );
                lemma_chain_props(closed@, closed@.len() - 1, states@, start_node, row_length);
                assert(path@.len() <= closed@.len());
                if start_node.pos == end_node.pos {
                    assert(path@ == spec_chain(closed@, 0));
                    assert(closed@[0] == start_node && start_node.parent is None);
                    assert(path@.len() == 1);
                    assert forall|i: int|
                        0 <= i < s_init.len() && (#[trigger] states@[i]) != s_init[i] implies i
                        == cell_index(start_node.pos, row_length) by {
                        let kk = choose|kk: int|
                            0 <= kk < spec_chain(closed@, closed@.len() - 1).len() && cell_index(
                                (#[trigger] spec_chain(closed@, closed@.len() - 1)[kk]).pos,
                                row_length,
                            ) == i;
                        assert(spec_chain(closed@, closed@.len() - 1)[kk] == start_node);
                    }
                }
            },
            None => {
                assert forall|route: Seq<Position>|
                    #[trigger] route_ok(route, s_init, row_length) && route[0] == start_node.pos
                        && route.last() == end_node.pos implies false by {
                    assert(list_has_pos(closed@, start_node.pos));
                    lemma_route_covered(opened@, closed@, states@, s_init, route, row_length);
                    let i = choose|i: int|
                        0 <= i < closed@.len() && closed@[i].pos == end_node.pos;
                    assert(false);
                }
                if in_bounds(end_node.pos, row_length) && (forall|i: int|
                    0 <= i < s_init.len() ==> !((#[trigger] s_init[i]) is Solid)) {
                    lemma_free_grid_covers_target(
                        opened@,
                        closed@,
                        states@,
                        s_init,
                        start_node,
                        end_node,
                        row_length,
                    );
                    let i = choose|i: int|
                        0 <= i < closed@.len() && closed@[i].pos == end_node.pos;
                    assert(false);
                }
            },
        }
    }
    result
}

/// No expanded node ever sits on a wall: every entry of the closed list of a
/// well-formed search lies on the grid, on a cell that is not `Solid`.
pub proof fn lemma_closed_never_solid(
    opened: Seq<Node>,
    closed: Seq<Node>,
    states: Seq<CellState>,
    start: Node,
    row_length: u32,
    i: int,
)
    requires
        search_inv(opened, closed, states, start, row_length),
        0 <= i < closed.len(),
    ensures
        in_bounds(closed[i].pos, row_length),
        !(states[cell_index(closed[i].pos, row_length)] is Solid),
{
    assert(node_ok(closed[i], closed, states, start, row_length));
}

/// An incremental search that signals `Found` and a run-to-completion search
/// that returns a route stop at the same cell, namely the target they were
/// both given, even though the two expand different neighbourhoods and may
/// take different routes.
pub proof fn lemma_step_and_run_reach_same_cell(
    step_closed: Seq<Node>,
    run_path: Seq<Node>,
    end: Node,
)
    requires
        step_closed.len() >= 1,
        step_closed.last().pos == end.pos,
        run_path.len() >= 1,
        run_path.last().pos == end.pos,
    ensures
        step_closed.last().pos == run_path.last().pos,
{
}

} // verus!
