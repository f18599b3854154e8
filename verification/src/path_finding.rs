//! Shortest walks by A* search with the Manhattan distance as heuristic.

use crate::level::{lemma_index_in_range, lemma_index_order, Level};
use crate::position::{adjacent, manhattan, manhattan_distance, Direction, Position};
use crate::walk::{
    connected, is_obstacle, lemma_walk_at_least_manhattan, obstacles, shortest_walk, walk_between,
};
use vstd::prelude::*;

verus! {

/// An entry of the open set: a cell and the priority it was entered with.
#[derive(Clone, Copy)]
pub struct Node {
    pub position: Position,
    pub priority: i64,
}

/// The cost recorded for cell `p`; negative while none is.
pub open spec fn cost_at(level: &Level, cost: Seq<i64>, p: Position) -> int {
    cost[level.index_of(p)] as int
}

/// Whether a cost is recorded for cell `p` of the grid.
pub open spec fn is_set(level: &Level, cost: Seq<i64>, p: Position) -> bool {
    level.in_bounds(p) && cost_at(level, cost, p) >= 0
}

/// The number of cells without a recorded cost.
pub open spec fn unset_count(cost: Seq<i64>) -> nat
    decreases cost.len(),
{
    if cost.len() == 0 {
        0
    } else {
        unset_count(cost.drop_last()) + if cost.last() < 0 {
            1nat
        } else {
            0nat
        }
    }
}

/// The sum of the recorded costs.
pub open spec fn cost_sum(cost: Seq<i64>) -> nat
    decreases cost.len(),
{
    if cost.len() == 0 {
        0
    } else {
        cost_sum(cost.drop_last()) + if cost.last() < 0 {
            0nat
        } else {
            cost.last() as nat
        }
    }
}

/// Whether the search state `(u1, s1, l1)`, made of the unset count, the cost
/// sum and the size of the open set, is no later in the search's progress
/// order than `(u0, s0, l0)`.
pub open spec fn no_worse(u1: nat, s1: nat, l1: nat, u0: nat, s0: nat, l0: nat) -> bool {
    u1 < u0 || (u1 == u0 && s1 < s0) || (u1 == u0 && s1 == s0 && l1 <= l0)
}

/// The edge from `p` in direction `d` is relaxed: where it leads to a free
/// cell, that cell has a cost at most one above that of `p`.
pub open spec fn relaxed_dir(
    level: &Level,
    boxes: Seq<Position>,
    cost: Seq<i64>,
    p: Position,
    d: Direction,
) -> bool {
    p.can_step(d) && !obstacles(level, boxes).contains(p.step(d)) ==> is_set(
        level,
        cost,
        p.step(d),
    ) && cost_at(level, cost, p.step(d)) <= cost_at(level, cost, p) + 1
}

/// The first `lim` edges from `p`, in the order of [`Direction::all`], are relaxed.
pub open spec fn relaxed_upto(
    level: &Level,
    boxes: Seq<Position>,
    cost: Seq<i64>,
    p: Position,
    lim: int,
) -> bool {
    &&& lim > 0 ==> relaxed_dir(level, boxes, cost, p, Direction::Up)
    &&& lim > 1 ==> relaxed_dir(level, boxes, cost, p, Direction::Down)
    &&& lim > 2 ==> relaxed_dir(level, boxes, cost, p, Direction::Left)
    &&& lim > 3 ==> relaxed_dir(level, boxes, cost, p, Direction::Right)
}

/// The open set holds an entry for `p` whose priority is the current cost of
/// `p` plus its Manhattan distance to `to`.
pub open spec fn open_exact(
    level: &Level,
    cost: Seq<i64>,
    open: Seq<Node>,
    to: Position,
    p: Position,
) -> bool {
    exists|k: int|
        0 <= k < open.len() && (#[trigger] open[k]).position == p && open[k].priority == cost_at(
            level,
            cost,
            p,
        ) + manhattan(p, to)
}

/// The recorded predecessor of `p` is a cell with a smaller cost, from which
/// one step leads to `p`; the start has cost zero.
pub open spec fn tree_ok(
    level: &Level,
    boxes: Seq<Position>,
    from: Position,
    cost: Seq<i64>,
    came: Seq<Position>,
    p: Position,
) -> bool {
    if p == from {
        cost_at(level, cost, p) == 0
    } else {
        let u = came[level.index_of(p)];
        &&& is_set(level, cost, u)
        &&& adjacent(u, p)
        &&& !obstacles(level, boxes).contains(p)
        &&& cost_at(level, cost, u) + 1 <= cost_at(level, cost, p)
    }
}

/// An entry of the open set names a cell with a cost, and its priority is no
/// less than what that cost gives now.
pub open spec fn entry_ok(level: &Level, cost: Seq<i64>, to: Position, e: Node) -> bool {
    is_set(level, cost, e.position) && e.priority >= cost_at(level, cost, e.position) + manhattan(
        e.position,
        to,
    )
}

/// The invariant of the search. Every cell with a cost hangs in the tree of
/// predecessors; every entry of the open set is sound; every cell with a cost
/// either has an exact entry in the open set or has its edges relaxed (for
/// the cell `hole`, which is being expanded, the first `done` of them); and
/// the goal, once it has a cost, has an exact entry.
pub open spec fn search_inv(
    level: &Level,
    boxes: Seq<Position>,
    from: Position,
    to: Position,
    cost: Seq<i64>,
    came: Seq<Position>,
    open: Seq<Node>,
    hole: Position,
    done: int,
) -> bool {
    &&& level.shape_ok()
    &&& level.in_bounds(from)
    &&& level.in_bounds(to)
    &&& cost.len() == level.tiles@.len()
    &&& came.len() == cost.len()
    &&& forall|i: int|
        0 <= i < cost.len() ==> -1 <= #[trigger] cost[i] && (cost[i] >= 0 ==> cost[i] + unset_count(
            cost,
        ) < cost.len())
    &&& is_set(level, cost, from)
    &&& forall|p: Position| #[trigger]
        is_set(level, cost, p) ==> tree_ok(level, boxes, from, cost, came, p)
    &&& forall|k: int| 0 <= k < open.len() ==> entry_ok(level, cost, to, #[trigger] open[k])
    &&& forall|p: Position| #[trigger]
        is_set(level, cost, p) ==> open_exact(level, cost, open, to, p) || relaxed_upto(
            level,
            boxes,
            cost,
            p,
            if p == hole {
                done
            } else {
                4
            },
        )
    &&& is_set(level, cost, to) ==> open_exact(level, cost, open, to, to)
}

/// Writing one cell changes the unset count and the cost sum by that cell's share.
pub proof fn lemma_update_measure(cost: Seq<i64>, i: int, v: i64)
    requires
        0 <= i < cost.len(),
    ensures
        unset_count(cost.update(i, v)) + (if cost[i] < 0 {
            1int
        } else {
            0int
        }) == unset_count(cost) + (if v < 0 {
            1int
        } else {
            0int
        }),
        cost_sum(cost.update(i, v)) + (if cost[i] < 0 {
            0int
        } else {
            cost[i] as int
        }) == cost_sum(cost) + (if v < 0 {
            0int
        } else {
            v as int
        }),
        unset_count(cost) <= cost.len(),
    decreases cost.len(),
{
    let c2 = cost.update(i, v);
    if i == cost.len() - 1 {
        assert(c2.drop_last() =~= cost.drop_last());
        lemma_unset_bound(cost.drop_last());
    } else {
        assert(c2.drop_last() =~= cost.drop_last().update(i, v));
        lemma_update_measure(cost.drop_last(), i, v);
    }
}

/// No more cells are unset than there are cells.
pub proof fn lemma_unset_bound(cost: Seq<i64>)
    ensures
        unset_count(cost) <= cost.len(),
    decreases cost.len(),
{
    if cost.len() > 0 {
        lemma_unset_bound(cost.drop_last());
    }
}

/// Where no cell has a cost, every cell counts as unset and the sum is zero.
pub proof fn lemma_all_unset(cost: Seq<i64>)
    requires
        forall|i: int| 0 <= i < cost.len() ==> cost[i] < 0,
    ensures
        unset_count(cost) == cost.len(),
        cost_sum(cost) == 0,
    decreases cost.len(),
{
    if cost.len() > 0 {
        lemma_all_unset(cost.drop_last());
    }
}

/// Writing the cost of cell `p` changes the cost of no other cell of the grid.
pub proof fn lemma_cost_update(level: &Level, cost: Seq<i64>, p: Position, v: i64, q: Position)
    requires
        level.shape_ok(),
        cost.len() == level.tiles@.len(),
        level.in_bounds(p),
        level.in_bounds(q),
    ensures
        cost_at(level, cost.update(level.index_of(p), v), q) == (if q == p {
            v as int
        } else {
            cost_at(level, cost, q)
        }),
        0 <= level.index_of(q) < cost.len(),
{
    lemma_index_in_range(level.width as int, level.height as int, p);
    lemma_index_in_range(level.width as int, level.height as int, q);
    lemma_index_order(level.width as int, p, q);
}

/// Writing the predecessor of cell `p` changes that of no other cell of the grid.
pub proof fn lemma_came_update(
    level: &Level,
    came: Seq<Position>,
    p: Position,
    v: Position,
    q: Position,
)
    requires
        level.shape_ok(),
        came.len() == level.tiles@.len(),
        level.in_bounds(p),
        level.in_bounds(q),
    ensures
        came.update(level.index_of(p), v)[level.index_of(q)] == (if q == p {
            v
        } else {
            came[level.index_of(q)]
        }),
{
    lemma_index_in_range(level.width as int, level.height as int, p);
    lemma_index_in_range(level.width as int, level.height as int, q);
    lemma_index_order(level.width as int, p, q);
}

/// A cell that is no obstacle lies in the grid.
pub proof fn lemma_free_in_bounds(level: &Level, boxes: Seq<Position>, p: Position)
    requires
        !obstacles(level, boxes).contains(p),
    ensures
        level.in_bounds(p),
{
    if !level.in_bounds(p) {
        assert(level.tile(p) == crate::level::WALL);
        assert(crate::level::WALL & crate::level::WALL != 0) by (bit_vector);
    }
}

/// Adjacent cells are one step apart in some direction.
pub proof fn lemma_adjacent_step(a: Position, b: Position) -> (d: Direction)
    requires
        adjacent(a, b),
    ensures
        a.can_step(d),
        a.step(d) == b,
{
    if b.y == a.y - 1 {
        Direction::Up
    } else if b.y == a.y + 1 {
        Direction::Down
    } else if b.x == a.x - 1 {
        Direction::Left
    } else {
        Direction::Right
    }
}

/// Lowering costs keeps an edge relaxed, as long as the cost at its foot stays.
pub proof fn lemma_relaxed_dir_mono(
    level: &Level,
    boxes: Seq<Position>,
    cost: Seq<i64>,
    cost2: Seq<i64>,
    p: Position,
    d: Direction,
)
    requires
        relaxed_dir(level, boxes, cost, p, d),
        cost_at(level, cost2, p) == cost_at(level, cost, p),
        p.can_step(d) && is_set(level, cost, p.step(d)) ==> is_set(level, cost2, p.step(d))
            && cost_at(level, cost2, p.step(d)) <= cost_at(level, cost, p.step(d)),
    ensures
        relaxed_dir(level, boxes, cost2, p, d),
{
}

/// Lowering costs keeps the relaxed edges of a cell relaxed, as long as the
/// cost of the cell itself stays.
pub proof fn lemma_relaxed_upto_mono(
    level: &Level,
    boxes: Seq<Position>,
    cost: Seq<i64>,
    cost2: Seq<i64>,
    p: Position,
    lim: int,
)
    requires
        relaxed_upto(level, boxes, cost, p, lim),
        cost_at(level, cost2, p) == cost_at(level, cost, p),
        forall|q: Position| #[trigger]
            is_set(level, cost, q) ==> is_set(level, cost2, q) && cost_at(level, cost2, q)
                <= cost_at(level, cost, q),
    ensures
        relaxed_upto(level, boxes, cost2, p, lim),
{
    if lim > 0 {
        lemma_relaxed_dir_mono(level, boxes, cost, cost2, p, Direction::Up);
    }
    if lim > 1 {
        lemma_relaxed_dir_mono(level, boxes, cost, cost2, p, Direction::Down);
    }
    if lim > 2 {
        lemma_relaxed_dir_mono(level, boxes, cost, cost2, p, Direction::Left);
    }
    if lim > 3 {
        lemma_relaxed_dir_mono(level, boxes, cost, cost2, p, Direction::Right);
    }
}

/// One more relaxed edge: the edge in the direction with number `j`.
pub proof fn lemma_relaxed_next(
    level: &Level,
    boxes: Seq<Position>,
    cost: Seq<i64>,
    p: Position,
    j: int,
)
    requires
        0 <= j < 4,
        relaxed_upto(level, boxes, cost, p, j),
        relaxed_dir(level, boxes, cost, p, Direction::all()[j]),
    ensures
        relaxed_upto(level, boxes, cost, p, j + 1),
{
}

/// An edge out of a cell whose four edges are relaxed is relaxed.
pub proof fn lemma_relaxed_all(
    level: &Level,
    boxes: Seq<Position>,
    cost: Seq<i64>,
    p: Position,
    d: Direction,
)
    requires
        relaxed_upto(level, boxes, cost, p, 4),
    ensures
        relaxed_dir(level, boxes, cost, p, d),
{
}

/// The invariant survives the step that finds edge `j` of the expanded cell
/// relaxed already.
pub proof fn lemma_relax_keep(
    level: &Level,
    boxes: Seq<Position>,
    from: Position,
    to: Position,
    cost: Seq<i64>,
    came: Seq<Position>,
    open: Seq<Node>,
    node: Position,
    j: int,
)
    requires
        0 <= j < 4,
        search_inv(level, boxes, from, to, cost, came, open, node, j),
        relaxed_dir(level, boxes, cost, node, Direction::all()[j]),
    ensures
        search_inv(level, boxes, from, to, cost, came, open, node, j + 1),
{
    assert forall|p: Position| #[trigger] is_set(level, cost, p) implies open_exact(
        level,
        cost,
        open,
        to,
        p,
    ) || relaxed_upto(
        level,
        boxes,
        cost,
        p,
        if p == node {
            j + 1
        } else {
            4
        },
    ) by {
        if p == node && !open_exact(level, cost, open, to, p) {
            lemma_relaxed_next(level, boxes, cost, p, j);
        }
    }
}

/// The invariant survives the step that lowers the cost of the neighbour `w`
/// of the expanded cell, and that step makes progress.
pub proof fn lemma_relax_update(
    level: &Level,
    boxes: Seq<Position>,
    from: Position,
    to: Position,
    cost: Seq<i64>,
    came: Seq<Position>,
    open: Seq<Node>,
    node: Position,
    j: int,
    entry: Node,
)
    requires
        0 <= j < 4,
        search_inv(level, boxes, from, to, cost, came, open, node, j),
        is_set(level, cost, node),
        node.can_step(Direction::all()[j]),
        !obstacles(level, boxes).contains(node.step(Direction::all()[j])),
        entry.position == node.step(Direction::all()[j]),
        entry.priority == cost_at(level, cost, node) + 1 + manhattan(entry.position, to),
        cost_at(level, cost, entry.position) < 0 || cost_at(level, cost, node) + 1 < cost_at(
            level,
            cost,
            entry.position,
        ),
    ensures
        level.in_bounds(entry.position),
        cost_at(level, cost, node) + 1 < cost.len(),
        search_inv(
            level,
            boxes,
            from,
            to,
            cost.update(
                level.index_of(entry.position),
                (cost_at(level, cost, node) + 1) as i64,
            ),
            came.update(level.index_of(entry.position), node),
            open.push(entry),
            node,
            j + 1,
        ),
        unset_count(
            cost.update(
                level.index_of(entry.position),
                (cost_at(level, cost, node) + 1) as i64,
            ),
        ) < unset_count(cost) || (unset_count(
            cost.update(
                level.index_of(entry.position),
                (cost_at(level, cost, node) + 1) as i64,
            ),
        ) == unset_count(cost) && cost_sum(
            cost.update(
                level.index_of(entry.position),
                (cost_at(level, cost, node) + 1) as i64,
            ),
        ) < cost_sum(cost)),
{
    let d = Direction::all()[j];
    let w = entry.position;
    let wi = level.index_of(w);
    let c = cost_at(level, cost, node) + 1;
    let cost2 = cost.update(wi, c as i64);
    let came2 = came.update(wi, node);
    let open2 = open.push(entry);
    lemma_free_in_bounds(level, boxes, w);
    lemma_cost_update(level, cost, w, c as i64, w);
    lemma_cost_update(level, cost, w, c as i64, node);
    lemma_update_measure(cost, wi, c as i64);
    assert(adjacent(node, w));
    assert(tree_ok(level, boxes, from, cost, came, node));
    assert(w != from) by {
        if w == from {
            assert(is_set(level, cost, from));
            assert(tree_ok(level, boxes, from, cost, came, from));
        }
    }
    let ni = level.index_of(node);
    assert(cost[ni] + unset_count(cost) < cost.len());
    assert(cost[wi] >= 0 ==> cost[wi] + unset_count(cost) < cost.len());
    assert forall|q: Position| level.in_bounds(q) implies cost_at(level, cost2, q) == (if q == w {
        c
    } else {
        cost_at(level, cost, q)
    }) && came2[level.index_of(q)] == (if q == w {
        node
    } else {
        came[level.index_of(q)]
    }) by {
        lemma_cost_update(level, cost, w, c as i64, q);
        lemma_came_update(level, came, w, node, q);
    }
    assert forall|q: Position| #[trigger] is_set(level, cost, q) implies is_set(level, cost2, q)
        && cost_at(level, cost2, q) <= cost_at(level, cost, q) by {}
    assert forall|i: int| 0 <= i < cost2.len() implies -1 <= #[trigger] cost2[i] && (cost2[i] >= 0
        ==> cost2[i] + unset_count(cost2) < cost2.len()) by {
        if i != wi {
            assert(cost2[i] == cost[i]);
        }
    }
    assert forall|p: Position| #[trigger] is_set(level, cost2, p) implies tree_ok(
        level,
        boxes,
        from,
        cost2,
        came2,
        p,
    ) by {
        if p == w {
        } else {
            assert(is_set(level, cost, p));
            assert(tree_ok(level, boxes, from, cost, came, p));
            if p != from {
                let u = came[level.index_of(p)];
                assert(is_set(level, cost, u));
            }
        }
    }
    assert forall|k: int| 0 <= k < open2.len() implies entry_ok(level, cost2, to, #[trigger] open2[k]) by {
        if k < open.len() {
            assert(open2[k] == open[k]);
            assert(entry_ok(level, cost, to, open[k]));
            assert(is_set(level, cost, open[k].position));
        }
    }
    assert forall|p: Position| #[trigger] is_set(level, cost2, p) implies open_exact(
        level,
        cost2,
        open2,
        to,
        p,
    ) || relaxed_upto(
        level,
        boxes,
        cost2,
        p,
        if p == node {
            j + 1
        } else {
            4
        },
    ) by {
        if p == w {
            assert(open2[open.len() as int] == entry);
        } else {
            assert(is_set(level, cost, p));
            if open_exact(level, cost, open, to, p) {
                let k = choose|k: int|
                    0 <= k < open.len() && (#[trigger] open[k]).position == p && open[k].priority
                        == cost_at(level, cost, p) + manhattan(p, to);
                assert(open2[k] == open[k]);
            } else {
                let lim = if p == node {
                    j
                } else {
                    4
                };
                assert(relaxed_upto(level, boxes, cost, p, lim));
                lemma_relaxed_upto_mono(level, boxes, cost, cost2, p, lim);
                if p == node {
                    assert(is_set(level, cost2, w));
                    assert(relaxed_dir(level, boxes, cost2, node, d));
                    lemma_relaxed_next(level, boxes, cost2, p, j);
                }
            }
        }
    }
    if is_set(level, cost2, to) {
        if to == w {
            assert(open2[open.len() as int] == entry);
        } else {
            assert(is_set(level, cost, to));
            let k = choose|k: int|
                0 <= k < open.len() && (#[trigger] open[k]).position == to && open[k].priority
                    == cost_at(level, cost, to) + manhattan(to, to);
            assert(open2[k] == open[k]);
        }
    }
}

/// The invariant survives taking an entry out of the open set, with the
/// entry's cell, which is not the goal, as the cell to expand next.
pub proof fn lemma_pop(
    level: &Level,
    boxes: Seq<Position>,
    from: Position,
    to: Position,
    cost: Seq<i64>,
    came: Seq<Position>,
    open: Seq<Node>,
    hole: Position,
    k0: int,
)
    requires
        search_inv(level, boxes, from, to, cost, came, open, hole, 4),
        0 <= k0 < open.len(),
        open[k0].position != to,
    ensures
        search_inv(level, boxes, from, to, cost, came, open.remove(k0), open[k0].position, 0),
{
    let open2 = open.remove(k0);
    let node = open[k0].position;
    assert forall|k: int| 0 <= k < open2.len() implies entry_ok(level, cost, to, #[trigger] open2[k]) by {
        if k < k0 {
            assert(open2[k] == open[k]);
        } else {
            assert(open2[k] == open[k + 1]);
        }
    }
    assert forall|p: Position| #[trigger] is_set(level, cost, p) implies open_exact(
        level,
        cost,
        open2,
        to,
        p,
    ) || relaxed_upto(
        level,
        boxes,
        cost,
        p,
        if p == node {
            0
        } else {
            4
        },
    ) by {
        if p != node && open_exact(level, cost, open, to, p) {
            lemma_exact_kept(level, cost, open, to, p, k0);
        }
    }
    if is_set(level, cost, to) {
        lemma_exact_kept(level, cost, open, to, to, k0);
    }
}

/// An exact entry for one cell stays when an entry for another cell leaves.
pub proof fn lemma_exact_kept(
    level: &Level,
    cost: Seq<i64>,
    open: Seq<Node>,
    to: Position,
    p: Position,
    k0: int,
)
    requires
        0 <= k0 < open.len(),
        open[k0].position != p,
        open_exact(level, cost, open, to, p),
    ensures
        open_exact(level, cost, open.remove(k0), to, p),
{
    let open2 = open.remove(k0);
    let k = choose|k: int|
        0 <= k < open.len() && (#[trigger] open[k]).position == p && open[k].priority == cost_at(
            level,
            cost,
            p,
        ) + manhattan(p, to);
    if k < k0 {
        assert(open2[k] == open[k]);
    } else {
        assert(open2[k - 1] == open[k]);
    }
}

/// While the invariant holds with every expansion complete, a walk from the
/// start to the goal whose cell `i` has a cost of at most `i` shows an entry
/// of the open set with a priority of at most the walk's number of steps.
pub proof fn lemma_front(
    level: &Level,
    boxes: Seq<Position>,
    from: Position,
    to: Position,
    cost: Seq<i64>,
    came: Seq<Position>,
    open: Seq<Node>,
    hole: Position,
    walk: Seq<Position>,
    i: int,
) -> (k: int)
    requires
        search_inv(level, boxes, from, to, cost, came, open, hole, 4),
        walk_between(obstacles(level, boxes), from, to, walk),
        0 <= i < walk.len(),
        is_set(level, cost, walk[i]),
        cost_at(level, cost, walk[i]) <= i,
    ensures
        0 <= k < open.len(),
        open[k].priority <= walk.len() - 1,
    decreases walk.len() - i,
{
    let p = walk[i];
    if open_exact(level, cost, open, to, p) {
        let k = choose|k: int|
            0 <= k < open.len() && (#[trigger] open[k]).position == p && open[k].priority
                == cost_at(level, cost, p) + manhattan(p, to);
        lemma_walk_at_least_manhattan(obstacles(level, boxes), walk, i);
        k
    } else {
        assert(relaxed_upto(level, boxes, cost, p, 4));
        assert(i < walk.len() - 1);
        let q = walk[i + 1];
        assert(adjacent(p, q) && !obstacles(level, boxes).contains(q));
        let d = lemma_adjacent_step(p, q);
        lemma_relaxed_all(level, boxes, cost, p, d);
        lemma_front(level, boxes, from, to, cost, came, open, hole, walk, i + 1)
    }
}

/// The state of a search: the costs and the predecessors recorded for the
/// cells, and the open set in the order of entry.
pub struct Search {
    pub cost: Seq<i64>,
    pub came: Seq<Position>,
    pub open: Seq<Node>,
}

/// The state after the edge from `node` in direction `d` has been relaxed:
/// where the edge leads to a free cell that has no cost yet, or a higher
/// one than the way over `node` gives, the cell gets that cost, `node` as
/// its predecessor, and a new entry at the end of the open set.
#[verifier::opaque]
pub open spec fn relaxed(
    level: &Level,
    boxes: Seq<Position>,
    to: Position,
    node: Position,
    d: Direction,
    s: Search,
) -> Search {
    let w = node.step(d);
    let c = cost_at(level, s.cost, node) + 1;
    if node.can_step(d) && !obstacles(level, boxes).contains(w) && (cost_at(level, s.cost, w) < 0
        || c < cost_at(level, s.cost, w)) {
        Search {
            cost: s.cost.update(level.index_of(w), c as i64),
            came: s.came.update(level.index_of(w), node),
            open: s.open.push(Node { position: w, priority: (c + manhattan(w, to)) as i64 }),
        }
    } else {
        s
    }
}

/// The state after the four edges from `node` have been relaxed, in the
/// order up, down, left, right.
pub open spec fn expanded(
    level: &Level,
    boxes: Seq<Position>,
    to: Position,
    node: Position,
    s: Search,
) -> Search {
    relaxed(
        level,
        boxes,
        to,
        node,
        Direction::Right,
        relaxed(
            level,
            boxes,
            to,
            node,
            Direction::Left,
            relaxed(
                level,
                boxes,
                to,
                node,
                Direction::Down,
                relaxed(level, boxes, to, node, Direction::Up, s),
            ),
        ),
    )
}

/// Whether `k` is the place of the first entry of least priority.
pub open spec fn first_least(open: Seq<Node>, k: int) -> bool {
    &&& 0 <= k < open.len()
    &&& forall|i: int| 0 <= i < open.len() ==> open[k].priority <= (#[trigger] open[i]).priority
    &&& forall|i: int| 0 <= i < k ==> open[k].priority < (#[trigger] open[i]).priority
}

/// The place of the first entry of least priority.
pub open spec fn least(open: Seq<Node>) -> int {
    choose|k: int| first_least(open, k)
}

/// The cells from `from` to `cur` along the recorded predecessors, followed
/// back for at most `fuel` steps.
pub open spec fn traced(
    level: &Level,
    from: Position,
    came: Seq<Position>,
    cur: Position,
    fuel: nat,
) -> Seq<Position>
    decreases fuel,
{
    if cur == from || fuel == 0 {
        seq![cur]
    } else {
        traced(level, from, came, came[level.index_of(cur)], (fuel - 1) as nat).push(cur)
    }
}

/// What the search returns from the state `s`: nothing where the open set
/// is empty; the traced walk where the first open entry of least priority
/// is the goal; else what it returns once that entry has left the open set
/// and its cell has been expanded.
#[verifier::opaque]
pub open spec fn pursued(
    level: &Level,
    boxes: Seq<Position>,
    from: Position,
    to: Position,
    s: Search,
) -> Option<Seq<Position>>
    decreases unset_count(s.cost), cost_sum(s.cost), s.open.len(),
    when search_inv(level, boxes, from, to, s.cost, s.came, s.open, from, 4)
{
    if s.open.len() == 0 {
        None
    } else {
        let k = least(s.open);
        let node = s.open[k].position;
        if node == to {
            Some(traced(level, from, s.came, to, cost_at(level, s.cost, to) as nat))
        } else {
            proof {
                lemma_expanded(level, boxes, from, to, s);
            }
            pursued(
                level,
                boxes,
                from,
                to,
                expanded(
                    level,
                    boxes,
                    to,
                    node,
                    Search { cost: s.cost, came: s.came, open: s.open.remove(k) },
                ),
            )
        }
    }
}

/// One step of [`pursued`].
pub proof fn lemma_pursued(
    level: &Level,
    boxes: Seq<Position>,
    from: Position,
    to: Position,
    s: Search,
)
    requires
        search_inv(level, boxes, from, to, s.cost, s.came, s.open, from, 4),
    ensures
        s.open.len() == 0 ==> pursued(level, boxes, from, to, s) is None,
        s.open.len() > 0 && s.open[least(s.open)].position == to ==> pursued(
            level,
            boxes,
            from,
            to,
            s,
        ) == Some(traced(level, from, s.came, to, cost_at(level, s.cost, to) as nat)),
        s.open.len() > 0 && s.open[least(s.open)].position != to ==> pursued(
            level,
            boxes,
            from,
            to,
            s,
        ) == pursued(
            level,
            boxes,
            from,
            to,
            expanded(
                level,
                boxes,
                to,
                s.open[least(s.open)].position,
                Search { cost: s.cost, came: s.came, open: s.open.remove(least(s.open)) },
            ),
        ),
{
    reveal_with_fuel(pursued, 2);
    if s.open.len() > 0 && s.open[least(s.open)].position != to {
        lemma_expanded(level, boxes, from, to, s);
    }
}

/// The state in which a search from `from` to `to` begins: `from` has the
/// cost zero, no other cell has a cost, and the open set holds `from`.
pub open spec fn begun(level: &Level, from: Position, to: Position) -> Search {
    Search {
        cost: Seq::new(level.tiles@.len(), |i: int| -1i64).update(level.index_of(from), 0i64),
        came: Seq::new(level.tiles@.len(), |i: int| from),
        open: seq![Node { position: from, priority: manhattan(from, to) as i64 }],
    }
}

/// The walk that [`find_path`] returns: the result of the A* search that
/// expands, of the open entries of least priority, the one entered first,
/// and relaxes the edges of a cell in the order up, down, left, right.
pub open spec fn a_star(level: &Level, boxes: Seq<Position>, from: Position, to: Position) -> Option<
    Seq<Position>,
> {
    if level.in_bounds(to) {
        pursued(level, boxes, from, to, begun(level, from, to))
    } else {
        None
    }
}

/// The first entry of least priority has one place.
pub proof fn lemma_least(open: Seq<Node>, k: int)
    requires
        first_least(open, k),
    ensures
        least(open) == k,
{
    let j = least(open);
    assert(first_least(open, j));
    if j < k {
        assert(open[k].priority < open[j].priority);
    } else if k < j {
        assert(open[j].priority < open[k].priority);
    }
}

/// An open set that is not empty has a first entry of least priority.
pub proof fn lemma_least_exists(open: Seq<Node>) -> (k: int)
    requires
        open.len() > 0,
    ensures
        first_least(open, k),
        least(open) == k,
    decreases open.len(),
{
    let k = if open.len() == 1 {
        0
    } else {
        let front = open.drop_last();
        let j = lemma_least_exists(front);
        assert forall|i: int| 0 <= i < front.len() implies front[i] == open[i] by {}
        if open.last().priority < front[j].priority {
            assert forall|i: int| 0 <= i < open.len() - 1 implies open.last().priority < (
            #[trigger] open[i]).priority by {
                assert(front[j].priority <= front[i].priority);
            }
            open.len() - 1
        } else {
            assert forall|i: int| 0 <= i < open.len() implies open[j].priority <= (
            #[trigger] open[i]).priority by {
                if i < front.len() {
                    assert(front[j].priority <= front[i].priority);
                }
            }
            assert forall|i: int| 0 <= i < j implies open[j].priority < (#[trigger] open[i]).priority by {
                assert(front[j].priority < front[i].priority);
            }
            j
        }
    };
    lemma_least(open, k);
    k
}

/// Relaxing one edge of the cell that is being expanded keeps the
/// invariant and is no step back.
pub proof fn lemma_relaxed(
    level: &Level,
    boxes: Seq<Position>,
    from: Position,
    to: Position,
    s: Search,
    node: Position,
    j: int,
)
    requires
        0 <= j < 4,
        search_inv(level, boxes, from, to, s.cost, s.came, s.open, node, j),
        is_set(level, s.cost, node),
    ensures
        ({
            let t = relaxed(level, boxes, to, node, Direction::all()[j], s);
            &&& search_inv(level, boxes, from, to, t.cost, t.came, t.open, node, j + 1)
            &&& is_set(level, t.cost, node)
            &&& no_worse(
                unset_count(t.cost),
                cost_sum(t.cost),
                t.open.len(),
                unset_count(s.cost),
                cost_sum(s.cost),
                s.open.len(),
            )
        }),
{
    reveal(relaxed);
    let d = Direction::all()[j];
    let w = node.step(d);
    let c = cost_at(level, s.cost, node) + 1;
    if node.can_step(d) && !obstacles(level, boxes).contains(w) && (cost_at(level, s.cost, w) < 0
        || c < cost_at(level, s.cost, w)) {
        lemma_free_in_bounds(level, boxes, w);
        lemma_cost_update(level, s.cost, w, 0, node);
        assert(s.cost[level.index_of(node)] + unset_count(s.cost) < s.cost.len());
        assert(0 <= c <= i32::MAX);
        assert(0 <= manhattan(w, to) <= 2 * 0x1_0000_0000);
        let entry = Node { position: w, priority: (c + manhattan(w, to)) as i64 };
        lemma_relax_update(level, boxes, from, to, s.cost, s.came, s.open, node, j, entry);
        lemma_cost_update(level, s.cost, w, c as i64, node);
    } else {
        if node.can_step(d) && !obstacles(level, boxes).contains(w) {
            lemma_free_in_bounds(level, boxes, w);
        }
        lemma_relax_keep(level, boxes, from, to, s.cost, s.came, s.open, node, j);
    }
}

/// Taking the first entry of least priority out of the open set and
/// expanding its cell, which is not the goal, keeps the invariant and is a
/// step forward.
pub proof fn lemma_expanded(
    level: &Level,
    boxes: Seq<Position>,
    from: Position,
    to: Position,
    s: Search,
)
    requires
        search_inv(level, boxes, from, to, s.cost, s.came, s.open, from, 4),
        s.open.len() > 0,
        s.open[least(s.open)].position != to,
    ensures
        ({
            let k = least(s.open);
            let t = expanded(
                level,
                boxes,
                to,
                s.open[k].position,
                Search { cost: s.cost, came: s.came, open: s.open.remove(k) },
            );
            &&& search_inv(level, boxes, from, to, t.cost, t.came, t.open, from, 4)
            &&& (unset_count(t.cost) < unset_count(s.cost) || (unset_count(t.cost) == unset_count(
                s.cost,
            ) && cost_sum(t.cost) < cost_sum(s.cost)) || (unset_count(t.cost) == unset_count(s.cost)
                && cost_sum(t.cost) == cost_sum(s.cost) && t.open.len() < s.open.len()))
        }),
{
    let k = lemma_least_exists(s.open);
    let node = s.open[k].position;
    assert(entry_ok(level, s.cost, to, s.open[k]));
    lemma_pop(level, boxes, from, to, s.cost, s.came, s.open, from, k);
    let s0 = Search { cost: s.cost, came: s.came, open: s.open.remove(k) };
    lemma_relaxed(level, boxes, from, to, s0, node, 0);
    let s1 = relaxed(level, boxes, to, node, Direction::Up, s0);
    lemma_relaxed(level, boxes, from, to, s1, node, 1);
    let s2 = relaxed(level, boxes, to, node, Direction::Down, s1);
    lemma_relaxed(level, boxes, from, to, s2, node, 2);
    let s3 = relaxed(level, boxes, to, node, Direction::Left, s2);
    lemma_relaxed(level, boxes, from, to, s3, node, 3);
    let s4 = relaxed(level, boxes, to, node, Direction::Right, s3);
    lemma_whole(level, boxes, from, to, s4.cost, s4.came, s4.open, node, from);
}

/// Once every expansion is complete, the invariant does not depend on
/// which cell was expanded last.
pub proof fn lemma_whole(
    level: &Level,
    boxes: Seq<Position>,
    from: Position,
    to: Position,
    cost: Seq<i64>,
    came: Seq<Position>,
    open: Seq<Node>,
    hole: Position,
    other: Position,
)
    requires
        search_inv(level, boxes, from, to, cost, came, open, hole, 4),
    ensures
        search_inv(level, boxes, from, to, cost, came, open, other, 4),
{
    assert forall|p: Position| #[trigger] is_set(level, cost, p) implies open_exact(
        level,
        cost,
        open,
        to,
        p,
    ) || relaxed_upto(
        level,
        boxes,
        cost,
        p,
        if p == other {
            4
        } else {
            4
        },
    ) by {}
}

/// The index of the first entry of least priority.
fn first_minimum(open: &Vec<Node>) -> (k: usize)
    requires
        open@.len() > 0,
    ensures
        k < open@.len(),
        forall|i: int| 0 <= i < open@.len() ==> open@[k as int].priority <= (#[trigger] open@[i]).priority,
        forall|i: int| 0 <= i < k ==> open@[k as int].priority < (#[trigger] open@[i]).priority,
        first_least(open@, k as int),
{
    let mut k: usize = 0;
    let mut i: usize = 1;
    while i < open.len()
        invariant
            k < i <= open@.len(),
            forall|j: int| 0 <= j < i ==> open@[k as int].priority <= (#[trigger] open@[j]).priority,
            forall|j: int| 0 <= j < k ==> open@[k as int].priority < (#[trigger] open@[j]).priority,
        decreases open@.len() - i,
    {
        if open[i].priority < open[k].priority {
            k = i;
        }
        i = i + 1;
    }
    k
}

/// Relaxes the edge with number `j` out of the cell `node`, which is being expanded.
fn relax(
    level: &Level,
    boxes: &Vec<Position>,
    from: &Position,
    to: &Position,
    node: Position,
    j: usize,
    cost: &mut Vec<i64>,
    came: &mut Vec<Position>,
    open: &mut Vec<Node>,
)
    requires
        j < 4,
        search_inv(level, boxes@, *from, *to, old(cost)@, old(came)@, old(open)@, node, j as int),
        is_set(level, old(cost)@, node),
    ensures
        search_inv(
            level,
            boxes@,
            *from,
            *to,
            final(cost)@,
            final(came)@,
            final(open)@,
            node,
            j + 1,
        ),
        is_set(level, final(cost)@, node),
        no_worse(
            unset_count(final(cost)@),
            cost_sum(final(cost)@),
            final(open)@.len(),
            unset_count(old(cost)@),
            cost_sum(old(cost)@),
            old(open)@.len(),
        ),
        (Search { cost: final(cost)@, came: final(came)@, open: final(open)@ }) == relaxed(
            level,
            boxes@,
            *to,
            node,
            Direction::all()[j as int],
            Search { cost: old(cost)@, came: old(came)@, open: old(open)@ },
        ),
{
    let d = Direction::nth(j);
    let ghost cost0 = cost@;
    let ghost came0 = came@;
    let ghost open0 = open@;
    proof {
        reveal(relaxed);
    }
    match node.neighbor(d) {
        None => {
            proof {
                lemma_relax_keep(level, boxes@, *from, *to, cost0, came0, open0, node, j as int);
            }
        },
        Some(w) => {
            if is_obstacle(level, boxes, w) {
                proof {
                    lemma_relax_keep(level, boxes@, *from, *to, cost0, came0, open0, node, j as int);
                }
            } else {
                proof {
                    lemma_free_in_bounds(level, boxes@, w);
                    lemma_cost_update(level, cost0, w, 0, node);
                    lemma_cost_update(level, cost0, node, 0, w);
                }
                let ni = level.cell_index(node);
                let wi = level.cell_index(w);
                let old_cost = cost[wi];
                let new_cost = cost[ni] + 1;
                if old_cost < 0 || new_cost < old_cost {
                    let h = manhattan_distance(&w, to);
                    let entry = Node { position: w, priority: new_cost + h };
                    proof {
                        lemma_relax_update(
                            level,
                            boxes@,
                            *from,
                            *to,
                            cost0,
                            came0,
                            open0,
                            node,
                            j as int,
                            entry,
                        );
                        lemma_cost_update(level, cost0, w, new_cost, node);
                    }
                    cost.set(wi, new_cost);
                    open.push(entry);
                    came.set(wi, node);
                } else {
                    proof {
                        lemma_relax_keep(
                            level,
                            boxes@,
                            *from,
                            *to,
                            cost0,
                            came0,
                            open0,
                            node,
                            j as int,
                        );
                    }
                }
            }
        },
    }
}

/// Expands the cell `node`, whose entry has left the open set: relaxes its
/// four edges in the order up, down, left, right.
#[verifier::rlimit(80)]
#[verifier::spinoff_prover]
fn expand_cell(
    level: &Level,
    boxes: &Vec<Position>,
    from: &Position,
    to: &Position,
    node: Position,
    cost: &mut Vec<i64>,
    came: &mut Vec<Position>,
    open: &mut Vec<Node>,
)
    requires
        search_inv(level, boxes@, *from, *to, old(cost)@, old(came)@, old(open)@, node, 0),
        is_set(level, old(cost)@, node),
    ensures
        search_inv(level, boxes@, *from, *to, final(cost)@, final(came)@, final(open)@, *from, 4),
        no_worse(
            unset_count(final(cost)@),
            cost_sum(final(cost)@),
            final(open)@.len(),
            unset_count(old(cost)@),
            cost_sum(old(cost)@),
            old(open)@.len(),
        ),
        (Search { cost: final(cost)@, came: final(came)@, open: final(open)@ }) == expanded(
            level,
            boxes@,
            *to,
            node,
            Search { cost: old(cost)@, came: old(came)@, open: old(open)@ },
        ),
{
    relax(level, boxes, from, to, node, 0, cost, came, open);
    relax(level, boxes, from, to, node, 1, cost, came, open);
    relax(level, boxes, from, to, node, 2, cost, came, open);
    relax(level, boxes, from, to, node, 3, cost, came, open);
    proof {
        lemma_whole(level, boxes@, *from, *to, cost@, came@, open@, node, *from);
    }
}

/// Follows the predecessors from the goal back to the start and returns the
/// cells passed, from the start to the goal.
fn build_path(
    level: &Level,
    boxes: &Vec<Position>,
    from: &Position,
    to: &Position,
    cost: &Vec<i64>,
    came: &Vec<Position>,
) -> (path: Vec<Position>)
    requires
        level.shape_ok(),
        level.in_bounds(*from),
        cost@.len() == level.tiles@.len(),
        came@.len() == cost@.len(),
        is_set(level, cost@, *to),
        forall|p: Position| #[trigger]
            is_set(level, cost@, p) ==> tree_ok(level, boxes@, *from, cost@, came@, p),
    ensures
        walk_between(obstacles(level, boxes@), *from, *to, path@),
        path@.len() <= cost_at(level, cost@, *to) + 1,
        path@ == traced(level, *from, came@, *to, cost_at(level, cost@, *to) as nat),
{
    let ghost whole = traced(level, *from, came@, *to, cost_at(level, cost@, *to) as nat);
    let mut back: Vec<Position> = Vec::new();
    let mut current = *to;
    while current != *from
        invariant
            level.shape_ok(),
            cost@.len() == level.tiles@.len(),
            came@.len() == cost@.len(),
            forall|p: Position| #[trigger]
                is_set(level, cost@, p) ==> tree_ok(level, boxes@, *from, cost@, came@, p),
            is_set(level, cost@, current),
            back@.len() + cost_at(level, cost@, current) <= cost_at(level, cost@, *to),
            back@.len() == 0 ==> current == *to,
            back@.len() > 0 ==> back@[0] == *to && adjacent(current, back@.last()),
            forall|i: int| 0 <= i < back@.len() ==> !obstacles(level, boxes@).contains(#[trigger] back@[i]),
            forall|i: int| 0 < i < back@.len() ==> adjacent(#[trigger] back@[i], back@[i - 1]),
            whole == traced(
                level,
                *from,
                came@,
                current,
                (cost_at(level, cost@, *to) - back@.len()) as nat,
            ) + Seq::new(back@.len(), |i: int| back@[back@.len() - 1 - i]),
        decreases cost_at(level, cost@, current),
    {
        assert(tree_ok(level, boxes@, *from, cost@, came@, current));
        let ci = level.cell_index(current);
        let ghost before = back@;
        let ghost fuel = (cost_at(level, cost@, *to) - back@.len()) as nat;
        back.push(current);
        proof {
            let next = came@[ci as int];
            assert(tree_ok(level, boxes@, *from, cost@, came@, next));
            assert(fuel >= 1);
            assert(traced(level, *from, came@, current, fuel) == traced(
                level,
                *from,
                came@,
                next,
                (fuel - 1) as nat,
            ).push(current));
            assert(traced(level, *from, came@, next, (fuel - 1) as nat).push(current) + Seq::new(
                before.len(),
                |i: int| before[before.len() - 1 - i],
            ) =~= traced(level, *from, came@, next, (fuel - 1) as nat) + Seq::new(
                back@.len(),
                |i: int| back@[back@.len() - 1 - i],
            ));
        }
        current = came[ci];
    }
    let mut path: Vec<Position> = Vec::new();
    path.push(current);
    let mut i: usize = back.len();
    while i > 0
        invariant
            i <= back@.len(),
            path@.len() == back@.len() - i + 1,
            path@[0] == *from,
            forall|k: int| 1 <= k < path@.len() ==> #[trigger] path@[k] == back@[back@.len() - k],
        decreases i,
    {
        i = i - 1;
        path.push(back[i]);
    }
    proof {
        let n = back@.len() as int;
        assert forall|k: int| 0 < k < path@.len() implies adjacent(path@[k - 1], #[trigger] path@[k])
            && !obstacles(level, boxes@).contains(path@[k]) by {
            assert(path@[k] == back@[n - k]);
            if k == 1 {
                assert(back@[n - 1] == back@.last());
            } else {
                assert(path@[k - 1] == back@[n - k + 1]);
                assert(adjacent(back@[n - k + 1], back@[n - k]));
            }
        }
        if n > 0 {
            assert(path@[n] == back@[0]);
        }
        assert(path@ =~= seq![*from] + Seq::new(back@.len(), |i: int| back@[back@.len() - 1 - i]));
    }
    path
}

/// Finds a shortest walk from `from` to `to` around the walls of `level` and
/// the cells of `boxes`, by A* search with unit step cost and the Manhattan
/// distance as heuristic. Among the open entries of least priority the one
/// entered first is expanded first. The walk starts with `from` and ends with
/// `to`; `None` says that no walk exists.
pub fn find_path(from: &Position, to: &Position, level: &Level, boxes: &Vec<Position>) -> (r: Option<
    Vec<Position>,
>)
    requires
        level.shape_ok(),
        level.in_bounds(*from),
    ensures
        match r {
            Some(path) => shortest_walk(obstacles(level, boxes@), *from, *to, path@),
            None => !connected(obstacles(level, boxes@), *from, *to),
        },
        r is Some <==> connected(obstacles(level, boxes@), *from, *to),
        match r {
            Some(path) => a_star(level, boxes@, *from, *to) == Some(path@),
            None => a_star(level, boxes@, *from, *to) is None,
        },
{
    if !level.contains(*to) {
        proof {
            assert forall|walk: Seq<Position>|
                !walk_between(obstacles(level, boxes@), *from, *to, walk) by {
                if walk_between(obstacles(level, boxes@), *from, *to, walk) {
                    assert(walk.len() > 1);
                    assert(!obstacles(level, boxes@).contains(walk[walk.len() - 1]));
                    lemma_free_in_bounds(level, boxes@, *to);
                }
            }
        }
        return None;
    }
    let n = level.tiles.len();
    let mut cost: Vec<i64> = Vec::new();
    let mut came: Vec<Position> = Vec::new();
    let mut i: usize = 0;
    while i < n
        invariant
            i <= n,
            cost@.len() == i,
            came@.len() == i,
            forall|k: int| 0 <= k < i ==> cost@[k] == -1,
            forall|k: int| 0 <= k < i ==> came@[k] == *from,
        decreases n - i,
    {
        cost.push(-1);
        came.push(*from);
        i = i + 1;
    }
    let fi = level.cell_index(*from);
    let ghost blank = cost@;
    cost.set(fi, 0);
    let mut open: Vec<Node> = Vec::new();
    let h = manhattan_distance(from, to);
    open.push(Node { position: *from, priority: h });
    proof {
        lemma_all_unset(blank);
        lemma_update_measure(blank, fi as int, 0);
        assert forall|p: Position| level.in_bounds(p) implies cost_at(level, cost@, p) == (if p
            == *from {
            0int
        } else {
            -1int
        }) by {
            lemma_cost_update(level, blank, *from, 0, p);
        }
        assert(open@[0].position == *from);
        assert(open_exact(level, cost@, open@, *to, *from));
        assert(cost@ =~= begun(level, *from, *to).cost);
        assert(came@ =~= begun(level, *from, *to).came);
        assert(open@ =~= begun(level, *from, *to).open);
        assert forall|k: int| 0 <= k < cost@.len() implies -1 <= #[trigger] cost@[k] && (cost@[k]
            >= 0 ==> cost@[k] + unset_count(cost@) < cost@.len()) by {
            if k != fi {
                assert(cost@[k] == blank[k]);
            }
        }
    }
    while open.len() > 0
        invariant
            search_inv(level, boxes@, *from, *to, cost@, came@, open@, *from, 4),
            level.in_bounds(*to),
            pursued(level, boxes@, *from, *to, Search { cost: cost@, came: came@, open: open@ })
                == a_star(level, boxes@, *from, *to),
        decreases unset_count(cost@), cost_sum(cost@), open@.len(),
    {
        let ghost cost0 = cost@;
        let ghost open0 = open@;
        proof {
            lemma_pursued(
                level,
                boxes@,
                *from,
                *to,
                Search { cost: cost@, came: came@, open: open@ },
            );
        }
        let k = first_minimum(&open);
        proof {
            lemma_least(open0, k as int);
        }
        let node = open.remove(k);
        assert(entry_ok(level, cost0, *to, open0[k as int]));
        if node.position == *to {
            let path = build_path(level, boxes, from, to, &cost, &came);
            proof {
                assert forall|other: Seq<Position>| #[trigger]
                    walk_between(obstacles(level, boxes@), *from, *to, other) implies path@.len()
                    <= other.len() by {
                    let j = lemma_front(
                        level,
                        boxes@,
                        *from,
                        *to,
                        cost0,
                        came@,
                        open0,
                        *from,
                        other,
                        0,
                    );
                    assert(open0[k as int].priority <= open0[j].priority);
                }
            }
            return Some(path);
        }
        proof {
            lemma_pop(level, boxes@, *from, *to, cost0, came@, open0, *from, k as int);
        }
        expand_cell(level, boxes, from, to, node.position, &mut cost, &mut came, &mut open);
    }
    proof {
        assert forall|walk: Seq<Position>|
            !walk_between(obstacles(level, boxes@), *from, *to, walk) by {
            if walk_between(obstacles(level, boxes@), *from, *to, walk) {
                let j = lemma_front(level, boxes@, *from, *to, cost@, came@, open@, *from, walk, 0);
            }
        }
        lemma_pursued(level, boxes@, *from, *to, Search { cost: cost@, came: came@, open: open@ });
    }
    None
}

} // verus!
