//! Levels and solvers that are alike: what the search makes of a level
//! depends on what its cells hold, not on the level at hand.

use crate::bounds::LowerBounds;
use crate::deadlock::{
    axis_blocked, frozen, lemma_unvisited_insert, lemma_unvisited_mono, unvisited, Verdict,
};
use crate::level::Level;
use crate::path_finding::{
    a_star, begun, cost_at, cost_sum, entry_ok, expanded, is_set, least, lemma_expanded,
    lemma_pursued, open_exact, pursued, relaxed, relaxed_upto, search_inv, traced, tree_ok,
    unset_count, Search,
};
use crate::position::{Action, Direction, Position};
use crate::solver::Solver;
use crate::state::{all_entered, entries_sum, lower_bound_of};
use crate::bounds::{entries_fit, entry_fits, table_fits, table_is_determined};
use crate::path_finding::{lemma_cost_update, lemma_all_unset, lemma_update_measure};
use crate::position::manhattan;
use crate::successors::{candidate, chain_end, expected, room};
use crate::walk::obstacles;
use vstd::prelude::*;

verus! {

/// Whether two levels are alike: they have the same dimensions, every cell
/// has the same tile in both, and the player, the boxes and the targets are
/// the same.
pub open spec fn levels_alike(a: &Level, b: &Level) -> bool {
    &&& a.shape_ok()
    &&& b.shape_ok()
    &&& a.width == b.width
    &&& a.height == b.height
    &&& forall|p: Position| #[trigger] a.tile(p) == b.tile(p)
    &&& a.player_position == b.player_position
    &&& a.box_positions@ == b.box_positions@
    &&& a.target_positions@ == b.target_positions@
}

/// Whether two tables have the same entry for every cell.
pub open spec fn tables_alike(a: &LowerBounds, b: &LowerBounds) -> bool {
    forall|p: Position| #[trigger] a.at(p) == b.at(p)
}

/// Whether two solvers have levels and tables that are alike, and the same
/// strategy.
pub open spec fn contexts_alike(a: &Solver, b: &Solver) -> bool {
    &&& levels_alike(&a.level, &b.level)
    &&& tables_alike(&a.lower_bounds, &b.lower_bounds)
    &&& a.strategy == b.strategy
}

/// Levels that are alike have the same obstacles.
pub proof fn lemma_obstacles_alike(a: &Level, b: &Level, boxes: Seq<Position>)
    requires
        levels_alike(a, b),
    ensures
        obstacles(a, boxes) == obstacles(b, boxes),
        forall|p: Position| a.is_wall(p) == b.is_wall(p),
        a.tiles@.len() == b.tiles@.len(),
{
    assert forall|p: Position| a.is_wall(p) == b.is_wall(p) by {
        assert(a.tile(p) == b.tile(p));
    }
    assert(obstacles(a, boxes) =~= obstacles(b, boxes));
}

/// A freeze verdict depends on the walls alone.
pub proof fn lemma_frozen_alike(
    a: &Level,
    b: &Level,
    boxes: Seq<Position>,
    p: Position,
    visited: Set<Position>,
    firm: Set<Position>,
)
    requires
        forall|q: Position| a.is_wall(q) == b.is_wall(q),
    ensures
        frozen(a, boxes, p, visited, firm) == frozen(b, boxes, p, visited, firm),
    decreases unvisited(boxes, visited), 0nat,
{
    if !visited.contains(p) && boxes.contains(p) {
        let seen = visited.insert(p);
        lemma_unvisited_insert(boxes, visited, p);
        lemma_axis_alike(a, b, boxes, p, Direction::Up, Direction::Down, seen, firm.insert(p));
        let v = axis_blocked(a, boxes, p, Direction::Up, Direction::Down, seen, firm.insert(p));
        if v.frozen {
            lemma_unvisited_mono(boxes, seen, v.visited.union(seen));
            lemma_axis_alike(
                a,
                b,
                boxes,
                p,
                Direction::Left,
                Direction::Right,
                v.visited.union(seen),
                v.firm,
            );
        }
    }
}

/// The verdict on an axis depends on the walls alone.
pub proof fn lemma_axis_alike(
    a: &Level,
    b: &Level,
    boxes: Seq<Position>,
    p: Position,
    d0: Direction,
    d1: Direction,
    seen: Set<Position>,
    firm: Set<Position>,
)
    requires
        forall|q: Position| a.is_wall(q) == b.is_wall(q),
    ensures
        axis_blocked(a, boxes, p, d0, d1, seen, firm) == axis_blocked(
            b,
            boxes,
            p,
            d0,
            d1,
            seen,
            firm,
        ),
    decreases unvisited(boxes, seen), 1nat,
{
    let n0 = p.step(d0);
    let n1 = p.step(d1);
    if !(a.is_wall(n0) || a.is_wall(n1)) {
        if boxes.contains(n0) {
            lemma_frozen_alike(a, b, boxes, n0, seen, firm);
        }
        let first = if boxes.contains(n0) {
            frozen(a, boxes, n0, seen, firm)
        } else {
            Verdict { frozen: false, visited: seen, firm, clean: false }
        };
        if !first.frozen && boxes.contains(n1) {
            lemma_unvisited_mono(boxes, seen, first.visited.union(seen));
            lemma_frozen_alike(a, b, boxes, n1, first.visited.union(seen), firm);
        }
    }
}

/// Tables that are alike give the same lower bound.
pub proof fn lemma_bound_alike(a: &LowerBounds, b: &LowerBounds, boxes: Seq<Position>)
    requires
        tables_alike(a, b),
    ensures
        entries_sum(a, boxes) == entries_sum(b, boxes),
        all_entered(a, boxes) == all_entered(b, boxes),
        lower_bound_of(a, boxes) == lower_bound_of(b, boxes),
    decreases boxes.len(),
{
    if boxes.len() > 0 {
        lemma_bound_alike(a, b, boxes.drop_last());
        assert(a.at(boxes.last()) == b.at(boxes.last()));
    }
    if all_entered(a, boxes) {
        assert forall|i: int| 0 <= i < boxes.len() implies b.at(#[trigger] boxes[i]) is Some by {
            assert(a.at(boxes[i]) == b.at(boxes[i]));
        }
    }
    if all_entered(b, boxes) {
        assert forall|i: int| 0 <= i < boxes.len() implies a.at(#[trigger] boxes[i]) is Some by {
            assert(a.at(boxes[i]) == b.at(boxes[i]));
        }
    }
}

/// The invariant of a search holds on a level where it holds on a level
/// that is alike.
pub proof fn lemma_inv_alike(
    a: &Level,
    b: &Level,
    boxes: Seq<Position>,
    from: Position,
    to: Position,
    s: Search,
)
    requires
        levels_alike(a, b),
        search_inv(a, boxes, from, to, s.cost, s.came, s.open, from, 4),
    ensures
        search_inv(b, boxes, from, to, s.cost, s.came, s.open, from, 4),
{
    lemma_obstacles_alike(a, b, boxes);
    assert forall|p: Position| #[trigger] is_set(b, s.cost, p) implies tree_ok(
        b,
        boxes,
        from,
        s.cost,
        s.came,
        p,
    ) by {
        assert(is_set(a, s.cost, p));
        assert(tree_ok(a, boxes, from, s.cost, s.came, p));
    }
    assert forall|k: int| 0 <= k < s.open.len() implies entry_ok(b, s.cost, to, #[trigger] s.open[k]) by {
        assert(entry_ok(a, s.cost, to, s.open[k]));
    }
    assert forall|p: Position| #[trigger] is_set(b, s.cost, p) implies open_exact(
        b,
        s.cost,
        s.open,
        to,
        p,
    ) || relaxed_upto(b, boxes, s.cost, p, 4) by {
        assert(is_set(a, s.cost, p));
        if open_exact(a, s.cost, s.open, to, p) {
            let k = choose|k: int|
                0 <= k < s.open.len() && (#[trigger] s.open[k]).position == p
                    && s.open[k].priority == cost_at(a, s.cost, p) + crate::position::manhattan(
                    p,
                    to,
                );
            assert(s.open[k].priority == cost_at(b, s.cost, p) + crate::position::manhattan(p, to));
        } else {
            assert(relaxed_upto(a, boxes, s.cost, p, 4));
        }
    }
    if is_set(b, s.cost, to) {
        assert(is_set(a, s.cost, to));
        let k = choose|k: int|
            0 <= k < s.open.len() && (#[trigger] s.open[k]).position == to && s.open[k].priority
                == cost_at(a, s.cost, to) + crate::position::manhattan(to, to);
        assert(s.open[k].priority == cost_at(b, s.cost, to) + crate::position::manhattan(to, to));
    }
}

/// Relaxing an edge gives the same on levels that are alike.
pub proof fn lemma_relaxed_alike(
    a: &Level,
    b: &Level,
    boxes: Seq<Position>,
    to: Position,
    node: Position,
    d: Direction,
    s: Search,
)
    requires
        levels_alike(a, b),
    ensures
        relaxed(a, boxes, to, node, d, s) == relaxed(b, boxes, to, node, d, s),
{
    reveal(relaxed);
    lemma_obstacles_alike(a, b, boxes);
}

/// Expanding a cell gives the same on levels that are alike.
pub proof fn lemma_expanded_alike(
    a: &Level,
    b: &Level,
    boxes: Seq<Position>,
    to: Position,
    node: Position,
    s: Search,
)
    requires
        levels_alike(a, b),
    ensures
        expanded(a, boxes, to, node, s) == expanded(b, boxes, to, node, s),
{
    let s1 = relaxed(a, boxes, to, node, Direction::Up, s);
    let s2 = relaxed(a, boxes, to, node, Direction::Down, s1);
    let s3 = relaxed(a, boxes, to, node, Direction::Left, s2);
    lemma_relaxed_alike(a, b, boxes, to, node, Direction::Up, s);
    lemma_relaxed_alike(a, b, boxes, to, node, Direction::Down, s1);
    lemma_relaxed_alike(a, b, boxes, to, node, Direction::Left, s2);
    lemma_relaxed_alike(a, b, boxes, to, node, Direction::Right, s3);
}

/// Tracing the predecessors gives the same on levels of the same width.
pub proof fn lemma_traced_alike(
    a: &Level,
    b: &Level,
    from: Position,
    came: Seq<Position>,
    cur: Position,
    fuel: nat,
)
    requires
        a.width == b.width,
    ensures
        traced(a, from, came, cur, fuel) == traced(b, from, came, cur, fuel),
    decreases fuel,
{
    if cur != from && fuel > 0 {
        lemma_traced_alike(a, b, from, came, came[a.index_of(cur)], (fuel - 1) as nat);
    }
}

/// A search goes the same way on levels that are alike.
pub proof fn lemma_pursued_alike(
    a: &Level,
    b: &Level,
    boxes: Seq<Position>,
    from: Position,
    to: Position,
    s: Search,
)
    requires
        levels_alike(a, b),
        search_inv(a, boxes, from, to, s.cost, s.came, s.open, from, 4),
    ensures
        pursued(a, boxes, from, to, s) == pursued(b, boxes, from, to, s),
    decreases unset_count(s.cost), cost_sum(s.cost), s.open.len(),
{
    lemma_inv_alike(a, b, boxes, from, to, s);
    lemma_pursued(a, boxes, from, to, s);
    lemma_pursued(b, boxes, from, to, s);
    if s.open.len() > 0 {
        let k = least(s.open);
        let node = s.open[k].position;
        if node == to {
            lemma_traced_alike(a, b, from, s.came, to, cost_at(a, s.cost, to) as nat);
        } else {
            let rest = Search { cost: s.cost, came: s.came, open: s.open.remove(k) };
            lemma_expanded(a, boxes, from, to, s);
            lemma_expanded_alike(a, b, boxes, to, node, rest);
            lemma_pursued_alike(a, b, boxes, from, to, expanded(a, boxes, to, node, rest));
        }
    }
}

/// The invariant of a search holds where the search begins.
pub proof fn lemma_begun(level: &Level, boxes: Seq<Position>, from: Position, to: Position)
    requires
        level.shape_ok(),
        level.in_bounds(from),
        level.in_bounds(to),
    ensures
        search_inv(
            level,
            boxes,
            from,
            to,
            begun(level, from, to).cost,
            begun(level, from, to).came,
            begun(level, from, to).open,
            from,
            4,
        ),
{
    let s = begun(level, from, to);
    let blank = Seq::new(level.tiles@.len(), |i: int| -1i64);
    let fi = level.index_of(from);
    lemma_cost_update(level, blank, from, 0, from);
    lemma_all_unset(blank);
    lemma_update_measure(blank, fi, 0);
    assert forall|p: Position| level.in_bounds(p) implies cost_at(level, s.cost, p) == (if p == from {
        0int
    } else {
        -1int
    }) by {
        lemma_cost_update(level, blank, from, 0, p);
    }
    assert(s.open[0].position == from);
    assert(open_exact(level, s.cost, s.open, to, from));
    assert forall|k: int| 0 <= k < s.cost.len() implies -1 <= #[trigger] s.cost[k] && (s.cost[k] >= 0
        ==> s.cost[k] + unset_count(s.cost) < s.cost.len()) by {
        if k != fi {
            assert(s.cost[k] == blank[k]);
        }
    }
    assert forall|k: int| 0 <= k < s.open.len() implies entry_ok(level, s.cost, to, #[trigger] s.open[k]) by {
        assert(0 <= manhattan(from, to) <= 2 * 0x1_0000_0000);
    }
}

/// The walk that is found is the same on levels that are alike.
pub proof fn lemma_a_star_alike(
    a: &Level,
    b: &Level,
    boxes: Seq<Position>,
    from: Position,
    to: Position,
)
    requires
        levels_alike(a, b),
        a.in_bounds(from),
    ensures
        a_star(a, boxes, from, to) == a_star(b, boxes, from, to),
{
    if a.in_bounds(to) {
        lemma_obstacles_alike(a, b, boxes);
        lemma_begun(a, boxes, from, to);
        assert(begun(a, from, to).cost =~= begun(b, from, to).cost);
        assert(begun(a, from, to).came =~= begun(b, from, to).came);
        assert(begun(a, from, to) == begun(b, from, to));
        lemma_pursued_alike(a, b, boxes, from, to, begun(a, from, to));
    }
}

/// Where a pushed box comes to rest is the same for solvers that are alike.
pub proof fn lemma_chain_alike(a: &Solver, b: &Solver, boxes: Seq<Position>, d: Direction, p: Position)
    requires
        contexts_alike(a, b),
    ensures
        chain_end(a, boxes, d, p) == chain_end(b, boxes, d, p),
    decreases room(&a.level, p, d),
{
    lemma_obstacles_alike(&a.level, &b.level, boxes);
    let behind = p.step(d.opposite());
    assert(a.level.tile(behind) == b.level.tile(behind));
    assert(a.lower_bounds.at(p.step(d)) == b.lower_bounds.at(p.step(d)));
    if a.level.in_bounds(p) && crate::solver::in_tunnel(&a.level, behind, d)
        && !crate::state::blocks_crate(a, boxes, p.step(d)) {
        lemma_chain_alike(a, b, boxes, d, p.step(d));
    }
}

/// What a push leads to is the same for solvers that are alike.
pub proof fn lemma_candidate_alike(
    a: &Solver,
    b: &Solver,
    player: Position,
    boxes: Seq<Position>,
    done: Seq<Action>,
    i: int,
    d: Direction,
)
    requires
        contexts_alike(a, b),
        a.level.in_bounds(player),
    ensures
        candidate(a, player, boxes, done, i, d) == candidate(b, player, boxes, done, i, d),
{
    reveal(candidate);
    let box_cell = boxes[i];
    let stand = box_cell.step(d.opposite());
    let first = box_cell.step(d);
    lemma_obstacles_alike(&a.level, &b.level, boxes);
    assert(a.lower_bounds.at(first) == b.lower_bounds.at(first));
    lemma_chain_alike(a, b, boxes, d, first);
    lemma_a_star_alike(&a.level, &b.level, boxes, player, stand);
    let end = chain_end(a, boxes, d, first);
    let moved = crate::successors::with_box_moved(boxes, i, end);
    assert(a.level.tile(end) == b.level.tile(end));
    lemma_frozen_alike(&a.level, &b.level, moved, end, Set::empty(), Set::empty());
    lemma_bound_alike(&a.lower_bounds, &b.lower_bounds, moved);
}

/// The pushes made from a state are the same for solvers that are alike.
pub proof fn lemma_expected_alike(
    a: &Solver,
    b: &Solver,
    player: Position,
    boxes: Seq<Position>,
    done: Seq<Action>,
    n: nat,
)
    requires
        contexts_alike(a, b),
        a.level.in_bounds(player),
    ensures
        expected(a, player, boxes, done, n) == expected(b, player, boxes, done, n),
    decreases n,
{
    if n > 0 {
        lemma_expected_alike(a, b, player, boxes, done, (n - 1) as nat);
        lemma_candidate_alike(a, b, player, boxes, done, (n - 1) / 4, Direction::all()[(n - 1) % 4]);
    }
}

/// The table of a level is the table of every level that is alike.
pub proof fn lemma_table_fits_alike(a: &Level, b: &Level, table: &LowerBounds)
    requires
        levels_alike(a, b),
        table_fits(a, table),
    ensures
        table_fits(b, table),
{
    reveal(entries_fit);
    lemma_obstacles_alike(a, b, Seq::empty());
    assert(a.walls() =~= b.walls());
    assert forall|p: Position| entry_fits(b, p, #[trigger] table.at(p)) by {
        assert(entry_fits(a, p, table.at(p)));
        assert(a.tile(p) == b.tile(p));
    }
}

/// Two solvers whose levels are alike, with the same strategy, are alike
/// in their tables too: the table is determined by the level.
pub proof fn solvers_of_like_levels(a: &Solver, b: &Solver)
    requires
        a.context_ok(),
        b.context_ok(),
        levels_alike(&a.level, &b.level),
        a.strategy == b.strategy,
    ensures
        contexts_alike(a, b),
{
    lemma_table_fits_alike(&a.level, &b.level, &a.lower_bounds);
    assert forall|p: Position| #[trigger] a.lower_bounds.at(p) == b.lower_bounds.at(p) by {
        table_is_determined(&b.level, &a.lower_bounds, &b.lower_bounds, p);
    }
}

} // verus!
