//! What holds of the library as a whole: equality and hashing, normalized
//! states, and the successors of a state.

use crate::hashing::state_hash;
use crate::level::{lemma_sorted_unique, strictly_sorted, Level};
use crate::position::{Action, Position};
use crate::rules::{is_solution, lemma_replay_same_walls, opening};
use crate::solver::Solver;
use crate::state::{anchor_of, lemma_anchor_unique, State};
use crate::successors::{
    emitted, expected, lemma_successors_offspring, offspring, successor_of, successors_fit,
};
use crate::walk::{
    connected, lemma_connected_symmetric, lemma_connected_transitive, obstacles, walk_between,
};
use vstd::prelude::*;
use vstd::std_specs::cmp::PartialEqSpec;

verus! {

/// Two states with the player on the same cell and the boxes on the same
/// cells are equal and have the same hash, whatever their actions and
/// their priorities are.
pub proof fn equal_placements_equal_states(s: &State, t: &State)
    requires
        strictly_sorted(s.box_positions@),
        strictly_sorted(t.box_positions@),
        s.player_position == t.player_position,
        s.box_positions@.to_set() == t.box_positions@.to_set(),
    ensures
        s.eq_spec(t),
        state_hash(s.player_position, s.box_positions@) == state_hash(
            t.player_position,
            t.box_positions@,
        ),
{
    lemma_sorted_unique(s.box_positions@, t.box_positions@);
}

/// A cell connected to a cell that is not blocked is not blocked either.
pub proof fn lemma_connected_free(blocked: Set<Position>, a: Position, b: Position)
    requires
        connected(blocked, a, b),
        !blocked.contains(a),
    ensures
        !blocked.contains(b),
{
    let path = choose|path: Seq<Position>| walk_between(blocked, a, b, path);
    if path.len() > 1 {
        assert(!blocked.contains(path[path.len() - 1]));
    }
}

/// Two cells of one region have the same anchor: where the player can walk
/// from `p` to `q`, the anchor of the region of `p` is the anchor of the
/// region of `q`.
pub proof fn one_region_one_anchor(
    blocked: Set<Position>,
    p: Position,
    q: Position,
    a: Position,
    b: Position,
)
    requires
        !blocked.contains(p),
        connected(blocked, p, q),
        anchor_of(blocked, p, a),
        anchor_of(blocked, q, b),
    ensures
        a == b,
{
    lemma_connected_free(blocked, p, q);
    lemma_connected_symmetric(blocked, p, q);
    assert forall|c: Position| connected(blocked, p, c) <==> connected(blocked, q, c) by {
        if connected(blocked, p, c) {
            lemma_connected_transitive(blocked, q, p, c);
        }
        if connected(blocked, q, c) {
            lemma_connected_transitive(blocked, p, q, c);
        }
    }
    assert(anchor_of(blocked, p, b));
    lemma_anchor_unique(blocked, p, a, b);
}

/// Whether `n` has the cells of the normalized form of `s`: the boxes of
/// `s`, and the player on the anchor of the player's region in `s`.
pub open spec fn normalizes(level: &Level, s: &State, n: &State) -> bool {
    &&& n.box_positions@ == s.box_positions@
    &&& anchor_of(obstacles(level, s.box_positions@), s.player_position, n.player_position)
}

/// Normalizing is idempotent: the normalized form of a normalized form of a
/// state equals that normalized form.
pub proof fn normalized_twice(level: &Level, s: &State, n: &State, m: &State)
    requires
        !obstacles(level, s.box_positions@).contains(s.player_position),
        normalizes(level, s, n),
        normalizes(level, n, m),
    ensures
        m.eq_spec(n),
{
    let blocked = obstacles(level, s.box_positions@);
    one_region_one_anchor(blocked, s.player_position, n.player_position, n.player_position, m.player_position);
}

/// Two states that differ only in where the player stands within one
/// region have equal normalized forms.
pub proof fn one_region_one_normalized_form(level: &Level, s: &State, t: &State, n: &State, m: &State)
    requires
        s.box_positions@ == t.box_positions@,
        !obstacles(level, s.box_positions@).contains(s.player_position),
        connected(obstacles(level, s.box_positions@), s.player_position, t.player_position),
        normalizes(level, s, n),
        normalizes(level, t, m),
    ensures
        n.eq_spec(m),
{
    let blocked = obstacles(level, s.box_positions@);
    one_region_one_anchor(blocked, s.player_position, t.player_position, n.player_position, m.player_position);
}

/// Every successor of a state comes from it by one walk of the player around
/// the walls and the boxes and then one or more pushes of one box in one
/// direction, all allowed by the rules, and is a well-formed state.
pub proof fn successors_are_legal(solver: &Solver, s: &State, list: Seq<State>, i: int)
    requires
        successors_fit(solver, s, list),
        0 <= i < list.len(),
    ensures
        successor_of(&solver.level, s, &list[i]),
        list[i].wf(solver),
{
    lemma_successors_offspring(solver, s, list);
    assert(offspring(&solver.level, &solver.lower_bounds, s, &list[i]));
    reveal(offspring);
}

/// The successors of a state are determined: two lists of successors of
/// one state agree in their number and, place by place, in the player's
/// cell, the boxes, the actions, the lower bound and the priority.
pub proof fn successors_are_determined(solver: &Solver, s: &State, a: Seq<State>, b: Seq<State>, i: int)
    requires
        successors_fit(solver, s, a),
        successors_fit(solver, s, b),
        0 <= i < a.len(),
    ensures
        a.len() == b.len(),
        a[i].player_position == b[i].player_position,
        a[i].box_positions@ == b[i].box_positions@,
        a[i].movements@ == b[i].movements@,
        a[i].movements.pushes == b[i].movements.pushes,
        a[i].lower_bound == b[i].lower_bound,
        a[i].heuristic == b[i].heuristic,
{
    reveal(successors_fit);
    let all = expected(
        solver,
        s.player_position,
        s.box_positions@,
        s.movements@,
        4 * s.box_positions@.len(),
    );
    assert(emitted(solver, s, &a[i], all[i]));
    assert(emitted(solver, s, &b[i], all[i]));
}

/// What solves a level depends on its walls, its targets and its opening
/// alone: two levels that agree in these, as a level and the level of its
/// solver do, have the same solutions.
pub proof fn same_walls_same_solutions(a: &Level, b: &Level, actions: Seq<Action>)
    requires
        forall|p: Position| a.is_wall(p) == b.is_wall(p),
        a.player_position == b.player_position,
        a.box_positions@ == b.box_positions@,
        a.target_positions@ == b.target_positions@,
    ensures
        is_solution(a, actions) == is_solution(b, actions),
{
    lemma_replay_same_walls(a, b, opening(a), actions);
}

} // verus!
