//! A node of the search: where the player and the boxes stand, and the
//! actions that led there.

use crate::actions::{count_pushes, lemma_count_bound, Actions};
use crate::area::{area_anchor, flood_fill};
use crate::bounds::LowerBounds;
use crate::hashing::{hash_state, state_hash};
use crate::level::{copy_list, same_list, strictly_sorted, Level};
use crate::position::Position;
use crate::rules::Placement;
use crate::solver::{Solver, Strategy};
use crate::successors::is_crate_blocked;
use crate::walk::{connected, is_obstacle, lemma_connected_reflexive, obstacles};
use vstd::prelude::*;

verus! {

/// The counts of a state, and its lower bound, stay below this limit.
pub const LIMIT: usize = 10_000;

/// A search node.
#[derive(Clone, Debug)]
pub struct State {
    pub player_position: Position,
    pub box_positions: Vec<Position>,
    pub movements: Actions,
    pub heuristic: u64,
    pub lower_bound: usize,
}

/// The sum of the table's entries for the boxes that have one.
pub open spec fn entries_sum(table: &LowerBounds, boxes: Seq<Position>) -> nat
    decreases boxes.len(),
{
    if boxes.len() == 0 {
        0
    } else {
        entries_sum(table, boxes.drop_last()) + match table.at(boxes.last()) {
            Some(n) => n as nat,
            None => 0nat,
        }
    }
}

/// Whether the table has an entry for every box.
pub open spec fn all_entered(table: &LowerBounds, boxes: Seq<Position>) -> bool {
    forall|i: int| 0 <= i < boxes.len() ==> table.at(#[trigger] boxes[i]) is Some
}

/// The lower bound of a set of boxes: the sum of their entries in the table,
/// or 9999 where a box stands on a cell without an entry.
pub open spec fn lower_bound_of(table: &LowerBounds, boxes: Seq<Position>) -> nat {
    if all_entered(table, boxes) {
        entries_sum(table, boxes)
    } else {
        9999
    }
}

/// The priority of a state under a strategy; the search prefers small values.
pub open spec fn heuristic_of(strategy: Strategy, lower_bound: nat, moves: nat, pushes: nat) -> nat {
    match strategy {
        Strategy::Fast => lower_bound * 10_000 + moves,
        Strategy::Mixed => lower_bound + moves,
        Strategy::OptimalMovePush => moves * 100_000_000 + pushes * 10_000 + lower_bound,
        Strategy::OptimalPushMove => pushes * 100_000_000 + moves * 10_000 + lower_bound,
    }
}

/// Whether `a` is the anchor of the region of `start`: the cell that comes
/// first in row-major order among those connected to `start`.
pub open spec fn anchor_of(blocked: Set<Position>, start: Position, a: Position) -> bool {
    &&& connected(blocked, start, a)
    &&& forall|q: Position| #[trigger] connected(blocked, start, q) ==> !q.before(a)
}

impl PartialEq for State {
    /// Two states are equal when the player stands on the same cell and the
    /// boxes stand on the same cells, whatever led there.
    fn eq(&self, other: &Self) -> (r: bool) {
        self.player_position == other.player_position && same_list(
            &self.box_positions,
            &other.box_positions,
        )
    }
}

impl vstd::std_specs::cmp::PartialEqSpecImpl for State {
    open spec fn obeys_eq_spec() -> bool {
        true
    }

    open spec fn eq_spec(&self, other: &Self) -> bool {
        self.player_position == other.player_position && self.box_positions@
            == other.box_positions@
    }
}

impl State {
    /// Where the player and the boxes stand.
    pub open spec fn placement(&self) -> Placement {
        Placement { player: self.player_position, boxes: self.box_positions@.to_set() }
    }

    /// The invariant of a search node on a level with its lower-bound table:
    /// the boxes are listed in row-major order, each in the grid and off the
    /// walls; the player stands in the grid, off the walls and off the
    /// boxes; the counts and the lower bound stay below the limit; and the
    /// stored lower bound is that of the boxes.
    pub open spec fn wf_in(&self, level: &Level, table: &LowerBounds) -> bool {
        &&& strictly_sorted(self.box_positions@)
        &&& forall|i: int|
            0 <= i < self.box_positions@.len() ==> level.in_bounds(
                #[trigger] self.box_positions@[i],
            ) && !level.is_wall(self.box_positions@[i])
        &&& level.in_bounds(self.player_position)
        &&& !obstacles(level, self.box_positions@).contains(self.player_position)
        &&& self.movements.wf()
        &&& self.movements@.len() < LIMIT
        &&& self.lower_bound == lower_bound_of(table, self.box_positions@)
        &&& self.lower_bound < LIMIT
    }

    /// The invariant of a search node of a solver.
    pub open spec fn wf(&self, solver: &Solver) -> bool {
        self.wf_in(&solver.level, &solver.lower_bounds)
    }

    /// The lower bound of `boxes`, cut off at the limit.
    pub fn calculate_lower_bound(boxes: &Vec<Position>, solver: &Solver) -> (r: usize)
        requires
            solver.lower_bounds.shape_ok(),
        ensures
            r == (if lower_bound_of(&solver.lower_bounds, boxes@) <= LIMIT {
                lower_bound_of(&solver.lower_bounds, boxes@)
            } else {
                LIMIT as nat
            }),
    {
        let table = solver.lower_bounds();
        let mut sum: usize = 0;
        let mut i: usize = 0;
        while i < boxes.len()
            invariant
                i <= boxes@.len(),
                *table == solver.lower_bounds,
                table.shape_ok(),
                all_entered(table, boxes@.subrange(0, i as int)),
                sum == (if entries_sum(table, boxes@.subrange(0, i as int)) <= LIMIT {
                    entries_sum(table, boxes@.subrange(0, i as int))
                } else {
                    LIMIT as nat
                }),
            decreases boxes@.len() - i,
        {
            let ghost next = boxes@.subrange(0, i + 1);
            proof {
                assert(next.drop_last() =~= boxes@.subrange(0, i as int));
                assert(next.last() == boxes@[i as int]);
            }
            match table.get(&boxes[i]) {
                Some(n) => {
                    if n >= LIMIT - sum {
                        sum = LIMIT;
                    } else {
                        sum = sum + n;
                    }
                    proof {
                        assert forall|j: int| 0 <= j < next.len() implies table.at(
                            #[trigger] next[j],
                        ) is Some by {
                            if j < i {
                                assert(next[j] == boxes@.subrange(0, i as int)[j]);
                            }
                        }
                    }
                },
                None => {
                    assert(table.at(boxes@[i as int]) is None);
                    return LIMIT - 1;
                },
            }
            i = i + 1;
        }
        assert(boxes@.subrange(0, i as int) =~= boxes@);
        sum
    }

    /// Builds a search node from where the player and the boxes stand and
    /// the actions that led there, with its lower bound and its priority
    /// under the solver's strategy.
    pub fn new(
        player_position: Position,
        crate_positions: Vec<Position>,
        movements: Actions,
        solver: &Solver,
    ) -> (r: State)
        requires
            solver.lower_bounds.shape_ok(),
            movements.wf(),
            movements@.len() < LIMIT,
            lower_bound_of(&solver.lower_bounds, crate_positions@) < LIMIT,
        ensures
            r.player_position == player_position,
            r.box_positions@ == crate_positions@,
            r.movements@ == movements@,
            r.movements.wf(),
            r.lower_bound == lower_bound_of(&solver.lower_bounds, crate_positions@),
            r.heuristic == heuristic_of(
                solver.strategy,
                r.lower_bound as nat,
                movements@.len(),
                count_pushes(movements@),
            ),
    {
        let lower_bound = State::calculate_lower_bound(&crate_positions, solver);
        let moves = movements.moves() as u64;
        let pushes = movements.pushes() as u64;
        let bound = lower_bound as u64;
        proof {
            lemma_count_bound(movements@);
        }
        let heuristic: u64 = match solver.strategy() {
            Strategy::Fast => bound * 10_000 + moves,
            Strategy::Mixed => bound + moves,
            Strategy::OptimalMovePush => moves * 100_000_000 + pushes * 10_000 + bound,
            Strategy::OptimalPushMove => pushes * 100_000_000 + moves * 10_000 + bound,
        };
        State {
            player_position,
            box_positions: crate_positions,
            movements,
            heuristic,
            lower_bound,
        }
    }

    /// Whether the state is solved: its lower bound is zero.
    pub fn is_solved(&self, solver: &Solver) -> (b: bool)
        ensures
            b == (self.lower_bound == 0),
    {
        self.lower_bound(solver) == 0
    }

    /// The priority of the state; the search prefers small values.
    pub fn heuristic(&self) -> (h: u64)
        ensures
            h == self.heuristic,
    {
        self.heuristic
    }

    /// The lower bound on the pushes that the state still needs.
    pub fn lower_bound(&self, solver: &Solver) -> (n: usize)
        ensures
            n == self.lower_bound,
    {
        self.lower_bound
    }

    /// The hash of the state: that of the player's cell and the boxes.
    pub fn hash(&self) -> (h: u64)
        ensures
            h == state_hash(self.player_position, self.box_positions@),
    {
        hash_state(self.player_position, &self.box_positions)
    }

    /// Whether `position` stops the player: a wall or a box stands there.
    pub fn can_block_player(&self, position: Position, solver: &Solver) -> (b: bool)
        requires
            solver.level.shape_ok(),
        ensures
            b == obstacles(&solver.level, self.box_positions@).contains(position),
    {
        is_obstacle(&solver.level, &self.box_positions, position)
    }

    /// Whether `position` stops a box: a wall or a box stands there, or the
    /// lower-bound table has no entry for it.
    pub fn can_block_crate(&self, position: Position, solver: &Solver) -> (b: bool)
        requires
            solver.level.shape_ok(),
            solver.lower_bounds.shape_ok(),
        ensures
            b == blocks_crate(solver, self.box_positions@, position),
    {
        is_crate_blocked(solver, &self.box_positions, position)
    }

    /// The cells that the player can reach, each once, in no particular order.
    pub fn player_reachable_area(&self, solver: &Solver) -> (area: Vec<Position>)
        requires
            solver.level.shape_ok(),
            solver.level.in_bounds(self.player_position),
        ensures
            area@.no_duplicates(),
            forall|p: Position| #[trigger]
                area@.contains(p) <==> connected(
                    obstacles(&solver.level, self.box_positions@),
                    self.player_position,
                    p,
                ),
    {
        flood_fill(&solver.level, &self.box_positions, self.player_position)
    }

    /// The anchor of the player's region: the cell that the player can reach
    /// and that comes first in row-major order.
    pub fn normalized_player_position(&self, solver: &Solver) -> (a: Position)
        requires
            solver.level.shape_ok(),
            solver.level.in_bounds(self.player_position),
        ensures
            anchor_of(
                obstacles(&solver.level, self.box_positions@),
                self.player_position,
                a,
            ),
    {
        let area = self.player_reachable_area(solver);
        proof {
            lemma_connected_reflexive(
                obstacles(&solver.level, self.box_positions@),
                self.player_position,
            );
            assert(area@.contains(self.player_position));
        }
        match area_anchor(&area) {
            Some(a) => {
                proof {
                    let blocked = obstacles(&solver.level, self.box_positions@);
                    assert(area@.contains(a));
                    assert forall|q: Position| #[trigger]
                        connected(blocked, self.player_position, q) implies !q.before(a) by {
                        assert(area@.contains(q));
                    }
                }
                a
            },
            None => self.player_position,
        }
    }

    /// The state with the player moved to the anchor of the player's region.
    pub fn normalized(&self, solver: &Solver) -> (r: State)
        requires
            solver.level.shape_ok(),
            solver.level.in_bounds(self.player_position),
            self.movements.wf(),
        ensures
            anchor_of(
                obstacles(&solver.level, self.box_positions@),
                self.player_position,
                r.player_position,
            ),
            r.box_positions@ == self.box_positions@,
            r.movements@ == self.movements@,
            r.movements.wf(),
            r.heuristic == self.heuristic,
            r.lower_bound == self.lower_bound,
    {
        State {
            player_position: self.normalized_player_position(solver),
            box_positions: copy_list(&self.box_positions),
            movements: self.movements.duplicate(),
            heuristic: self.heuristic,
            lower_bound: self.lower_bound,
        }
    }

    /// The hash of the normalized state.
    pub fn normalized_hash(&self, solver: &Solver) -> (h: u64)
        requires
            solver.level.shape_ok(),
            solver.level.in_bounds(self.player_position),
        ensures
            exists|a: Position|
                #[trigger] anchor_of(
                    obstacles(&solver.level, self.box_positions@),
                    self.player_position,
                    a,
                ) && h == state_hash(a, self.box_positions@),
    {
        let a = self.normalized_player_position(solver);
        hash_state(a, &self.box_positions)
    }
}

/// Whether a box cannot be pushed onto `p`: a wall or a box stands there, or
/// the lower-bound table has no entry for it.
pub open spec fn blocks_crate(solver: &Solver, boxes: Seq<Position>, p: Position) -> bool {
    solver.level.is_wall(p) || solver.lower_bounds.at(p) is None || boxes.contains(p)
}

/// A region has one anchor.
pub proof fn lemma_anchor_unique(blocked: Set<Position>, start: Position, a: Position, b: Position)
    requires
        anchor_of(blocked, start, a),
        anchor_of(blocked, start, b),
    ensures
        a == b,
{
    assert(!a.before(b));
    assert(!b.before(a));
}

/// A list of boxes whose lower bound is zero holds targets only.
pub proof fn lemma_zero_bound_solved(level: &Level, table: &LowerBounds, boxes: Seq<Position>)
    requires
        crate::bounds::table_fits(level, table),
        lower_bound_of(table, boxes) == 0,
    ensures
        forall|b: Position| #[trigger] boxes.to_set().contains(b) ==> level.is_target(b),
    decreases boxes.len(),
{
    if boxes.len() > 0 {
        let front = boxes.drop_last();
        assert forall|i: int| 0 <= i < front.len() implies table.at(#[trigger] front[i]) is Some by {
            assert(front[i] == boxes[i]);
        }
        assert(table.at(boxes[boxes.len() - 1]) is Some);
        lemma_zero_bound_solved(level, table, front);
        crate::bounds::lemma_zero_entry_is_target(level, table, boxes.last());
        assert forall|b: Position| #[trigger] boxes.to_set().contains(b) implies level.is_target(
            b,
        ) by {
            let i = choose|i: int| 0 <= i < boxes.len() && boxes[i] == b;
            if i < front.len() {
                assert(front[i] == b);
                assert(front.to_set().contains(b));
            }
        }
    }
}

} // verus!
