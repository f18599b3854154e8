//! The best-first search: the waiting states, the states seen, and the
//! loop that expands the best waiting state until a solved state appears.

use crate::actions::Actions;
use crate::bounds::LowerBounds;
use crate::clock::{at_least, elapsed_since, start_timer};
use crate::level::{copy_list, same_list, Level};
use crate::position::Action;
use crate::rules::{is_solution, lemma_replay_concat, opening, replay};
use crate::solver::{SolveError, Solver, Strategy};
use crate::state::{
    anchor_of, heuristic_of, lemma_anchor_unique, lemma_zero_bound_solved, lower_bound_of, State,
    LIMIT,
};
use crate::successors::{
    lemma_successor_longer, lemma_successors_offspring, lemma_successors_same, offspring,
    successors_fit,
};
use crate::walk::obstacles;
use std::time::Duration;
use vstd::prelude::*;

verus! {

/// `b` to the power of `e`.
pub open spec fn power(b: nat, e: nat) -> nat
    decreases e,
{
    if e == 0 {
        1
    } else {
        b * power(b, (e - 1) as nat)
    }
}

/// The weight of a waiting state: the base to the power of the number of
/// actions that the state may still take on before it reaches the limit.
pub open spec fn weight(s: &State, base: nat) -> nat {
    power(base, (LIMIT - s.movements@.len()) as nat)
}

/// The sum of the weights of the waiting states.
pub open spec fn load(heap: Seq<State>, base: nat) -> nat
    decreases heap.len(),
{
    if heap.len() == 0 {
        0
    } else {
        load(heap.drop_last(), base) + weight(&heap.last(), base)
    }
}

/// Whether a state may wait in the search: it is well formed, it has as many
/// boxes as the level, and replaying its actions from the level's opening
/// leads to it.
#[verifier::opaque]
pub open spec fn ready(level: &Level, table: &LowerBounds, s: &State) -> bool {
    &&& s.wf_in(level, table)
    &&& s.box_positions@.len() == level.box_positions@.len()
    &&& replay(level, opening(level), s.movements@) == Some(s.placement())
}

/// Whether the normalized form of `t` is among the states seen.
pub open spec fn seen(level: &Level, visited: Seq<State>, t: &State) -> bool {
    exists|i: int|
        0 <= i < visited.len() && anchor_of(
            obstacles(level, t.box_positions@),
            t.player_position,
            (#[trigger] visited[i]).player_position,
        ) && visited[i].box_positions@ == t.box_positions@
}

/// What the search makes of the first `n` successors in `list`: the place
/// of the first that is new and solved, if there is one, and before it the
/// new ones, which go on to wait.
pub open spec fn sift(level: &Level, visited: Seq<State>, list: Seq<State>, n: nat) -> (
    Option<int>,
    Seq<State>,
)
    decreases n,
{
    if n == 0 {
        (None, Seq::empty())
    } else {
        let before = sift(level, visited, list, (n - 1) as nat);
        if before.0 is Some {
            before
        } else if seen(level, visited, &list[n - 1]) {
            before
        } else if list[n - 1].lower_bound == 0 {
            (Some(n - 1), before.1)
        } else {
            (None, before.1.push(list[n - 1]))
        }
    }
}

/// Whether `k` is the place of the best waiting state: the first among
/// those of least heuristic.
pub open spec fn is_best(heap: Seq<State>, k: int) -> bool {
    &&& 0 <= k < heap.len()
    &&& forall|i: int| 0 <= i < heap.len() ==> heap[k].heuristic <= (#[trigger] heap[i]).heuristic
    &&& forall|i: int| 0 <= i < k ==> heap[k].heuristic < (#[trigger] heap[i]).heuristic
}

/// A positive base has positive powers, and they grow with the exponent.
pub proof fn lemma_power(b: nat, e1: nat, e2: nat)
    requires
        b >= 1,
        e1 <= e2,
    ensures
        1 <= power(b, e1) <= power(b, e2),
    decreases e2,
{
    if e1 == 0 {
        if e2 > 0 {
            lemma_power(b, 0, (e2 - 1) as nat);
            assert(power(b, (e2 - 1) as nat) <= b * power(b, (e2 - 1) as nat)) by (nonlinear_arith)
                requires
                    b >= 1,
            ;
        }
    } else {
        lemma_power(b, (e1 - 1) as nat, (e2 - 1) as nat);
        assert(b * power(b, (e1 - 1) as nat) <= b * power(b, (e2 - 1) as nat))
            by (nonlinear_arith)
            requires
                power(b, (e1 - 1) as nat) <= power(b, (e2 - 1) as nat),
        ;
        assert(1 <= b * power(b, (e1 - 1) as nat)) by (nonlinear_arith)
            requires
                b >= 1,
                1 <= power(b, (e1 - 1) as nat),
        ;
    }
}

/// The load without one state is less by that state's weight.
pub proof fn lemma_load_remove(heap: Seq<State>, k: int, base: nat)
    requires
        0 <= k < heap.len(),
    ensures
        load(heap.remove(k), base) + weight(&heap[k], base) == load(heap, base),
    decreases heap.len(),
{
    if k == heap.len() - 1 {
        assert(heap.remove(k) =~= heap.drop_last());
    } else {
        assert(heap.remove(k).drop_last() =~= heap.drop_last().remove(k));
        assert(heap.remove(k).last() == heap.last());
        lemma_load_remove(heap.drop_last(), k, base);
    }
}

/// The load with one more state is more by that state's weight.
pub proof fn lemma_load_push(heap: Seq<State>, t: State, base: nat)
    ensures
        load(heap.push(t), base) == load(heap, base) + weight(&t, base),
{
    assert(heap.push(t).drop_last() =~= heap);
}

/// `count` states that each have taken more actions than `moves` weigh
/// together less than one state with `moves` actions, where the base
/// exceeds `count`.
pub proof fn lemma_budget(count: nat, base: nat, moves: nat)
    requires
        count < base,
        moves < LIMIT,
    ensures
        count * power(base, (LIMIT - moves - 1) as nat) < power(base, (LIMIT - moves) as nat),
{
    let p = power(base, (LIMIT - moves - 1) as nat);
    lemma_power(base, 0, (LIMIT - moves - 1) as nat);
    assert(count * p < base * p) by (nonlinear_arith)
        requires
            count < base,
            p >= 1,
    ;
}

/// Once a solved successor has been found, looking further changes nothing.
pub proof fn lemma_sift_stays(level: &Level, visited: Seq<State>, list: Seq<State>, n: nat, m: nat)
    requires
        n <= m,
        sift(level, visited, list, n).0 is Some,
    ensures
        sift(level, visited, list, m) == sift(level, visited, list, n),
    decreases m,
{
    if n < m {
        lemma_sift_stays(level, visited, list, n, (m - 1) as nat);
    }
}

/// A state that may follow a waiting state may wait too; it has taken more
/// actions; and where its lower bound is zero, its actions are a solution.
pub proof fn lemma_offspring_ready(level: &Level, table: &LowerBounds, s: &State, t: &State)
    requires
        level.wf(),
        crate::bounds::table_fits(level, table),
        ready(level, table, s),
        offspring(level, table, s, t),
    ensures
        ready(level, table, t),
        s.movements@.len() < t.movements@.len() < LIMIT,
        level.in_bounds(t.player_position),
        t.movements.wf(),
        t.lower_bound == 0 ==> is_solution(level, t.movements@),
{
    reveal(ready);
    reveal(offspring);
    lemma_successor_longer(level, s, t);
    let added = choose|added: Seq<Action>|
        #[trigger] replay(level, s.placement(), added) == Some(t.placement()) && t.movements@
            == s.movements@ + added;
    lemma_replay_concat(level, opening(level), s.movements@, added);
    if t.lower_bound == 0 {
        lemma_zero_bound_solved(level, table, t.box_positions@);
    }
}

/// What follows for a state from that it may wait.
pub proof fn lemma_ready(solver: &Solver, s: &State)
    requires
        ready(&solver.level, &solver.lower_bounds, s),
    ensures
        s.wf(solver),
        s.movements@.len() < LIMIT,
        s.box_positions@.len() == solver.level.box_positions@.len(),
{
    reveal(ready);
}

/// What expanding a state makes of the waiting states and returns, given
/// the state's successors `list`: the new successors before the first that
/// is new and solved go on to wait, in their order, and the actions of that
/// solved one are returned, if there is one.
pub open spec fn expanded(
    level: &Level,
    visited: Seq<State>,
    before: Seq<State>,
    after: Seq<State>,
    list: Seq<State>,
    r: Option<Actions>,
) -> bool {
    let s = sift(level, visited, list, list.len());
    &&& after == before + s.1
    &&& match s.0 {
        Some(j) => r matches Some(m) && m@ == list[j].movements@ && m.wf(),
        None => r is None,
    }
}

/// Whether the list of seen states holds one with the player and the boxes
/// of `s`.
fn holds_state(list: &Vec<State>, s: &State) -> (b: bool)
    ensures
        b == exists|i: int|
            0 <= i < list@.len() && (#[trigger] list@[i]).player_position == s.player_position
                && list@[i].box_positions@ == s.box_positions@,
{
    let mut i: usize = 0;
    while i < list.len()
        invariant
            i <= list@.len(),
            forall|j: int|
                0 <= j < i ==> !((#[trigger] list@[j]).player_position == s.player_position
                    && list@[j].box_positions@ == s.box_positions@),
        decreases list@.len() - i,
    {
        if list[i].player_position == s.player_position && same_list(
            &list[i].box_positions,
            &s.box_positions,
        ) {
            return true;
        }
        i = i + 1;
    }
    false
}

impl Solver {
    /// The invariant of the search: the level and its tables are in order,
    /// and every waiting state may wait.
    pub open spec fn wf(&self) -> bool {
        &&& self.context_ok()
        &&& distinct(self.visited@)
        &&& forall|i: int|
            0 <= i < self.heap@.len() ==> ready(
                &self.level,
                &self.lower_bounds,
                #[trigger] &self.heap@[i],
            )
    }

    /// The base of the weights: one more than the number of pushes that can
    /// be tried from a state.
    pub open spec fn fan(&self) -> nat {
        4 * self.level.box_positions@.len() + 1
    }

    /// The work that the search may still have to do.
    pub open spec fn work(&self) -> nat {
        load(self.heap@, self.fan())
    }

    /// The number of states seen.
    pub fn visited_count(&self) -> (n: usize)
        ensures
            n == self.visited@.len(),
    {
        self.visited.len()
    }

    /// The number of states waiting.
    pub fn pressure(&self) -> (n: usize)
        ensures
            n == self.heap@.len(),
    {
        self.heap.len()
    }

    /// Sets the strategy and lets the level's opening wait as the first state.
    pub fn initial(&mut self, strategy: Strategy)
        requires
            old(self).wf(),
            lower_bound_of(&old(self).lower_bounds, old(self).level.box_positions@) < LIMIT,
        ensures
            final(self).wf(),
            final(self).strategy == strategy,
            final(self).level == old(self).level,
            final(self).lower_bounds == old(self).lower_bounds,
            final(self).visited == old(self).visited,
            final(self).heap@.len() == old(self).heap@.len() + 1,
            final(self).heap@.drop_last() == old(self).heap@,
            final(self).heap@.last().player_position == old(self).level.player_position,
            final(self).heap@.last().box_positions@ == old(self).level.box_positions@,
            final(self).heap@.last().movements@ == Seq::<Action>::empty(),
            final(self).heap@.last().lower_bound == lower_bound_of(
                &old(self).lower_bounds,
                old(self).level.box_positions@,
            ),
            final(self).heap@.last().heuristic == heuristic_of(
                strategy,
                lower_bound_of(&old(self).lower_bounds, old(self).level.box_positions@),
                0,
                0,
            ),
    {
        self.strategy = strategy;
        let state = State::new(
            self.level.player_position,
            copy_list(&self.level.box_positions),
            Actions::new(),
            self,
        );
        proof {
            assert(state.placement() == opening(&self.level));
            assert(ready(&self.level, &self.lower_bounds, &state)) by {
                reveal(ready);
            }
            assert forall|i: int| 0 <= i < self.heap@.len() implies ready(
                &self.level,
                &self.lower_bounds,
                #[trigger] &self.heap@[i],
            ) by {
                assert(ready(&old(self).level, &old(self).lower_bounds, &old(self).heap@[i]));
            }
        }
        let ghost before = self.heap@;
        self.heap.push(state);
        proof {
            assert(self.heap@.drop_last() =~= before);
            assert forall|i: int| 0 <= i < self.heap@.len() implies ready(
                &self.level,
                &self.lower_bounds,
                #[trigger] &self.heap@[i],
            ) by {
                if i < before.len() {
                    assert(self.heap@[i] == before[i]);
                }
            }
        }
    }

    /// The place of the best waiting state.
    pub fn best_index(&self) -> (k: usize)
        requires
            self.heap@.len() > 0,
        ensures
            is_best(self.heap@, k as int),
    {
        let mut k: usize = 0;
        let mut i: usize = 1;
        while i < self.heap.len()
            invariant
                k < i <= self.heap@.len(),
                forall|j: int|
                    0 <= j < i ==> self.heap@[k as int].heuristic <= (
                    #[trigger] self.heap@[j]).heuristic,
                forall|j: int|
                    0 <= j < k ==> self.heap@[k as int].heuristic < (
                    #[trigger] self.heap@[j]).heuristic,
            decreases self.heap@.len() - i,
        {
            if self.heap[i].heuristic < self.heap[k].heuristic {
                k = i;
            }
            i = i + 1;
        }
        k
    }

    /// Whether the normalized form of `t` has been seen.
    pub fn has_seen(&self, t: &State) -> (b: bool)
        requires
            self.level.shape_ok(),
            self.level.in_bounds(t.player_position),
            t.movements.wf(),
        ensures
            b == seen(&self.level, self.visited@, t),
    {
        let n = t.normalized(self);
        self.holds(t, &n)
    }

    /// Whether `normal`, the normalized form of `t`, is among the states seen.
    fn holds(&self, t: &State, normal: &State) -> (b: bool)
        requires
            normal.box_positions@ == t.box_positions@,
            anchor_of(
                obstacles(&self.level, t.box_positions@),
                t.player_position,
                normal.player_position,
            ),
        ensures
            b == seen(&self.level, self.visited@, t),
            b == exists|i: int|
                0 <= i < self.visited@.len() && same_cells(#[trigger] &self.visited@[i], normal),
    {
        let b = holds_state(&self.visited, normal);
        proof {
            let blocked = obstacles(&self.level, t.box_positions@);
            if b {
                let i = choose|i: int|
                    0 <= i < self.visited@.len() && (#[trigger] self.visited@[i]).player_position
                        == normal.player_position && self.visited@[i].box_positions@
                        == normal.box_positions@;
                assert(anchor_of(blocked, t.player_position, self.visited@[i].player_position));
                assert(same_cells(&self.visited@[i], normal));
            }
            if seen(&self.level, self.visited@, t) {
                let i = choose|i: int|
                    0 <= i < self.visited@.len() && anchor_of(
                        blocked,
                        t.player_position,
                        (#[trigger] self.visited@[i]).player_position,
                    ) && self.visited@[i].box_positions@ == t.box_positions@;
                lemma_anchor_unique(
                    blocked,
                    t.player_position,
                    normal.player_position,
                    self.visited@[i].player_position,
                );
            }
            if exists|i: int|
                0 <= i < self.visited@.len() && same_cells(#[trigger] &self.visited@[i], normal) {
                let i = choose|i: int|
                    0 <= i < self.visited@.len() && same_cells(
                        #[trigger] &self.visited@[i],
                        normal,
                    );
                assert(self.visited@[i].player_position == normal.player_position);
            }
        }
        b
    }

    /// Expands `state`: lets its successors wait that are new, up to the
    /// first new one that is solved, whose actions are returned.
    pub fn expand(&mut self, state: &State) -> (r: Option<Actions>)
        requires
            old(self).wf(),
            ready(&old(self).level, &old(self).lower_bounds, state),
        ensures
            final(self).wf(),
            final(self).level == old(self).level,
            final(self).lower_bounds == old(self).lower_bounds,
            final(self).strategy == old(self).strategy,
            final(self).visited == old(self).visited,
            exists|list: Seq<State>| #[trigger]
                successors_fit(old(self), state, list) && expanded(
                    &old(self).level,
                    old(self).visited@,
                    old(self).heap@,
                    final(self).heap@,
                    list,
                    r,
                ),
            r matches Some(m) ==> is_solution(&old(self).level, m@) && m.wf(),
            load(final(self).heap@, old(self).fan()) < load(old(self).heap@, old(self).fan())
                + weight(state, old(self).fan()),
    {
        proof {
            lemma_ready(self, state);
        }
        let mut rest = state.successors(self);
        let ghost list = rest@;
        let ghost base = self.heap@;
        let ghost base_fan = self.fan();
        let ghost unit = power(base_fan, (LIMIT - state.movements@.len() - 1) as nat);
        let ghost mut idx: nat = 0;
        proof {
            assert(self.heap@ =~= base + sift(&self.level, self.visited@, list, 0).1);
            lemma_successors_offspring(self, state, list);
        }
        while rest.len() > 0
            invariant
                self.context_ok(),
                self.level == old(self).level,
                self.lower_bounds == old(self).lower_bounds,
                self.strategy == old(self).strategy,
                self.visited == old(self).visited,
                distinct(self.visited@),
                base == old(self).heap@,
                base_fan == old(self).fan(),
                unit == power(base_fan, (LIMIT - state.movements@.len() - 1) as nat),
                ready(&self.level, &self.lower_bounds, state),
                state.movements@.len() < LIMIT,
                list.len() < base_fan,
                successors_fit(old(self), state, list),
                idx <= list.len(),
                rest@ == list.subrange(idx as int, list.len() as int),
                forall|i: int|
                    0 <= i < list.len() ==> offspring(
                        &self.level,
                        &self.lower_bounds,
                        state,
                        #[trigger] &list[i],
                    ),
                sift(&self.level, self.visited@, list, idx).0 is None,
                self.heap@ == base + sift(&self.level, self.visited@, list, idx).1,
                forall|i: int|
                    0 <= i < self.heap@.len() ==> ready(
                        &self.level,
                        &self.lower_bounds,
                        #[trigger] &self.heap@[i],
                    ),
                load(self.heap@, base_fan) <= load(base, base_fan) + idx * unit,
            decreases rest@.len(),
        {
            let t = rest.remove(0);
            proof {
                assert(t == list[idx as int]);
                assert(rest@ =~= list.subrange(idx as int + 1, list.len() as int));
                lemma_offspring_ready(&self.level, &self.lower_bounds, state, &t);
                lemma_power(
                    base_fan,
                    (LIMIT - t.movements@.len()) as nat,
                    (LIMIT - state.movements@.len() - 1) as nat,
                );
                assert((idx + 1) * unit == idx * unit + unit) by (nonlinear_arith);
                lemma_budget(idx, base_fan, state.movements@.len());
            }
            if self.has_seen(&t) {
            } else if t.is_solved(self) {
                proof {
                    lemma_sift_stays(
                        &self.level,
                        self.visited@,
                        list,
                        (idx + 1) as nat,
                        list.len(),
                    );
                }
                let r = Some(t.movements);
                proof {
                    assert(self.heap@ =~= base + sift(
                        &self.level,
                        self.visited@,
                        list,
                        list.len(),
                    ).1);
                    assert(successors_fit(old(self), state, list) && expanded(
                        &old(self).level,
                        old(self).visited@,
                        old(self).heap@,
                        self.heap@,
                        list,
                        r,
                    ));
                }
                return r;
            } else {
                let ghost waiting = self.heap@;
                self.heap.push(t);
                proof {
                    lemma_load_push(waiting, t, base_fan);
                    assert(self.heap@ =~= base + sift(
                        &self.level,
                        self.visited@,
                        list,
                        (idx + 1) as nat,
                    ).1);
                    assert forall|i: int| 0 <= i < self.heap@.len() implies ready(
                        &self.level,
                        &self.lower_bounds,
                        #[trigger] &self.heap@[i],
                    ) by {
                        if i < waiting.len() {
                            assert(self.heap@[i] == waiting[i]);
                        }
                    }
                }
            }
            proof {
                idx = idx + 1;
            }
        }
        proof {
            lemma_budget(idx, base_fan, state.movements@.len());
            assert(successors_fit(old(self), state, list) && expanded(
                &old(self).level,
                old(self).visited@,
                old(self).heap@,
                self.heap@,
                list,
                None,
            ));
        }
        None
    }

    /// One round of the search. Without a waiting state it ends with
    /// [`SolveError::NoSolution`]. Else the best waiting state leaves the
    /// waiting states and its normalized form joins the states seen, unless
    /// it is among them already; then, where `late` says that the time is
    /// up, the round ends with [`SolveError::Timeout`] and the waiting
    /// states are discarded, and else the state is expanded. `None` says
    /// that the search goes on.
    pub fn step(&mut self, late: bool) -> (r: Option<Result<Actions, SolveError>>)
        requires
            old(self).wf(),
        ensures
            final(self).wf(),
            final(self).level == old(self).level,
            final(self).lower_bounds == old(self).lower_bounds,
            final(self).strategy == old(self).strategy,
            old(self).heap@.len() == 0 ==> r == Some(Err::<Actions, SolveError>(SolveError::NoSolution))
                && final(self).heap@ == old(self).heap@ && final(self).visited@ == old(
                self,
            ).visited@,
            old(self).heap@.len() > 0 ==> exists|k: int, list: Seq<State>| #[trigger]
                stepped(old(self), final(self), k, list, late, r),
            round(old(self), final(self), late, r),
            r matches Some(Ok(m)) ==> is_solution(&old(self).level, m@) && m.wf(),
            r is None ==> final(self).work() < old(self).work(),
    {
        if self.heap.len() == 0 {
            return Some(Err(SolveError::NoSolution));
        }
        let k = self.best_index();
        let ghost waiting = self.heap@;
        let state = self.heap.remove(k);
        proof {
            lemma_load_remove(waiting, k as int, self.fan());
            assert(ready(&self.level, &self.lower_bounds, &waiting[k as int]));
            assert forall|i: int| 0 <= i < self.heap@.len() implies ready(
                &self.level,
                &self.lower_bounds,
                #[trigger] &self.heap@[i],
            ) by {
                if i < k {
                    assert(self.heap@[i] == waiting[i]);
                } else {
                    assert(self.heap@[i] == waiting[i + 1]);
                }
            }
        }
        proof {
            lemma_ready(self, &state);
        }
        let normal = state.normalized(self);
        if !self.holds(&state, &normal) {
            self.visited.push(normal);
            proof {
                assert(self.visited@.drop_last() =~= old(self).visited@);
                assert forall|i: int, j: int| 0 <= i < j < self.visited@.len() implies !same_cells(
                    #[trigger] &self.visited@[i],
                    #[trigger] &self.visited@[j],
                ) by {
                    assert(self.visited@[i] == old(self).visited@[i]);
                    if j < old(self).visited@.len() {
                        assert(self.visited@[j] == old(self).visited@[j]);
                    }
                }
            }
        }
        proof {
            assert(state == old(self).heap@[k as int]);
            assert(self.heap@ == old(self).heap@.remove(k as int));
            assert(noted(&old(self).level, old(self).visited@, self.visited@, &state));
        }
        if late {
            self.heap.clear();
            let r = Some(Err(SolveError::Timeout));
            proof {
                assert(stepped(old(self), self, k as int, Seq::empty(), late, r));
            }
            return r;
        }
        let ghost middle = *self;
        let found = self.expand(&state);
        let r = match found {
            Some(movements) => Some(Ok(movements)),
            None => None,
        };
        proof {
            let list = choose|list: Seq<State>| #[trigger]
                successors_fit(&middle, &state, list) && expanded(
                    &middle.level,
                    middle.visited@,
                    middle.heap@,
                    self.heap@,
                    list,
                    found,
                );
            lemma_successors_same(&middle, old(self), &state, list);
            assert(stepped(old(self), self, k as int, list, late, r));
        }
        r
    }

    /// Searches for a solution: expands the best waiting state, round after
    /// round, until a solved state appears, no state is waiting, or a round
    /// finds that `timeout` has passed since the search began. A search
    /// that fails leaves no state waiting: on a timeout the waiting states
    /// are discarded.
    pub fn solve(&mut self, timeout: Duration) -> (r: Result<Actions, SolveError>)
        requires
            old(self).wf(),
        ensures
            final(self).wf(),
            final(self).level == old(self).level,
            final(self).lower_bounds == old(self).lower_bounds,
            final(self).strategy == old(self).strategy,
            old(self).heap@.len() == 0 ==> r == Err::<Actions, SolveError>(SolveError::NoSolution),
            r matches Ok(m) ==> is_solution(&old(self).level, m@) && m.wf(),
            r is Err ==> final(self).heap@.len() == 0,
            extends(old(self).visited@, final(self).visited@),
            exists|trace: Seq<Solver>, lates: Seq<bool>| #[trigger]
                searched(trace, lates, r) && trace[0] == *old(self) && trace.last() == *final(self),
    {
        let timer = start_timer();
        let ghost mut first = true;
        let ghost mut trace: Seq<Solver> = seq![*old(self)];
        let ghost mut lates: Seq<bool> = Seq::empty();
        assert(self.visited@.subrange(0, self.visited@.len() as int) =~= self.visited@);
        loop
            invariant
                self.wf(),
                self.level == old(self).level,
                self.lower_bounds == old(self).lower_bounds,
                self.strategy == old(self).strategy,
                first ==> self.heap@ == old(self).heap@,
                !first ==> old(self).heap@.len() > 0,
                extends(old(self).visited@, self.visited@),
                trace.len() >= 1,
                trace[0] == *old(self),
                trace.last() == *self,
                lates.len() == trace.len() - 1,
                forall|i: int|
                    0 <= i < trace.len() - 1 ==> round(
                        &trace[i],
                        &trace[i + 1],
                        #[trigger] lates[i],
                        None,
                    ),
            decreases self.work(),
        {
            let passed = elapsed_since(&timer);
            let late = at_least(&passed, &timeout);
            let ghost before = *self;
            match self.step(late) {
                Some(r) => {
                    proof {
                        if before.heap@.len() > 0 {
                            let (k, list) = choose|k: int, list: Seq<State>| #[trigger]
                                stepped(&before, self, k, list, late, Some(r));
                            lemma_extends(
                                &before.level,
                                old(self).visited@,
                                before.visited@,
                                self.visited@,
                                &before.heap@[k],
                            );
                        }
                        let all = trace.push(*self);
                        let answers = lates.push(late);
                        assert forall|i: int| 0 <= i < all.len() - 2 implies round(
                            &all[i],
                            &all[i + 1],
                            #[trigger] answers[i],
                            None,
                        ) by {
                            assert(all[i] == trace[i] && all[i + 1] == trace[i + 1] && answers[i]
                                == lates[i]);
                        }
                        assert(all[all.len() - 2] == before);
                        assert(searched(all, answers, r) && all[0] == *old(self) && all.last()
                            == *self);
                    }
                    return r;
                },
                None => {
                    proof {
                        let (k, list) = choose|k: int, list: Seq<State>| #[trigger]
                            stepped(&before, self, k, list, late, None);
                        lemma_extends(
                            &before.level,
                            old(self).visited@,
                            before.visited@,
                            self.visited@,
                            &before.heap@[k],
                        );
                        let all = trace.push(*self);
                        let answers = lates.push(late);
                        assert forall|i: int| 0 <= i < all.len() - 1 implies round(
                            &all[i],
                            &all[i + 1],
                            #[trigger] answers[i],
                            None,
                        ) by {
                            if i < trace.len() - 1 {
                                assert(all[i] == trace[i] && all[i + 1] == trace[i + 1]
                                    && answers[i] == lates[i]);
                            } else {
                                assert(all[i] == before);
                            }
                        }
                        trace = all;
                        lates = answers;
                    }
                },
            }
            proof {
                first = false;
            }
        }
    }
}

/// What one round makes of a search: `late` is the clock's answer, `r` the
/// round's result.
pub open spec fn round(
    before: &Solver,
    after: &Solver,
    late: bool,
    r: Option<Result<Actions, SolveError>>,
) -> bool {
    &&& before.wf()
    &&& after.wf()
    &&& after.level == before.level
    &&& after.lower_bounds == before.lower_bounds
    &&& after.strategy == before.strategy
    &&& if before.heap@.len() == 0 {
        r == Some(Err::<Actions, SolveError>(SolveError::NoSolution)) && after.heap@
            == before.heap@ && after.visited@ == before.visited@
    } else {
        exists|k: int, list: Seq<State>| #[trigger] stepped(before, after, k, list, late, r)
    }
}

/// Whether `trace` is the course of a search that ends with `r`: each
/// solver of the trace comes from the one before it by one round, under
/// the clock's answer of that round; every round but the last goes on, and
/// the last ends with `r`.
pub open spec fn searched(
    trace: Seq<Solver>,
    lates: Seq<bool>,
    r: Result<Actions, SolveError>,
) -> bool {
    &&& trace.len() >= 2
    &&& lates.len() == trace.len() - 1
    &&& forall|i: int|
        0 <= i < trace.len() - 2 ==> round(&trace[i], &trace[i + 1], #[trigger] lates[i], None)
    &&& round(&trace[trace.len() - 2], &trace.last(), lates.last(), Some(r))
}

/// Whether `after` begins with `before`.
pub open spec fn extends(before: Seq<State>, after: Seq<State>) -> bool {
    before.len() <= after.len() && after.subrange(0, before.len() as int) == before
}

/// Noting one more state keeps what the list of states seen began with.
pub proof fn lemma_extends(level: &Level, first: Seq<State>, before: Seq<State>, after: Seq<State>, best: &State)
    requires
        extends(first, before),
        noted(level, before, after, best),
    ensures
        extends(first, after),
{
    if !seen(level, before, best) {
        assert(after.subrange(0, first.len() as int) =~= before.subrange(0, first.len() as int));
    }
}

/// Whether two states have the player on the same cell and the boxes on
/// the same cells.
pub open spec fn same_cells(a: &State, b: &State) -> bool {
    a.player_position == b.player_position && a.box_positions@ == b.box_positions@
}

/// Whether no two of the states seen have the same cells: the list stands
/// for a set of normalized states.
pub open spec fn distinct(visited: Seq<State>) -> bool {
    forall|i: int, j: int|
        0 <= i < j < visited.len() ==> !same_cells(#[trigger] &visited[i], #[trigger] &visited[j])
}

/// What a round makes of the states seen: the normalized form of the best
/// waiting state joins them, unless it is among them already.
pub open spec fn noted(level: &Level, before: Seq<State>, after: Seq<State>, best: &State) -> bool {
    if seen(level, before, best) {
        after == before
    } else {
        &&& after.len() == before.len() + 1
        &&& after.drop_last() == before
        &&& after.last().box_positions@ == best.box_positions@
        &&& anchor_of(
            obstacles(level, best.box_positions@),
            best.player_position,
            after.last().player_position,
        )
    }
}

/// What a round makes of a search with waiting states: `k` is the place of
/// the best waiting state, `list` holds its successors. The best state
/// leaves the waiting states and its normalized form is noted among the
/// states seen. Where the time is up, the round ends with
/// [`SolveError::Timeout`] and no state waits any longer. Else the new
/// successors before the first that is new and solved go on to wait, and
/// the actions of that solved one are the result, if there is one.
pub open spec fn stepped(
    before: &Solver,
    after: &Solver,
    k: int,
    list: Seq<State>,
    late: bool,
    r: Option<Result<Actions, SolveError>>,
) -> bool {
    let best = before.heap@[k];
    &&& is_best(before.heap@, k)
    &&& noted(&before.level, before.visited@, after.visited@, &best)
    &&& if late {
        r == Some(Err::<Actions, SolveError>(SolveError::Timeout)) && after.heap@.len() == 0
    } else {
        let s = sift(&before.level, after.visited@, list, list.len());
        &&& successors_fit(before, &best, list)
        &&& after.heap@ == before.heap@.remove(k) + s.1
        &&& match s.0 {
            Some(j) => r matches Some(Ok(m)) && m@ == list[j].movements@ && m.wf(),
            None => r is None,
        }
    }
}

} // verus!
