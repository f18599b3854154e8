//! Why the lower bound is a lower bound: no completion of a state takes
//! fewer pushes than the boxes are steps away from their targets.

use crate::actions::{count_pushes, lemma_count_concat};
use crate::bounds::LowerBounds;
use crate::level::{lemma_update_cells, strictly_sorted, Level};
use crate::position::{adjacent, Action, Position};
use crate::rules::{act, lemma_replay_concat, replay, solved, Placement};
use crate::state::{all_entered, entries_sum, lower_bound_of, State};
use crate::walk::walk_between;
use vstd::prelude::*;

verus! {

/// Whether every target is at least `n` steps away from `p`, by foot around
/// the walls.
pub open spec fn far(level: &Level, p: Position, n: int) -> bool {
    forall|t: Position, walk: Seq<Position>|
        level.is_target(t) && #[trigger] walk_between(level.walls(), p, t, walk) ==> n <= walk.len()
            - 1
}

/// Whether `bounds` holds, for each cell of `cells`, a number of steps that
/// no target is nearer than.
pub open spec fn all_far(level: &Level, cells: Seq<Position>, bounds: Seq<int>) -> bool {
    &&& bounds.len() == cells.len()
    &&& forall|i: int| 0 <= i < cells.len() ==> far(level, #[trigger] cells[i], bounds[i])
}

/// The sum of a sequence of numbers.
pub open spec fn total(bounds: Seq<int>) -> int
    decreases bounds.len(),
{
    if bounds.len() == 0 {
        0
    } else {
        total(bounds.drop_last()) + bounds.last()
    }
}

/// Whether, for each box, the table's entry is no more than the steps to
/// any target: the target nearest in Manhattan distance, to which the
/// entry counts the steps, is among the nearest by foot.
pub open spec fn entries_are_nearest(level: &Level, table: &LowerBounds, boxes: Seq<Position>) -> bool {
    forall|i: int|
        0 <= i < boxes.len() ==> (table.at(#[trigger] boxes[i]) matches Some(n) && far(
            level,
            boxes[i],
            n as int,
        ))
}

/// Changing one number changes the sum by the difference.
pub proof fn lemma_total_update(bounds: Seq<int>, i: int, v: int)
    requires
        0 <= i < bounds.len(),
    ensures
        total(bounds.update(i, v)) == total(bounds) - bounds[i] + v,
    decreases bounds.len(),
{
    if i == bounds.len() - 1 {
        assert(bounds.update(i, v).drop_last() =~= bounds.drop_last());
    } else {
        assert(bounds.update(i, v).drop_last() =~= bounds.drop_last().update(i, v));
        lemma_total_update(bounds.drop_last(), i, v);
    }
}

/// A sum of numbers none of which is positive is not positive.
pub proof fn lemma_total_nonpositive(bounds: Seq<int>)
    requires
        forall|i: int| 0 <= i < bounds.len() ==> #[trigger] bounds[i] <= 0,
    ensures
        total(bounds) <= 0,
    decreases bounds.len(),
{
    if bounds.len() > 0 {
        assert forall|i: int| 0 <= i < bounds.drop_last().len() implies #[trigger] bounds.drop_last()[i]
            <= 0 by {
            assert(bounds.drop_last()[i] == bounds[i]);
        }
        lemma_total_nonpositive(bounds.drop_last());
    }
}

/// Replaying a sequence of actions is acting by the first and replaying the rest.
pub proof fn lemma_replay_first(level: &Level, c: Placement, actions: Seq<Action>)
    requires
        actions.len() > 0,
    ensures
        replay(level, c, actions) == match act(level, c, actions[0]) {
            Some(m) => replay(level, m, actions.subrange(1, actions.len() as int)),
            None => None,
        },
        count_pushes(actions) == count_pushes(actions.subrange(1, actions.len() as int)) + (if actions[0] is Push {
            1int
        } else {
            0int
        }),
{
    let first = seq![actions[0]];
    let rest = actions.subrange(1, actions.len() as int);
    assert(actions =~= first + rest);
    lemma_replay_concat(level, c, first, rest);
    lemma_count_concat(first, rest);
    assert(first.drop_last() =~= Seq::<Action>::empty());
    assert(replay(level, c, first.drop_last()) == Some(c));
    assert(count_pushes(first.drop_last()) == 0);
}

/// One step nearer to a box's cell, the targets are at most one step nearer.
pub proof fn lemma_far_step(level: &Level, b: Position, t: Position, n: int)
    requires
        far(level, b, n),
        adjacent(b, t),
        !level.is_wall(t),
    ensures
        far(level, t, n - 1),
{
    assert forall|g: Position, walk: Seq<Position>|
        level.is_target(g) && #[trigger] walk_between(level.walls(), t, g, walk) implies n - 1
        <= walk.len() - 1 by {
        let longer = seq![b] + walk;
        assert forall|i: int| 0 < i < longer.len() implies adjacent(longer[i - 1], #[trigger] longer[i])
            && !level.walls().contains(longer[i]) by {
            assert(longer[i] == walk[i - 1]);
            if i > 1 {
                assert(longer[i - 1] == walk[i - 2]);
            }
        }
        assert(longer.last() == walk.last());
        assert(walk_between(level.walls(), b, g, longer));
    }
}

/// Boxes that are, one by one, at least so many steps away from every
/// target need at least that many pushes in all before every box stands on
/// a target.
pub proof fn lemma_pushes_needed(
    level: &Level,
    player: Position,
    cells: Seq<Position>,
    bounds: Seq<int>,
    actions: Seq<Action>,
)
    requires
        cells.no_duplicates(),
        all_far(level, cells, bounds),
        replay(level, Placement { player, boxes: cells.to_set() }, actions) matches Some(c)
            && solved(level, c),
    ensures
        total(bounds) <= count_pushes(actions),
    decreases actions.len(),
{
    let start = Placement { player, boxes: cells.to_set() };
    if actions.len() == 0 {
        assert forall|i: int| 0 <= i < bounds.len() implies #[trigger] bounds[i] <= 0 by {
            let p = cells[i];
            assert(cells.contains(p));
            assert(start.boxes.contains(p));
            assert(level.is_target(p));
            assert(far(level, p, bounds[i]));
            assert(walk_between(level.walls(), p, p, seq![p]));
        }
        lemma_total_nonpositive(bounds);
    } else {
        lemma_replay_first(level, start, actions);
        let rest = actions.subrange(1, actions.len() as int);
        match actions[0] {
            Action::Move(d) => {
                lemma_pushes_needed(level, player.step(d), cells, bounds, rest);
            },
            Action::Push(d) => {
                let b = player.step(d);
                let t = b.step(d);
                assert(cells.contains(b));
                let i = choose|i: int| 0 <= i < cells.len() && cells[i] == b;
                lemma_update_cells(cells, i, t);
                lemma_far_step(level, b, t, bounds[i]);
                let cells2 = cells.update(i, t);
                let bounds2 = bounds.update(i, bounds[i] - 1);
                assert forall|j: int| 0 <= j < cells2.len() implies far(
                    level,
                    #[trigger] cells2[j],
                    bounds2[j],
                ) by {
                    if j != i {
                        assert(cells2[j] == cells[j]);
                    }
                }
                lemma_total_update(bounds, i, bounds[i] - 1);
                lemma_pushes_needed(level, b, cells2, bounds2, rest);
            },
        }
    }
}

/// The sum of the table's entries for a list of boxes that all have one is
/// the sum of the entries.
pub proof fn lemma_entries_total(table: &LowerBounds, boxes: Seq<Position>)
    requires
        all_entered(table, boxes),
    ensures
        entries_sum(table, boxes) == total(
            Seq::new(boxes.len(), |i: int| table.at(boxes[i]).unwrap() as int),
        ),
    decreases boxes.len(),
{
    let bounds = Seq::new(boxes.len(), |i: int| table.at(boxes[i]).unwrap() as int);
    if boxes.len() > 0 {
        let front = boxes.drop_last();
        assert forall|i: int| 0 <= i < front.len() implies table.at(#[trigger] front[i]) is Some by {
            assert(front[i] == boxes[i]);
        }
        lemma_entries_total(table, front);
        assert(bounds.drop_last() =~= Seq::new(
            front.len(),
            |i: int| table.at(front[i]).unwrap() as int,
        ));
        assert(table.at(boxes[boxes.len() - 1]) is Some);
    }
}

/// The lower bound is admissible: where every box of a state stands on a
/// cell with an entry in the table, and that entry is no more than the
/// steps to any target, every sequence of actions that the rules allow and
/// that takes every box to a target holds at least as many pushes as the
/// state's lower bound says.
pub proof fn lower_bound_is_admissible(
    level: &Level,
    table: &LowerBounds,
    s: &State,
    actions: Seq<Action>,
)
    requires
        strictly_sorted(s.box_positions@),
        entries_are_nearest(level, table, s.box_positions@),
        replay(level, s.placement(), actions) matches Some(c) && solved(level, c),
    ensures
        lower_bound_of(table, s.box_positions@) <= count_pushes(actions),
{
    let boxes = s.box_positions@;
    let bounds = Seq::new(boxes.len(), |i: int| table.at(boxes[i]).unwrap() as int);
    assert(all_entered(table, boxes));
    lemma_entries_total(table, boxes);
    assert forall|a: int, b: int| 0 <= a < boxes.len() && 0 <= b < boxes.len() && a != b implies boxes[a]
        != boxes[b] by {
        if a < b {
            assert(boxes[a].before(boxes[b]));
        } else {
            assert(boxes[b].before(boxes[a]));
        }
    }
    lemma_pushes_needed(level, s.player_position, boxes, bounds, actions);
}

} // verus!
