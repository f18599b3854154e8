//! Freeze deadlocks: boxes that no push can ever move again.

use crate::level::{lemma_push_contains, list_contains, Level};
use crate::position::{Action, Direction, Position};
use crate::rules::{act, replay, Placement};
use crate::solver::Solver;
use crate::state::State;
use vstd::prelude::*;

verus! {

/// The number of boxes that have not been visited.
pub open spec fn unvisited(boxes: Seq<Position>, visited: Set<Position>) -> nat
    decreases boxes.len(),
{
    if boxes.len() == 0 {
        0
    } else {
        unvisited(boxes.drop_last(), visited) + if visited.contains(boxes.last()) {
            0nat
        } else {
            1nat
        }
    }
}

/// Visiting more cells leaves no more boxes unvisited.
pub proof fn lemma_unvisited_mono(boxes: Seq<Position>, a: Set<Position>, b: Set<Position>)
    requires
        a.subset_of(b),
    ensures
        unvisited(boxes, b) <= unvisited(boxes, a),
    decreases boxes.len(),
{
    if boxes.len() > 0 {
        lemma_unvisited_mono(boxes.drop_last(), a, b);
    }
}

/// Visiting a box for the first time leaves fewer boxes unvisited.
pub proof fn lemma_unvisited_insert(boxes: Seq<Position>, visited: Set<Position>, p: Position)
    requires
        boxes.contains(p),
        !visited.contains(p),
    ensures
        unvisited(boxes, visited.insert(p)) < unvisited(boxes, visited),
    decreases boxes.len(),
{
    if boxes.last() == p {
        lemma_unvisited_mono(boxes.drop_last(), visited, visited.insert(p));
    } else {
        let i = choose|i: int| 0 <= i < boxes.len() && boxes[i] == p;
        assert(boxes.drop_last()[i] == p);
        lemma_unvisited_insert(boxes.drop_last(), visited, p);
    }
}

/// What looking at a box finds: whether it counts as frozen, the cells
/// visited by then, the visited boxes that the look has found frozen for
/// good, and whether the verdict rests on such boxes alone.
pub struct Verdict {
    pub frozen: bool,
    pub visited: Set<Position>,
    pub firm: Set<Position>,
    pub clean: bool,
}

/// Whether the box at `p` is frozen, and the cells visited on the way. A box
/// that was visited before counts as frozen. Otherwise the box is frozen
/// when it is blocked along the vertical axis and along the horizontal axis,
/// tried in this order; the second axis is not looked at where the first is
/// free.
///
/// Beside the verdict stands its ground. `firm` holds the visited boxes
/// that count as frozen for good: the boxes that are being looked at, and
/// the boxes found frozen on the ground of firm boxes alone. A verdict is
/// clean when it rests on firm boxes alone; a box that was visited before
/// and is not firm, because it was found free or was found frozen on the
/// ground of such a box, makes the verdict that rests on it unclean.
pub open spec fn frozen(
    level: &Level,
    boxes: Seq<Position>,
    p: Position,
    visited: Set<Position>,
    firm: Set<Position>,
) -> Verdict
    decreases unvisited(boxes, visited), 0nat,
{
    if visited.contains(p) {
        Verdict { frozen: true, visited, firm, clean: firm.contains(p) }
    } else if !boxes.contains(p) {
        Verdict { frozen: false, visited: visited.insert(p), firm, clean: false }
    } else {
        let seen = visited.insert(p);
        proof {
            lemma_unvisited_insert(boxes, visited, p);
        }
        let v = axis_blocked(level, boxes, p, Direction::Up, Direction::Down, seen, firm.insert(p));
        if !v.frozen {
            Verdict { frozen: false, visited: v.visited, firm, clean: false }
        } else {
            proof {
                lemma_unvisited_mono(boxes, seen, v.visited.union(seen));
            }
            let h = axis_blocked(
                level,
                boxes,
                p,
                Direction::Left,
                Direction::Right,
                v.visited.union(seen),
                v.firm,
            );
            if h.frozen && v.clean && h.clean {
                Verdict { frozen: true, visited: h.visited, firm: h.firm, clean: true }
            } else {
                Verdict { frozen: h.frozen, visited: h.visited, firm, clean: false }
            }
        }
    }
}

/// Whether the box at `p` is blocked along the axis of `d0` and `d1`, and the
/// cells visited on the way. The axis is blocked when a wall stands on
/// either side, or else when a frozen box stands on either side; the side of
/// `d0` is tried first, and the other side only where the first does not block.
pub open spec fn axis_blocked(
    level: &Level,
    boxes: Seq<Position>,
    p: Position,
    d0: Direction,
    d1: Direction,
    seen: Set<Position>,
    firm: Set<Position>,
) -> Verdict
    decreases unvisited(boxes, seen), 1nat,
{
    let n0 = p.step(d0);
    let n1 = p.step(d1);
    if level.is_wall(n0) || level.is_wall(n1) {
        Verdict { frozen: true, visited: seen, firm, clean: true }
    } else {
        let a = if boxes.contains(n0) {
            frozen(level, boxes, n0, seen, firm)
        } else {
            Verdict { frozen: false, visited: seen, firm, clean: false }
        };
        if a.frozen {
            a
        } else if boxes.contains(n1) {
            proof {
                lemma_unvisited_mono(boxes, seen, a.visited.union(seen));
            }
            frozen(level, boxes, n1, a.visited.union(seen), firm)
        } else {
            Verdict { frozen: false, visited: a.visited, firm, clean: false }
        }
    }
}

/// Whether `b` and `visited` are the verdict and the visited cells of `v`.
pub open spec fn decided(v: Verdict, b: bool, visited: Set<Position>) -> bool {
    b == v.frozen && visited == v.visited
}

/// Decides [`axis_blocked`] for the box at `p`, which has been visited.
fn axis_is_blocked(
    p: &Position,
    d0: Direction,
    d1: Direction,
    boxes: &Vec<Position>,
    solver: &Solver,
    visited: &mut Vec<Position>,
) -> (b: bool)
    requires
        solver.level.shape_ok(),
        forall|i: int| 0 <= i < boxes@.len() ==> solver.level.in_bounds(#[trigger] boxes@[i]),
        solver.level.in_bounds(*p),
    ensures
        forall|firm: Set<Position>|
            decided(
                #[trigger] axis_blocked(
                    &solver.level,
                    boxes@,
                    *p,
                    d0,
                    d1,
                    old(visited)@.to_set(),
                    firm,
                ),
                b,
                final(visited)@.to_set(),
            ),
        old(visited)@.to_set().subset_of(final(visited)@.to_set()),
    decreases unvisited(boxes@, old(visited)@.to_set()), 1nat,
{
    let ghost seen = visited@.to_set();
    let n0 = match p.neighbor(d0) {
        Some(n) => n,
        None => *p,
    };
    let n1 = match p.neighbor(d1) {
        Some(n) => n,
        None => *p,
    };
    if solver.level.wall_at(n0) || solver.level.wall_at(n1) {
        return true;
    }
    let mut f = false;
    if list_contains(boxes, n0) {
        f = State::is_freeze_deadlock(&n0, boxes, solver, visited);
    }
    let ghost middle = visited@.to_set();
    if f {
        proof {
            assert forall|firm: Set<Position>|
                decided(
                    #[trigger] axis_blocked(&solver.level, boxes@, *p, d0, d1, seen, firm),
                    true,
                    middle,
                ) by {
                assert(decided(frozen(&solver.level, boxes@, n0, seen, firm), true, middle));
            }
        }
        return true;
    }
    proof {
        assert(middle.union(seen) =~= middle);
        lemma_unvisited_mono(boxes@, seen, middle);
    }
    if list_contains(boxes, n1) {
        f = State::is_freeze_deadlock(&n1, boxes, solver, visited);
    }
    proof {
        assert forall|firm: Set<Position>|
            decided(
                #[trigger] axis_blocked(&solver.level, boxes@, *p, d0, d1, seen, firm),
                f,
                visited@.to_set(),
            ) by {
            if boxes@.contains(n0) {
                assert(decided(frozen(&solver.level, boxes@, n0, seen, firm), false, middle));
            }
            if boxes@.contains(n1) {
                assert(decided(
                    frozen(&solver.level, boxes@, n1, middle, firm),
                    f,
                    visited@.to_set(),
                ));
            }
        }
    }
    f
}

impl State {
    /// Decides whether the box at `crate_position` is frozen: blocked along
    /// both axes by walls or by boxes that are frozen themselves. `visited`
    /// holds the boxes looked at so far; one of them counts as frozen.
    pub fn is_freeze_deadlock(
        crate_position: &Position,
        crate_positions: &Vec<Position>,
        solver: &Solver,
        visited: &mut Vec<Position>,
    ) -> (b: bool)
        requires
            solver.level.shape_ok(),
            forall|i: int|
                0 <= i < crate_positions@.len() ==> solver.level.in_bounds(
                    #[trigger] crate_positions@[i],
                ),
            crate_positions@.contains(*crate_position),
        ensures
            forall|firm: Set<Position>|
                decided(
                    #[trigger] frozen(
                        &solver.level,
                        crate_positions@,
                        *crate_position,
                        old(visited)@.to_set(),
                        firm,
                    ),
                    b,
                    final(visited)@.to_set(),
                ),
            old(visited)@.to_set().subset_of(final(visited)@.to_set()),
        decreases unvisited(crate_positions@, old(visited)@.to_set()), 0nat,
    {
        if list_contains(visited, *crate_position) {
            return true;
        }
        let ghost before = visited@.to_set();
        proof {
            lemma_push_contains(visited@, *crate_position);
            lemma_unvisited_insert(crate_positions@, before, *crate_position);
        }
        visited.push(*crate_position);
        let ghost seen = visited@.to_set();
        let up_down = axis_is_blocked(
            crate_position,
            Direction::Up,
            Direction::Down,
            crate_positions,
            solver,
            visited,
        );
        let ghost middle = visited@.to_set();
        if !up_down {
            proof {
                assert forall|firm: Set<Position>|
                    decided(
                        #[trigger] frozen(
                            &solver.level,
                            crate_positions@,
                            *crate_position,
                            before,
                            firm,
                        ),
                        false,
                        middle,
                    ) by {
                    assert(decided(
                        axis_blocked(
                            &solver.level,
                            crate_positions@,
                            *crate_position,
                            Direction::Up,
                            Direction::Down,
                            seen,
                            firm.insert(*crate_position),
                        ),
                        false,
                        middle,
                    ));
                }
            }
            return false;
        }
        proof {
            assert(middle.union(seen) =~= middle);
            lemma_unvisited_mono(crate_positions@, seen, middle);
        }
        let left_right = axis_is_blocked(
            crate_position,
            Direction::Left,
            Direction::Right,
            crate_positions,
            solver,
            visited,
        );
        proof {
            assert forall|firm: Set<Position>|
                decided(
                    #[trigger] frozen(
                        &solver.level,
                        crate_positions@,
                        *crate_position,
                        before,
                        firm,
                    ),
                    left_right,
                    visited@.to_set(),
                ) by {
                let v = axis_blocked(
                    &solver.level,
                    crate_positions@,
                    *crate_position,
                    Direction::Up,
                    Direction::Down,
                    seen,
                    firm.insert(*crate_position),
                );
                assert(decided(v, true, middle));
                assert(decided(
                    axis_blocked(
                        &solver.level,
                        crate_positions@,
                        *crate_position,
                        Direction::Left,
                        Direction::Right,
                        middle,
                        v.firm,
                    ),
                    left_right,
                    visited@.to_set(),
                ));
            }
        }
        left_right
    }
}

/// Whether a wall or a box of `f` stands on either side of `p` along the
/// axis of `d0` and `d1`.
pub open spec fn axis_stuck(
    level: &Level,
    f: Set<Position>,
    p: Position,
    d0: Direction,
    d1: Direction,
) -> bool {
    level.is_wall(p.step(d0)) || level.is_wall(p.step(d1)) || f.contains(p.step(d0)) || f.contains(
        p.step(d1),
    )
}

/// Whether the box at `p` is blocked along both axes by walls or boxes of `f`.
pub open spec fn stuck_at(level: &Level, f: Set<Position>, p: Position) -> bool {
    axis_stuck(level, f, p, Direction::Up, Direction::Down) && axis_stuck(
        level,
        f,
        p,
        Direction::Left,
        Direction::Right,
    )
}

/// Whether the boxes of `f` block one another: each is blocked along both
/// axes by walls or by boxes of `f`.
pub open spec fn stuck_set(level: &Level, f: Set<Position>) -> bool {
    forall|q: Position| f.contains(q) ==> #[trigger] stuck_at(level, f, q)
}

/// Whether a placement is sound: the player stands off the walls and off
/// the boxes, and no box stands on a wall.
pub open spec fn sound(level: &Level, c: Placement) -> bool {
    &&& !level.is_wall(c.player)
    &&& !c.boxes.contains(c.player)
    &&& forall|q: Position| #[trigger] c.boxes.contains(q) ==> !level.is_wall(q)
}

/// Whether every cell of `after` that is not in `before` holds a box that
/// is blocked along both axes by walls or by boxes of `after`.
pub open spec fn newly_stuck(
    level: &Level,
    boxes: Seq<Position>,
    before: Set<Position>,
    after: Set<Position>,
) -> bool {
    &&& before.subset_of(after)
    &&& forall|q: Position| #[trigger] after.contains(q) && !before.contains(q) ==> boxes.contains(q)
    &&& forall|q: Position|
        after.contains(q) && !before.contains(q) ==> #[trigger] stuck_at(level, after, q)
}

/// A clean verdict on the box at `p` makes it firm, and every box that it
/// makes firm is blocked along both axes by walls or by firm boxes; a
/// verdict that is not clean makes no box firm.
pub proof fn lemma_frozen_clean(
    level: &Level,
    boxes: Seq<Position>,
    p: Position,
    visited: Set<Position>,
    firm: Set<Position>,
)
    ensures
        ({
            let r = frozen(level, boxes, p, visited, firm);
            &&& r.clean ==> r.frozen && r.firm.contains(p) && newly_stuck(
                level,
                boxes,
                firm,
                r.firm,
            )
            &&& !r.clean ==> r.firm == firm
        }),
    decreases unvisited(boxes, visited), 0nat,
{
    let r = frozen(level, boxes, p, visited, firm);
    if !visited.contains(p) && boxes.contains(p) {
        let seen = visited.insert(p);
        let held = firm.insert(p);
        lemma_unvisited_insert(boxes, visited, p);
        let v = axis_blocked(level, boxes, p, Direction::Up, Direction::Down, seen, held);
        lemma_axis_clean(level, boxes, p, Direction::Up, Direction::Down, seen, held);
        if v.frozen {
            lemma_unvisited_mono(boxes, seen, v.visited.union(seen));
            let h = axis_blocked(
                level,
                boxes,
                p,
                Direction::Left,
                Direction::Right,
                v.visited.union(seen),
                v.firm,
            );
            lemma_axis_clean(
                level,
                boxes,
                p,
                Direction::Left,
                Direction::Right,
                v.visited.union(seen),
                v.firm,
            );
            if r.clean {
                assert forall|q: Position| r.firm.contains(q) && !firm.contains(q) implies #[trigger] stuck_at(
                    level,
                    r.firm,
                    q,
                ) by {
                    if q == p {
                    } else if v.firm.contains(q) {
                        assert(stuck_at(level, v.firm, q));
                    } else {
                        assert(stuck_at(level, h.firm, q));
                    }
                }
                assert forall|q: Position|
                    #[trigger] r.firm.contains(q) && !firm.contains(q) implies boxes.contains(q) by {
                    if q != p && !v.firm.contains(q) {
                        assert(h.firm.contains(q));
                    }
                }
            }
        }
    }
}

/// A clean verdict on an axis of the box at `p` means that a wall or a firm
/// box stands on one side of `p`, and every box that it makes firm is
/// blocked along both axes by walls or by firm boxes; a verdict that is
/// not clean makes no box firm.
pub proof fn lemma_axis_clean(
    level: &Level,
    boxes: Seq<Position>,
    p: Position,
    d0: Direction,
    d1: Direction,
    seen: Set<Position>,
    firm: Set<Position>,
)
    ensures
        ({
            let r = axis_blocked(level, boxes, p, d0, d1, seen, firm);
            &&& r.clean ==> r.frozen && axis_stuck(level, r.firm, p, d0, d1) && newly_stuck(
                level,
                boxes,
                firm,
                r.firm,
            )
            &&& !r.clean ==> r.firm == firm
        }),
    decreases unvisited(boxes, seen), 1nat,
{
    let n0 = p.step(d0);
    let n1 = p.step(d1);
    if !(level.is_wall(n0) || level.is_wall(n1)) {
        if boxes.contains(n0) {
            lemma_frozen_clean(level, boxes, n0, seen, firm);
        }
        let a = if boxes.contains(n0) {
            frozen(level, boxes, n0, seen, firm)
        } else {
            Verdict { frozen: false, visited: seen, firm, clean: false }
        };
        if !a.frozen && boxes.contains(n1) {
            lemma_unvisited_mono(boxes, seen, a.visited.union(seen));
            lemma_frozen_clean(level, boxes, n1, a.visited.union(seen), firm);
        }
    }
}

/// An action that the rules allow moves no box of a set of boxes that block
/// one another.
pub proof fn lemma_stuck_act(level: &Level, c: Placement, f: Set<Position>, a: Action)
    requires
        sound(level, c),
        f.subset_of(c.boxes),
        stuck_set(level, f),
        act(level, c, a) is Some,
    ensures
        sound(level, act(level, c, a).unwrap()),
        f.subset_of(act(level, c, a).unwrap().boxes),
{
    match a {
        Action::Move(d) => {},
        Action::Push(d) => {
            let b = c.player.step(d);
            let t = b.step(d);
            assert(b.step(d.opposite()) == c.player);
            if f.contains(b) {
                assert(stuck_at(level, f, b));
                assert(c.boxes.contains(t) || !f.contains(t));
                assert(c.boxes.contains(c.player) || !f.contains(c.player));
            }
        },
    }
}

/// No sequence of actions that the rules allow moves a box of a set of
/// boxes that block one another.
pub proof fn lemma_stuck_replay(level: &Level, c: Placement, f: Set<Position>, actions: Seq<Action>)
    requires
        sound(level, c),
        f.subset_of(c.boxes),
        stuck_set(level, f),
        replay(level, c, actions) is Some,
    ensures
        sound(level, replay(level, c, actions).unwrap()),
        f.subset_of(replay(level, c, actions).unwrap().boxes),
    decreases actions.len(),
{
    if actions.len() > 0 {
        lemma_stuck_replay(level, c, f, actions.drop_last());
        lemma_stuck_act(level, replay(level, c, actions.drop_last()).unwrap(), f, actions.last());
    }
}

/// Whether the actions so far were allowed and a box stands on `p`.
pub open spec fn stays(c: Option<Placement>, p: Position) -> bool {
    match c {
        Some(m) => m.boxes.contains(p),
        None => false,
    }
}

/// Where the detector is sound: where it finds the box at `p` frozen and
/// its verdict is clean, that is, rests on no box that was visited before
/// and found free, no sequence of actions that the rules allow ever moves
/// the box from `p`. A verdict that is not clean can be wrong: a box that
/// was found free may move away and free the box that rested on it.
pub proof fn clean_freeze_is_final(
    level: &Level,
    boxes: Seq<Position>,
    p: Position,
    c: Placement,
    actions: Seq<Action>,
)
    requires
        sound(level, c),
        c.boxes == boxes.to_set(),
        frozen(level, boxes, p, Set::empty(), Set::empty()).clean,
        replay(level, c, actions) is Some,
    ensures
        frozen(level, boxes, p, Set::empty(), Set::empty()).frozen,
        replay(level, c, actions).unwrap().boxes.contains(p),
        forall|k: int|
            0 <= k <= actions.len() ==> stays(
                #[trigger] replay(level, c, actions.subrange(0, k)),
                p,
            ),
{
    let f = frozen(level, boxes, p, Set::empty(), Set::empty()).firm;
    lemma_frozen_clean(level, boxes, p, Set::empty(), Set::empty());
    assert(newly_stuck(level, boxes, Set::empty(), f));
    assert(stuck_set(level, f));
    assert forall|q: Position| f.contains(q) implies c.boxes.contains(q) by {
        assert(boxes.contains(q));
    }
    lemma_stuck_replay(level, c, f, actions);
    assert forall|k: int| 0 <= k <= actions.len() implies stays(
        #[trigger] replay(level, c, actions.subrange(0, k)),
        p,
    ) by {
        let front = actions.subrange(0, k);
        let back = actions.subrange(k, actions.len() as int);
        assert(actions =~= front + back);
        crate::rules::lemma_replay_concat(level, c, front, back);
        lemma_stuck_replay(level, c, f, front);
    }
}

} // verus!
