//! The successor generator: every push that the player can make from a
//! state, each with the walk that leads to it.

use crate::actions::{count_pushes, lemma_count_concat, Actions};
use crate::deadlock::frozen;
use crate::level::{copy_list, has_flag, intersects, list_contains, strictly_sorted, Level, TARGET};
use crate::path_finding::{a_star, find_path};
use crate::position::{
    adjacent, direction_to, lemma_direction_to, manhattan, Action, Direction, Position,
};
use crate::rules::{act, lemma_replay_concat, lemma_replay_push, replay, Placement};
use crate::solver::{in_tunnel, tunnels_marked, Solver};
use crate::state::{blocks_crate, heuristic_of, lower_bound_of, State, LIMIT};
use crate::walk::{connected, is_walk, obstacles, shortest_walk, walk_between};
use vstd::prelude::*;

verus! {

/// The direction of the step from `a` to `b`; `Up` where they are no neighbours.
pub open spec fn step_direction(a: Position, b: Position) -> Direction {
    match direction_to(a, b) {
        Some(d) => d,
        None => Direction::Up,
    }
}

/// The moves that take the player along a walk.
pub open spec fn walk_moves(path: Seq<Position>) -> Seq<Action>
    decreases path.len(),
{
    if path.len() <= 1 {
        Seq::empty()
    } else {
        walk_moves(path.drop_last()).push(
            Action::Move(step_direction(path[path.len() - 2], path.last())),
        )
    }
}

/// `k` pushes in direction `d`.
pub open spec fn pushes(d: Direction, k: int) -> Seq<Action> {
    Seq::new(k as nat, |i: int| Action::Push(d))
}

/// Whether `p` lies `k` steps from `b` in direction `d`.
pub open spec fn on_ray(b: Position, d: Direction, k: int, p: Position) -> bool {
    match d {
        Direction::Up => p.x == b.x && p.y == b.y - k,
        Direction::Down => p.x == b.x && p.y == b.y + k,
        Direction::Left => p.x == b.x - k && p.y == b.y,
        Direction::Right => p.x == b.x + k && p.y == b.y,
    }
}

/// The number of steps in direction `d` that lead from `p` out of the grid.
pub open spec fn room(level: &Level, p: Position, d: Direction) -> nat {
    if level.in_bounds(p) {
        match d {
            Direction::Up => (p.y + 1) as nat,
            Direction::Down => (level.height - p.y) as nat,
            Direction::Left => (p.x + 1) as nat,
            Direction::Right => (level.width - p.x) as nat,
        }
    } else {
        0
    }
}

/// Where a box that has been pushed to `p` in direction `d` comes to rest:
/// while the cell behind it is a tunnel cell for `d` and the cell ahead does
/// not stop a box, it is pushed on.
pub open spec fn chain_end(solver: &Solver, boxes: Seq<Position>, d: Direction, p: Position) -> Position
    decreases room(&solver.level, p, d),
{
    if solver.level.in_bounds(p) && in_tunnel(&solver.level, p.step(d.opposite()), d)
        && !blocks_crate(solver, boxes, p.step(d)) {
        chain_end(solver, boxes, d, p.step(d))
    } else {
        p
    }
}

/// The number of boxes of a list that come before `p` in row-major order.
pub open spec fn rank(s: Seq<Position>, p: Position) -> int
    decreases s.len(),
{
    if s.len() == 0 {
        0
    } else {
        rank(s.drop_last(), p) + if s.last().before(p) {
            1int
        } else {
            0int
        }
    }
}

/// The list of boxes after box `i` has gone to the cell `to`.
pub open spec fn with_box_moved(boxes: Seq<Position>, i: int, to: Position) -> Seq<Position> {
    let rest = boxes.remove(i);
    rest.insert(rank(rest, to), to)
}

/// What a push leads to: the player's cell, the boxes, and the actions
/// from the level's opening.
pub struct Outcome {
    pub player: Position,
    pub boxes: Seq<Position>,
    pub actions: Seq<Action>,
}

/// Whether the box that has come to rest on `end` is frozen there, off the
/// targets.
pub open spec fn rests_frozen(level: &Level, moved: Seq<Position>, end: Position) -> bool {
    !has_flag(level.tile(end), TARGET) && frozen(
        level,
        moved,
        end,
        Set::empty(),
        Set::empty(),
    ).frozen
}

/// What follows once box `i` has been pushed in direction `d` to the cell
/// `end`, by the actions `actions` in all: nothing where the box is frozen
/// there off the targets, or where the number of actions or the lower
/// bound reaches the limit; else the new state's description.
pub open spec fn settled(
    solver: &Solver,
    boxes: Seq<Position>,
    i: int,
    d: Direction,
    end: Position,
    actions: Seq<Action>,
) -> Option<Outcome> {
    let moved = with_box_moved(boxes, i, end);
    if rests_frozen(&solver.level, moved, end) {
        None
    } else if actions.len() >= LIMIT || lower_bound_of(&solver.lower_bounds, moved) >= LIMIT {
        None
    } else {
        Some(Outcome { player: end.step(d.opposite()), boxes: moved, actions })
    }
}

/// Whether the player can push box `i` in direction `d` at all: the cell
/// ahead of the box does not stop a box, and the cell behind it does not
/// stop the player and lies within the player's reach.
pub open spec fn pushable(
    solver: &Solver,
    player: Position,
    boxes: Seq<Position>,
    i: int,
    d: Direction,
) -> bool {
    let blocked = obstacles(&solver.level, boxes);
    let stand = boxes[i].step(d.opposite());
    &&& !blocks_crate(solver, boxes, boxes[i].step(d))
    &&& !blocked.contains(stand)
    &&& connected(blocked, player, stand)
}

/// The way that the player walks from `player` to the cell `stand`: the
/// walk that [`find_path`] returns, or the one cell `player` where there is
/// none.
pub open spec fn way(level: &Level, boxes: Seq<Position>, player: Position, stand: Position) -> Seq<
    Position,
> {
    match a_star(level, boxes, player, stand) {
        Some(walk) => walk,
        None => seq![player],
    }
}

/// What pushing box `i` in direction `d` leads to, or `None` where the
/// push is not made. After the actions `done` so far, the player walks the
/// way that [`find_path`] finds to the cell behind the box and pushes it;
/// the box is pushed on through a tunnel to where it comes to rest.
#[verifier::opaque]
pub open spec fn candidate(
    solver: &Solver,
    player: Position,
    boxes: Seq<Position>,
    done: Seq<Action>,
    i: int,
    d: Direction,
) -> Option<Outcome> {
    if pushable(solver, player, boxes, i, d) {
        let b = boxes[i];
        let end = chain_end(solver, boxes, d, b.step(d));
        let walk = way(&solver.level, boxes, player, b.step(d.opposite()));
        settled(
            solver,
            boxes,
            i,
            d,
            end,
            done + walk_moves(walk) + pushes(d, manhattan(b, end)),
        )
    } else {
        None
    }
}

/// The outcomes of the first `n` pushes tried: box after box in the order of
/// the list, and for each box the four directions in the order of
/// [`Direction::all`].
pub open spec fn expected(
    solver: &Solver,
    player: Position,
    boxes: Seq<Position>,
    done: Seq<Action>,
    n: nat,
) -> Seq<Outcome>
    decreases n,
{
    if n == 0 {
        Seq::empty()
    } else {
        let before = expected(solver, player, boxes, done, (n - 1) as nat);
        match candidate(
            solver,
            player,
            boxes,
            done,
            (n - 1) / 4,
            Direction::all()[(n - 1) % 4],
        ) {
            Some(o) => before.push(o),
            None => before,
        }
    }
}

/// Whether the state `t` is what the outcome `o` describes.
pub open spec fn fits(t: &State, o: Outcome) -> bool {
    &&& t.player_position == o.player
    &&& t.box_positions@ == o.boxes
    &&& t.movements@ == o.actions
}

/// Whether `t` comes from `s` by the walk `walk` and then `k` pushes in
/// direction `d`, which take one box from `b` to `e`: the walk is a walk of
/// the player around the walls and the boxes of `s`; the actions of `t` are
/// those of `s`, the moves of the walk and the pushes; replaying the new
/// actions from `s` is allowed by the rules and leads to `t`.
pub open spec fn successor_by(
    level: &Level,
    s: &State,
    t: &State,
    walk: Seq<Position>,
    d: Direction,
    k: int,
    b: Position,
    e: Position,
) -> bool {
    &&& k >= 1
    &&& walk_between(
        obstacles(level, s.box_positions@),
        s.player_position,
        b.step(d.opposite()),
        walk,
    )
    &&& t.movements@ == s.movements@ + (walk_moves(walk) + pushes(d, k))
    &&& s.box_positions@.contains(b)
    &&& on_ray(b, d, k, e)
    &&& on_ray(b, d, k - 1, t.player_position)
    &&& t.placement().boxes == s.placement().boxes.remove(b).insert(e)
    &&& replay(level, s.placement(), walk_moves(walk) + pushes(d, k)) == Some(t.placement())
}

/// Whether `t` comes from `s` by one walk of the player and then one or
/// more pushes of one box in one direction.
pub open spec fn successor_of(level: &Level, s: &State, t: &State) -> bool {
    exists|walk: Seq<Position>, d: Direction, k: int, b: Position, e: Position| #[trigger]
        successor_by(level, s, t, walk, d, k, b, e)
}

/// A walk is as many moves as it has steps, and no pushes.
pub proof fn lemma_walk_moves(path: Seq<Position>)
    requires
        path.len() > 0,
    ensures
        walk_moves(path).len() == path.len() - 1,
        count_pushes(walk_moves(path)) == 0,
    decreases path.len(),
{
    if path.len() > 1 {
        lemma_walk_moves(path.drop_last());
        assert(walk_moves(path).drop_last() =~= walk_moves(path.drop_last()));
    }
}

/// `k` pushes are `k` actions and `k` pushes.
pub proof fn lemma_pushes(d: Direction, k: int)
    requires
        k >= 0,
    ensures
        pushes(d, k).len() == k,
        count_pushes(pushes(d, k)) == k,
        k > 0 ==> pushes(d, k) == pushes(d, k - 1).push(Action::Push(d)),
    decreases k,
{
    if k > 0 {
        lemma_pushes(d, k - 1);
        assert(pushes(d, k).drop_last() =~= pushes(d, k - 1));
        assert(pushes(d, k) =~= pushes(d, k - 1).push(Action::Push(d)));
    }
}

/// The rules allow the moves of a walk around the walls and the boxes, and
/// they take the player to the end of the walk.
pub proof fn lemma_walk_replay(level: &Level, boxes: Seq<Position>, path: Seq<Position>)
    requires
        is_walk(obstacles(level, boxes), path),
    ensures
        replay(level, Placement { player: path[0], boxes: boxes.to_set() }, walk_moves(path))
            == Some(Placement { player: path.last(), boxes: boxes.to_set() }),
    decreases path.len(),
{
    let start = Placement { player: path[0], boxes: boxes.to_set() };
    if path.len() > 1 {
        let front = path.drop_last();
        assert forall|i: int| 0 < i < front.len() implies adjacent(front[i - 1], #[trigger] front[i])
            && !obstacles(level, boxes).contains(front[i]) by {
            assert(front[i] == path[i]);
            assert(front[i - 1] == path[i - 1]);
        }
        lemma_walk_replay(level, boxes, front);
        let a = path[path.len() - 2];
        let b = path.last();
        assert(adjacent(a, b) && !obstacles(level, boxes).contains(b));
        lemma_direction_to(a, b);
        lemma_replay_push(level, start, walk_moves(front), Action::Move(step_direction(a, b)));
        assert(front.last() == a);
        assert(front[0] == path[0]);
    }
}

/// The rank of a cell in a list in row-major order is the place where the
/// cells before it end.
pub proof fn lemma_rank_at(s: Seq<Position>, p: Position, k: int)
    requires
        0 <= k <= s.len(),
        forall|j: int| 0 <= j < k ==> (#[trigger] s[j]).before(p),
        forall|j: int| k <= j < s.len() ==> !(#[trigger] s[j]).before(p),
    ensures
        rank(s, p) == k,
    decreases s.len(),
{
    if s.len() > 0 {
        let front = s.drop_last();
        if k == s.len() {
            lemma_rank_at(front, p, k - 1);
        } else {
            lemma_rank_at(front, p, k);
        }
    }
}

/// Taking a cell out of a list in row-major order and putting another in at
/// its rank gives a list in row-major order with those cells.
pub proof fn lemma_box_moved(boxes: Seq<Position>, i: int, to: Position, k: int)
    requires
        strictly_sorted(boxes),
        0 <= i < boxes.len(),
        !boxes.contains(to),
        0 <= k <= boxes.len() - 1,
        forall|j: int| 0 <= j < k ==> (#[trigger] boxes.remove(i)[j]).before(to),
        forall|j: int| k <= j < boxes.len() - 1 ==> !(#[trigger] boxes.remove(i)[j]).before(to),
    ensures
        with_box_moved(boxes, i, to) == boxes.remove(i).insert(k, to),
        strictly_sorted(with_box_moved(boxes, i, to)),
        with_box_moved(boxes, i, to).to_set() == boxes.to_set().remove(boxes[i]).insert(to),
        with_box_moved(boxes, i, to).len() == boxes.len(),
{
    let rest = boxes.remove(i);
    lemma_rank_at(rest, to, k);
    let r = rest.insert(k, to);
    assert forall|j: int| 0 <= j < rest.len() implies #[trigger] rest[j] == boxes[if j < i {
        j
    } else {
        j + 1
    }] by {}
    assert forall|a: int, c: int| 0 <= a < c < r.len() implies (#[trigger] r[a]).before(
        #[trigger] r[c],
    ) by {
        let ra = if a < k {
            a
        } else {
            a - 1
        };
        let rc = if c < k {
            c
        } else {
            c - 1
        };
        if a == k {
            assert(r[c] == rest[rc]);
            assert(!rest[rc].before(to));
            assert(boxes.contains(rest[rc]));
        } else if c == k {
            assert(r[a] == rest[ra]);
        } else {
            assert(r[a] == rest[ra]);
            assert(r[c] == rest[rc]);
            assert(ra < rc);
            let ba = if ra < i {
                ra
            } else {
                ra + 1
            };
            let bc = if rc < i {
                rc
            } else {
                rc + 1
            };
            assert(rest[ra] == boxes[ba]);
            assert(rest[rc] == boxes[bc]);
        }
    }
    assert forall|p: Position|
        r.to_set().contains(p) <==> boxes.to_set().remove(boxes[i]).insert(to).contains(p) by {
        if r.contains(p) {
            let j = choose|j: int| 0 <= j < r.len() && r[j] == p;
            if j != k {
                let rj = if j < k {
                    j
                } else {
                    j - 1
                };
                assert(r[j] == rest[rj]);
                let bj = if rj < i {
                    rj
                } else {
                    rj + 1
                };
                assert(rest[rj] == boxes[bj]);
                assert(boxes.contains(p));
                if bj < i {
                    assert(boxes[bj].before(boxes[i]));
                } else {
                    assert(boxes[i].before(boxes[bj]));
                }
            }
        }
        if p == to {
            assert(r[k] == to);
        } else if boxes.contains(p) && p != boxes[i] {
            let bj = choose|j: int| 0 <= j < boxes.len() && boxes[j] == p;
            let rj = if bj < i {
                bj
            } else {
                bj - 1
            };
            assert(rest[rj] == p);
            let j = if rj < k {
                rj
            } else {
                rj + 1
            };
            assert(r[j] == p);
        }
    }
    assert(r.to_set() =~= boxes.to_set().remove(boxes[i]).insert(to));
}

/// The list of boxes after box `i` has gone to the cell `to`, on which no
/// box stands.
pub fn move_box(boxes: &Vec<Position>, i: usize, to: Position) -> (r: Vec<Position>)
    requires
        strictly_sorted(boxes@),
        i < boxes@.len(),
        !boxes@.contains(to),
    ensures
        r@ == with_box_moved(boxes@, i as int, to),
        strictly_sorted(r@),
        r@.to_set() == boxes@.to_set().remove(boxes@[i as int]).insert(to),
        r@.len() == boxes@.len(),
{
    let mut r = copy_list(boxes);
    r.remove(i);
    let ghost rest = r@;
    assert forall|j: int| 0 <= j < rest.len() implies #[trigger] rest[j] == boxes@[if j < i {
        j
    } else {
        j + 1
    }] by {}
    let mut k: usize = 0;
    while k < r.len() && r[k].is_before(&to)
        invariant
            k <= r@.len(),
            r@ == rest,
            forall|j: int| 0 <= j < k ==> (#[trigger] rest[j]).before(to),
        decreases r@.len() - k,
    {
        k = k + 1;
    }
    proof {
        assert forall|j: int| k <= j < rest.len() implies !(#[trigger] rest[j]).before(to) by {
            if j > k {
                let bk = if k < i {
                    k as int
                } else {
                    k + 1
                };
                let bj = if j < i {
                    j
                } else {
                    j + 1
                };
                assert(rest[k as int] == boxes@[bk]);
                assert(rest[j] == boxes@[bj]);
                assert(boxes@[bk].before(boxes@[bj]));
            }
        }
        lemma_box_moved(boxes@, i as int, to, k as int);
    }
    r.insert(k, to);
    r
}

/// Appends to `movements` the moves that take the player along `path`.
pub fn append_walk(movements: &mut Actions, path: &Vec<Position>)
    requires
        old(movements).wf(),
    ensures
        final(movements).wf(),
        final(movements)@ == old(movements)@ + walk_moves(path@),
{
    assert(movements@ =~= old(movements)@ + walk_moves(path@.subrange(0, 0)));
    if path.len() == 0 {
        assert(path@.subrange(0, 0) =~= path@);
        return ;
    }
    assert(movements@ =~= old(movements)@ + walk_moves(path@.subrange(0, 1)));
    let mut i: usize = 1;
    while i < path.len()
        invariant
            1 <= i <= path@.len(),
            movements.wf(),
            movements@ == old(movements)@ + walk_moves(path@.subrange(0, i as int)),
        decreases path@.len() - i,
    {
        let d = match Direction::between(path[i - 1], path[i]) {
            Some(d) => d,
            None => Direction::Up,
        };
        movements.push(Action::Move(d));
        proof {
            let next = path@.subrange(0, i + 1);
            assert(next.drop_last() =~= path@.subrange(0, i as int));
            assert(next[next.len() - 2] == path@[i - 1]);
            assert(movements@ =~= old(movements)@ + walk_moves(next));
        }
        i = i + 1;
    }
    assert(path@.subrange(0, i as int) =~= path@);
}

/// Walks the player from `player` to `stand`: appends the moves of a
/// shortest walk to a copy of `movements` and returns it with the walk.
fn approach(
    level: &Level,
    player: Position,
    boxes: &Vec<Position>,
    movements: &Actions,
    stand: Position,
) -> (r: (Actions, Ghost<Seq<Position>>))
    requires
        level.shape_ok(),
        level.in_bounds(player),
        movements.wf(),
        connected(obstacles(level, boxes@), player, stand),
    ensures
        r.0.wf(),
        r.0@ == movements@ + walk_moves(r.1@),
        shortest_walk(obstacles(level, boxes@), player, stand, r.1@),
        r.1@ == way(level, boxes@, player, stand),
{
    let mut new_movements = movements.duplicate();
    match find_path(&player, &stand, level, boxes) {
        Some(path) => {
            append_walk(&mut new_movements, &path);
            (new_movements, Ghost(path@))
        },
        None => (new_movements, Ghost(Seq::empty())),
    }
}

/// One push is allowed where the player stands behind a box and the cell
/// ahead of the box holds neither a wall nor a box.
proof fn lemma_push_allowed(
    level: &Level,
    boxes: Set<Position>,
    b: Position,
    d: Direction,
    k: int,
    at: Position,
    next: Position,
)
    requires
        k >= 1,
        boxes.contains(b),
        on_ray(b, d, k - 1, at),
        on_ray(b, d, k, next),
        level.in_bounds(at),
        level.in_bounds(next),
        !level.is_wall(next),
        !boxes.contains(next),
        k > 1 ==> !boxes.contains(at),
    ensures
        act(
            level,
            Placement { player: at.step(d.opposite()), boxes: boxes.remove(b).insert(at) },
            Action::Push(d),
        ) == Some(Placement { player: at, boxes: boxes.remove(b).insert(next) }),
        next.step(d.opposite()) == at,
        at.step(d) == next,
{
    let here = Placement { player: at.step(d.opposite()), boxes: boxes.remove(b).insert(at) };
    assert(here.player.step(d) == at);
    assert(at.step(d) == next);
    assert(boxes.remove(b).insert(at).remove(at).insert(next) =~= boxes.remove(b).insert(next));
}

/// Pushes the box at `b` in direction `d`, and on through a tunnel: appends
/// the pushes to `movements` and returns the cell where the box comes to
/// rest, with the number of pushes.
fn push_on(
    solver: &Solver,
    boxes: &Vec<Position>,
    b: Position,
    d: Direction,
    movements: &mut Actions,
) -> (r: (Position, Ghost<int>))
    requires
        solver.level.shape_ok(),
        tunnels_marked(&solver.level),
        solver.lower_bounds.shape_ok(),
        solver.lower_bounds.width == solver.level.width,
        solver.lower_bounds.height == solver.level.height,
        old(movements).wf(),
        boxes@.contains(b),
        solver.level.in_bounds(b),
        !blocks_crate(solver, boxes@, b.step(d)),
    ensures
        final(movements).wf(),
        r.1@ >= 1,
        final(movements)@ == old(movements)@ + pushes(d, r.1@),
        on_ray(b, d, r.1@, r.0),
        solver.level.in_bounds(r.0),
        !blocks_crate(solver, boxes@, r.0),
        r.1@ > 1 ==> !blocks_crate(solver, boxes@, r.0.step(d.opposite())),
        r.0 == chain_end(solver, boxes@, d, b.step(d)),
        replay(
            &solver.level,
            Placement { player: b.step(d.opposite()), boxes: boxes@.to_set() },
            pushes(d, r.1@),
        ) == Some(
            Placement {
                player: r.0.step(d.opposite()),
                boxes: boxes@.to_set().remove(b).insert(r.0),
            },
        ),
{
    let level = &solver.level;
    let back = d.reverse();
    let ghost set = boxes@.to_set();
    let ghost start = Placement { player: b.step(d.opposite()), boxes: set };
    let ghost first = b.step(d);
    let mut end = match b.neighbor(d) {
        Some(p) => p,
        None => b,
    };
    movements.push(Action::Push(d));
    proof {
        lemma_pushes(d, 1);
        lemma_pushes(d, 0);
        assert(pushes(d, 0) =~= Seq::<Action>::empty());
        assert(movements@ =~= old(movements)@ + pushes(d, 1));
        assert(set.remove(b).insert(b) =~= set);
        lemma_push_allowed(level, set, b, d, 1, b, first);
        lemma_replay_push(level, start, pushes(d, 0), Action::Push(d));
    }
    let mut going = true;
    let ghost mut k: int = 1;
    while going
        invariant
            level == &solver.level,
            level.shape_ok(),
            tunnels_marked(&solver.level),
            solver.lower_bounds.shape_ok(),
            solver.lower_bounds.width == level.width,
            solver.lower_bounds.height == level.height,
            set == boxes@.to_set(),
            start == (Placement { player: b.step(d.opposite()), boxes: set }),
            back == d.opposite(),
            boxes@.contains(b),
            level.in_bounds(b),
            k >= 1,
            on_ray(b, d, k, end),
            level.in_bounds(end),
            !blocks_crate(solver, boxes@, end),
            k > 1 ==> !blocks_crate(solver, boxes@, end.step(d.opposite())),
            movements.wf(),
            movements@ == old(movements)@ + pushes(d, k),
            replay(level, start, pushes(d, k)) == Some(
                Placement { player: end.step(d.opposite()), boxes: set.remove(b).insert(end) },
            ),
            chain_end(solver, boxes@, d, end) == chain_end(solver, boxes@, d, b.step(d)),
            !going ==> chain_end(solver, boxes@, d, end) == end,
        decreases
                room(level, end, d),
                if going {
                    1nat
                } else {
                    0nat
                },
    {
        let behind = match end.neighbor(back) {
            Some(p) => p,
            None => end,
        };
        let next = match end.neighbor(d) {
            Some(p) => p,
            None => end,
        };
        if solver.tunnels_contain(behind, d) && !is_crate_blocked(solver, boxes, next) {
            proof {
                lemma_replay_push(level, start, pushes(d, k), Action::Push(d));
                lemma_pushes(d, k + 1);
                assert(movements@.push(Action::Push(d)) =~= old(movements)@ + pushes(d, k + 1));
                lemma_push_allowed(level, set, b, d, k + 1, end, next);
            }
            end = next;
            movements.push(Action::Push(d));
            proof {
                k = k + 1;
            }
        } else {
            going = false;
        }
    }
    (end, Ghost(k))
}

/// Decides [`blocks_crate`].
pub fn is_crate_blocked(solver: &Solver, boxes: &Vec<Position>, p: Position) -> (b: bool)
    requires
        solver.level.shape_ok(),
        solver.lower_bounds.shape_ok(),
    ensures
        b == blocks_crate(solver, boxes@, p),
{
    solver.level.wall_at(p) || !solver.lower_bounds().contains_key(&p) || list_contains(boxes, p)
}

/// Decides [`rests_frozen`].
fn is_rest_frozen(solver: &Solver, moved: &Vec<Position>, end: Position) -> (b: bool)
    requires
        solver.level.shape_ok(),
        forall|i: int| 0 <= i < moved@.len() ==> solver.level.in_bounds(#[trigger] moved@[i]),
        moved@.contains(end),
    ensures
        b == rests_frozen(&solver.level, moved@, end),
{
    if intersects(solver.level.tile_at(end), TARGET) {
        false
    } else {
        let mut visited: Vec<Position> = Vec::new();
        assert(visited@.to_set() =~= Set::<Position>::empty());
        let b = State::is_freeze_deadlock(&end, moved, solver, &mut visited);
        assert(crate::deadlock::decided(
            frozen(&solver.level, moved@, end, Set::empty(), Set::empty()),
            b,
            visited@.to_set(),
        ));
        b
    }
}

/// The boxes after one of them has gone to a free cell of the grid still
/// stand in the grid and off the walls.
proof fn lemma_moved_in_grid(level: &Level, boxes: Seq<Position>, moved: Seq<Position>, b: Position, end: Position)
    requires
        forall|i: int|
            0 <= i < boxes.len() ==> level.in_bounds(#[trigger] boxes[i]) && !level.is_wall(
                boxes[i],
            ),
        moved.to_set() == boxes.to_set().remove(b).insert(end),
        level.in_bounds(end),
        !level.is_wall(end),
    ensures
        forall|i: int|
            0 <= i < moved.len() ==> level.in_bounds(#[trigger] moved[i]) && !level.is_wall(
                moved[i],
            ),
        moved.contains(end),
{
    assert forall|j: int| 0 <= j < moved.len() implies level.in_bounds(#[trigger] moved[j])
        && !level.is_wall(moved[j]) by {
        let q = moved[j];
        assert(moved.contains(q));
        assert(moved.to_set().contains(q));
        if q != end {
            assert(boxes.to_set().contains(q));
            let m = choose|m: int| 0 <= m < boxes.len() && boxes[m] == q;
            assert(level.in_bounds(boxes[m]));
        }
    }
    assert(moved.to_set().contains(end));
}

/// What makes `t` a successor of `s`: the walk, then the pushes.
proof fn lemma_is_successor(
    level: &Level,
    s: &State,
    t: &State,
    path: Seq<Position>,
    d: Direction,
    k: int,
    b: Position,
    end: Position,
)
    requires
        k >= 1,
        walk_between(
            obstacles(level, s.box_positions@),
            s.player_position,
            b.step(d.opposite()),
            path,
        ),
        s.box_positions@.contains(b),
        on_ray(b, d, k, end),
        t.player_position == end.step(d.opposite()),
        level.in_bounds(end),
        level.in_bounds(b),
        t.box_positions@.to_set() == s.box_positions@.to_set().remove(b).insert(end),
        t.movements@ == s.movements@ + walk_moves(path) + pushes(d, k),
        replay(
            level,
            Placement { player: b.step(d.opposite()), boxes: s.box_positions@.to_set() },
            pushes(d, k),
        ) == Some(
            Placement {
                player: end.step(d.opposite()),
                boxes: s.box_positions@.to_set().remove(b).insert(end),
            },
        ),
    ensures
        successor_by(level, s, t, path, d, k, b, end),
        successor_of(level, s, t),
{
    lemma_walk_replay(level, s.box_positions@, path);
    lemma_replay_concat(level, s.placement(), walk_moves(path), pushes(d, k));
    assert(t.movements@ =~= s.movements@ + (walk_moves(path) + pushes(d, k)));
    assert(on_ray(b, d, k - 1, t.player_position));
    assert(successor_by(level, s, t, path, d, k, b, end));
}

impl State {
    /// Ends a push that has taken box `i` in direction `d` to the cell `end`:
    /// returns the state reached with the actions `movements`, unless the
    /// box is frozen there off the targets or a count reaches the limit.
    pub fn settle(
        &self,
        solver: &Solver,
        i: usize,
        d: Direction,
        end: Position,
        movements: Actions,
    ) -> (r: Option<State>)
        requires
            solver.level.shape_ok(),
            solver.lower_bounds.shape_ok(),
            strictly_sorted(self.box_positions@),
            forall|j: int|
                0 <= j < self.box_positions@.len() ==> solver.level.in_bounds(
                    #[trigger] self.box_positions@[j],
                ) && !solver.level.is_wall(self.box_positions@[j]),
            i < self.box_positions@.len(),
            solver.level.in_bounds(end),
            !blocks_crate(solver, self.box_positions@, end),
            movements.wf(),
        ensures
            match settled(
                solver,
                self.box_positions@,
                i as int,
                d,
                end,
                movements@,
            ) {
                None => r is None,
                Some(o) => r matches Some(t) && fits(&t, o) && t.movements@ == movements@
                    && t.movements.wf() && t.lower_bound == lower_bound_of(
                    &solver.lower_bounds,
                    o.boxes,
                ) && t.lower_bound < LIMIT && t.heuristic == heuristic_of(
                    solver.strategy,
                    t.lower_bound as nat,
                    o.actions.len(), count_pushes(o.actions),
                ) && strictly_sorted(t.box_positions@) && t.box_positions@.len()
                    == self.box_positions@.len() && t.box_positions@.to_set()
                    == self.box_positions@.to_set().remove(self.box_positions@[i as int]).insert(
                    end,
                ) && (forall|j: int|
                    0 <= j < t.box_positions@.len() ==> solver.level.in_bounds(
                        #[trigger] t.box_positions@[j],
                    ) && !solver.level.is_wall(t.box_positions@[j])),
            },
    {
        let boxes2 = move_box(&self.box_positions, i, end);
        proof {
            lemma_moved_in_grid(
                &solver.level,
                self.box_positions@,
                boxes2@,
                self.box_positions@[i as int],
                end,
            );
        }
        if is_rest_frozen(solver, &boxes2, end) {
            return None;
        }
        if movements.moves() >= LIMIT {
            return None;
        }
        let bound = State::calculate_lower_bound(&boxes2, solver);
        if bound >= LIMIT {
            return None;
        }
        let player2 = match end.neighbor(d.reverse()) {
            Some(p) => p,
            None => end,
        };
        Some(State::new(player2, boxes2, movements, solver))
    }

    /// Tries to push box `i` in direction `d`: walks the player behind the
    /// box, pushes it, pushes it on through a tunnel, and returns the state
    /// reached, unless the push is not made. `area` is the player's
    /// reachable area.
    pub fn push_crate(&self, solver: &Solver, area: &Vec<Position>, i: usize, d: Direction) -> (r:
        Option<State>)
        requires
            solver.context_ok(),
            self.wf(solver),
            i < self.box_positions@.len(),
            forall|p: Position| #[trigger]
                area@.contains(p) <==> connected(
                    obstacles(&solver.level, self.box_positions@),
                    self.player_position,
                    p,
                ),
        ensures
            match candidate(
                solver,
                self.player_position,
                self.box_positions@,
                self.movements@,
                i as int,
                d,
            ) {
                None => r is None,
                Some(o) => r matches Some(t) && fits(&t, o) && t.wf(solver) && successor_of(
                    &solver.level,
                    self,
                    &t,
                ) && t.box_positions@.len() == self.box_positions@.len() && t.heuristic
                    == heuristic_of(solver.strategy, t.lower_bound as nat, o.actions.len(), count_pushes(o.actions)),
            },
    {
        let level = &solver.level;
        let b = self.box_positions[i];
        let ghost boxes = self.box_positions@;
        let ghost blocked = obstacles(level, boxes);
        proof {
            reveal(candidate);
        }
        assert(boxes.contains(b));
        assert(level.in_bounds(b) && !level.is_wall(b));
        let first = match b.neighbor(d) {
            Some(p) => p,
            None => b,
        };
        if is_crate_blocked(solver, &self.box_positions, first) {
            return None;
        }
        let stand = match b.neighbor(d.reverse()) {
            Some(p) => p,
            None => b,
        };
        if self.can_block_player(stand, solver) || !list_contains(area, stand) {
            return None;
        }
        assert(pushable(solver, self.player_position, boxes, i as int, d));
        let (mut new_movements, Ghost(path)) = approach(
            level,
            self.player_position,
            &self.box_positions,
            &self.movements,
            stand,
        );
        let ghost walked = new_movements@;
        let (end, Ghost(k)) = push_on(solver, &self.box_positions, b, d, &mut new_movements);
        proof {
            lemma_walk_moves(path);
            lemma_pushes(d, k);
            lemma_count_concat(self.movements@, walk_moves(path));
            lemma_count_concat(walked, pushes(d, k));
            assert(k == manhattan(b, end));
        }
        let r = self.settle(solver, i, d, end, new_movements);
        proof {
            if let Some(t) = &r {
                lemma_is_successor(level, self, t, path, d, k, b, end);
                assert(on_ray(b, d, k - 1, t.player_position));
                assert(!t.box_positions@.to_set().contains(t.player_position));
                assert(!t.box_positions@.contains(t.player_position));
                assert(!level.is_wall(t.player_position));
                assert(level.in_bounds(t.player_position));
            }
        }
        r
    }
}

/// Whether `t` is the successor of `s` that the outcome `o` describes: a
/// well-formed state with the outcome's cells and counts, reached from `s`
/// by one walk and the pushes of one box, with its priority under the
/// solver's strategy.
pub open spec fn emitted(solver: &Solver, s: &State, t: &State, o: Outcome) -> bool {
    &&& fits(t, o)
    &&& t.wf(solver)
    &&& successor_of(&solver.level, s, t)
    &&& t.box_positions@.len() == s.box_positions@.len()
    &&& t.heuristic == heuristic_of(solver.strategy, t.lower_bound as nat, o.actions.len(), count_pushes(o.actions))
}

/// Whether `list` holds the successors of `s`: one state for each push that
/// is made, in the order in which the pushes are tried.
#[verifier::opaque]
pub open spec fn successors_fit(solver: &Solver, s: &State, list: Seq<State>) -> bool {
    let all = expected(
        solver,
        s.player_position,
        s.box_positions@,
        s.movements@,
        4 * s.box_positions@.len(),
    );
    &&& list.len() == all.len()
    &&& forall|i: int| 0 <= i < list.len() ==> emitted(solver, s, #[trigger] &list[i], all[i])
}

/// No more pushes are made than are tried.
pub proof fn lemma_expected_len(
    solver: &Solver,
    player: Position,
    boxes: Seq<Position>,
    done: Seq<Action>,
    n: nat,
)
    ensures
        expected(solver, player, boxes, done, n).len() <= n,
    decreases n,
{
    if n > 0 {
        lemma_expected_len(solver, player, boxes, done, (n - 1) as nat);
    }
}

impl State {
    /// The successors of the state: for each box, in the order of the list,
    /// and each of the four directions, in the order up, down, left, right,
    /// the state that pushing the box in that direction leads to, where the
    /// push is made.
    pub fn successors(&self, solver: &Solver) -> (r: Vec<State>)
        requires
            solver.context_ok(),
            self.wf(solver),
        ensures
            successors_fit(solver, self, r@),
            r@.len() <= 4 * self.box_positions@.len(),
    {
        let mut successors: Vec<State> = Vec::new();
        let area = self.player_reachable_area(solver);
        let ghost player = self.player_position;
        let ghost boxes = self.box_positions@;
        let ghost done = self.movements@;
        let mut i: usize = 0;
        while i < self.box_positions.len()
            invariant
                solver.context_ok(),
                self.wf(solver),
                player == self.player_position,
                boxes == self.box_positions@,
                done == self.movements@,
                i <= boxes.len(),
                forall|p: Position| #[trigger]
                    area@.contains(p) <==> connected(
                        obstacles(&solver.level, self.box_positions@),
                        self.player_position,
                        p,
                    ),
                successors@.len() == expected(
                    solver,
                    player,
                    boxes,
                    done,
                    (4 * i) as nat,
                ).len(),
                forall|m: int|
                    0 <= m < successors@.len() ==> emitted(
                        solver,
                        self,
                        #[trigger] &successors@[m],
                        expected(solver, player, boxes, done, (4 * i) as nat)[m],
                    ),
            decreases boxes.len() - i,
        {
            let mut j: usize = 0;
            while j < 4
                invariant
                    solver.context_ok(),
                    self.wf(solver),
                    player == self.player_position,
                    boxes == self.box_positions@,
                    done == self.movements@,
                    i < boxes.len(),
                    j <= 4,
                    forall|p: Position| #[trigger]
                        area@.contains(p) <==> connected(
                            obstacles(&solver.level, self.box_positions@),
                            self.player_position,
                            p,
                        ),
                    successors@.len() == expected(
                        solver,
                        player,
                        boxes,
                        done,
                        (4 * i + j) as nat,
                    ).len(),
                    forall|m: int|
                        0 <= m < successors@.len() ==> emitted(
                            solver,
                            self,
                            #[trigger] &successors@[m],
                            expected(solver, player, boxes, done, (4 * i + j) as nat)[m],
                        ),
                decreases 4 - j,
            {
                let d = Direction::nth(j);
                let ghost n = (4 * i + j) as nat;
                let ghost before = expected(solver, player, boxes, done, n);
                let ghost after = expected(solver, player, boxes, done, n + 1);
                let ghost old_list = successors@;
                assert((n + 1 - 1) / 4 == i && (n + 1 - 1) % 4 == j);
                match self.push_crate(solver, &area, i, d) {
                    Some(t) => {
                        successors.push(t);
                        proof {
                            assert(after =~= before.push(after[before.len() as int]));
                            assert forall|m: int| 0 <= m < successors@.len() implies emitted(
                                solver,
                                self,
                                #[trigger] &successors@[m],
                                after[m],
                            ) by {
                                if m < old_list.len() {
                                    assert(successors@[m] == old_list[m]);
                                    assert(emitted(solver, self, &old_list[m], before[m]));
                                }
                            }
                        }
                    },
                    None => {
                        assert(after == before);
                    },
                }
                j = j + 1;
            }
            i = i + 1;
        }
        proof {
            lemma_expected_len(solver, player, boxes, done, (4 * boxes.len()) as nat);
            reveal(successors_fit);
        }
        successors
    }
}

/// Whether two solvers share the level, the lower-bound table and the strategy.
pub open spec fn same_context(a: &Solver, b: &Solver) -> bool {
    a.level == b.level && a.lower_bounds == b.lower_bounds && a.strategy == b.strategy
}

/// Where a pushed box comes to rest depends on the level and the table alone.
pub proof fn lemma_chain_same(a: &Solver, b: &Solver, boxes: Seq<Position>, d: Direction, p: Position)
    requires
        same_context(a, b),
    ensures
        chain_end(a, boxes, d, p) == chain_end(b, boxes, d, p),
    decreases room(&a.level, p, d),
{
    if a.level.in_bounds(p) && in_tunnel(&a.level, p.step(d.opposite()), d) && !blocks_crate(
        a,
        boxes,
        p.step(d),
    ) {
        lemma_chain_same(a, b, boxes, d, p.step(d));
    }
}

/// The pushes made from a state depend on the level, the table and the
/// strategy alone.
pub proof fn lemma_expected_same(
    a: &Solver,
    b: &Solver,
    player: Position,
    boxes: Seq<Position>,
    done: Seq<Action>,
    n: nat,
)
    requires
        same_context(a, b),
    ensures
        expected(a, player, boxes, done, n) == expected(b, player, boxes, done, n),
    decreases n,
{
    reveal(candidate);
    if n > 0 {
        lemma_expected_same(a, b, player, boxes, done, (n - 1) as nat);
        let i = (n - 1) / 4;
        let d = Direction::all()[(n - 1) % 4];
        lemma_chain_same(a, b, boxes, d, boxes[i].step(d));
    }
}

/// The successors of a state depend on the level, the table and the
/// strategy alone.
pub proof fn lemma_successors_same(a: &Solver, b: &Solver, s: &State, list: Seq<State>)
    requires
        same_context(a, b),
        successors_fit(a, s, list),
    ensures
        successors_fit(b, s, list),
{
    reveal(successors_fit);
    lemma_expected_same(
        a,
        b,
        s.player_position,
        s.box_positions@,
        s.movements@,
        4 * s.box_positions@.len(),
    );
    let all = expected(
        a,
        s.player_position,
        s.box_positions@,
        s.movements@,
        4 * s.box_positions@.len(),
    );
    assert forall|i: int| 0 <= i < list.len() implies emitted(b, s, #[trigger] &list[i], all[i]) by {
        assert(emitted(a, s, &list[i], all[i]));
    }
}

/// A successor has taken more actions than the state it comes from.
pub proof fn lemma_successor_longer(level: &Level, s: &State, t: &State)
    requires
        successor_of(level, s, t),
    ensures
        t.movements@.len() > s.movements@.len(),
        exists|added: Seq<Action>|
            #[trigger] replay(level, s.placement(), added) == Some(t.placement()) && t.movements@
                == s.movements@ + added,
{
    let (walk, d, k, b, e) = choose|
        walk: Seq<Position>,
        d: Direction,
        k: int,
        b: Position,
        e: Position,
    | #[trigger] successor_by(level, s, t, walk, d, k, b, e);
    lemma_walk_moves(walk);
    lemma_pushes(d, k);
    assert(replay(level, s.placement(), walk_moves(walk) + pushes(d, k)) == Some(t.placement()));
}

/// Whether `t` may follow `s` in the search: it is well formed, it has as
/// many boxes as `s`, and it comes from `s` by one walk and the pushes of
/// one box.
#[verifier::opaque]
pub open spec fn offspring(level: &Level, table: &crate::bounds::LowerBounds, s: &State, t: &State) -> bool {
    &&& t.wf_in(level, table)
    &&& t.box_positions@.len() == s.box_positions@.len()
    &&& successor_of(level, s, t)
}

/// Every successor of a state may follow it in the search.
pub proof fn lemma_successors_offspring(solver: &Solver, s: &State, list: Seq<State>)
    requires
        successors_fit(solver, s, list),
    ensures
        forall|i: int|
            0 <= i < list.len() ==> offspring(
                &solver.level,
                &solver.lower_bounds,
                s,
                #[trigger] &list[i],
            ),
{
    reveal(successors_fit);
    reveal(offspring);
    let all = expected(
        solver,
        s.player_position,
        s.box_positions@,
        s.movements@,
        4 * s.box_positions@.len(),
    );
    assert forall|i: int| 0 <= i < list.len() implies offspring(
        &solver.level,
        &solver.lower_bounds,
        s,
        #[trigger] &list[i],
    ) by {
        assert(emitted(solver, s, &list[i], all[i]));
    }
}

} // verus!
