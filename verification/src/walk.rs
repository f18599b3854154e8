//! Walks on the grid: what it means that one cell can be reached from
//! another around a set of blocked cells.

use crate::level::Level;
use crate::position::{adjacent, manhattan, Position};
use vstd::prelude::*;

verus! {

/// A walk: a non-empty sequence of cells in which each cell after the first
/// is adjacent to the one before it and is not blocked. The first cell may be
/// blocked: it is where the walker already stands.
pub open spec fn is_walk(blocked: Set<Position>, path: Seq<Position>) -> bool {
    &&& path.len() > 0
    &&& forall|i: int|
        0 < i < path.len() ==> adjacent(path[i - 1], #[trigger] path[i]) && !blocked.contains(
            path[i],
        )
}

/// A walk from `from` to `to`.
pub open spec fn walk_between(
    blocked: Set<Position>,
    from: Position,
    to: Position,
    path: Seq<Position>,
) -> bool {
    is_walk(blocked, path) && path[0] == from && path.last() == to
}

/// Whether some walk leads from `from` to `to`.
pub open spec fn connected(blocked: Set<Position>, from: Position, to: Position) -> bool {
    exists|path: Seq<Position>| walk_between(blocked, from, to, path)
}

/// A walk from `from` to `to` that no other such walk undercuts in length.
pub open spec fn shortest_walk(
    blocked: Set<Position>,
    from: Position,
    to: Position,
    path: Seq<Position>,
) -> bool {
    &&& walk_between(blocked, from, to, path)
    &&& forall|other: Seq<Position>| #[trigger]
        walk_between(blocked, from, to, other) ==> path.len() <= other.len()
}

/// The cells that stop the player: the walls, the outside of the grid, and
/// the boxes.
pub open spec fn obstacles(level: &Level, boxes: Seq<Position>) -> Set<Position> {
    Set::new(|p: Position| level.is_wall(p) || boxes.contains(p))
}

/// Decides membership in [`obstacles`].
pub fn is_obstacle(level: &Level, boxes: &Vec<Position>, p: Position) -> (b: bool)
    requires
        level.shape_ok(),
    ensures
        b == obstacles(level, boxes@).contains(p),
{
    if level.wall_at(p) {
        return true;
    }
    let mut i: usize = 0;
    while i < boxes.len()
        invariant
            i <= boxes.len(),
            forall|j: int| 0 <= j < i ==> boxes@[j] != p,
        decreases boxes.len() - i,
    {
        if boxes[i] == p {
            return true;
        }
        i = i + 1;
    }
    false
}

/// Whether the player can stand on `p`: the negation of [`is_obstacle`].
pub fn is_free(level: &Level, boxes: &Vec<Position>, p: Position) -> (b: bool)
    requires
        level.shape_ok(),
    ensures
        b == !obstacles(level, boxes@).contains(p),
{
    !is_obstacle(level, boxes, p)
}

/// A walk of `n` steps ends at most `n` away from where it starts, measured
/// in Manhattan distance.
pub proof fn lemma_walk_at_least_manhattan(blocked: Set<Position>, path: Seq<Position>, i: int)
    requires
        is_walk(blocked, path),
        0 <= i < path.len(),
    ensures
        manhattan(path[i], path.last()) <= path.len() - 1 - i,
    decreases path.len() - i,
{
    if i < path.len() - 1 {
        lemma_walk_at_least_manhattan(blocked, path, i + 1);
        assert(adjacent(path[i], path[i + 1]));
    }
}

/// Two walks, the second starting where the first ends, join into one.
pub proof fn lemma_walk_join(blocked: Set<Position>, a: Seq<Position>, b: Seq<Position>)
    requires
        is_walk(blocked, a),
        is_walk(blocked, b),
        a.last() == b[0],
    ensures
        is_walk(blocked, a + b.subrange(1, b.len() as int)),
        (a + b.subrange(1, b.len() as int))[0] == a[0],
        (a + b.subrange(1, b.len() as int)).last() == b.last(),
        (a + b.subrange(1, b.len() as int)).len() == a.len() + b.len() - 1,
{
    let c = a + b.subrange(1, b.len() as int);
    assert forall|i: int| 0 < i < c.len() implies adjacent(c[i - 1], #[trigger] c[i])
        && !blocked.contains(c[i]) by {
        if i < a.len() {
            assert(c[i] == a[i]);
        } else {
            let k = i - a.len() + 1;
            assert(c[i] == b[k]);
            if i == a.len() {
                assert(c[i - 1] == a.last());
            } else {
                assert(c[i - 1] == b[k - 1]);
            }
        }
    }
}

/// A walk whose first cell is not blocked can be walked backwards.
pub proof fn lemma_walk_reverse(blocked: Set<Position>, path: Seq<Position>)
    requires
        is_walk(blocked, path),
        !blocked.contains(path[0]),
    ensures
        is_walk(blocked, path.reverse()),
        path.reverse()[0] == path.last(),
        path.reverse().last() == path[0],
{
    let r = path.reverse();
    assert forall|i: int| 0 < i < r.len() implies adjacent(r[i - 1], #[trigger] r[i])
        && !blocked.contains(r[i]) by {
        let k = path.len() - 1 - i;
        assert(r[i] == path[k]);
        assert(r[i - 1] == path[k + 1]);
        assert(adjacent(path[k], path[k + 1]));
        if k > 0 {
            assert(!blocked.contains(path[k]));
        }
    }
}

/// Being connected is symmetric between cells that are not blocked.
pub proof fn lemma_connected_symmetric(blocked: Set<Position>, a: Position, b: Position)
    requires
        connected(blocked, a, b),
        !blocked.contains(a),
    ensures
        connected(blocked, b, a),
{
    let path = choose|path: Seq<Position>| walk_between(blocked, a, b, path);
    lemma_walk_reverse(blocked, path);
    assert(walk_between(blocked, b, a, path.reverse()));
}

/// Being connected is transitive.
pub proof fn lemma_connected_transitive(
    blocked: Set<Position>,
    a: Position,
    b: Position,
    c: Position,
)
    requires
        connected(blocked, a, b),
        connected(blocked, b, c),
    ensures
        connected(blocked, a, c),
{
    let p = choose|path: Seq<Position>| walk_between(blocked, a, b, path);
    let q = choose|path: Seq<Position>| walk_between(blocked, b, c, path);
    lemma_walk_join(blocked, p, q);
    assert(walk_between(blocked, a, c, p + q.subrange(1, q.len() as int)));
}

/// Every cell is connected to itself.
pub proof fn lemma_connected_reflexive(blocked: Set<Position>, a: Position)
    ensures
        connected(blocked, a, a),
{
    assert(walk_between(blocked, a, a, seq![a]));
}

} // verus!
