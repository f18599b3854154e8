//! The lower-bound table: for each cell on which a box may stand, the number
//! of steps on a shortest walk to the target nearest to it.

use crate::level::{has_flag, inside, intersects, lemma_index_in_range, Level, DEADLOCK, FLOOR};
use crate::path_finding::find_path;
use crate::position::{manhattan, manhattan_distance, Position};
use crate::walk::{connected, obstacles, shortest_walk, walk_between};
use vstd::prelude::*;

verus! {

/// A table with one optional entry for each cell of a grid, stored row by row.
#[derive(Clone, Debug)]
pub struct LowerBounds {
    pub width: i32,
    pub height: i32,
    pub entries: Vec<Option<usize>>,
}

/// The entry at the place of cell `p` in a table with rows of `width` entries.
pub open spec fn entry_of(width: int, entries: Seq<Option<usize>>, p: Position) -> Option<usize> {
    entries[p.y * width + p.x]
}

impl LowerBounds {
    /// The dimensions fit the number of entries.
    pub open spec fn shape_ok(&self) -> bool {
        &&& 0 <= self.width
        &&& 0 <= self.height
        &&& self.width * self.height == self.entries@.len()
        &&& self.entries@.len() <= i32::MAX
    }

    /// The entry of cell `p`; cells outside the grid have none.
    pub open spec fn at(&self, p: Position) -> Option<usize> {
        if inside(self.width as int, self.height as int, p) {
            entry_of(self.width as int, self.entries@, p)
        } else {
            None
        }
    }

    /// The entry of cell `p`, if it has one.
    pub fn get(&self, p: &Position) -> (e: Option<usize>)
        requires
            self.shape_ok(),
        ensures
            e == self.at(*p),
    {
        if 0 <= p.x && p.x < self.width && 0 <= p.y && p.y < self.height {
            proof {
                lemma_index_in_range(self.width as int, self.height as int, *p);
            }
            self.entries[p.y as usize * self.width as usize + p.x as usize]
        } else {
            None
        }
    }

    /// Whether cell `p` has an entry.
    pub fn contains_key(&self, p: &Position) -> (b: bool)
        requires
            self.shape_ok(),
        ensures
            b == self.at(*p).is_some(),
    {
        self.get(p).is_some()
    }
}

/// Whether a box may ever stand on cell `p` as far as its tile tells: an
/// interior floor cell that is not flagged as a deadlock.
pub open spec fn eligible(level: &Level, p: Position) -> bool {
    level.interior(p) && has_flag(level.tile(p), FLOOR) && !has_flag(level.tile(p), DEADLOCK)
}

/// Whether `targets[k]` is the target nearest to `p` in Manhattan distance,
/// the first such in the list where several are equally near.
pub open spec fn nearest_target(targets: Seq<Position>, p: Position, k: int) -> bool {
    &&& 0 <= k < targets.len()
    &&& forall|j: int|
        0 <= j < targets.len() ==> manhattan(targets[k], p) <= manhattan(#[trigger] targets[j], p)
    &&& forall|j: int| 0 <= j < k ==> manhattan(targets[k], p) < manhattan(#[trigger] targets[j], p)
}

/// Whether a shortest walk from `a` to `b` takes `n` steps.
pub open spec fn steps_between(blocked: Set<Position>, a: Position, b: Position, n: int) -> bool {
    exists|path: Seq<Position>| #[trigger]
        shortest_walk(blocked, a, b, path) && path.len() == n + 1
}

/// Whether `e` is the right entry for cell `p`: for an eligible cell from
/// which the nearest target can be reached around the walls, the number of
/// steps of a shortest such walk; for every other cell, none.
pub open spec fn entry_fits(level: &Level, p: Position, e: Option<usize>) -> bool {
    if eligible(level, p) && level.target_positions@.len() > 0 {
        exists|k: int| #[trigger]
            nearest_target(level.target_positions@, p, k) && match e {
                Some(n) => steps_between(level.walls(), p, level.target_positions@[k], n as int),
                None => !connected(level.walls(), p, level.target_positions@[k]),
            }
    } else {
        e is None
    }
}

/// Whether every cell has the right entry in the table.
#[verifier::opaque]
pub open spec fn entries_fit(level: &Level, table: &LowerBounds) -> bool {
    forall|p: Position| entry_fits(level, p, #[trigger] table.at(p))
}

/// Whether the table is the lower-bound table of `level`.
pub open spec fn table_fits(level: &Level, table: &LowerBounds) -> bool {
    &&& table.width == level.width
    &&& table.height == level.height
    &&& table.shape_ok()
    &&& entries_fit(level, table)
}

/// The index of the target nearest to `p`.
pub fn closest_target(targets: &Vec<Position>, p: &Position) -> (k: usize)
    requires
        targets@.len() > 0,
    ensures
        nearest_target(targets@, *p, k as int),
{
    let mut k: usize = 0;
    let mut best = manhattan_distance(&targets[0], p);
    let mut i: usize = 1;
    while i < targets.len()
        invariant
            k < i <= targets@.len(),
            best == manhattan(targets@[k as int], *p),
            forall|j: int| 0 <= j < i ==> best <= manhattan(#[trigger] targets@[j], *p),
            forall|j: int| 0 <= j < k ==> best < manhattan(#[trigger] targets@[j], *p),
        decreases targets@.len() - i,
    {
        let d = manhattan_distance(&targets[i], p);
        if d < best {
            k = i;
            best = d;
        }
        i = i + 1;
    }
    k
}

/// The set of walls is the set of obstacles where there are no boxes.
pub proof fn lemma_walls_are_obstacles(level: &Level)
    ensures
        obstacles(level, Seq::<Position>::empty()) == level.walls(),
{
    assert(obstacles(level, Seq::<Position>::empty()) =~= level.walls());
}

/// Computes the lower-bound entry of cell `p`.
pub fn lower_bound_entry(level: &Level, p: Position) -> (e: Option<usize>)
    requires
        level.shape_ok(),
    ensures
        entry_fits(level, p, e),
{
    let interior = 1 <= p.x && p.x < level.width - 1 && 1 <= p.y && p.y < level.height - 1;
    if !interior {
        return None;
    }
    let t = level.tile_at(p);
    if !intersects(t, FLOOR) || intersects(t, DEADLOCK) {
        return None;
    }
    if level.target_positions.len() == 0 {
        return None;
    }
    let k = closest_target(&level.target_positions, &p);
    let nobody: Vec<Position> = Vec::new();
    proof {
        lemma_walls_are_obstacles(level);
        assert(nobody@ =~= Seq::<Position>::empty());
    }
    match find_path(&p, &level.target_positions[k], level, &nobody) {
        Some(path) => {
            let n = path.len() - 1;
            assert(shortest_walk(level.walls(), p, level.target_positions@[k as int], path@)
                && path@.len() == n + 1);
            Some(n)
        },
        None => None,
    }
}

/// The nearest target is determined by the list and the cell.
pub proof fn lemma_nearest_unique(targets: Seq<Position>, p: Position, k: int, j: int)
    requires
        nearest_target(targets, p, k),
        nearest_target(targets, p, j),
    ensures
        k == j,
{
    if k < j {
        assert(manhattan(targets[j], p) < manhattan(targets[k], p));
    } else if j < k {
        assert(manhattan(targets[k], p) < manhattan(targets[j], p));
    }
}

/// The number of steps of a shortest walk is determined by its ends.
pub proof fn lemma_steps_unique(blocked: Set<Position>, a: Position, b: Position, n: int, m: int)
    requires
        steps_between(blocked, a, b, n),
        steps_between(blocked, a, b, m),
    ensures
        n == m,
{
    let p = choose|path: Seq<Position>| #[trigger]
        shortest_walk(blocked, a, b, path) && path.len() == n + 1;
    let q = choose|path: Seq<Position>| #[trigger]
        shortest_walk(blocked, a, b, path) && path.len() == m + 1;
    assert(walk_between(blocked, a, b, p));
    assert(walk_between(blocked, a, b, q));
}

/// A cell with the entry zero is a target.
pub proof fn lemma_zero_entry_is_target(level: &Level, table: &LowerBounds, p: Position)
    requires
        table_fits(level, table),
        table.at(p) == Some(0usize),
    ensures
        level.is_target(p),
{
    reveal(entries_fit);
    assert(entry_fits(level, p, table.at(p)));
    let k = choose|k: int| #[trigger]
        nearest_target(level.target_positions@, p, k) && steps_between(
            level.walls(),
            p,
            level.target_positions@[k],
            0,
        );
    let t = level.target_positions@[k];
    let path = choose|path: Seq<Position>| #[trigger]
        shortest_walk(level.walls(), p, t, path) && path.len() == 1;
    assert(path[0] == p && path.last() == t);
}

/// The lower-bound table of a level is determined: two tables that fit a
/// level have the same entry for every cell.
pub proof fn table_is_determined(level: &Level, a: &LowerBounds, b: &LowerBounds, p: Position)
    requires
        table_fits(level, a),
        table_fits(level, b),
    ensures
        a.at(p) == b.at(p),
{
    reveal(entries_fit);
    assert(entry_fits(level, p, a.at(p)));
    assert(entry_fits(level, p, b.at(p)));
    if eligible(level, p) && level.target_positions@.len() > 0 {
        let targets = level.target_positions@;
        let k = choose|k: int| #[trigger]
            nearest_target(targets, p, k) && match a.at(p) {
                Some(n) => steps_between(level.walls(), p, targets[k], n as int),
                None => !connected(level.walls(), p, targets[k]),
            };
        let j = choose|j: int| #[trigger]
            nearest_target(targets, p, j) && match b.at(p) {
                Some(n) => steps_between(level.walls(), p, targets[j], n as int),
                None => !connected(level.walls(), p, targets[j]),
            };
        lemma_nearest_unique(targets, p, k, j);
        match (a.at(p), b.at(p)) {
            (Some(n), Some(m)) => {
                lemma_steps_unique(level.walls(), p, targets[k], n as int, m as int);
            },
            (Some(n), None) => {
                let path = choose|path: Seq<Position>| #[trigger]
                    shortest_walk(level.walls(), p, targets[k], path) && path.len() == n + 1;
                assert(walk_between(level.walls(), p, targets[k], path));
            },
            (None, Some(m)) => {
                let path = choose|path: Seq<Position>| #[trigger]
                    shortest_walk(level.walls(), p, targets[k], path) && path.len() == m + 1;
                assert(walk_between(level.walls(), p, targets[k], path));
            },
            (None, None) => {},
        }
    }
}

} // verus!
