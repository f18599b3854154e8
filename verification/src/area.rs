//! The player's reachable area and its anchor, computed by the `soukoban`
//! crate's path-finding routines.

use crate::level::Level;
use crate::position::Position;
use crate::walk::{connected, is_free, obstacles};
use nalgebra::Vector2;
use soukoban::path_finding::{compute_area_anchor, compute_reachable_area};
use soukoban::FxHashSet;
use vstd::prelude::*;

verus! {

/// The cells that the player can reach from `start` around the walls and the
/// boxes, each listed once, in no particular order.
///
/// Calls `soukoban::path_finding::compute_reachable_area`, a breadth-first
/// flood fill that starts with `start` in the area and adds every walkable
/// neighbour of a cell of the area. The contract claims that the result is
/// the set of cells connected to `start`. `start` must lie in the grid: the
/// fill then stays within one step of the grid and ends.
#[verifier::external_body]
pub(crate) fn flood_fill(level: &Level, boxes: &Vec<Position>, start: Position) -> (area: Vec<
    Position,
>)
    requires
        level.shape_ok(),
        level.in_bounds(start),
    ensures
        area@.no_duplicates(),
        forall|p: Position| #[trigger]
            area@.contains(p) <==> connected(obstacles(level, boxes@), start, p),
{
    let area = compute_reachable_area(
        Vector2::new(start.x, start.y),
        |p: Vector2<i32>| is_free(level, boxes, Position { x: p.x, y: p.y }),
    );
    area.into_iter().map(|p| Position { x: p.x, y: p.y }).collect()
}

/// The first cell of `area` in row-major order, or `None` for an empty area.
///
/// Calls `soukoban::path_finding::compute_area_anchor`, which takes the
/// minimum of the area by the pair of `y` and `x`.
#[verifier::external_body]
pub(crate) fn area_anchor(area: &Vec<Position>) -> (r: Option<Position>)
    ensures
        area@.len() == 0 ==> r is None,
        area@.len() > 0 ==> r is Some,
        r matches Some(p) ==> is_anchor(area@, p),
{
    let set: FxHashSet<Vector2<i32>> = area.iter().map(|p| Vector2::new(p.x, p.y)).collect();
    compute_area_anchor(&set).map(|p| Position { x: p.x, y: p.y })
}

/// Whether `p` is the cell of `area` that comes first in row-major order.
pub open spec fn is_anchor(area: Seq<Position>, p: Position) -> bool {
    area.contains(p) && forall|q: Position| #[trigger] area.contains(q) ==> !q.before(p)
}

} // verus!
