//! The search driver and the tables that it shares with every state.

use crate::bounds::{entries_fit, entry_fits, entry_of, lower_bound_entry, table_fits, LowerBounds};
use crate::level::{
    cell_below, cell_tile, has_flag, intersects, lemma_below_all, lemma_index_order, Level, CRATE,
    DEADLOCK, FLOOR, PLAYER, TARGET, TUNNEL, WALL,
};
use crate::position::{Direction, Position};
use crate::state::State;
use vstd::prelude::*;

verus! {

/// The priority by which the search orders its states.
#[derive(Clone, Copy, PartialEq, Eq, Structural, Debug)]
pub enum Strategy {
    /// Find any solution.
    Fast,
    /// Prefer few moves, then few pushes.
    OptimalMovePush,
    /// Prefer few pushes, then few moves.
    OptimalPushMove,
    /// Weigh the lower bound and the moves alike.
    Mixed,
}

/// Why a search ended without a solution.
#[derive(Clone, Copy, PartialEq, Eq, Structural, Debug)]
pub enum SolveError {
    /// The time allowed had passed.
    Timeout,
    /// The search ran out of states.
    NoSolution,
}

/// The level, its tables, the strategy, and the two collections of the
/// search: the states seen, in normalized form, and the states waiting.
#[derive(Clone, Debug)]
pub struct Solver {
    pub level: Level,
    pub lower_bounds: LowerBounds,
    pub strategy: Strategy,
    pub visited: Vec<State>,
    pub heap: Vec<State>,
}

/// Whether the two neighbours of `p` across the axis of `d` are walls.
pub open spec fn flanked(level: &Level, p: Position, d: Direction) -> bool {
    match d {
        Direction::Up | Direction::Down => level.is_wall(p.step(Direction::Left)) && level.is_wall(
            p.step(Direction::Right),
        ),
        Direction::Left | Direction::Right => level.is_wall(p.step(Direction::Up))
            && level.is_wall(p.step(Direction::Down)),
    }
}

/// Whether `(p, d)` belongs to the tunnel set: `p` is an interior floor cell
/// with walls on both sides of the way through it in direction `d`.
pub open spec fn in_tunnel(level: &Level, p: Position, d: Direction) -> bool {
    level.interior(p) && has_flag(level.tile(p), FLOOR) && flanked(level, p, d)
}

/// Whether `p` is a tunnel cell along some axis.
pub open spec fn tunnel_cell(level: &Level, p: Position) -> bool {
    in_tunnel(level, p, Direction::Up) || in_tunnel(level, p, Direction::Left)
}

/// Whether every tunnel cell of the level carries the tunnel flag.
#[verifier::opaque]
pub open spec fn tunnels_marked(level: &Level) -> bool {
    forall|p: Position| tunnel_cell(level, p) ==> has_flag(#[trigger] level.tile(p), TUNNEL)
}

/// The tile of a cell after the tunnel cells have been marked.
pub open spec fn marked(level: &Level, p: Position) -> u8 {
    if tunnel_cell(level, p) {
        level.tile(p) | TUNNEL
    } else {
        level.tile(p)
    }
}

/// The tile of a cell after the player and the boxes have been cleared off
/// the tiles and the tunnel cells have been marked.
pub open spec fn cleared_and_marked(level: &Level, p: Position) -> u8 {
    let bare = if level.in_bounds(p) {
        level.tile(p) & !(PLAYER | CRATE)
    } else {
        WALL
    };
    if tunnel_cell(level, p) {
        bare | TUNNEL
    } else {
        bare
    }
}

/// Setting or clearing other flags leaves a flag as it is.
pub proof fn lemma_flags_kept(t: u8)
    ensures
        has_flag(t | TUNNEL, WALL) == has_flag(t, WALL),
        has_flag(t | TUNNEL, FLOOR) == has_flag(t, FLOOR),
        has_flag(t | TUNNEL, TARGET) == has_flag(t, TARGET),
        has_flag(t | TUNNEL, DEADLOCK) == has_flag(t, DEADLOCK),
        has_flag(t | TUNNEL, TUNNEL),
        has_flag(t & !(PLAYER | CRATE), WALL) == has_flag(t, WALL),
        has_flag(t & !(PLAYER | CRATE), FLOOR) == has_flag(t, FLOOR),
        has_flag(t & !(PLAYER | CRATE), TARGET) == has_flag(t, TARGET),
        has_flag(t & !(PLAYER | CRATE), DEADLOCK) == has_flag(t, DEADLOCK),
        has_flag(t & !(PLAYER | CRATE), TUNNEL) == has_flag(t, TUNNEL),
        has_flag(WALL, WALL),
{
    assert(((t | 64u8) & 2u8 != 0) == (t & 2u8 != 0)) by (bit_vector);
    assert(((t | 64u8) & 1u8 != 0) == (t & 1u8 != 0)) by (bit_vector);
    assert(((t | 64u8) & 8u8 != 0) == (t & 8u8 != 0)) by (bit_vector);
    assert(((t | 64u8) & 32u8 != 0) == (t & 32u8 != 0)) by (bit_vector);
    assert((t | 64u8) & 64u8 != 0) by (bit_vector);
    assert(((t & !(16u8 | 4u8)) & 2u8 != 0) == (t & 2u8 != 0)) by (bit_vector);
    assert(((t & !(16u8 | 4u8)) & 1u8 != 0) == (t & 1u8 != 0)) by (bit_vector);
    assert(((t & !(16u8 | 4u8)) & 8u8 != 0) == (t & 8u8 != 0)) by (bit_vector);
    assert(((t & !(16u8 | 4u8)) & 32u8 != 0) == (t & 32u8 != 0)) by (bit_vector);
    assert(((t & !(16u8 | 4u8)) & 64u8 != 0) == (t & 64u8 != 0)) by (bit_vector);
    assert(2u8 & 2u8 != 0) by (bit_vector);
}

impl Solver {
    /// What holds of the level and its tables at every time: the level is well
    /// formed, the lower-bound table is the level's, and every tunnel cell
    /// carries the tunnel flag.
    pub open spec fn context_ok(&self) -> bool {
        &&& self.level.wf()
        &&& table_fits(&self.level, &self.lower_bounds)
        &&& tunnels_marked(&self.level)
    }

    /// The strategy in use.
    pub fn strategy(&self) -> (s: Strategy)
        ensures
            s == self.strategy,
    {
        self.strategy
    }

    /// The lower-bound table.
    pub fn lower_bounds(&self) -> (t: &LowerBounds)
        ensures
            *t == self.lower_bounds,
    {
        &self.lower_bounds
    }

    /// Marks every tunnel cell of the level with the tunnel flag: every
    /// interior floor cell whose two neighbours along the vertical axis, or
    /// along the horizontal axis, are walls.
    pub fn calculate_tunnel_positions(&mut self)
        requires
            old(self).level.shape_ok(),
        ensures
            final(self).level.shape_ok(),
            forall|p: Position| #[trigger] final(self).level.tile(p) == marked(&old(self).level, p),
            final(self).level.width == old(self).level.width,
            final(self).level.height == old(self).level.height,
            final(self).level.player_position == old(self).level.player_position,
            final(self).level.box_positions == old(self).level.box_positions,
            final(self).level.target_positions == old(self).level.target_positions,
            final(self).lower_bounds == old(self).lower_bounds,
            final(self).strategy == old(self).strategy,
            final(self).visited == old(self).visited,
            final(self).heap == old(self).heap,
    {
        let ghost start = old(self).level;
        let ghost other = *old(self);
        let mut x: i32 = 1;
        while x < self.level.width - 1
            invariant
                1 <= x,
                self.level.shape_ok(),
                self.lower_bounds == other.lower_bounds,
                self.strategy == other.strategy,
                self.visited == other.visited,
                self.heap == other.heap,
                self.level.width == start.width,
                self.level.height == start.height,
                self.level.player_position == start.player_position,
                self.level.box_positions == start.box_positions,
                self.level.target_positions == start.target_positions,
                forall|p: Position|
                    #[trigger] self.level.tile(p) == (if p.x < x {
                        marked(&start, p)
                    } else {
                        start.tile(p)
                    }),
            decreases self.level.width - x,
        {
            let mut y: i32 = 1;
            while y < self.level.height - 1
                invariant
                    1 <= x < self.level.width - 1,
                    1 <= y,
                    self.level.shape_ok(),
                    self.lower_bounds == other.lower_bounds,
                    self.strategy == other.strategy,
                    self.visited == other.visited,
                    self.heap == other.heap,
                    self.level.width == start.width,
                    self.level.height == start.height,
                    self.level.player_position == start.player_position,
                    self.level.box_positions == start.box_positions,
                    self.level.target_positions == start.target_positions,
                    forall|p: Position|
                        #[trigger] self.level.tile(p) == (if p.x < x || (p.x == x && p.y < y) {
                            marked(&start, p)
                        } else {
                            start.tile(p)
                        }),
                decreases self.level.height - y,
            {
                let position = Position { x, y };
            
                proof {
                    assert forall|q: Position| self.level.is_wall(q) == start.is_wall(q) by {
                        lemma_flags_kept(start.tile(q));
                    }
                    assert(position.step(Direction::Up) == Position { x, y: (y - 1) as i32 });
                    assert(position.step(Direction::Down) == Position { x, y: (y + 1) as i32 });
                    assert(position.step(Direction::Left) == Position { x: (x - 1) as i32, y });
                    assert(position.step(Direction::Right) == Position { x: (x + 1) as i32, y });
                    lemma_flags_kept(start.tile(position));
                }
                if intersects(self.level.tile_at(position), FLOOR) {
                    let vertical = self.level.wall_at(Position { x, y: y - 1 }) && self.level.wall_at(
                        Position { x, y: y + 1 },
                    );
                    let horizontal = self.level.wall_at(Position { x: x - 1, y }) && self.level.wall_at(
                        Position { x: x + 1, y },
                    );
                    if vertical || horizontal {
                        self.level.insert_flag(position, TUNNEL);
                    }
                }
                y = y + 1;
            }
            proof {
                assert forall|p: Position|
                    #[trigger] self.level.tile(p) == (if p.x < x + 1 {
                        marked(&start, p)
                    } else {
                        start.tile(p)
                    }) by {
                    if p.x == x && !(p.y < y) {
                        assert(!start.interior(p));
                    }
                    if p.x == x && p.y < 1 {
                        assert(!start.interior(p));
                    }
                }
            }
            x = x + 1;
        }
        proof {
            assert forall|p: Position| #[trigger] self.level.tile(p) == marked(&start, p) by {
                if !(p.x < x) {
                    assert(!start.interior(p));
                }
            }
        }
    }

    /// Builds the solver of a level: clears the player and the boxes off the
    /// tiles, marks the tunnel cells, and computes the lower-bound table. The
    /// strategy is [`Strategy::Fast`] until [`Solver::initial`] sets another;
    /// no state is waiting and none has been seen.
    pub fn from(level: Level) -> (solver: Solver)
        requires
            level.wf(),
        ensures
            solver.context_ok(),
            solver.level.width == level.width,
            solver.level.height == level.height,
            solver.level.player_position == level.player_position,
            solver.level.box_positions == level.box_positions,
            solver.level.target_positions == level.target_positions,
            forall|p: Position| #[trigger] solver.level.tile(p) == cleared_and_marked(&level, p),
            forall|p: Position| #[trigger] solver.level.is_wall(p) == level.is_wall(p),
            solver.strategy == Strategy::Fast,
            solver.visited@.len() == 0,
            solver.heap@.len() == 0,
    {
        let ghost given = level;
        let mut level = level;
        level.clear(PLAYER | CRATE);
        let ghost bare = level;
        let table = LowerBounds { width: 0, height: 0, entries: Vec::new() };
        let mut instance = Solver {
            level,
            lower_bounds: table,
            strategy: Strategy::Fast,
            visited: Vec::new(),
            heap: Vec::new(),
        };
        instance.calculate_tunnel_positions();
        let table = instance.calculate_lower_bounds();
        instance.lower_bounds = table;
        proof {
            assert forall|p: Position| bare.is_wall(p) == given.is_wall(p) by {
                lemma_flags_kept(given.tile(p));
            }
            assert forall|p: Position|
                tunnel_cell(&bare, p) == tunnel_cell(&given, p) && #[trigger] instance.level.tile(p)
                    == cleared_and_marked(&given, p) by {
                lemma_flags_kept(given.tile(p));
            }
            assert forall|p: Position| #[trigger]
                instance.level.is_wall(p) == given.is_wall(p) && has_flag(
                    instance.level.tile(p),
                    TARGET,
                ) == has_flag(given.tile(p), TARGET) && has_flag(instance.level.tile(p), FLOOR)
                    == has_flag(given.tile(p), FLOOR) by {
                lemma_flags_kept(given.tile(p));
                lemma_flags_kept(bare.tile(p));
                lemma_flags_kept(given.tile(p) & !(PLAYER | CRATE));
            }
            assert forall|p: Position|
                tunnel_cell(&instance.level, p) implies has_flag(
                #[trigger] instance.level.tile(p),
                TUNNEL,
            ) by {
                assert(instance.level.is_wall(p) == given.is_wall(p));
                assert(instance.level.is_wall(p.step(Direction::Up)) == given.is_wall(
                    p.step(Direction::Up),
                ));
                assert(instance.level.is_wall(p.step(Direction::Down)) == given.is_wall(
                    p.step(Direction::Down),
                ));
                assert(instance.level.is_wall(p.step(Direction::Left)) == given.is_wall(
                    p.step(Direction::Left),
                ));
                assert(instance.level.is_wall(p.step(Direction::Right)) == given.is_wall(
                    p.step(Direction::Right),
                ));
                lemma_flags_kept(bare.tile(p));
                lemma_flags_kept(given.tile(p));
            }
            assert forall|p: Position| #[trigger]
                instance.level.target_positions@.contains(p) <==> instance.level.in_bounds(p)
                    && has_flag(
                    cell_tile(instance.level.width as int, instance.level.tiles@, p),
                    TARGET,
                ) by {
                assert(instance.level.tile(p) == cleared_and_marked(&given, p));
                lemma_flags_kept(given.tile(p));
                lemma_flags_kept(given.tile(p) & !(PLAYER | CRATE));
                assert(given.target_positions@.contains(p) <==> given.in_bounds(p) && has_flag(
                    cell_tile(given.width as int, given.tiles@, p),
                    TARGET,
                ));
            }
            assert forall|i: int| 0 <= i < instance.level.box_positions@.len() implies instance.level.in_bounds(
                #[trigger] instance.level.box_positions@[i],
            ) && !instance.level.is_wall(instance.level.box_positions@[i]) by {
                assert(given.in_bounds(given.box_positions@[i]));
                assert(instance.level.is_wall(instance.level.box_positions@[i]) == given.is_wall(
                    given.box_positions@[i],
                ));
            }
            assert(instance.level.is_wall(instance.level.player_position) == given.is_wall(
                given.player_position,
            ));
            reveal(tunnels_marked);
        }
        instance
    }

    /// Computes the lower-bound table of the level: for every interior floor
    /// cell that is not flagged as a deadlock, the number of steps of a
    /// shortest walk around the walls to the target nearest to it in
    /// Manhattan distance, where there is such a walk.
    pub fn calculate_lower_bounds(&self) -> (table: LowerBounds)
        requires
            self.level.shape_ok(),
        ensures
            table_fits(&self.level, &table),
    {
        let level = &self.level;
        let mut entries: Vec<Option<usize>> = Vec::new();
        let mut y: i32 = 0;
        while y < level.height
            invariant
                0 <= y <= level.height,
                level.shape_ok(),
                entries@.len() == y * level.width,
                forall|p: Position| #[trigger]
                    cell_below(level.width as int, entries@.len() as int, p) ==> entry_fits(
                        level,
                        p,
                        entry_of(level.width as int, entries@, p),
                    ),
            decreases level.height - y,
        {
            let mut x: i32 = 0;
            proof {
                assert((y + 1) * level.width == y * level.width + level.width)
                    by (nonlinear_arith);
            }
            while x < level.width
                invariant
                    0 <= x <= level.width,
                    0 <= y < level.height,
                    level.shape_ok(),
                    entries@.len() == y * level.width + x,
                    forall|p: Position| #[trigger]
                        cell_below(level.width as int, entries@.len() as int, p) ==> entry_fits(
                            level,
                            p,
                            entry_of(level.width as int, entries@, p),
                        ),
                decreases level.width - x,
            {
                let position = Position { x, y };
                let entry = lower_bound_entry(level, position);
                let ghost before = entries@;
                entries.push(entry);
                proof {
                    assert forall|p: Position| #[trigger]
                        cell_below(level.width as int, entries@.len() as int, p) implies entry_fits(
                        level,
                        p,
                        entry_of(level.width as int, entries@, p),
                    ) by {
                        lemma_index_order(level.width as int, p, position);
                        assert(0 <= p.y * level.width) by (nonlinear_arith)
                            requires
                                0 <= p.y,
                                0 <= level.width,
                        ;
                        if p != position {
                            assert(cell_below(level.width as int, before.len() as int, p));
                            assert(entry_of(level.width as int, entries@, p) == entry_of(
                                level.width as int,
                                before,
                                p,
                            ));
                        }
                    }
                }
                x = x + 1;
            }
            y = y + 1;
        }
        let table = LowerBounds { width: level.width, height: level.height, entries };
        proof {
            assert(level.height * level.width == level.width * level.height)
                by (nonlinear_arith);
            assert forall|p: Position| entry_fits(level, p, #[trigger] table.at(p)) by {
                lemma_below_all(level.width as int, level.height as int, p);
            }
            reveal(entries_fit);
        }
        table
    }

    /// Whether `(p, d)` belongs to the tunnel set.
    pub fn tunnels_contain(&self, p: Position, d: Direction) -> (b: bool)
        requires
            self.level.shape_ok(),
            tunnels_marked(&self.level),
        ensures
            b == in_tunnel(&self.level, p, d),
    {
        let level = &self.level;
        proof {
            reveal(tunnels_marked);
        }
        let interior = 1 <= p.x && p.x < level.width - 1 && 1 <= p.y && p.y < level.height - 1;
        if !interior {
            return false;
        }
        let t = level.tile_at(p);
        if !intersects(t, FLOOR) || !intersects(t, TUNNEL) {
            return false;
        }
        match d {
            Direction::Up | Direction::Down => level.wall_at(Position { x: p.x - 1, y: p.y })
                && level.wall_at(Position { x: p.x + 1, y: p.y }),
            Direction::Left | Direction::Right => level.wall_at(Position { x: p.x, y: p.y - 1 })
                && level.wall_at(Position { x: p.x, y: p.y + 1 }),
        }
    }
}

} // verus!
