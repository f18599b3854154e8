//! Grid positions, the four cardinal directions, and player actions.

use vstd::prelude::*;

verus! {

/// A cell of the grid, addressed by column `x` and row `y`.
#[derive(Clone, Copy, PartialEq, Eq, Structural, Debug, Hash)]
pub struct Position {
    pub x: i32,
    pub y: i32,
}

/// One of the four cardinal directions. `Up` is the negative y direction.
#[derive(Clone, Copy, PartialEq, Eq, Structural, Debug, Hash)]
pub enum Direction {
    Up,
    Down,
    Left,
    Right,
}

/// One step of the player: a plain move, or a move that pushes a box.
#[derive(Clone, Copy, PartialEq, Eq, Structural, Debug, Hash)]
pub enum Action {
    Move(Direction),
    Push(Direction),
}

impl Direction {
    /// Change of the x coordinate made by one step in this direction.
    pub open spec fn dx(self) -> int {
        match self {
            Direction::Left => -1,
            Direction::Right => 1,
            _ => 0,
        }
    }

    /// Change of the y coordinate made by one step in this direction.
    pub open spec fn dy(self) -> int {
        match self {
            Direction::Up => -1,
            Direction::Down => 1,
            _ => 0,
        }
    }

    /// The direction that undoes this one.
    pub open spec fn opposite(self) -> Direction {
        match self {
            Direction::Up => Direction::Down,
            Direction::Down => Direction::Up,
            Direction::Left => Direction::Right,
            Direction::Right => Direction::Left,
        }
    }

    /// The four directions in the order in which the search tries them.
    pub open spec fn all() -> Seq<Direction> {
        seq![Direction::Up, Direction::Down, Direction::Left, Direction::Right]
    }

    /// The direction with the given number in [`Direction::all`].
    pub fn nth(i: usize) -> (d: Direction)
        requires
            i < 4,
        ensures
            d == Direction::all()[i as int],
    {
        if i == 0 {
            Direction::Up
        } else if i == 1 {
            Direction::Down
        } else if i == 2 {
            Direction::Left
        } else {
            Direction::Right
        }
    }

    /// Decides [`direction_to`].
    pub fn between(a: Position, b: Position) -> (r: Option<Direction>)
        ensures
            r == direction_to(a, b),
    {
        if a.x == b.x && a.y > i32::MIN && b.y == a.y - 1 {
            Some(Direction::Up)
        } else if a.x == b.x && a.y < i32::MAX && b.y == a.y + 1 {
            Some(Direction::Down)
        } else if a.y == b.y && a.x > i32::MIN && b.x == a.x - 1 {
            Some(Direction::Left)
        } else if a.y == b.y && a.x < i32::MAX && b.x == a.x + 1 {
            Some(Direction::Right)
        } else {
            None
        }
    }

    /// The direction that undoes this one.
    pub fn reverse(self) -> (r: Direction)
        ensures
            r == self.opposite(),
    {
        match self {
            Direction::Up => Direction::Down,
            Direction::Down => Direction::Up,
            Direction::Left => Direction::Right,
            Direction::Right => Direction::Left,
        }
    }
}

/// The direction of the unit step from `a` to `b`, if they are neighbours.
pub open spec fn direction_to(a: Position, b: Position) -> Option<Direction> {
    if a.x == b.x && b.y == a.y - 1 {
        Some(Direction::Up)
    } else if a.x == b.x && b.y == a.y + 1 {
        Some(Direction::Down)
    } else if a.y == b.y && b.x == a.x - 1 {
        Some(Direction::Left)
    } else if a.y == b.y && b.x == a.x + 1 {
        Some(Direction::Right)
    } else {
        None
    }
}

/// The direction between two cells is the one whose step leads from the
/// first to the second, and there is one exactly when they are adjacent.
pub proof fn lemma_direction_to(a: Position, b: Position)
    ensures
        direction_to(a, b) is Some <==> adjacent(a, b),
        direction_to(a, b) matches Some(d) ==> a.can_step(d) && a.step(d) == b,
        forall|d: Direction| a.can_step(d) ==> direction_to(a, #[trigger] a.step(d)) == Some(d),
{
}

impl Position {
    /// Whether the neighbour in direction `d` still has `i32` coordinates.
    pub open spec fn can_step(self, d: Direction) -> bool {
        i32::MIN <= self.x + d.dx() <= i32::MAX && i32::MIN <= self.y + d.dy() <= i32::MAX
    }

    /// The neighbour in direction `d`.
    pub open spec fn step(self, d: Direction) -> Position {
        Position { x: (self.x + d.dx()) as i32, y: (self.y + d.dy()) as i32 }
    }

    /// The neighbour in direction `d`, or `None` where a coordinate would leave `i32`.
    pub fn neighbor(self, d: Direction) -> (r: Option<Position>)
        ensures
            r == (if self.can_step(d) {
                Some(self.step(d))
            } else {
                None
            }),
    {
        match d {
            Direction::Up => if self.y > i32::MIN {
                Some(Position { x: self.x, y: self.y - 1 })
            } else {
                None
            },
            Direction::Down => if self.y < i32::MAX {
                Some(Position { x: self.x, y: self.y + 1 })
            } else {
                None
            },
            Direction::Left => if self.x > i32::MIN {
                Some(Position { x: self.x - 1, y: self.y })
            } else {
                None
            },
            Direction::Right => if self.x < i32::MAX {
                Some(Position { x: self.x + 1, y: self.y })
            } else {
                None
            },
        }
    }

    /// Row-major order: by `y` first, then by `x`.
    pub open spec fn before(self, other: Position) -> bool {
        self.y < other.y || (self.y == other.y && self.x < other.x)
    }

    /// Decides [`Position::before`].
    pub fn is_before(&self, other: &Position) -> (b: bool)
        ensures
            b == self.before(*other),
    {
        self.y < other.y || (self.y == other.y && self.x < other.x)
    }
}

/// The Manhattan distance of two cells.
pub open spec fn manhattan(a: Position, b: Position) -> int {
    (if a.x >= b.x {
        a.x - b.x
    } else {
        b.x - a.x
    }) + (if a.y >= b.y {
        a.y - b.y
    } else {
        b.y - a.y
    })
}

/// Two cells are adjacent when one unit step in a cardinal direction leads
/// from one to the other.
pub open spec fn adjacent(a: Position, b: Position) -> bool {
    manhattan(a, b) == 1
}

/// Computes the Manhattan distance of two cells.
pub fn manhattan_distance(a: &Position, b: &Position) -> (d: i64)
    ensures
        d == manhattan(*a, *b),
{
    let ax = a.x as i64;
    let ay = a.y as i64;
    let bx = b.x as i64;
    let by = b.y as i64;
    let dx = if ax >= bx {
        ax - bx
    } else {
        bx - ax
    };
    let dy = if ay >= by {
        ay - by
    } else {
        by - ay
    };
    dx + dy
}

} // verus!
