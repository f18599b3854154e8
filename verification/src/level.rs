//! The immutable puzzle grid: a rectangle of tile bitmasks, the player's
//! start, the boxes and the targets.

use crate::position::Position;
use vstd::prelude::*;

verus! {

/// Tile flag: the cell is floor.
pub const FLOOR: u8 = 1;

/// Tile flag: the cell is a wall.
pub const WALL: u8 = 2;

/// Tile flag: a box starts on the cell.
pub const CRATE: u8 = 4;

/// Tile flag: the cell is a target.
pub const TARGET: u8 = 8;

/// Tile flag: the player starts on the cell.
pub const PLAYER: u8 = 16;

/// Tile flag: a box on the cell can never reach a target.
pub const DEADLOCK: u8 = 32;

/// Tile flag: the cell lies between two opposite walls.
pub const TUNNEL: u8 = 64;

/// Whether a tile bitmask holds any bit of `flag`.
pub open spec fn has_flag(tile: u8, flag: u8) -> bool {
    tile & flag != 0
}

/// Decides [`has_flag`].
pub fn intersects(tile: u8, flag: u8) -> (b: bool)
    ensures
        b == has_flag(tile, flag),
{
    tile & flag != 0
}

/// Whether `s` is strictly ascending in row-major order; such a sequence
/// lists a set of cells without repetition, in one fixed order.
pub open spec fn strictly_sorted(s: Seq<Position>) -> bool {
    forall|i: int, j: int| 0 <= i < j < s.len() ==> (#[trigger] s[i]).before(#[trigger] s[j])
}

/// Whether `list` holds the cell `p`.
pub fn list_contains(list: &Vec<Position>, p: Position) -> (b: bool)
    ensures
        b == list@.contains(p),
{
    let mut i: usize = 0;
    while i < list.len()
        invariant
            i <= list@.len(),
            forall|j: int| 0 <= j < i ==> list@[j] != p,
        decreases list@.len() - i,
    {
        if list[i] == p {
            return true;
        }
        i = i + 1;
    }
    false
}

/// A copy of a list of cells.
pub fn copy_list(list: &Vec<Position>) -> (r: Vec<Position>)
    ensures
        r@ == list@,
{
    let mut r: Vec<Position> = Vec::new();
    let mut i: usize = 0;
    while i < list.len()
        invariant
            i <= list@.len(),
            r@ == list@.subrange(0, i as int),
        decreases list@.len() - i,
    {
        r.push(list[i]);
        assert(r@ =~= list@.subrange(0, i + 1));
        i = i + 1;
    }
    assert(r@ =~= list@);
    r
}

/// Whether two lists hold the same cells in the same order.
pub fn same_list(a: &Vec<Position>, b: &Vec<Position>) -> (r: bool)
    ensures
        r == (a@ == b@),
{
    if a.len() != b.len() {
        return false;
    }
    let mut i: usize = 0;
    while i < a.len()
        invariant
            i <= a@.len(),
            a@.len() == b@.len(),
            forall|j: int| 0 <= j < i ==> a@[j] == b@[j],
        decreases a@.len() - i,
    {
        if a[i] != b[i] {
            return false;
        }
        i = i + 1;
    }
    assert(a@ =~= b@);
    true
}

/// Two lists in row-major order that hold the same cells are the same list.
pub proof fn lemma_sorted_unique(a: Seq<Position>, b: Seq<Position>)
    requires
        strictly_sorted(a),
        strictly_sorted(b),
        a.to_set() == b.to_set(),
    ensures
        a == b,
    decreases a.len(),
{
    if a.len() == 0 {
        if b.len() > 0 {
            assert(b.contains(b[0]));
            assert(b.to_set().contains(b[0]));
            assert(a.contains(b[0]));
        }
        assert(a =~= b);
    } else {
        let m = a.last();
        assert(a.contains(m));
        assert(b.to_set().contains(m));
        assert(b.contains(m));
        let j = choose|j: int| 0 <= j < b.len() && b[j] == m;
        if j < b.len() - 1 {
            let n = b.last();
            assert(b.contains(n));
            assert(a.to_set().contains(n));
            let i = choose|i: int| 0 <= i < a.len() && a[i] == n;
            assert(b[j].before(n));
            if i < a.len() - 1 {
                assert(a[i].before(m));
            }
        }
        let a2 = a.drop_last();
        let b2 = b.drop_last();
        assert forall|p: Position| a2.to_set().contains(p) <==> b2.to_set().contains(p) by {
            if a2.contains(p) {
                let i = choose|i: int| 0 <= i < a2.len() && a2[i] == p;
                assert(a[i] == p);
                assert(a[i].before(m));
                assert(a.contains(p));
                assert(b.to_set().contains(p));
                let k = choose|k: int| 0 <= k < b.len() && b[k] == p;
                assert(k != b.len() - 1);
                assert(b2[k] == p);
            }
            if b2.contains(p) {
                let k = choose|k: int| 0 <= k < b2.len() && b2[k] == p;
                assert(b[k] == p);
                assert(b[k].before(m));
                assert(b.contains(p));
                assert(a.to_set().contains(p));
                let i = choose|i: int| 0 <= i < a.len() && a[i] == p;
                assert(i != a.len() - 1);
                assert(a2[i] == p);
            }
        }
        assert(a2.to_set() =~= b2.to_set());
        lemma_sorted_unique(a2, b2);
        assert(a =~= a2.push(m));
        assert(b =~= b2.push(m));
    }
}

/// The cells of a list with one more cell are those of the list and that cell.
pub proof fn lemma_push_contains(s: Seq<Position>, a: Position)
    ensures
        forall|p: Position| #[trigger] s.push(a).contains(p) <==> s.contains(p) || p == a,
        s.push(a).to_set() == s.to_set().insert(a),
{
    assert forall|p: Position| #[trigger] s.push(a).contains(p) <==> s.contains(p) || p == a by {
        if s.contains(p) {
            let i = choose|i: int| 0 <= i < s.len() && s[i] == p;
            assert(s.push(a)[i] == p);
        }
        if p == a {
            assert(s.push(a)[s.len() as int] == a);
        }
        if s.push(a).contains(p) {
            let i = choose|i: int| 0 <= i < s.push(a).len() && s.push(a)[i] == p;
            if i < s.len() {
                assert(s[i] == p);
            }
        }
    }
    assert(s.push(a).to_set() =~= s.to_set().insert(a));
}

/// Putting one cell of a list without repetition in the place of another
/// gives the cells of the list without the one and with the other.
pub proof fn lemma_update_cells(cells: Seq<Position>, i: int, t: Position)
    requires
        cells.no_duplicates(),
        0 <= i < cells.len(),
        !cells.contains(t),
    ensures
        cells.update(i, t).no_duplicates(),
        cells.update(i, t).to_set() == cells.to_set().remove(cells[i]).insert(t),
{
    let next = cells.update(i, t);
    assert forall|p: Position|
        next.to_set().contains(p) <==> cells.to_set().remove(cells[i]).insert(t).contains(p) by {
        if next.contains(p) {
            let j = choose|j: int| 0 <= j < next.len() && next[j] == p;
            if j != i {
                assert(cells[j] == p);
                assert(cells.contains(p));
            }
        }
        if p == t {
            assert(next[i] == t);
        } else if cells.contains(p) && p != cells[i] {
            let j = choose|j: int| 0 <= j < cells.len() && cells[j] == p;
            assert(next[j] == p);
        }
    }
    assert(next.to_set() =~= cells.to_set().remove(cells[i]).insert(t));
    assert forall|a: int, b: int| 0 <= a < next.len() && 0 <= b < next.len() && a != b implies next[a]
        != next[b] by {
        if a == i {
            assert(cells.contains(cells[b]));
        } else if b == i {
            assert(cells.contains(cells[a]));
        }
    }
}

/// Why a grid was not accepted as a level.
#[derive(Clone, Copy, PartialEq, Eq, Structural, Debug)]
pub enum LevelError {
    /// A dimension is negative, the grid has more than `i32::MAX` cells, or the
    /// number of tiles is not width times height.
    Dimensions,
    /// A wall tile also holds the player or a box, or a tile holds both the
    /// player and a box.
    Tile,
    /// No tile holds the player.
    NoPlayer,
    /// More than one tile holds the player.
    ManyPlayers,
}

/// A rectangular grid of tile bitmasks, stored row by row, with the player's
/// start and the row-major lists of the boxes and the targets.
#[derive(Clone, Debug)]
pub struct Level {
    pub width: i32,
    pub height: i32,
    pub tiles: Vec<u8>,
    pub player_position: Position,
    pub box_positions: Vec<Position>,
    pub target_positions: Vec<Position>,
}

/// Whether `p` lies in a grid of the given dimensions.
pub open spec fn inside(width: int, height: int, p: Position) -> bool {
    0 <= p.x < width && 0 <= p.y < height
}

/// Whether a tile may stand in a level: a wall holds neither the player nor a
/// box, and no tile holds both.
pub open spec fn tile_ok(t: u8) -> bool {
    &&& has_flag(t, WALL) ==> !has_flag(t, PLAYER) && !has_flag(t, CRATE)
    &&& !(has_flag(t, PLAYER) && has_flag(t, CRATE))
}

/// Whether the cells of `list` are exactly the cells whose tile holds `flag`,
/// in row-major order.
pub open spec fn lists_flag(
    width: int,
    height: int,
    tiles: Seq<u8>,
    flag: u8,
    list: Seq<Position>,
) -> bool {
    &&& strictly_sorted(list)
    &&& forall|p: Position| #[trigger]
        list.contains(p) <==> inside(width, height, p) && has_flag(cell_tile(width, tiles, p), flag)
}

impl Level {
    /// Whether `p` lies in the grid.
    pub open spec fn in_bounds(&self, p: Position) -> bool {
        inside(self.width as int, self.height as int, p)
    }

    /// The place of cell `p` in `tiles`.
    pub open spec fn index_of(&self, p: Position) -> int {
        p.y * self.width + p.x
    }

    /// The bitmask of cell `p`; outside the grid every cell is a wall.
    pub open spec fn tile(&self, p: Position) -> u8 {
        if self.in_bounds(p) {
            self.tiles@[self.index_of(p)]
        } else {
            WALL
        }
    }

    /// Whether `p` is a wall, or lies outside the grid.
    pub open spec fn is_wall(&self, p: Position) -> bool {
        has_flag(self.tile(p), WALL)
    }

    /// The set of wall cells, the whole outside of the grid included.
    pub open spec fn walls(&self) -> Set<Position> {
        Set::new(|p: Position| self.is_wall(p))
    }

    /// Whether `p` is one of the level's targets.
    pub open spec fn is_target(&self, p: Position) -> bool {
        self.target_positions@.contains(p)
    }

    /// Whether `p` is an interior cell: one whose four neighbours lie in the grid.
    pub open spec fn interior(&self, p: Position) -> bool {
        1 <= p.x < self.width - 1 && 1 <= p.y < self.height - 1
    }

    /// The dimensions fit the tiles, and the grid has at most `i32::MAX` cells.
    pub open spec fn shape_ok(&self) -> bool {
        &&& 0 <= self.width
        &&& 0 <= self.height
        &&& self.width * self.height == self.tiles@.len()
        &&& self.tiles@.len() <= i32::MAX
    }

    /// The level's invariant: the shape fits; the player stands in the grid, off
    /// the walls and off the boxes; the boxes are listed in row-major order,
    /// each in the grid and off the walls; the targets are exactly the cells
    /// flagged as targets, in row-major order.
    pub open spec fn wf(&self) -> bool {
        &&& self.shape_ok()
        &&& self.in_bounds(self.player_position)
        &&& !self.is_wall(self.player_position)
        &&& !self.box_positions@.contains(self.player_position)
        &&& strictly_sorted(self.box_positions@)
        &&& forall|i: int|
            0 <= i < self.box_positions@.len() ==> self.in_bounds(#[trigger] self.box_positions@[i])
                && !self.is_wall(self.box_positions@[i])
        &&& lists_flag(
            self.width as int,
            self.height as int,
            self.tiles@,
            TARGET,
            self.target_positions@,
        )
    }

    /// Builds a level from its dimensions and its tiles, row by row. The player
    /// is the one cell flagged [`PLAYER`], the boxes are the cells flagged
    /// [`CRATE`], the targets the cells flagged [`TARGET`].
    pub fn new(width: i32, height: i32, tiles: Vec<u8>) -> (r: Result<Level, LevelError>)
        ensures
            match r {
                Ok(level) => {
                    &&& level.wf()
                    &&& level.width == width
                    &&& level.height == height
                    &&& level.tiles@ == tiles@
                    &&& has_flag(level.tile(level.player_position), PLAYER)
                    &&& lists_flag(
                        width as int,
                        height as int,
                        tiles@,
                        CRATE,
                        level.box_positions@,
                    )
                },
                Err(e) => Some(e) == new_error(width as int, height as int, tiles@),
            },
            r is Ok <==> new_error(width as int, height as int, tiles@) is None,
    {
        if width < 0 || height < 0 || tiles.len() > i32::MAX as usize {
            return Err(LevelError::Dimensions);
        }
        assert(width * height <= 0x8000_0000 * 0x8000_0000) by (nonlinear_arith)
            requires
                0 <= width <= 0x8000_0000,
                0 <= height <= 0x8000_0000,
        ;
        if (width as u64) * (height as u64) != tiles.len() as u64 {
            return Err(LevelError::Dimensions);
        }
        let mut boxes: Vec<Position> = Vec::new();
        let mut targets: Vec<Position> = Vec::new();
        let mut player: Option<Position> = None;
        let mut many: bool = false;
        let mut bad: bool = false;
        let mut y: i32 = 0;
        let mut base: usize = 0;
        while y < height
            invariant
                0 <= y <= height,
                0 <= width,
                width * height == tiles@.len(),
                tiles@.len() <= i32::MAX,
                base == y * width,
                scanned(
                    width as int,
                    tiles@,
                    base as int,
                    boxes@,
                    targets@,
                    player,
                    many,
                    bad,
                ),
            decreases height - y,
        {
            let mut x: i32 = 0;
            proof {
                assert((y + 1) * width == y * width + width) by (nonlinear_arith);
                assert((y + 1) * width <= height * width) by (nonlinear_arith)
                    requires
                        y + 1 <= height,
                        0 <= width,
                ;
                assert(height * width == width * height) by (nonlinear_arith);
            }
            while x < width
                invariant
                    0 <= x <= width,
                    0 <= y < height,
                    base == y * width,
                    base + width <= tiles@.len(),
                    tiles@.len() <= i32::MAX,
                    scanned(
                        width as int,
                        tiles@,
                        base + x,
                        boxes@,
                        targets@,
                        player,
                        many,
                        bad,
                    ),
                decreases width - x,
            {
                let p = Position { x, y };
                let t = tiles[base + x as usize];
                proof {
                    lemma_scan_step(
                        width as int,
                        tiles@,
                        base + x,
                        p,
                        boxes@,
                        targets@,
                        player,
                        many,
                        bad,
                    );
                }
                if intersects(t, WALL) && (intersects(t, PLAYER) || intersects(t, CRATE)) {
                    bad = true;
                }
                if intersects(t, PLAYER) && intersects(t, CRATE) {
                    bad = true;
                }
                if intersects(t, PLAYER) {
                    if player.is_some() {
                        many = true;
                    } else {
                        player = Some(p);
                    }
                }
                if intersects(t, CRATE) {
                    boxes.push(p);
                }
                if intersects(t, TARGET) {
                    targets.push(p);
                }
                x = x + 1;
            }
            y = y + 1;
            base = base + width as usize;
        }
        proof {
            assert(height * width == width * height) by (nonlinear_arith);
            lemma_scan_done(
                width as int,
                height as int,
                tiles@,
                boxes@,
                targets@,
                player,
                many,
                bad,
            );
        }
        if bad {
            return Err(LevelError::Tile);
        }
        match player {
            None => Err(LevelError::NoPlayer),
            Some(p) => {
                if many {
                    Err(LevelError::ManyPlayers)
                } else {
                    let level = Level {
                        width,
                        height,
                        tiles,
                        player_position: p,
                        box_positions: boxes,
                        target_positions: targets,
                    };
                    proof {
                        lemma_index_in_range(width as int, height as int, p);
                        assert forall|i: int| 0 <= i < level.box_positions@.len() implies level.in_bounds(
                            #[trigger] level.box_positions@[i],
                        ) && !level.is_wall(level.box_positions@[i]) by {
                            let b = level.box_positions@[i];
                            assert(level.box_positions@.contains(b));
                            lemma_index_in_range(width as int, height as int, b);
                        }
                        if level.box_positions@.contains(p) {
                            lemma_index_in_range(width as int, height as int, p);
                        }
                    }
                    Ok(level)
                }
            },
        }
    }

    /// The number of columns.
    pub fn width(&self) -> (w: i32)
        ensures
            w == self.width,
    {
        self.width
    }

    /// The number of rows.
    pub fn height(&self) -> (h: i32)
        ensures
            h == self.height,
    {
        self.height
    }

    /// Decides [`Level::in_bounds`].
    pub fn contains(&self, p: Position) -> (b: bool)
        ensures
            b == self.in_bounds(p),
    {
        0 <= p.x && p.x < self.width && 0 <= p.y && p.y < self.height
    }

    /// The bitmask of cell `p`; [`WALL`] outside the grid.
    pub fn tile_at(&self, p: Position) -> (t: u8)
        requires
            self.shape_ok(),
        ensures
            t == self.tile(p),
    {
        if self.contains(p) {
            proof {
                lemma_index_in_range(self.width as int, self.height as int, p);
            }
            self.tiles[p.y as usize * self.width as usize + p.x as usize]
        } else {
            WALL
        }
    }

    /// The place of cell `p`, which lies in the grid, in `tiles`.
    pub fn cell_index(&self, p: Position) -> (i: usize)
        requires
            self.shape_ok(),
            self.in_bounds(p),
        ensures
            i == self.index_of(p),
            i < self.tiles@.len(),
    {
        proof {
            lemma_index_in_range(self.width as int, self.height as int, p);
        }
        p.y as usize * self.width as usize + p.x as usize
    }

    /// Whether cell `p` is a wall or lies outside the grid.
    pub fn wall_at(&self, p: Position) -> (b: bool)
        requires
            self.shape_ok(),
        ensures
            b == self.is_wall(p),
    {
        intersects(self.tile_at(p), WALL)
    }

    /// Sets the bits of `flag` in the tile of cell `p`, which lies in the grid.
    pub fn insert_flag(&mut self, p: Position, flag: u8)
        requires
            old(self).shape_ok(),
            old(self).in_bounds(p),
        ensures
            final(self).shape_ok(),
            forall|q: Position|
                #[trigger] final(self).tile(q) == (if q == p {
                    old(self).tile(p) | flag
                } else {
                    old(self).tile(q)
                }),
            final(self).width == old(self).width,
            final(self).height == old(self).height,
            final(self).player_position == old(self).player_position,
            final(self).box_positions == old(self).box_positions,
            final(self).target_positions == old(self).target_positions,
    {
        let i = self.cell_index(p);
        let t = self.tiles[i];
        self.tiles.set(i, t | flag);
        proof {
            assert forall|q: Position|
                #[trigger] self.tile(q) == (if q == p {
                    old(self).tile(p) | flag
                } else {
                    old(self).tile(q)
                }) by {
                if self.in_bounds(q) {
                    lemma_index_in_range(self.width as int, self.height as int, q);
                    lemma_index_order(self.width as int, p, q);
                }
            }
        }
    }

    /// Clears the bits of `flags` in every tile.
    pub fn clear(&mut self, flags: u8)
        requires
            old(self).shape_ok(),
        ensures
            final(self).shape_ok(),
            forall|q: Position|
                #[trigger] final(self).tile(q) == (if old(self).in_bounds(q) {
                    old(self).tile(q) & !flags
                } else {
                    WALL
                }),
            final(self).width == old(self).width,
            final(self).height == old(self).height,
            final(self).player_position == old(self).player_position,
            final(self).box_positions == old(self).box_positions,
            final(self).target_positions == old(self).target_positions,
    {
        let n = self.tiles.len();
        let mut i: usize = 0;
        while i < n
            invariant
                i <= n,
                n == self.tiles@.len(),
                n == old(self).tiles@.len(),
                forall|j: int| 0 <= j < i ==> #[trigger] self.tiles@[j] == old(self).tiles@[j] & !flags,
                forall|j: int| i <= j < n ==> #[trigger] self.tiles@[j] == old(self).tiles@[j],
                self.width == old(self).width,
                self.height == old(self).height,
                self.player_position == old(self).player_position,
                self.box_positions == old(self).box_positions,
                self.target_positions == old(self).target_positions,
            decreases n - i,
        {
            let t = self.tiles[i];
            self.tiles.set(i, t & !flags);
            i = i + 1;
        }
        proof {
            assert forall|q: Position|
                #[trigger] self.tile(q) == (if old(self).in_bounds(q) {
                    old(self).tile(q) & !flags
                } else {
                    WALL
                }) by {
                if self.in_bounds(q) {
                    lemma_index_in_range(self.width as int, self.height as int, q);
                }
            }
        }
    }
}

/// The error that [`Level::new`] reports for a grid, if any: the first that
/// applies of a bad shape, a bad tile, no player, several players.
pub open spec fn new_error(width: int, height: int, tiles: Seq<u8>) -> Option<LevelError> {
    if width < 0 || height < 0 || tiles.len() > i32::MAX || width * height != tiles.len() {
        Some(LevelError::Dimensions)
    } else if exists|i: int| 0 <= i < tiles.len() && !tile_ok(#[trigger] tiles[i]) {
        Some(LevelError::Tile)
    } else if forall|i: int| 0 <= i < tiles.len() ==> !has_flag(#[trigger] tiles[i], PLAYER) {
        Some(LevelError::NoPlayer)
    } else if exists|i: int, j: int|
        0 <= i < j < tiles.len() && has_flag(#[trigger] tiles[i], PLAYER) && has_flag(
            #[trigger] tiles[j],
            PLAYER,
        ) {
        Some(LevelError::ManyPlayers)
    } else {
        None
    }
}

/// The tile at the place of cell `p` in a grid with rows of `width` tiles.
pub open spec fn cell_tile(width: int, tiles: Seq<u8>, p: Position) -> u8 {
    tiles[p.y * width + p.x]
}

/// Whether cell `p` has a column in the grid and is one of the first `n`
/// cells in row-major order.
pub open spec fn cell_below(width: int, n: int, p: Position) -> bool {
    0 <= p.x < width && 0 <= p.y && p.y * width + p.x < n
}

/// What a row-major scan knows after the first `n` tiles.
pub open spec fn scanned(
    width: int,
    tiles: Seq<u8>,
    n: int,
    boxes: Seq<Position>,
    targets: Seq<Position>,
    player: Option<Position>,
    many: bool,
    bad: bool,
) -> bool {
    &&& 0 <= n <= tiles.len()
    &&& listed_below(width, tiles, n, CRATE, boxes)
    &&& listed_below(width, tiles, n, TARGET, targets)
    &&& bad <==> exists|i: int| 0 <= i < n && !tile_ok(#[trigger] tiles[i])
    &&& player is None <==> forall|i: int| 0 <= i < n ==> !has_flag(#[trigger] tiles[i], PLAYER)
    &&& player matches Some(p) ==> cell_below(width, n, p) && has_flag(
        cell_tile(width, tiles, p),
        PLAYER,
    )
    &&& many <==> exists|i: int, j: int|
        0 <= i < j < n && has_flag(#[trigger] tiles[i], PLAYER) && has_flag(
            #[trigger] tiles[j],
            PLAYER,
        )
}

/// Whether `list` holds, in row-major order, exactly the cells among the
/// first `n` whose tile holds `flag`.
pub open spec fn listed_below(
    width: int,
    tiles: Seq<u8>,
    n: int,
    flag: u8,
    list: Seq<Position>,
) -> bool {
    &&& strictly_sorted(list)
    &&& forall|p: Position| #[trigger]
        list.contains(p) <==> cell_below(width, n, p) && has_flag(cell_tile(width, tiles, p), flag)
}

/// A cell in the grid has its index in range.
pub proof fn lemma_index_in_range(width: int, height: int, p: Position)
    requires
        inside(width, height, p),
    ensures
        0 <= p.y * width + p.x < width * height,
{
    assert(0 <= p.y * width) by (nonlinear_arith)
        requires
            0 <= p.y,
            0 <= width,
    ;
    assert(p.y * width + width <= height * width) by (nonlinear_arith)
        requires
            p.y + 1 <= height,
            0 <= width,
    ;
    assert(height * width == width * height) by (nonlinear_arith);
}

/// Cells whose columns lie in the grid are ordered by their indices as they
/// are in row-major order; so two of them with one index are one cell.
pub proof fn lemma_index_order(width: int, p: Position, q: Position)
    requires
        0 <= p.x < width,
        0 <= q.x < width,
    ensures
        p.y * width + p.x < q.y * width + q.x <==> p.before(q),
        p.y * width + p.x == q.y * width + q.x <==> p == q,
{
    if p.y < q.y {
        assert(p.y * width + width <= q.y * width) by (nonlinear_arith)
            requires
                p.y + 1 <= q.y,
                0 <= width,
        ;
    } else if q.y < p.y {
        assert(q.y * width + width <= p.y * width) by (nonlinear_arith)
            requires
                q.y + 1 <= p.y,
                0 <= width,
        ;
    }
}

/// One step of the scan: what holds after the tile of cell `p`, the cell with
/// index `n`, has been looked at.
pub proof fn lemma_scan_step(
    width: int,
    tiles: Seq<u8>,
    n: int,
    p: Position,
    boxes: Seq<Position>,
    targets: Seq<Position>,
    player: Option<Position>,
    many: bool,
    bad: bool,
)
    requires
        scanned(width, tiles, n, boxes, targets, player, many, bad),
        n < tiles.len(),
        0 <= p.x < width,
        0 <= p.y,
        p.y * width + p.x == n,
    ensures
        ({
            let t = tiles[n];
            let boxes2 = if has_flag(t, CRATE) {
                boxes.push(p)
            } else {
                boxes
            };
            let targets2 = if has_flag(t, TARGET) {
                targets.push(p)
            } else {
                targets
            };
            let player2 = if has_flag(t, PLAYER) && player is None {
                Some(p)
            } else {
                player
            };
            let many2 = many || (has_flag(t, PLAYER) && player is Some);
            let bad2 = bad || !tile_ok(t);
            scanned(width, tiles, n + 1, boxes2, targets2, player2, many2, bad2)
        }),
{
    let t = tiles[n];
    let player2 = if has_flag(t, PLAYER) && player is None {
        Some(p)
    } else {
        player
    };
    let many2 = many || (has_flag(t, PLAYER) && player is Some);
    let bad2 = bad || !tile_ok(t);
    lemma_push_listed(width, tiles, n, CRATE, boxes, p);
    lemma_push_listed(width, tiles, n, TARGET, targets, p);
    assert(bad2 <==> exists|i: int| 0 <= i < n + 1 && !tile_ok(#[trigger] tiles[i])) by {
        if bad {
            let i = choose|i: int| 0 <= i < n && !tile_ok(#[trigger] tiles[i]);
            assert(0 <= i < n + 1 && !tile_ok(tiles[i]));
        }
        if !tile_ok(t) {
            assert(0 <= n < n + 1 && !tile_ok(tiles[n]));
        }
    }
    assert(player2 is None <==> forall|i: int|
        0 <= i < n + 1 ==> !has_flag(#[trigger] tiles[i], PLAYER)) by {
        if player2 is None {
            assert forall|i: int| 0 <= i < n + 1 implies !has_flag(#[trigger] tiles[i], PLAYER) by {
                if i < n {
                } else {
                    assert(i == n);
                }
            }
        } else if player is Some {
            let i = choose|i: int| 0 <= i < n && has_flag(#[trigger] tiles[i], PLAYER);
            assert(0 <= i < n + 1 && has_flag(tiles[i], PLAYER));
        } else {
            assert(has_flag(tiles[n], PLAYER));
        }
    }
    assert(many2 <==> exists|i: int, j: int|
        0 <= i < j < n + 1 && has_flag(#[trigger] tiles[i], PLAYER) && has_flag(
            #[trigger] tiles[j],
            PLAYER,
        )) by {
        if many {
            let (i, j) = choose|i: int, j: int|
                0 <= i < j < n && has_flag(#[trigger] tiles[i], PLAYER) && has_flag(
                    #[trigger] tiles[j],
                    PLAYER,
                );
            assert(0 <= i < j < n + 1 && has_flag(tiles[i], PLAYER) && has_flag(tiles[j], PLAYER));
        } else if has_flag(t, PLAYER) && player is Some {
            let i = choose|i: int| 0 <= i < n && has_flag(#[trigger] tiles[i], PLAYER);
            assert(0 <= i < n < n + 1 && has_flag(tiles[i], PLAYER) && has_flag(tiles[n], PLAYER));
        } else {
            if exists|i: int, j: int|
                0 <= i < j < n + 1 && has_flag(#[trigger] tiles[i], PLAYER) && has_flag(
                    #[trigger] tiles[j],
                    PLAYER,
                ) {
                let (i, j) = choose|i: int, j: int|
                    0 <= i < j < n + 1 && has_flag(#[trigger] tiles[i], PLAYER) && has_flag(
                        #[trigger] tiles[j],
                        PLAYER,
                    );
                if j < n {
                    assert(0 <= i < j < n && has_flag(tiles[i], PLAYER) && has_flag(
                        tiles[j],
                        PLAYER,
                    ));
                } else {
                    assert(has_flag(tiles[i], PLAYER) && 0 <= i < n);
                }
            }
        }
    }
}

/// Appending the cell with index `n` to the list of flagged cells before `n`
/// gives the list of flagged cells before `n + 1`.
pub proof fn lemma_push_listed(
    width: int,
    tiles: Seq<u8>,
    n: int,
    flag: u8,
    list: Seq<Position>,
    p: Position,
)
    requires
        0 <= n < tiles.len(),
        0 <= p.x < width,
        0 <= p.y,
        p.y * width + p.x == n,
        listed_below(width, tiles, n, flag, list),
    ensures
        listed_below(
            width,
            tiles,
            n + 1,
            flag,
            if has_flag(tiles[n], flag) {
                list.push(p)
            } else {
                list
            },
        ),
{
    let list2 = if has_flag(tiles[n], flag) {
        list.push(p)
    } else {
        list
    };
    assert forall|i: int, j: int| 0 <= i < j < list2.len() implies (#[trigger] list2[i]).before(
        #[trigger] list2[j],
    ) by {
        if j == list.len() {
            let q = list[i];
            assert(list.contains(q));
            lemma_index_order(width, q, p);
        }
    }
    assert forall|q: Position| #[trigger]
        list2.contains(q) <==> cell_below(width, n + 1, q) && has_flag(
            cell_tile(width, tiles, q),
            flag,
        ) by {
        if list2.contains(q) {
            let i = choose|i: int| 0 <= i < list2.len() && list2[i] == q;
            if i < list.len() {
                assert(list[i] == q);
                assert(list.contains(q));
            }
        }
        if cell_below(width, n + 1, q) && has_flag(cell_tile(width, tiles, q), flag) {
            lemma_index_order(width, q, p);
            if q.y * width + q.x < n {
                assert(list.contains(q));
                let i = choose|i: int| 0 <= i < list.len() && list[i] == q;
                assert(list2[i] == q);
            } else {
                assert(q == p);
                assert(list2[list.len() as int] == p);
            }
        }
    }
}

/// In a grid of `width * height` tiles, the cells among the first
/// `width * height` are the cells of the grid.
pub proof fn lemma_below_all(width: int, height: int, p: Position)
    requires
        0 <= width,
        0 <= height,
    ensures
        cell_below(width, width * height, p) <==> inside(width, height, p),
{
    if 0 <= p.x < width && 0 <= p.y {
        if p.y < height {
            lemma_index_in_range(width, height, p);
        } else {
            assert(p.y * width >= height * width) by (nonlinear_arith)
                requires
                    p.y >= height,
                    0 <= width,
            ;
            assert(height * width == width * height) by (nonlinear_arith);
        }
    }
}

/// What a complete scan gives: the lists and the error of [`Level::new`].
pub proof fn lemma_scan_done(
    width: int,
    height: int,
    tiles: Seq<u8>,
    boxes: Seq<Position>,
    targets: Seq<Position>,
    player: Option<Position>,
    many: bool,
    bad: bool,
)
    requires
        0 <= width,
        0 <= height,
        width * height == tiles.len(),
        tiles.len() <= i32::MAX,
        scanned(width, tiles, tiles.len() as int, boxes, targets, player, many, bad),
    ensures
        lists_flag(width, height, tiles, CRATE, boxes),
        lists_flag(width, height, tiles, TARGET, targets),
        new_error(width, height, tiles) == (if bad {
            Some(LevelError::Tile)
        } else if player is None {
            Some(LevelError::NoPlayer)
        } else if many {
            Some(LevelError::ManyPlayers)
        } else {
            None
        }),
        player matches Some(p) ==> inside(width, height, p) && has_flag(
            cell_tile(width, tiles, p),
            PLAYER,
        ),
        !bad ==> forall|i: int| 0 <= i < tiles.len() ==> tile_ok(#[trigger] tiles[i]),
{
    assert forall|p: Position| #[trigger]
        boxes.contains(p) <==> inside(width, height, p) && has_flag(
            cell_tile(width, tiles, p),
            CRATE,
        ) by {
        lemma_below_all(width, height, p);
    }
    assert forall|p: Position| #[trigger]
        targets.contains(p) <==> inside(width, height, p) && has_flag(
            cell_tile(width, tiles, p),
            TARGET,
        ) by {
        lemma_below_all(width, height, p);
    }
    if let Some(p) = player {
        lemma_below_all(width, height, p);
    }
}

} // verus!
