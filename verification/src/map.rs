//! The tile grid and the dungeon generator: rooms, corridors, and the
//! carving operations that open floor tiles in an initially solid grid.

use vstd::prelude::*;
use crate::rng::rng_range;
use crate::object::Color;
use crate::reach::{connected, open_at, lemma_connected_refl, lemma_connected_sym,
    lemma_connected_trans, lemma_connected_monotone, lemma_hseg_connected, lemma_vseg_connected};

verus! {

/// Width of the tile grid, in tiles.
pub const MAP_WIDTH: i32 = 80;
/// Height of the tile grid, in tiles.
pub const MAP_HEIGHT: i32 = 45;

/// Largest side length a generated room may have.
pub const ROOM_MAX_SIZE: i32 = 10;
/// Smallest side length a generated room may have.
pub const ROOM_MIN_SIZE: i32 = 6;
/// How many room candidates the generator samples.
pub const MAX_ROOMS: i32 = 30;

/// One grid cell. `solid` blocks movement, `!transparent` blocks sight,
/// `explored` records whether the cell was ever visible. The flags are
/// independent: a solid yet transparent cell is legal.
#[derive(Debug, Clone, Copy, PartialEq, Eq, Structural)]
pub struct Tile {
    pub solid: bool,
    pub transparent: bool,
    pub explored: bool,
}

impl Tile {
    /// An open floor tile: walkable, see-through, not yet explored.
    pub fn new_empty() -> (t: Tile)
        ensures
            t == Tile::empty(),
    {
        Tile { solid: false, transparent: true, explored: false }
    }

    /// A wall tile: blocks movement and sight, not yet explored.
    pub fn new_wall() -> (t: Tile)
        ensures
            t == Tile::wall(),
    {
        Tile { solid: true, transparent: false, explored: false }
    }

    /// The value `new_empty` returns.
    pub open spec fn empty() -> Tile {
        Tile { solid: false, transparent: true, explored: false }
    }

    /// The value `new_wall` returns.
    pub open spec fn wall() -> Tile {
        Tile { solid: true, transparent: false, explored: false }
    }
}

/// An axis-aligned room rectangle. `x2` and `y2` are the far walls; the
/// carved interior is `x1+1 .. x2` by `y1+1 .. y2`, leaving a one-tile
/// wall border inside the rectangle.
#[derive(Debug, Clone, Copy, PartialEq, Eq, Structural)]
pub struct Rect {
    pub x1: i32,
    pub y1: i32,
    pub x2: i32,
    pub y2: i32,
}

/// Whether the closed intervals of two rectangles overlap on both axes.
/// This is the placement-rejection predicate; it is symmetric.
pub open spec fn rect_overlap(a: Rect, b: Rect) -> bool {
    a.x1 <= b.x2 && a.x2 >= b.x1 && a.y1 <= b.y2 && a.y2 >= b.y1
}

/// The intersection predicate treats its two rectangles alike:
/// `a.intersects_with(b)` and `b.intersects_with(a)` always agree.
pub proof fn lemma_rect_overlap_symmetric(a: Rect, b: Rect)
    ensures
        rect_overlap(a, b) == rect_overlap(b, a),
{
}

impl Rect {
    /// A rectangle with near corner `(x, y)` and the given extent.
    pub fn new(x: i32, y: i32, width: i32, height: i32) -> (r: Rect)
        requires
            i32::MIN <= x + width <= i32::MAX,
            i32::MIN <= y + height <= i32::MAX,
        ensures
            r.x1 == x,
            r.y1 == y,
            r.x2 == x + width,
            r.y2 == y + height,
    {
        Rect { x1: x, y1: y, x2: x + width, y2: y + height }
    }

    /// The midpoint, rounded toward the near corner.
    pub fn get_center(&self) -> (c: (i32, i32))
        requires
            0 <= self.x1 <= self.x2,
            0 <= self.y1 <= self.y2,
            self.x1 + self.x2 <= i32::MAX,
            self.y1 + self.y2 <= i32::MAX,
        ensures
            c.0 == self.center().0,
            c.1 == self.center().1,
    {
        let center_x = (self.x1 + self.x2) / 2;
        let center_y = (self.y1 + self.y2) / 2;
        (center_x, center_y)
    }

    /// The midpoint, rounded down (coordinates are kept non-negative).
    pub open spec fn center(self) -> (int, int) {
        ((self.x1 + self.x2) / 2, (self.y1 + self.y2) / 2)
    }

    /// Whether this rectangle touches or overlaps `other` (closed bounds
    /// on both axes), used to reject room candidates.
    pub fn intersects_with(&self, other: &Rect) -> (r: bool)
        ensures
            r == rect_overlap(*self, *other),
    {
        (self.x1 <= other.x2) && (self.x2 >= other.x1) && (self.y1 <= other.y2)
            && (self.y2 >= other.y1)
    }
}

/// Whether `(x, y)` lies on the grid.
pub open spec fn in_bounds(x: int, y: int) -> bool {
    0 <= x < MAP_WIDTH && 0 <= y < MAP_HEIGHT
}

/// A full grid: `MAP_WIDTH` columns of `MAP_HEIGHT` tiles each.
pub open spec fn grid_ok(t: Seq<Seq<Tile>>) -> bool {
    t.len() == MAP_WIDTH && (forall|x: int| 0 <= x < t.len() ==> (#[trigger] t[x]).len() == MAP_HEIGHT)
}

/// Whether `p` lies in the carved interior of `r` (the rectangle minus
/// its one-tile wall border).
pub open spec fn in_interior(r: Rect, p: (int, int)) -> bool {
    r.x1 + 1 <= p.0 < r.x2 && r.y1 + 1 <= p.1 < r.y2
}

/// A room placement the generator may accept: side lengths within the
/// sampling range, and a one-tile border kept to the grid edge. Such a
/// room is always wide enough for its center to fall in its interior.
pub open spec fn room_ok(r: Rect) -> bool {
    &&& 0 <= r.x1
    &&& ROOM_MIN_SIZE <= r.x2 - r.x1 <= ROOM_MAX_SIZE
    &&& r.x2 <= MAP_WIDTH - 1
    &&& 0 <= r.y1
    &&& ROOM_MIN_SIZE <= r.y2 - r.y1 <= ROOM_MAX_SIZE
    &&& r.y2 <= MAP_HEIGHT - 1
}

/// The midpoint of an acceptable room falls strictly inside its interior.
pub proof fn lemma_center_in_interior(r: Rect)
    requires
        room_ok(r),
    ensures
        in_interior(r, r.center()),
{
    let sx = r.x1 + r.x2;
    assert(2 * (sx / 2) <= sx < 2 * (sx / 2) + 2);
    let sy = r.y1 + r.y2;
    assert(2 * (sy / 2) <= sy < 2 * (sy / 2) + 2);
}

/// Whether `p` lies on the horizontal segment at row `y` between
/// columns `x1` and `x2`, both endpoints included.
pub open spec fn on_hseg(x1: int, x2: int, y: int, p: (int, int)) -> bool {
    p.1 == y && (x1 <= p.0 <= x2 || x2 <= p.0 <= x1)
}

/// Whether `p` lies on the vertical segment at column `x` between
/// rows `y1` and `y2`, both endpoints included.
pub open spec fn on_vseg(y1: int, y2: int, x: int, p: (int, int)) -> bool {
    p.0 == x && (y1 <= p.1 <= y2 || y2 <= p.1 <= y1)
}


/// Whether `p` lies in the interior of some room of `rooms`.
pub open spec fn in_some_interior(rooms: Seq<Rect>, p: (int, int)) -> bool {
    exists|i: int| 0 <= i < rooms.len() && in_interior(#[trigger] rooms[i], p)
}

/// Whether `p` lies on the L-shaped corridor joining `c1` to `c2`.
/// `horiz_first` picks the leg order: a horizontal leg at `c1`'s row
/// followed by a vertical leg at `c2`'s column, or the other way around.
pub open spec fn on_l_corridor(c1: (int, int), c2: (int, int), horiz_first: bool, p: (int, int)) -> bool {
    if horiz_first {
        on_hseg(c1.0, c2.0, c1.1, p) || on_vseg(c1.1, c2.1, c2.0, p)
    } else {
        on_vseg(c1.1, c2.1, c1.0, p) || on_hseg(c1.0, c2.0, c2.1, p)
    }
}

/// Whether `p` lies on the corridor carved when room `i` was accepted:
/// the L between room `i-1`'s center and room `i`'s center, with the leg
/// order `dirs[i]`.
pub open spec fn corridor_at(rooms: Seq<Rect>, dirs: Seq<bool>, i: int, p: (int, int)) -> bool {
    on_l_corridor(rooms[i - 1].center(), rooms[i].center(), dirs[i], p)
}

/// Whether `p` lies on some corridor of the generated dungeon.
pub open spec fn in_some_corridor(rooms: Seq<Rect>, dirs: Seq<bool>, p: (int, int)) -> bool {
    exists|i: int| 1 <= i < rooms.len() && #[trigger] corridor_at(rooms, dirs, i, p)
}

/// The generated grid is exactly the carved dungeon: a tile is open
/// floor when it lies in a room interior or on a corridor, and an
/// untouched wall otherwise. Nothing is explored yet.
pub open spec fn carved_exactly(t: Seq<Seq<Tile>>, rooms: Seq<Rect>, dirs: Seq<bool>) -> bool {
    forall|x: int, y: int|
        in_bounds(x, y) ==> #[trigger] t[x][y] == (if in_some_interior(rooms, (x, y))
            || in_some_corridor(rooms, dirs, (x, y)) {
            Tile::empty()
        } else {
            Tile::wall()
        })
}

/// Accepting one more room extends the carved interiors by exactly that
/// room's interior.
proof fn lemma_interior_push(rooms: Seq<Rect>, r: Rect, p: (int, int))
    ensures
        in_some_interior(rooms.push(r), p) == (in_some_interior(rooms, p) || in_interior(r, p)),
{
    let rooms2 = rooms.push(r);
    if in_some_interior(rooms2, p) {
        let i = choose|i: int| 0 <= i < rooms2.len() && in_interior(#[trigger] rooms2[i], p);
        if i < rooms.len() {
            assert(rooms[i] == rooms2[i]);
        } else {
            assert(rooms2[i] == r);
        }
    }
    if in_some_interior(rooms, p) {
        let i = choose|i: int| 0 <= i < rooms.len() && in_interior(#[trigger] rooms[i], p);
        assert(in_interior(rooms2[i], p));
    }
    if in_interior(r, p) {
        assert(in_interior(rooms2[rooms.len() as int], p));
    }
}

/// Accepting one more room extends the corridors by exactly the L carved
/// toward the previous room's center.
proof fn lemma_corridor_push(rooms: Seq<Rect>, dirs: Seq<bool>, r: Rect, d: bool, p: (int, int))
    requires
        rooms.len() == dirs.len(),
        rooms.len() >= 1,
    ensures
        in_some_corridor(rooms.push(r), dirs.push(d), p) == (in_some_corridor(rooms, dirs, p)
            || on_l_corridor(rooms[rooms.len() - 1].center(), r.center(), d, p)),
{
    let rooms2 = rooms.push(r);
    let dirs2 = dirs.push(d);
    let n = rooms.len() as int;
    if in_some_corridor(rooms2, dirs2, p) {
        let i = choose|i: int| 1 <= i < rooms2.len() && #[trigger] corridor_at(rooms2, dirs2, i, p);
        if i < n {
            assert(rooms2[i - 1] == rooms[i - 1] && rooms2[i] == rooms[i] && dirs2[i] == dirs[i]);
            assert(corridor_at(rooms, dirs, i, p));
        } else {
            assert(rooms2[i - 1] == rooms[n - 1] && rooms2[i] == r && dirs2[i] == d);
        }
    }
    if in_some_corridor(rooms, dirs, p) {
        let i = choose|i: int| 1 <= i < rooms.len() && #[trigger] corridor_at(rooms, dirs, i, p);
        assert(rooms2[i - 1] == rooms[i - 1] && rooms2[i] == rooms[i] && dirs2[i] == dirs[i]);
        assert(corridor_at(rooms2, dirs2, i, p));
    }
    if on_l_corridor(rooms[n - 1].center(), r.center(), d, p) {
        assert(rooms2[n - 1] == rooms[n - 1] && rooms2[n] == r && dirs2[n] == d);
        assert(corridor_at(rooms2, dirs2, n, p));
    }
}

/// In a carved dungeon of acceptable rooms, every room's center is a
/// walkable tile.
pub(crate) proof fn lemma_room_center_open(t: Seq<Seq<Tile>>, rooms: Seq<Rect>, dirs: Seq<bool>, i: int)
    requires
        carved_exactly(t, rooms, dirs),
        0 <= i < rooms.len(),
        room_ok(rooms[i]),
    ensures
        open_at(t, rooms[i].center()),
{
    lemma_center_in_interior(rooms[i]);
    let c = rooms[i].center();
    assert(in_some_interior(rooms, c));
    assert(t[c.0][c.1] == Tile::empty());
}

/// A carved dungeon of acceptable rooms keeps its walkable tiles away
/// from the grid edge.
proof fn lemma_carved_open_inner(t: Seq<Seq<Tile>>, rooms: Seq<Rect>, dirs: Seq<bool>)
    requires
        carved_exactly(t, rooms, dirs),
        forall|i: int| 0 <= i < rooms.len() ==> room_ok(#[trigger] rooms[i]),
    ensures
        forall|x: int, y: int|
            in_bounds(x, y) && !(#[trigger] t[x][y]).solid ==> 1 <= x < MAP_WIDTH - 1 && 1 <= y
                < MAP_HEIGHT - 1,
{
    assert forall|x: int, y: int|
        in_bounds(x, y) && !(#[trigger] t[x][y]).solid implies 1 <= x < MAP_WIDTH - 1 && 1 <= y
        < MAP_HEIGHT - 1 by {
        let p = (x, y);
        assert(in_some_interior(rooms, p) || in_some_corridor(rooms, dirs, p));
        if in_some_interior(rooms, p) {
            let i = choose|i: int| 0 <= i < rooms.len() && in_interior(#[trigger] rooms[i], p);
        } else {
            let i = choose|i: int| 1 <= i < rooms.len() && #[trigger] corridor_at(rooms, dirs, i, p);
            lemma_center_in_interior(rooms[i - 1]);
            lemma_center_in_interior(rooms[i]);
        }
    }
}

/// A `MAP_WIDTH` by `MAP_HEIGHT` grid of wall tiles.
fn wall_grid() -> (t: Vec<Vec<Tile>>)
    ensures
        grid_ok(t@.map_values(|row: Vec<Tile>| row@)),
        forall|x: int, y: int|
            #![trigger t@[x]@[y]]
            in_bounds(x, y) ==> t@[x]@[y] == Tile::wall(),
{
    let mut t: Vec<Vec<Tile>> = Vec::new();
    let mut x: i32 = 0;
    while x < MAP_WIDTH
        invariant
            0 <= x <= MAP_WIDTH,
            t@.len() == x,
            forall|i: int| 0 <= i < t@.len() ==> (#[trigger] t@[i])@.len() == MAP_HEIGHT,
            forall|i: int, j: int|
                #![trigger t@[i]@[j]]
                0 <= i < t@.len() && 0 <= j < MAP_HEIGHT ==> t@[i]@[j] == Tile::wall(),
        decreases MAP_WIDTH - x,
    {
        let mut col: Vec<Tile> = Vec::new();
        let mut y: i32 = 0;
        while y < MAP_HEIGHT
            invariant
                0 <= y <= MAP_HEIGHT,
                col@.len() == y,
                forall|j: int| 0 <= j < col@.len() ==> col@[j] == Tile::wall(),
            decreases MAP_HEIGHT - y,
        {
            col.push(Tile::new_wall());
            y = y + 1;
        }
        t.push(col);
        x = x + 1;
    }
    t
}

/// A `MAP_WIDTH` by `MAP_HEIGHT` grid with every flag clear.
fn false_grid() -> (t: Vec<Vec<bool>>)
    ensures
        t@.len() == MAP_WIDTH,
        forall|x: int| 0 <= x < t@.len() ==> (#[trigger] t@[x])@.len() == MAP_HEIGHT,
        forall|x: int, y: int|
            #![trigger t@[x]@[y]]
            0 <= x < t@.len() && 0 <= y < MAP_HEIGHT ==> !t@[x]@[y],
{
    let mut t: Vec<Vec<bool>> = Vec::new();
    let mut x: i32 = 0;
    while x < MAP_WIDTH
        invariant
            0 <= x <= MAP_WIDTH,
            t@.len() == x,
            forall|i: int| 0 <= i < t@.len() ==> (#[trigger] t@[i])@.len() == MAP_HEIGHT,
            forall|i: int, j: int|
                #![trigger t@[i]@[j]]
                0 <= i < t@.len() && 0 <= j < MAP_HEIGHT ==> !t@[i]@[j],
        decreases MAP_WIDTH - x,
    {
        let mut col: Vec<bool> = Vec::new();
        let mut y: i32 = 0;
        while y < MAP_HEIGHT
            invariant
                0 <= y <= MAP_HEIGHT,
                col@.len() == y,
                forall|j: int| 0 <= j < col@.len() ==> !col@[j],
            decreases MAP_HEIGHT - y,
        {
            col.push(false);
            y = y + 1;
        }
        t.push(col);
        x = x + 1;
    }
    t
}

/// One dungeon level: the tile grid (indexed `tiles[x][y]`), the accepted
/// rooms in acceptance order, and the visibility engine's state — the
/// currently visible set and the observer position it was computed for.
pub struct GameMap {
    pub tiles: Vec<Vec<Tile>>,
    pub rooms: Vec<Rect>,
    pub fov: Vec<Vec<bool>>,
    pub last_observer: Option<(i32, i32)>,
}

impl GameMap {
    /// The tile grid as a sequence of columns.
    pub open spec fn grid(self) -> Seq<Seq<Tile>> {
        self.tiles@.map_values(|row: Vec<Tile>| row@)
    }

    /// The visible set as a sequence of columns.
    pub open spec fn fov_grid(self) -> Seq<Seq<bool>> {
        self.fov@.map_values(|row: Vec<bool>| row@)
    }

    /// Both grids have the full `MAP_WIDTH` by `MAP_HEIGHT` extent.
    pub open spec fn dims_ok(self) -> bool {
        grid_ok(self.grid()) && self.fov@.len() == MAP_WIDTH && (forall|x: int|
            0 <= x < self.fov@.len() ==> (#[trigger] self.fov@[x])@.len() == MAP_HEIGHT)
    }

    /// Every walkable tile keeps a one-tile distance from the grid edge,
    /// so a unit step from a walkable tile never leaves the grid.
    pub open spec fn open_inner(self) -> bool {
        forall|x: int, y: int|
            in_bounds(x, y) && !(#[trigger] self.grid()[x][y]).solid ==> 1 <= x < MAP_WIDTH - 1
                && 1 <= y < MAP_HEIGHT - 1
    }

    /// The tile at `(x, y)`.
    pub open spec fn tile_at(self, x: int, y: int) -> Tile {
        self.grid()[x][y]
    }

    /// Write one tile. The grid keeps its extent; every other tile is
    /// untouched.
    pub(crate) fn set_tile(&mut self, x: i32, y: i32, t: Tile)
        requires
            old(self).dims_ok(),
            in_bounds(x as int, y as int),
        ensures
            final(self).dims_ok(),
            final(self).rooms == old(self).rooms,
            final(self).fov == old(self).fov,
            final(self).last_observer == old(self).last_observer,
            forall|i: int, j: int|
                in_bounds(i, j) ==> #[trigger] final(self).grid()[i][j] == (if i == x && j == y {
                    t
                } else {
                    old(self).grid()[i][j]
                }),
    {
        let ghost m0 = *self;
        proof {
            assert(m0.grid()[x as int].len() == MAP_HEIGHT);
        }
        self.tiles[x as usize][y as usize] = t;
        proof {
            assert forall|i: int| 0 <= i < MAP_WIDTH implies (#[trigger] self.grid()[i]).len()
                == MAP_HEIGHT by {
                assert(m0.grid()[i].len() == MAP_HEIGHT);
            }
            assert forall|i: int, j: int| in_bounds(i, j) implies #[trigger] self.grid()[i][j] == (
            if i == x && j == y {
                t
            } else {
                m0.grid()[i][j]
            }) by {
                if i != x {
                    assert(self.tiles@[i] == m0.tiles@[i]);
                }
            }
        }
    }

    /// Carve the interior of `room` into open floor, leaving every other
    /// tile as it was.
    fn create_room(&mut self, room: &Rect)
        requires
            old(self).dims_ok(),
            0 <= room.x1 <= room.x2 <= MAP_WIDTH,
            0 <= room.y1 <= room.y2 <= MAP_HEIGHT,
        ensures
            final(self).dims_ok(),
            final(self).rooms == old(self).rooms,
            final(self).fov == old(self).fov,
            final(self).last_observer == old(self).last_observer,
            forall|x: int, y: int|
                in_bounds(x, y) ==> #[trigger] final(self).grid()[x][y] == (if in_interior(
                    *room,
                    (x, y),
                ) {
                    Tile::empty()
                } else {
                    old(self).grid()[x][y]
                }),
    {
        let ghost m0 = *self;
        let mut x = room.x1 + 1;
        while x < room.x2
            invariant
                self.dims_ok(),
                room.x1 + 1 <= x,
                room.x1 <= room.x2 <= MAP_WIDTH,
                0 <= room.x1,
                0 <= room.y1 <= room.y2 <= MAP_HEIGHT,
                self.rooms == m0.rooms,
                self.fov == m0.fov,
                self.last_observer == m0.last_observer,
                forall|i: int, j: int|
                    in_bounds(i, j) ==> #[trigger] self.grid()[i][j] == (if in_interior(
                        *room,
                        (i, j),
                    ) && i < x {
                        Tile::empty()
                    } else {
                        m0.grid()[i][j]
                    }),
            decreases room.x2 - x,
        {
            let mut y = room.y1 + 1;
            while y < room.y2
                invariant
                    self.dims_ok(),
                    room.x1 + 1 <= x < room.x2 <= MAP_WIDTH,
                    room.y1 + 1 <= y,
                    0 <= room.x1,
                    0 <= room.y1 <= room.y2 <= MAP_HEIGHT,
                    self.rooms == m0.rooms,
                    self.fov == m0.fov,
                    self.last_observer == m0.last_observer,
                    forall|i: int, j: int|
                        in_bounds(i, j) ==> #[trigger] self.grid()[i][j] == (if in_interior(
                            *room,
                            (i, j),
                        ) && (i < x || (i == x && j < y)) {
                            Tile::empty()
                        } else {
                            m0.grid()[i][j]
                        }),
                decreases room.y2 - y,
            {
                self.set_tile(x, y, Tile::new_empty());
                y = y + 1;
            }
            x = x + 1;
        }
    }

    /// Carve a horizontal corridor leg at row `y` from column `x1` to
    /// `x2`, both endpoints included.
    fn create_htunnel(&mut self, x1: i32, x2: i32, y: i32)
        requires
            old(self).dims_ok(),
            in_bounds(x1 as int, y as int),
            in_bounds(x2 as int, y as int),
        ensures
            final(self).dims_ok(),
            final(self).rooms == old(self).rooms,
            final(self).fov == old(self).fov,
            final(self).last_observer == old(self).last_observer,
            forall|i: int, j: int|
                in_bounds(i, j) ==> #[trigger] final(self).grid()[i][j] == (if on_hseg(
                    x1 as int,
                    x2 as int,
                    y as int,
                    (i, j),
                ) {
                    Tile::empty()
                } else {
                    old(self).grid()[i][j]
                }),
    {
        let ghost m0 = *self;
        let lo = if x1 < x2 { x1 } else { x2 };
        let hi = if x1 < x2 { x2 } else { x1 };
        let mut x = lo;
        while x < hi + 1
            invariant
                self.dims_ok(),
                0 <= lo <= x,
                x <= hi + 1,
                hi < MAP_WIDTH,
                0 <= y < MAP_HEIGHT,
                lo == if x1 < x2 { x1 as int } else { x2 as int },
                hi == if x1 < x2 { x2 as int } else { x1 as int },
                self.rooms == m0.rooms,
                self.fov == m0.fov,
                self.last_observer == m0.last_observer,
                forall|i: int, j: int|
                    in_bounds(i, j) ==> #[trigger] self.grid()[i][j] == (if on_hseg(
                        x1 as int,
                        x2 as int,
                        y as int,
                        (i, j),
                    ) && i < x {
                        Tile::empty()
                    } else {
                        m0.grid()[i][j]
                    }),
            decreases hi + 1 - x,
        {
            self.set_tile(x, y, Tile::new_empty());
            x = x + 1;
        }
    }

    /// Carve a vertical corridor leg at column `x` from row `y1` to
    /// `y2`, both endpoints included.
    fn create_vtunnel(&mut self, y1: i32, y2: i32, x: i32)
        requires
            old(self).dims_ok(),
            in_bounds(x as int, y1 as int),
            in_bounds(x as int, y2 as int),
        ensures
            final(self).dims_ok(),
            final(self).rooms == old(self).rooms,
            final(self).fov == old(self).fov,
            final(self).last_observer == old(self).last_observer,
            forall|i: int, j: int|
                in_bounds(i, j) ==> #[trigger] final(self).grid()[i][j] == (if on_vseg(
                    y1 as int,
                    y2 as int,
                    x as int,
                    (i, j),
                ) {
                    Tile::empty()
                } else {
                    old(self).grid()[i][j]
                }),
    {
        let ghost m0 = *self;
        let lo = if y1 < y2 { y1 } else { y2 };
        let hi = if y1 < y2 { y2 } else { y1 };
        let mut y = lo;
        while y < hi + 1
            invariant
                self.dims_ok(),
                0 <= lo <= y,
                y <= hi + 1,
                hi < MAP_HEIGHT,
                0 <= x < MAP_WIDTH,
                lo == if y1 < y2 { y1 as int } else { y2 as int },
                hi == if y1 < y2 { y2 as int } else { y1 as int },
                self.rooms == m0.rooms,
                self.fov == m0.fov,
                self.last_observer == m0.last_observer,
                forall|i: int, j: int|
                    in_bounds(i, j) ==> #[trigger] self.grid()[i][j] == (if on_vseg(
                        y1 as int,
                        y2 as int,
                        x as int,
                        (i, j),
                    ) && j < y {
                        Tile::empty()
                    } else {
                        m0.grid()[i][j]
                    }),
            decreases hi + 1 - y,
        {
            self.set_tile(x, y, Tile::new_empty());
            y = y + 1;
        }
    }
}


impl GameMap {
    /// Every accepted room is an acceptable placement.
    pub open spec fn rooms_ok(self) -> bool {
        forall|i: int| 0 <= i < self.rooms@.len() ==> room_ok(#[trigger] self.rooms@[i])
    }

    /// No two accepted rooms touch or overlap.
    pub open spec fn rooms_disjoint(self) -> bool {
        forall|i: int, j: int|
            0 <= i < j < self.rooms@.len() ==> !rect_overlap(
                #[trigger] self.rooms@[i],
                #[trigger] self.rooms@[j],
            )
    }

    /// The grid is exactly the dungeon carved from the accepted rooms:
    /// open floor on room interiors and on one L-shaped corridor between
    /// each pair of consecutively accepted rooms, untouched wall
    /// everywhere else.
    pub open spec fn generated(self) -> bool {
        exists|dirs: Seq<bool>|
            dirs.len() == self.rooms@.len() && #[trigger] carved_exactly(
                self.grid(),
                self.rooms@,
                dirs,
            )
    }

    /// A path of walkable tiles joins the centers of every two accepted
    /// rooms.
    pub open spec fn centers_connected(self) -> bool {
        forall|i: int, j: int|
            0 <= i < self.rooms@.len() && 0 <= j < self.rooms@.len() ==> connected(
                self.grid(),
                (#[trigger] self.rooms@[i]).center(),
                (#[trigger] self.rooms@[j]).center(),
            )
    }

    /// No tile is marked explored.
    pub open spec fn unexplored(self) -> bool {
        forall|x: int, y: int|
            in_bounds(x, y) ==> !(#[trigger] self.grid()[x][y]).explored
    }

    /// No tile is in the visible set.
    pub open spec fn fov_clear(self) -> bool {
        forall|x: int, y: int|
            #![trigger self.fov_grid()[x][y]]
            in_bounds(x, y) ==> !self.fov_grid()[x][y]
    }

    /// A freshly generated level: sound grids, acceptable and mutually
    /// disjoint rooms, the carved dungeon exactly as accepted, every
    /// pair of room centers joined by a walkable path, and nothing yet
    /// explored or visible.
    pub open spec fn fresh(self) -> bool {
        &&& self.dims_ok()
        &&& self.open_inner()
        &&& self.rooms_ok()
        &&& self.rooms_disjoint()
        &&& 1 <= self.rooms@.len() <= MAX_ROOMS
        &&& self.generated()
        &&& self.unexplored()
        &&& self.centers_connected()
        &&& self.fov_clear()
        &&& self.last_observer is None
    }

    /// Generate one dungeon level. The grid starts fully solid; up to
    /// `MAX_ROOMS` candidate rooms are sampled, each kept only if it
    /// overlaps no earlier room, carved into the grid, and joined to the
    /// previously accepted room by an L-shaped corridor. The first
    /// candidate never overlaps anything, so at least one room is always
    /// accepted. Nothing is explored or visible yet.
    pub fn new() -> (m: GameMap)
        ensures
            m.fresh(),
    {
        let mut map = GameMap {
            tiles: wall_grid(),
            rooms: Vec::new(),
            fov: false_grid(),
            last_observer: None,
        };
        let ghost mut dirs: Seq<bool> = Seq::empty();
        proof {
            assert(carved_exactly(map.grid(), map.rooms@, dirs)) by {
                assert forall|x: int, y: int| in_bounds(x, y) implies #[trigger] map.grid()[x][y]
                    == Tile::wall() by {
                    assert(map.tiles@[x]@[y] == Tile::wall());
                }
            }
        }
        let mut k: i32 = 0;
        while k < MAX_ROOMS
            invariant
                map.dims_ok(),
                map.rooms_ok(),
                map.rooms_disjoint(),
                0 <= k <= MAX_ROOMS,
                map.rooms@.len() <= k,
                k >= 1 ==> map.rooms@.len() >= 1,
                dirs.len() == map.rooms@.len(),
                carved_exactly(map.grid(), map.rooms@, dirs),
                map.centers_connected(),
                map.fov_clear(),
                map.last_observer is None,
            decreases MAX_ROOMS - k,
        {
            let w = rng_range(ROOM_MIN_SIZE, ROOM_MAX_SIZE + 1);
            let h = rng_range(ROOM_MIN_SIZE, ROOM_MAX_SIZE + 1);
            let x = rng_range(0, MAP_WIDTH - w);
            let y = rng_range(0, MAP_HEIGHT - h);
            let new_room = Rect::new(x, y, w, h);
            assert(room_ok(new_room));

            let mut invalid = false;
            let mut i: usize = 0;
            while i < map.rooms.len()
                invariant
                    0 <= i <= map.rooms@.len(),
                    invalid == exists|r: int|
                        0 <= r < i && rect_overlap(new_room, #[trigger] map.rooms@[r]),
                decreases map.rooms@.len() - i,
            {
                if new_room.intersects_with(&map.rooms[i]) {
                    invalid = true;
                    proof {
                        assert(rect_overlap(new_room, map.rooms@[i as int]));
                    }
                }
                i = i + 1;
            }

            if !invalid {
                let ghost g0 = map;
                let ghost mut d: bool = true;
                let ghost n0 = g0.rooms@.len() as int;
                let ghost new_c = new_room.center();
                let ghost prev_c: (int, int) = if n0 > 0 {
                    g0.rooms@[n0 - 1].center()
                } else {
                    (0, 0)
                };
                let (new_cx, new_cy) = new_room.get_center();
                proof {
                    lemma_center_in_interior(new_room);
                }
                if map.rooms.len() > 0 {
                    let prev = map.rooms[map.rooms.len() - 1];
                    proof {
                        assert(prev == g0.rooms@[n0 - 1]);
                        lemma_center_in_interior(prev);
                    }
                    let (prev_cx, prev_cy) = prev.get_center();
                    if rng_range(0, 2) == 0 {
                        let ghost ga = map;
                        map.create_htunnel(prev_cx, new_cx, prev_cy);
                        let ghost gb = map;
                        map.create_vtunnel(prev_cy, new_cy, new_cx);
                        proof {
                            assert forall|px: int, py: int| in_bounds(px, py) implies
                                #[trigger] map.grid()[px][py] == (if on_l_corridor(
                                prev_c,
                                new_c,
                                d,
                                (px, py),
                            ) {
                                Tile::empty()
                            } else {
                                g0.grid()[px][py]
                            }) by {
                                assert(gb.grid()[px][py] == (if on_hseg(
                                    prev_cx as int,
                                    new_cx as int,
                                    prev_cy as int,
                                    (px, py),
                                ) {
                                    Tile::empty()
                                } else {
                                    ga.grid()[px][py]
                                }));
                            }
                        }
                    } else {
                        proof {
                            d = false;
                        }
                        let ghost ga = map;
                        map.create_vtunnel(prev_cy, new_cy, prev_cx);
                        let ghost gb = map;
                        map.create_htunnel(prev_cx, new_cx, new_cy);
                        proof {
                            assert forall|px: int, py: int| in_bounds(px, py) implies
                                #[trigger] map.grid()[px][py] == (if on_l_corridor(
                                prev_c,
                                new_c,
                                d,
                                (px, py),
                            ) {
                                Tile::empty()
                            } else {
                                g0.grid()[px][py]
                            }) by {
                                assert(gb.grid()[px][py] == (if on_vseg(
                                    prev_cy as int,
                                    new_cy as int,
                                    prev_cx as int,
                                    (px, py),
                                ) {
                                    Tile::empty()
                                } else {
                                    ga.grid()[px][py]
                                }));
                            }
                        }
                    }
                }
                let ghost gmid = map;
                proof {
                    assert forall|px: int, py: int| in_bounds(px, py) implies
                        #[trigger] gmid.grid()[px][py] == (if n0 > 0 && on_l_corridor(
                        prev_c,
                        new_c,
                        d,
                        (px, py),
                    ) {
                        Tile::empty()
                    } else {
                        g0.grid()[px][py]
                    }) by {}
                }
                map.create_room(&new_room);
                let ghost g3 = map;
                map.rooms.push(new_room);
                let ghost dirs0 = dirs;
                proof {
                    dirs = dirs.push(d);
                    let t = map.grid();
                    let rooms2 = map.rooms@;
                    assert(map.tiles == g3.tiles);
                    assert(map.fov@ == g0.fov@);
                    assert(map.fov_grid() == g0.fov_grid());
                    assert(rooms2 == g0.rooms@.push(new_room));

                    // The grid is exactly the dungeon carved so far, one
                    // room and one corridor richer.
                    assert forall|px: int, py: int| in_bounds(px, py) implies #[trigger] t[px][py]
                        == (if in_some_interior(rooms2, (px, py)) || in_some_corridor(
                        rooms2,
                        dirs,
                        (px, py),
                    ) {
                        Tile::empty()
                    } else {
                        Tile::wall()
                    }) by {
                        assert(t[px][py] == g3.grid()[px][py]);
                        assert(g3.grid()[px][py] == (if in_interior(new_room, (px, py)) {
                            Tile::empty()
                        } else {
                            gmid.grid()[px][py]
                        }));
                        assert(gmid.grid()[px][py] == (if n0 > 0 && on_l_corridor(
                            prev_c,
                            new_c,
                            d,
                            (px, py),
                        ) {
                            Tile::empty()
                        } else {
                            g0.grid()[px][py]
                        }));
                        lemma_interior_push(g0.rooms@, new_room, (px, py));
                        if n0 > 0 {
                            lemma_corridor_push(g0.rooms@, dirs0, new_room, d, (px, py));
                        } else {
                            if in_some_corridor(rooms2, dirs, (px, py)) {
                                let ci = choose|ci: int|
                                    1 <= ci < rooms2.len() && #[trigger] corridor_at(
                                        rooms2,
                                        dirs,
                                        ci,
                                        (px, py),
                                    );
                                assert(false);
                            }
                            if in_some_corridor(g0.rooms@, dirs0, (px, py)) {
                                let ci = choose|ci: int|
                                    1 <= ci < g0.rooms@.len() && #[trigger] corridor_at(
                                        g0.rooms@,
                                        dirs0,
                                        ci,
                                        (px, py),
                                    );
                                assert(false);
                            }
                        }
                    }
                    assert(carved_exactly(t, rooms2, dirs));

                    // Walkable tiles only ever get more numerous.
                    assert forall|p: (int, int)| #[trigger] open_at(g0.grid(), p) implies open_at(
                        t,
                        p,
                    ) by {
                        assert(t[p.0][p.1] == g3.grid()[p.0][p.1]);
                        assert(g3.grid()[p.0][p.1] == gmid.grid()[p.0][p.1]
                            || g3.grid()[p.0][p.1] == Tile::empty());
                        assert(gmid.grid()[p.0][p.1] == g0.grid()[p.0][p.1]
                            || gmid.grid()[p.0][p.1] == Tile::empty());
                    }

                    // The carved corridor joins the previous room's center
                    // to the new room's center.
                    if n0 > 0 {
                        let prev = g0.rooms@[n0 - 1];
                        lemma_center_in_interior(prev);
                        assert forall|p: (int, int)| on_l_corridor(prev_c, new_c, d, p) implies
                            #[trigger] open_at(t, p) by {
                            assert(in_bounds(p.0, p.1));
                            assert(gmid.grid()[p.0][p.1] == Tile::empty());
                            assert(g3.grid()[p.0][p.1] == gmid.grid()[p.0][p.1]
                                || g3.grid()[p.0][p.1] == Tile::empty());
                            assert(t[p.0][p.1] == g3.grid()[p.0][p.1]);
                        }
                        if d {
                            assert forall|p: (int, int)|
                                on_hseg(prev_c.0, new_c.0, prev_c.1, p) implies #[trigger] open_at(
                                t,
                                p,
                            ) by {
                                assert(on_l_corridor(prev_c, new_c, d, p));
                            }
                            lemma_hseg_connected(t, prev_c.0, new_c.0, prev_c.1);
                            assert forall|p: (int, int)|
                                on_vseg(prev_c.1, new_c.1, new_c.0, p) implies #[trigger] open_at(
                                t,
                                p,
                            ) by {
                                assert(on_l_corridor(prev_c, new_c, d, p));
                            }
                            lemma_vseg_connected(t, prev_c.1, new_c.1, new_c.0);
                            lemma_connected_trans(t, prev_c, (new_c.0, prev_c.1), new_c);
                        } else {
                            assert forall|p: (int, int)|
                                on_vseg(prev_c.1, new_c.1, prev_c.0, p) implies #[trigger] open_at(
                                t,
                                p,
                            ) by {
                                assert(on_l_corridor(prev_c, new_c, d, p));
                            }
                            lemma_vseg_connected(t, prev_c.1, new_c.1, prev_c.0);
                            assert forall|p: (int, int)|
                                on_hseg(prev_c.0, new_c.0, new_c.1, p) implies #[trigger] open_at(
                                t,
                                p,
                            ) by {
                                assert(on_l_corridor(prev_c, new_c, d, p));
                            }
                            lemma_hseg_connected(t, prev_c.0, new_c.0, new_c.1);
                            lemma_connected_trans(t, prev_c, (prev_c.0, new_c.1), new_c);
                        }
                        assert(connected(t, prev_c, new_c));
                    }

                    // Every pair of accepted centers stays joined.
                    lemma_room_center_open(t, rooms2, dirs, n0);
                    assert forall|ri: int, rj: int|
                        0 <= ri < rooms2.len() && 0 <= rj < rooms2.len() implies connected(
                        t,
                        (#[trigger] rooms2[ri]).center(),
                        (#[trigger] rooms2[rj]).center(),
                    ) by {
                        if ri < n0 && rj < n0 {
                            assert(connected(
                                g0.grid(),
                                (g0.rooms@[ri]).center(),
                                (g0.rooms@[rj]).center(),
                            ));
                            lemma_connected_monotone(
                                g0.grid(),
                                t,
                                g0.rooms@[ri].center(),
                                g0.rooms@[rj].center(),
                            );
                        } else if ri == n0 && rj == n0 {
                            lemma_connected_refl(t, new_c);
                        } else if ri < n0 && rj == n0 {
                            assert(connected(
                                g0.grid(),
                                (g0.rooms@[ri]).center(),
                                (g0.rooms@[n0 - 1]).center(),
                            ));
                            lemma_connected_monotone(
                                g0.grid(),
                                t,
                                g0.rooms@[ri].center(),
                                prev_c,
                            );
                            lemma_connected_trans(t, rooms2[ri].center(), prev_c, new_c);
                        } else {
                            assert(connected(
                                g0.grid(),
                                (g0.rooms@[rj]).center(),
                                (g0.rooms@[n0 - 1]).center(),
                            ));
                            lemma_connected_monotone(
                                g0.grid(),
                                t,
                                g0.rooms@[rj].center(),
                                prev_c,
                            );
                            lemma_connected_trans(t, rooms2[rj].center(), prev_c, new_c);
                            lemma_connected_sym(t, rooms2[rj].center(), new_c);
                        }
                    }
                }
            }
            k = k + 1;
        }
        proof {
            lemma_carved_open_inner(map.grid(), map.rooms@, dirs);
        }
        map
    }
}


/// The background color a tile is drawn with, chosen from whether it is
/// currently visible and its transparency flag, exactly as the renderer
/// expects the four combinations.
pub fn tile_color(visible: bool, transparent: bool) -> (c: Color)
    ensures
        !visible && transparent ==> c == (Color { r: 0, g: 0, b: 100 }),
        !visible && !transparent ==> c == (Color { r: 50, g: 50, b: 150 }),
        visible && transparent ==> c == (Color { r: 130, g: 110, b: 50 }),
        visible && !transparent ==> c == (Color { r: 200, g: 180, b: 50 }),
{
    match (visible, transparent) {
        (false, true) => Color { r: 0, g: 0, b: 100 },
        (false, false) => Color { r: 50, g: 50, b: 150 },
        (true, true) => Color { r: 130, g: 110, b: 50 },
        (true, false) => Color { r: 200, g: 180, b: 50 },
    }
}

} // verus!
