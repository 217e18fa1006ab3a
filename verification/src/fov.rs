//! The visibility engine. A tile is visible from an observer when it
//! lies within the view radius and every tile strictly between the two,
//! along the rasterised line joining them, is transparent. The blocking
//! tile itself is therefore visible, and nothing beyond it is. Visible
//! tiles are marked explored, permanently.

use vstd::prelude::*;
use vstd::arithmetic::div_mod::{
    lemma_div_is_ordered, lemma_div_pos_is_pos, lemma_fundamental_div_mod_converse,
};
use crate::map::{in_bounds, grid_ok, GameMap, Tile, MAP_WIDTH, MAP_HEIGHT};
use crate::object::Object;

verus! {

/// How far the observer sees, in tiles.
pub const FOV_RADIUS: i32 = 10;

/// The magnitude of `v`.
pub open spec fn abs_of(v: int) -> int {
    if v >= 0 {
        v
    } else {
        -v
    }
}

/// The sign of `v`: `-1`, `0` or `1`.
pub open spec fn sgn(v: int) -> int {
    if v > 0 {
        1
    } else if v < 0 {
        -1
    } else {
        0
    }
}

/// How many unit steps the rasterised line from a point to a point
/// offset by `(dx, dy)` takes: the larger coordinate distance.
pub open spec fn steps(dx: int, dy: int) -> int {
    if abs_of(dx) >= abs_of(dy) {
        abs_of(dx)
    } else {
        abs_of(dy)
    }
}

/// One coordinate of the `k`-th point of the rasterised line: the exact
/// offset `k * delta / n` rounded to the nearest integer, halves away
/// from zero.
pub open spec fn ray_coord(o: int, delta: int, n: int, k: int) -> int {
    o + sgn(delta) * ((2 * k * abs_of(delta) + n) / (2 * n))
}

/// The `k`-th point of the rasterised line from `o` to `p`, for
/// `k` from `0` (at `o`) to `steps(..)` (at `p`).
pub open spec fn ray_point(o: (int, int), p: (int, int), k: int) -> (int, int) {
    let n = steps(p.0 - o.0, p.1 - o.1);
    (ray_coord(o.0, p.0 - o.0, n, k), ray_coord(o.1, p.1 - o.1, n, k))
}

/// Whether sight passes through `p` in grid `t`.
pub open spec fn transparent_at(t: Seq<Seq<Tile>>, p: (int, int)) -> bool {
    t[p.0][p.1].transparent
}

/// The squared Euclidean distance between two tiles.
pub open spec fn dist_sq(a: (int, int), b: (int, int)) -> int {
    (b.0 - a.0) * (b.0 - a.0) + (b.1 - a.1) * (b.1 - a.1)
}

/// Whether every tile strictly between `o` and `p` on the rasterised
/// line is transparent.
pub open spec fn los_clear(t: Seq<Seq<Tile>>, o: (int, int), p: (int, int)) -> bool {
    forall|k: int|
        0 < k < steps(p.0 - o.0, p.1 - o.1) ==> transparent_at(t, #[trigger] ray_point(o, p, k))
}

/// Whether `p` is visible from `o` in grid `t`: on the grid, within
/// `radius`, with an unobstructed line of sight. The tile `p` itself
/// need not be transparent: a wall at the edge of sight is seen.
pub open spec fn visible_spec(t: Seq<Seq<Tile>>, o: (int, int), radius: int, p: (int, int)) -> bool {
    in_bounds(p.0, p.1) && dist_sq(o, p) <= radius * radius && los_clear(t, o, p)
}

/// The rounded offset of a ray coordinate never leaves `0 ..= abs(delta)`
/// while `k` stays within the line.
proof fn lemma_ray_offset_bounds(delta: int, n: int, k: int)
    requires
        0 <= k <= n,
        1 <= n,
        abs_of(delta) <= n,
    ensures
        0 <= (2 * k * abs_of(delta) + n) / (2 * n) <= abs_of(delta),
{
    let a = abs_of(delta);
    lemma_div_pos_is_pos(2 * k * a + n, 2 * n);
    assert(2 * k * a <= 2 * n * a) by (nonlinear_arith)
        requires
            0 <= k <= n,
            0 <= a,
    ;
    lemma_div_is_ordered(2 * k * a + n, 2 * n * a + n, 2 * n);
    lemma_fundamental_div_mod_converse(2 * n * a + n, 2 * n, a, n);
}

/// Every point of the rasterised line stays inside the bounding box of
/// its two endpoints.
pub proof fn lemma_ray_point_in_box(o: (int, int), p: (int, int), k: int)
    requires
        0 <= k <= steps(p.0 - o.0, p.1 - o.1),
        1 <= steps(p.0 - o.0, p.1 - o.1),
    ensures
        abs_of(ray_point(o, p, k).0 - o.0) <= abs_of(p.0 - o.0),
        abs_of(ray_point(o, p, k).1 - o.1) <= abs_of(p.1 - o.1),
        sgn(ray_point(o, p, k).0 - o.0) == sgn(p.0 - o.0) || ray_point(o, p, k).0 == o.0,
        sgn(ray_point(o, p, k).1 - o.1) == sgn(p.1 - o.1) || ray_point(o, p, k).1 == o.1,
{
    let n = steps(p.0 - o.0, p.1 - o.1);
    lemma_ray_offset_bounds(p.0 - o.0, n, k);
    lemma_ray_offset_bounds(p.1 - o.1, n, k);
}

/// A ray point between two on-grid tiles is itself on the grid.
pub proof fn lemma_ray_point_in_bounds(o: (int, int), p: (int, int), k: int)
    requires
        0 <= k <= steps(p.0 - o.0, p.1 - o.1),
        1 <= steps(p.0 - o.0, p.1 - o.1),
        in_bounds(o.0, o.1),
        in_bounds(p.0, p.1),
    ensures
        in_bounds(ray_point(o, p, k).0, ray_point(o, p, k).1),
{
    lemma_ray_point_in_box(o, p, k);
}


/// Whether the line of sight from `(ox, oy)` to `(px, py)` is clear of
/// opaque tiles, both endpoints excluded.
fn los_clear_exec(tiles: &Vec<Vec<Tile>>, ox: i32, oy: i32, px: i32, py: i32) -> (r: bool)
    requires
        grid_ok(tiles@.map_values(|row: Vec<Tile>| row@)),
        in_bounds(ox as int, oy as int),
        in_bounds(px as int, py as int),
    ensures
        r == los_clear(
            tiles@.map_values(|row: Vec<Tile>| row@),
            (ox as int, oy as int),
            (px as int, py as int),
        ),
{
    let ghost t = tiles@.map_values(|row: Vec<Tile>| row@);
    let ghost o: (int, int) = (ox as int, oy as int);
    let ghost p: (int, int) = (px as int, py as int);
    let dx = px - ox;
    let dy = py - oy;
    let adx = if dx < 0 {
        -dx
    } else {
        dx
    };
    let ady = if dy < 0 {
        -dy
    } else {
        dy
    };
    let n = if adx >= ady {
        adx
    } else {
        ady
    };
    proof {
        assert(n == steps(p.0 - o.0, p.1 - o.1));
    }
    let mut k: i32 = 1;
    while k < n
        invariant
            grid_ok(t),
            t == tiles@.map_values(|row: Vec<Tile>| row@),
            in_bounds(o.0, o.1),
            in_bounds(p.0, p.1),
            o == (ox as int, oy as int),
            p == (px as int, py as int),
            dx == p.0 - o.0,
            dy == p.1 - o.1,
            adx == abs_of(dx as int),
            ady == abs_of(dy as int),
            n == steps(p.0 - o.0, p.1 - o.1),
            0 <= adx < MAP_WIDTH,
            0 <= ady < MAP_HEIGHT,
            1 <= k,
            n >= 1 ==> k <= n,
            forall|j: int| 0 < j < k ==> transparent_at(t, #[trigger] ray_point(o, p, j)),
        decreases n - k,
    {
        proof {
            assert(0 <= 2 * k * adx + n <= 20000) by (nonlinear_arith)
                requires
                    1 <= k < 80,
                    0 <= adx < 80,
                    1 <= n < 80,
            ;
            assert(0 <= 2 * k * ady + n <= 20000) by (nonlinear_arith)
                requires
                    1 <= k < 80,
                    0 <= ady < 80,
                    1 <= n < 80,
            ;
        }
        let offx = (((2 * k * adx + n) as u32) / ((2 * n) as u32)) as i32;
        let offy = (((2 * k * ady + n) as u32) / ((2 * n) as u32)) as i32;
        proof {
            lemma_ray_offset_bounds(dx as int, n as int, k as int);
            lemma_ray_offset_bounds(dy as int, n as int, k as int);
        }
        let qx = if dx >= 0 {
            ox + offx
        } else {
            ox - offx
        };
        let qy = if dy >= 0 {
            oy + offy
        } else {
            oy - offy
        };
        proof {
            lemma_ray_coord_from_parts(o.0, p.0 - o.0, n as int, k as int, offx as int, qx as int);
            lemma_ray_coord_from_parts(o.1, p.1 - o.1, n as int, k as int, offy as int, qy as int);
            assert(qx as int == ray_coord(o.0, p.0 - o.0, n as int, k as int));
            assert(qy as int == ray_coord(o.1, p.1 - o.1, n as int, k as int));
            lemma_ray_point_in_bounds(o, p, k as int);
            assert((qx as int, qy as int) == ray_point(o, p, k as int));
            assert(tiles@.len() == t.len());
            assert(t[qx as int] == tiles@[qx as int]@);
            assert(t[qx as int].len() == MAP_HEIGHT);
        }
        if !tiles[qx as usize][qy as usize].transparent {
            proof {
                assert(t[qx as int][qy as int] == tiles@[qx as int]@[qy as int]);
                assert(!transparent_at(t, ray_point(o, p, k as int)));
            }
            return false;
        }
        proof {
            assert(t[qx as int][qy as int] == tiles@[qx as int]@[qy as int]);
            assert(transparent_at(t, ray_point(o, p, k as int)));
        }
        k = k + 1;
    }
    true
}

/// The visible set from `(ox, oy)`: one flag per tile, true exactly for
/// the tiles within `radius` whose line of sight is unobstructed.
pub fn compute_fov(tiles: &Vec<Vec<Tile>>, ox: i32, oy: i32, radius: i32) -> (f: Vec<Vec<bool>>)
    requires
        grid_ok(tiles@.map_values(|row: Vec<Tile>| row@)),
        in_bounds(ox as int, oy as int),
        0 <= radius <= 1000,
    ensures
        f@.len() == MAP_WIDTH,
        forall|x: int| 0 <= x < f@.len() ==> (#[trigger] f@[x])@.len() == MAP_HEIGHT,
        forall|x: int, y: int|
            #![trigger f@[x]@[y]]
            in_bounds(x, y) ==> f@[x]@[y] == visible_spec(
                tiles@.map_values(|row: Vec<Tile>| row@),
                (ox as int, oy as int),
                radius as int,
                (x, y),
            ),
{
    let ghost t = tiles@.map_values(|row: Vec<Tile>| row@);
    let ghost o: (int, int) = (ox as int, oy as int);
    let mut f: Vec<Vec<bool>> = Vec::new();
    let mut x: i32 = 0;
    while x < MAP_WIDTH
        invariant
            grid_ok(t),
            t == tiles@.map_values(|row: Vec<Tile>| row@),
            in_bounds(o.0, o.1),
            o == (ox as int, oy as int),
            0 <= radius <= 1000,
            0 <= x <= MAP_WIDTH,
            f@.len() == x,
            forall|i: int| 0 <= i < f@.len() ==> (#[trigger] f@[i])@.len() == MAP_HEIGHT,
            forall|i: int, j: int|
                #![trigger f@[i]@[j]]
                0 <= i < f@.len() && 0 <= j < MAP_HEIGHT ==> f@[i]@[j] == visible_spec(
                    t,
                    o,
                    radius as int,
                    (i, j),
                ),
        decreases MAP_WIDTH - x,
    {
        let mut col: Vec<bool> = Vec::new();
        let mut y: i32 = 0;
        while y < MAP_HEIGHT
            invariant
                grid_ok(t),
                t == tiles@.map_values(|row: Vec<Tile>| row@),
                in_bounds(o.0, o.1),
                o == (ox as int, oy as int),
                0 <= radius <= 1000,
                0 <= x < MAP_WIDTH,
                0 <= y <= MAP_HEIGHT,
                col@.len() == y,
                forall|j: int|
                    0 <= j < col@.len() ==> col@[j] == visible_spec(
                        t,
                        o,
                        radius as int,
                        (x as int, j),
                    ),
            decreases MAP_HEIGHT - y,
        {
            let dx = x - ox;
            let dy = y - oy;
            proof {
                assert(0 <= dx * dx <= 10000 && 0 <= dy * dy <= 10000) by (nonlinear_arith)
                    requires
                        -80 <= dx <= 80,
                        -80 <= dy <= 80,
                ;
                assert(0 <= radius * radius <= 1000000) by (nonlinear_arith)
                    requires
                        0 <= radius <= 1000,
                ;
            }
            let dsq = dx * dx + dy * dy;
            let vis = dsq <= radius * radius && los_clear_exec(tiles, ox, oy, x, y);
            proof {
                assert(dsq == dist_sq(o, (x as int, y as int)));
                assert(vis == visible_spec(t, o, radius as int, (x as int, y as int)));
            }
            col.push(vis);
            y = y + 1;
        }
        f.push(col);
        x = x + 1;
    }
    f
}


/// Put the pieces of one executed ray step back together: the computed
/// offset and branch on the delta's sign yield exactly `ray_coord`.
proof fn lemma_ray_coord_from_parts(o: int, delta: int, n: int, k: int, off: int, q: int)
    requires
        1 <= n,
        0 <= k <= n,
        abs_of(delta) <= n,
        off == (2 * k * abs_of(delta) + n) / (2 * n),
        q == if delta >= 0 { o + off } else { o - off },
    ensures
        q == ray_coord(o, delta, n, k),
{
    lemma_ray_offset_bounds(delta, n, k);
}


/// `t` with its explored flag set.
pub open spec fn explored_tile(t: Tile) -> Tile {
    Tile { explored: true, ..t }
}

/// Visibility reads the grid only through transparency: two grids that
/// agree on every tile's `transparent` flag agree on what is visible.
pub proof fn lemma_visible_transparency(
    t1: Seq<Seq<Tile>>,
    t2: Seq<Seq<Tile>>,
    o: (int, int),
    radius: int,
    p: (int, int),
)
    requires
        in_bounds(o.0, o.1),
        forall|x: int, y: int|
            #![trigger t1[x][y]]
            in_bounds(x, y) ==> t1[x][y].transparent == t2[x][y].transparent,
    ensures
        visible_spec(t1, o, radius, p) == visible_spec(t2, o, radius, p),
{
    if in_bounds(p.0, p.1) {
        let n = steps(p.0 - o.0, p.1 - o.1);
        if n >= 1 {
            if los_clear(t1, o, p) {
                assert forall|k: int| 0 < k < n implies transparent_at(
                    t2,
                    #[trigger] ray_point(o, p, k),
                ) by {
                    lemma_ray_point_in_bounds(o, p, k);
                    let q = ray_point(o, p, k);
                    assert(transparent_at(t1, q));
                    assert(t1[q.0][q.1].transparent == t2[q.0][q.1].transparent);
                }
            }
            if los_clear(t2, o, p) {
                assert forall|k: int| 0 < k < n implies transparent_at(
                    t1,
                    #[trigger] ray_point(o, p, k),
                ) by {
                    lemma_ray_point_in_bounds(o, p, k);
                    let q = ray_point(o, p, k);
                    assert(transparent_at(t2, q));
                    assert(t1[q.0][q.1].transparent == t2[q.0][q.1].transparent);
                }
            }
        }
    }
}

impl GameMap {
    /// The stored visible set belongs to the remembered observer: when
    /// an observer position is on record, the flags are exactly what
    /// `visible_spec` gives for it on the current grid.
    pub open spec fn fov_ok(self) -> bool {
        match self.last_observer {
            Option::None => true,
            Option::Some(obs) => in_bounds(obs.0 as int, obs.1 as int) && (forall|x: int, y: int|
                #![trigger self.fov_grid()[x][y]]
                in_bounds(x, y) ==> self.fov_grid()[x][y] == visible_spec(
                    self.grid(),
                    (obs.0 as int, obs.1 as int),
                    FOV_RADIUS as int,
                    (x, y),
                )),
        }
    }

    /// Recompute the visible set, but only if the observer has moved
    /// since the last call — recomputation is the expensive step, and an
    /// unchanged position leaves everything untouched. Every tile in the
    /// new visible set is marked explored; explored flags never go back.
    /// Tiles keep their shape: only `explored` changes, and only upward.
    pub fn recaculate_fov(&mut self, player: &Object)
        requires
            old(self).dims_ok(),
            old(self).fov_ok(),
            in_bounds(player.x as int, player.y as int),
        ensures
            final(self).dims_ok(),
            final(self).fov_ok(),
            final(self).rooms == old(self).rooms,
            final(self).last_observer == Option::Some((player.x, player.y)),
            forall|x: int, y: int|
                in_bounds(x, y) ==> {
                    &&& (#[trigger] final(self).grid()[x][y]).solid == old(self).grid()[x][y].solid
                    &&& final(self).grid()[x][y].transparent == old(self).grid()[x][y].transparent
                    &&& (old(self).grid()[x][y].explored ==> final(self).grid()[x][y].explored)
                },
            old(self).last_observer == Option::Some((player.x, player.y)) ==> *final(self) == *old(
                self,
            ),
            old(self).last_observer != Option::Some((player.x, player.y)) ==> (forall|
                x: int,
                y: int,
            |
                in_bounds(x, y) ==> (#[trigger] final(self).grid()[x][y]).explored == (old(
                    self,
                ).grid()[x][y].explored || visible_spec(
                    old(self).grid(),
                    (player.x as int, player.y as int),
                    FOV_RADIUS as int,
                    (x, y),
                ))),
    {
        let memo_hit = match self.last_observer {
            Some(pos) => pos.0 == player.x && pos.1 == player.y,
            None => false,
        };
        if !memo_hit {
            let ghost g0 = *self;
            let ghost o: (int, int) = (player.x as int, player.y as int);
            let f = compute_fov(&self.tiles, player.x, player.y, FOV_RADIUS);
            self.fov = f;
            self.last_observer = Some((player.x, player.y));
            let ghost g1 = *self;
            proof {
                assert(g1.grid() == g0.grid());
                assert forall|x: int, y: int|
                    #![trigger g1.fov_grid()[x][y]]
                    in_bounds(x, y) implies g1.fov_grid()[x][y] == visible_spec(
                    g0.grid(),
                    o,
                    FOV_RADIUS as int,
                    (x, y),
                ) by {
                    assert(g1.fov_grid()[x][y] == f@[x]@[y]);
                }
            }
            let mut x: i32 = 0;
            while x < MAP_WIDTH
                invariant
                    self.dims_ok(),
                    g1.dims_ok(),
                    0 <= x <= MAP_WIDTH,
                    self.rooms == g1.rooms,
                    self.fov == g1.fov,
                    self.last_observer == g1.last_observer,
                    forall|i: int, j: int|
                        in_bounds(i, j) ==> #[trigger] self.grid()[i][j] == (if i < x
                            && g1.fov_grid()[i][j] {
                            explored_tile(g1.grid()[i][j])
                        } else {
                            g1.grid()[i][j]
                        }),
                decreases MAP_WIDTH - x,
            {
                let mut y: i32 = 0;
                while y < MAP_HEIGHT
                    invariant
                        self.dims_ok(),
                        g1.dims_ok(),
                        0 <= x < MAP_WIDTH,
                        0 <= y <= MAP_HEIGHT,
                        self.rooms == g1.rooms,
                        self.fov == g1.fov,
                        self.last_observer == g1.last_observer,
                        forall|i: int, j: int|
                            in_bounds(i, j) ==> #[trigger] self.grid()[i][j] == (if (i < x || (i
                                == x && j < y)) && g1.fov_grid()[i][j] {
                                explored_tile(g1.grid()[i][j])
                            } else {
                                g1.grid()[i][j]
                            }),
                    decreases MAP_HEIGHT - y,
                {
                    proof {
                        assert(self.fov@[x as int] == g1.fov@[x as int]);
                        assert(g1.fov_grid()[x as int][y as int] == g1.fov@[x as int]@[y as int]);
                        assert(self.grid()[x as int].len() == MAP_HEIGHT);
                        assert(self.tiles@[x as int]@[y as int] == self.grid()[x as int][y as int]);
                    }
                    if self.fov[x as usize][y as usize] {
                        let cur = self.tiles[x as usize][y as usize];
                        self.set_tile(
                            x,
                            y,
                            Tile { solid: cur.solid, transparent: cur.transparent, explored: true },
                        );
                        proof {
                            assert(self.grid()[x as int][y as int] == explored_tile(
                                g1.grid()[x as int][y as int],
                            ));
                        }
                    }
                    y = y + 1;
                }
                x = x + 1;
            }
            proof {
                // Only the explored flag moved, so transparency agrees
                // tile for tile and the visible set carries over to the
                // final grid.
                assert forall|px: int, py: int|
                    #![trigger g0.grid()[px][py]]
                    in_bounds(px, py) implies g0.grid()[px][py].transparent == self.grid()[px][
                    py].transparent by {
                    assert(self.grid()[px][py] == (if g1.fov_grid()[px][py] {
                        explored_tile(g1.grid()[px][py])
                    } else {
                        g1.grid()[px][py]
                    }));
                }
                assert forall|px: int, py: int|
                    #![trigger self.fov_grid()[px][py]]
                    in_bounds(px, py) implies self.fov_grid()[px][py] == visible_spec(
                    self.grid(),
                    o,
                    FOV_RADIUS as int,
                    (px, py),
                ) by {
                    assert(self.fov_grid()[px][py] == g1.fov_grid()[px][py]);
                    lemma_visible_transparency(
                        g0.grid(),
                        self.grid(),
                        o,
                        FOV_RADIUS as int,
                        (px, py),
                    );
                }
                assert(self.fov_ok());
            }
        }
    }
}


/// Scaling a delta scales the rasterised line's step count.
proof fn lemma_steps_scale(d: (int, int), s: int)
    requires
        s >= 1,
    ensures
        steps(s * d.0, s * d.1) == s * steps(d.0, d.1),
{
    assert(abs_of(s * d.0) == s * abs_of(d.0)) by (nonlinear_arith)
        requires
            s >= 1,
    ;
    assert(abs_of(s * d.1) == s * abs_of(d.1)) by (nonlinear_arith)
        requires
            s >= 1,
    ;
    assert(abs_of(d.0) >= abs_of(d.1) ==> s * abs_of(d.0) >= s * abs_of(d.1)) by (nonlinear_arith)
        requires
            s >= 1,
    ;
    assert(abs_of(d.0) < abs_of(d.1) ==> s * abs_of(d.0) < s * abs_of(d.1)) by (nonlinear_arith)
        requires
            s >= 1,
    ;
}

/// A tile exactly collinear with the observer lies on the rasterised
/// line to any exact multiple of its offset: rounding is exact there.
pub proof fn lemma_ray_hits_collinear(o: (int, int), w: (int, int), tgt: (int, int), s: int)
    requires
        w != o,
        s >= 2,
        tgt.0 - o.0 == s * (w.0 - o.0),
        tgt.1 - o.1 == s * (w.1 - o.1),
    ensures
        0 < steps(w.0 - o.0, w.1 - o.1) < steps(tgt.0 - o.0, tgt.1 - o.1),
        ray_point(o, tgt, steps(w.0 - o.0, w.1 - o.1)) == w,
{
    let d = (w.0 - o.0, w.1 - o.1);
    let nw = steps(d.0, d.1);
    lemma_steps_scale(d, s);
    let n = s * nw;
    assert(nw >= 1);
    assert(nw < n && n >= 2) by (nonlinear_arith)
        requires
            s >= 2,
            nw >= 1,
            n == s * nw,
    ;
    let ax = abs_of(d.0);
    let ay = abs_of(d.1);
    assert(abs_of(s * d.0) == s * ax && abs_of(s * d.1) == s * ay) by (nonlinear_arith)
        requires
            s >= 1,
            ax == abs_of(d.0),
            ay == abs_of(d.1),
    ;
    assert(2 * nw * (s * ax) + n == ax * (2 * n) + n) by (nonlinear_arith)
        requires
            n == s * nw,
    ;
    assert(2 * nw * (s * ay) + n == ay * (2 * n) + n) by (nonlinear_arith)
        requires
            n == s * nw,
    ;
    lemma_fundamental_div_mod_converse(ax * (2 * n) + n, 2 * n, ax, n);
    lemma_fundamental_div_mod_converse(ay * (2 * n) + n, 2 * n, ay, n);
    assert(sgn(s * d.0) == sgn(d.0) && sgn(s * d.1) == sgn(d.1)) by (nonlinear_arith)
        requires
            s >= 1,
    ;
    assert(sgn(d.0) * ax == d.0 && sgn(d.1) * ay == d.1);
    assert(ray_coord(o.0, tgt.0 - o.0, n, nw) == o.0 + sgn(d.0) * ax);
    assert(ray_coord(o.1, tgt.1 - o.1, n, nw) == o.1 + sgn(d.1) * ay);
}

/// A tile directly behind an opaque tile — exactly collinear with the
/// observer and beyond it — is not visible, whatever the radius: the
/// opaque tile lies strictly between on the rasterised line.
pub proof fn lemma_tile_behind_wall_not_visible(
    t: Seq<Seq<Tile>>,
    o: (int, int),
    w: (int, int),
    tgt: (int, int),
    s: int,
    radius: int,
)
    requires
        w != o,
        s >= 2,
        tgt.0 - o.0 == s * (w.0 - o.0),
        tgt.1 - o.1 == s * (w.1 - o.1),
        !t[w.0][w.1].transparent,
    ensures
        !visible_spec(t, o, radius, tgt),
{
    lemma_ray_hits_collinear(o, w, tgt, s);
    let nw = steps(w.0 - o.0, w.1 - o.1);
    assert(ray_point(o, tgt, nw) == w);
    assert(!transparent_at(t, ray_point(o, tgt, nw)));
}

/// The opaque tile that blocks a line of sight is itself seen: a tile
/// on the grid and within the radius is visible as soon as everything
/// strictly before it on the line is transparent — its own opacity does
/// not matter.
pub proof fn lemma_wall_itself_visible(
    t: Seq<Seq<Tile>>,
    o: (int, int),
    radius: int,
    w: (int, int),
)
    requires
        in_bounds(w.0, w.1),
        dist_sq(o, w) <= radius * radius,
        forall|k: int|
            0 < k < steps(w.0 - o.0, w.1 - o.1) ==> transparent_at(t, #[trigger] ray_point(o, w, k)),
    ensures
        visible_spec(t, o, radius, w),
{
}

} // verus!
