//! The turn engine: one game tick resolves the player's action and then
//! each monster's turn — movement, blocking checks, melee damage and
//! death transitions — over the shared entity collection.

use vstd::prelude::*;
use crate::map::{carved_exactly, in_bounds, in_interior, in_some_interior, lemma_room_center_open,
    room_ok, GameMap, MAP_HEIGHT, MAP_WIDTH};
use crate::object::{damage_applied, Ai, Color, DeathType, Fighter, Object};
use crate::rng::rng_range;

verus! {

/// The player is created first and never removed, so index zero is its
/// stable handle.
pub const PLAYER_INDEX: usize = 0;

/// The most monsters one room may spawn.
pub const MAX_MONSTERS_IN_ROOM: i32 = 5;

/// A decoded player command. Quitting and window handling stay with the
/// front end; these are the commands the engine resolves.
#[derive(Debug, Clone, Copy, PartialEq, Eq, Structural)]
pub enum PlayerAction {
    MoveUp,
    MoveDown,
    MoveLeft,
    MoveRight,
    Restart,
}

/// One resolved attack, for the caller to report: who struck whom, and
/// for how much. Zero damage is a reported outcome, not an error.
#[derive(Debug, Clone, Copy, PartialEq, Eq, Structural)]
pub struct AttackReport {
    pub attacker: usize,
    pub target: usize,
    pub damage: i32,
}

/// Combat stats the engine keeps within comfortable bounds, so damage
/// arithmetic never overflows.
pub open spec fn fighter_ranges(f: Fighter) -> bool {
    0 <= f.power <= 100000 && 0 <= f.defense <= 100000 && -1100000 <= f.hp <= 1000000 && 0
        <= f.max_hp <= 1000000
}

/// Per-entity facts the engine maintains: stats stay in range, a living
/// fighter has hit points, and a dead entity neither blocks nor acts.
pub open spec fn entity_ok(o: Object) -> bool {
    &&& match o.fighter {
        Option::Some(f) => fighter_ranges(f) && (o.alive ==> f.hp >= 1),
        Option::None => true,
    }
    &&& (!o.alive ==> !o.blocks && o.ai is None)
}

/// The player keeps a fighter for the final display (its death keeps the
/// stats) and takes no monster turns.
pub open spec fn player_ok(o: Object) -> bool {
    &&& match o.fighter {
        Option::Some(f) => f.death_type == DeathType::Player,
        Option::None => false,
    }
    &&& o.ai is None
}

/// A monster that still has its fighter is alive and blocking; death
/// clears all three together.
pub open spec fn monster_ok(o: Object) -> bool {
    match o.fighter {
        Option::Some(f) => o.blocks && o.alive && f.death_type == DeathType::Monster,
        Option::None => true,
    }
}

/// An entity stands on a walkable tile of the grid.
pub open spec fn obj_ok(m: GameMap, o: Object) -> bool {
    in_bounds(o.x as int, o.y as int) && !m.grid()[o.x as int][o.y as int].solid
}

/// The game: one dungeon level and the flat entity store. The player is
/// `objects[PLAYER_INDEX]`; monsters follow.
pub struct Game {
    pub map: GameMap,
    pub objects: Vec<Object>,
}

impl Game {
    /// Everything the engine relies on between turns: the map is sound,
    /// the visible set matches its recorded observer, every entity
    /// stands on a walkable tile with sane stats, index zero is the
    /// player, and the rest behave as monsters.
    pub open spec fn wf(self) -> bool {
        &&& self.map.dims_ok()
        &&& self.map.open_inner()
        &&& self.map.fov_ok()
        &&& 1 <= self.objects@.len()
        &&& (forall|i: int|
            0 <= i < self.objects@.len() ==> obj_ok(self.map, #[trigger] self.objects@[i])
                && entity_ok(self.objects@[i]))
        &&& player_ok(self.objects@[PLAYER_INDEX as int])
        &&& (forall|i: int|
            1 <= i < self.objects@.len() ==> monster_ok(#[trigger] self.objects@[i]))
    }

    /// Whether something at `(x, y)` stops movement: a solid tile, or
    /// any blocking entity standing there. Dead entities do not block.
    pub open spec fn blocked_at(self, x: int, y: int) -> bool {
        self.map.grid()[x][y].solid || (exists|i: int|
            0 <= i < self.objects@.len() && (#[trigger] self.objects@[i]).blocks
                && self.objects@[i].x == x && self.objects@[i].y == y)
    }

    /// Whether movement into `(x, y)` is stopped, by the tile or by a
    /// blocking entity.
    pub fn is_blocked(&self, x: i32, y: i32) -> (r: bool)
        requires
            self.map.dims_ok(),
            in_bounds(x as int, y as int),
        ensures
            r == self.blocked_at(x as int, y as int),
    {
        proof {
            assert(self.map.grid()[x as int].len() == MAP_HEIGHT);
            assert(self.map.tiles@[x as int]@[y as int] == self.map.grid()[x as int][y as int]);
        }
        if self.map.tiles[x as usize][y as usize].solid {
            return true;
        }
        let mut i: usize = 0;
        while i < self.objects.len()
            invariant
                0 <= i <= self.objects@.len(),
                forall|k: int|
                    0 <= k < i ==> !((#[trigger] self.objects@[k]).blocks && self.objects@[k].x == x
                        && self.objects@[k].y == y),
            decreases self.objects@.len() - i,
        {
            let o = &self.objects[i];
            if o.blocks && o.x == x && o.y == y {
                return true;
            }
            i = i + 1;
        }
        false
    }

    /// One resolved strike inside the store: `post` is `pre` with the
    /// attacker's power less the target's defense applied to the target
    /// (and nothing else touched). Non-positive damage changes nothing.
    pub open spec fn attack_applied(
        pre: Seq<Object>,
        attacker: int,
        target: int,
        post: Seq<Object>,
        dmg: int,
    ) -> bool {
        &&& dmg == pre[attacker].power() - pre[target].defense()
        &&& post.len() == pre.len()
        &&& (forall|k: int| 0 <= k < pre.len() && k != target ==> post[k] == pre[k])
        &&& if dmg > 0 {
            damage_applied(pre[target], dmg as i32, post[target])
        } else {
            post[target] == pre[target]
        }
    }

    /// Resolve an attack between two distinct entities of the store.
    /// Asking for the same handle twice is an engine bug, ruled out
    /// here before any state is touched.
    fn attack_index(&mut self, attacker: usize, target: usize) -> (dmg: i32)
        requires
            attacker < old(self).objects@.len(),
            target < old(self).objects@.len(),
            attacker != target,
            match old(self).objects@[attacker as int].fighter {
                Option::Some(f) => fighter_ranges(f),
                Option::None => true,
            },
            match old(self).objects@[target as int].fighter {
                Option::Some(f) => fighter_ranges(f),
                Option::None => true,
            },
        ensures
            Game::attack_applied(
                old(self).objects@,
                attacker as int,
                target as int,
                final(self).objects@,
                dmg as int,
            ),
            final(self).map == old(self).map,
    {
        let power = match self.objects[attacker].fighter {
            Some(f) => f.power,
            None => 0,
        };
        let defense = match self.objects[target].fighter {
            Some(f) => f.defense,
            None => 0,
        };
        let dmg = power - defense;
        if dmg > 0 {
            self.objects[target].take_damage(dmg);
        }
        dmg
    }
}


/// The first entity with a fighter standing at `(px, py)`, scanning the
/// store from index `i` upward — the target a player move resolves
/// against.
pub open spec fn first_fighter_at(objs: Seq<Object>, px: int, py: int, i: int) -> Option<int>
    decreases objs.len() - i,
{
    if i < 0 || i >= objs.len() {
        Option::None
    } else if objs[i].fighter is Some && objs[i].x == px && objs[i].y == py {
        Option::Some(i)
    } else {
        first_fighter_at(objs, px, py, i + 1)
    }
}

proof fn lemma_first_fighter_miss(objs: Seq<Object>, px: int, py: int, i: int)
    requires
        0 <= i < objs.len(),
        !(objs[i].fighter is Some && objs[i].x == px && objs[i].y == py),
    ensures
        first_fighter_at(objs, px, py, i) == first_fighter_at(objs, px, py, i + 1),
{
}

proof fn lemma_first_fighter_hit(objs: Seq<Object>, px: int, py: int, i: int)
    requires
        0 <= i < objs.len(),
        objs[i].fighter is Some && objs[i].x == px && objs[i].y == py,
    ensures
        first_fighter_at(objs, px, py, i) == Option::Some(i),
{
}

impl Game {
    /// One directional move of entity `i`, resolved. A dead entity does
    /// nothing. The player's move into a tile holding a fighter resolves
    /// as an attack on the first such entity, and movement is suppressed
    /// for the tick; otherwise the mover steps onto the target tile
    /// exactly when nothing blocks it, and a bump into a wall or a
    /// blocking non-fighter is a silent no-op.
    pub open spec fn move_applied(
        pre: Game,
        i: int,
        dx: int,
        dy: int,
        post: Game,
        rep: Option<AttackReport>,
    ) -> bool {
        let o = pre.objects@[i];
        let tx = o.x + dx;
        let ty = o.y + dy;
        &&& post.map == pre.map
        &&& post.objects@.len() == pre.objects@.len()
        &&& if !o.alive {
            post == pre && rep is None
        } else {
            let found = if i == PLAYER_INDEX as int {
                first_fighter_at(pre.objects@, tx, ty, 0)
            } else {
                Option::<int>::None
            };
            match found {
                Option::Some(j) => match rep {
                    Option::Some(r) => r.attacker == PLAYER_INDEX && r.target == j
                        && Game::attack_applied(
                        pre.objects@,
                        PLAYER_INDEX as int,
                        j,
                        post.objects@,
                        r.damage as int,
                    ),
                    Option::None => false,
                },
                Option::None => {
                    &&& rep is None
                    &&& if !pre.blocked_at(tx, ty) {
                        post.objects@ == pre.objects@.update(
                            i,
                            Object { x: tx as i32, y: ty as i32, ..o },
                        )
                    } else {
                        post.objects@ == pre.objects@
                    }
                },
            }
        }
    }

    /// Move entity `obj_index` by one step, resolving bumps into
    /// fighters as attacks (player only) and respecting blocking. Only
    /// the destination tile is checked: a diagonal step may pass between
    /// two touching wall corners.
    pub fn move_obj_by(&mut self, obj_index: usize, diff_x: i32, diff_y: i32) -> (rep: Option<
        AttackReport,
    >)
        requires
            old(self).wf(),
            obj_index < old(self).objects@.len(),
            -1 <= diff_x <= 1,
            -1 <= diff_y <= 1,
            !(diff_x == 0 && diff_y == 0),
        ensures
            final(self).wf(),
            Game::move_applied(
                *old(self),
                obj_index as int,
                diff_x as int,
                diff_y as int,
                *final(self),
                rep,
            ),
    {
        let ghost g0 = *self;
        if !self.objects[obj_index].alive {
            return None;
        }
        let x = self.objects[obj_index].x;
        let y = self.objects[obj_index].y;
        proof {
            assert(obj_ok(self.map, self.objects@[obj_index as int]));
            assert(!self.map.grid()[x as int][y as int].solid);
        }
        let tx = x + diff_x;
        let ty = y + diff_y;
        let mut found: Option<usize> = None;
        if obj_index == PLAYER_INDEX {
            let mut j: usize = 0;
            while j < self.objects.len()
                invariant
                    0 <= j <= self.objects@.len(),
                    *self == g0,
                    tx == x + diff_x,
                    ty == y + diff_y,
                    match found {
                        Option::None => first_fighter_at(self.objects@, tx as int, ty as int, 0)
                            == first_fighter_at(self.objects@, tx as int, ty as int, j as int),
                        Option::Some(f) => f < j && first_fighter_at(
                            self.objects@,
                            tx as int,
                            ty as int,
                            0,
                        ) == Option::Some(f as int),
                    },
                decreases self.objects@.len() - j,
            {
                if found.is_none() {
                    let o = &self.objects[j];
                    if o.fighter.is_some() && o.x == tx && o.y == ty {
                        proof {
                            lemma_first_fighter_hit(self.objects@, tx as int, ty as int, j as int);
                        }
                        found = Some(j);
                    } else {
                        proof {
                            lemma_first_fighter_miss(self.objects@, tx as int, ty as int, j as int);
                        }
                    }
                } else {
                }
                j = j + 1;
            }
        }
        match found {
            Some(j) => {
                proof {
                    assert(first_fighter_at(g0.objects@, tx as int, ty as int, 0) == Option::Some(
                        j as int,
                    ));
                    assert(g0.objects@[j as int].fighter is Some && g0.objects@[j as int].x == tx
                        && g0.objects@[j as int].y == ty) by {
                        lemma_first_fighter_found(g0.objects@, tx as int, ty as int, 0);
                    }
                    assert(j != PLAYER_INDEX);
                    assert(monster_ok(g0.objects@[j as int]));
                }
                let dmg = self.attack_index(PLAYER_INDEX, j);
                let r = AttackReport { attacker: PLAYER_INDEX, target: j, damage: dmg };
                proof {
                    let pre = g0.objects@;
                    let post = self.objects@;
                    let jj = j as int;
                    assert(entity_ok(post[jj]) && monster_ok(post[jj]) && obj_ok(
                        self.map,
                        post[jj],
                    )) by {
                        assert(Game::attack_applied(pre, 0, jj, post, dmg as int));
                        if dmg > 0 {
                            assert(damage_applied(pre[jj], dmg, post[jj]));
                        }
                    }
                    assert(self.wf());
                }
                Some(r)
            },
            None => {
                proof {
                    assert(1 <= (x as int) && (x as int) < MAP_WIDTH - 1 && 1 <= (y as int) && (
                    y as int) < MAP_HEIGHT - 1) by {
                        assert(in_bounds(x as int, y as int) && !self.map.grid()[x as int][
                            y as int].solid);
                    }
                    assert(in_bounds(tx as int, ty as int));
                }
                if !self.is_blocked(tx, ty) {
                    self.objects[obj_index].set_pos(tx, ty);
                    proof {
                        assert(self.objects@ == g0.objects@.update(
                            obj_index as int,
                            Object { x: tx, y: ty, ..g0.objects@[obj_index as int] },
                        ));
                        assert(self.wf()) by {
                            assert(!self.map.grid()[tx as int][ty as int].solid);
                            assert forall|k: int|
                                0 <= k < self.objects@.len() implies obj_ok(
                                self.map,
                                #[trigger] self.objects@[k],
                            ) && entity_ok(self.objects@[k]) by {
                                if k != obj_index as int {
                                    assert(self.objects@[k] == g0.objects@[k]);
                                }
                            }
                            assert forall|k: int|
                                1 <= k < self.objects@.len() implies monster_ok(
                                #[trigger] self.objects@[k],
                            ) by {
                                if k != obj_index as int {
                                    assert(self.objects@[k] == g0.objects@[k]);
                                }
                            }
                        }
                    }
                }
                None
            },
        }
    }
}

/// What being the first hit means: the entity at the returned index has
/// a fighter and stands at the probed tile.
proof fn lemma_first_fighter_found(objs: Seq<Object>, px: int, py: int, i: int)
    requires
        first_fighter_at(objs, px, py, i) is Some,
    ensures
        ({
            let j = first_fighter_at(objs, px, py, i)->Some_0;
            &&& 0 <= j < objs.len()
            &&& objs[j].fighter is Some
            &&& objs[j].x == px
            &&& objs[j].y == py
        }),
    decreases
            (if i < 0 {
                objs.len() as int + 1
            } else {
                objs.len() - i
            }),
{
    if i < 0 {
        lemma_first_fighter_found(objs, px, py, 0);
        assert(first_fighter_at(objs, px, py, i) == first_fighter_at(objs, px, py, 0));
    } else if i >= objs.len() {
    } else if objs[i].fighter is Some && objs[i].x == px && objs[i].y == py {
    } else {
        lemma_first_fighter_found(objs, px, py, i + 1);
    }
}


/// The unit step a monster takes toward a target offset `(dx, dy)`: the
/// exact direction, normalised to length one and rounded to the nearest
/// integer on each axis independently (halves away from zero), so
/// diagonal steps are possible and intended.
pub open spec fn step_toward(dx: int, dy: int) -> (int, int) {
    (
        if 3 * dx * dx >= dy * dy {
            crate::fov::sgn(dx)
        } else {
            0
        },
        if 3 * dy * dy >= dx * dx {
            crate::fov::sgn(dy)
        } else {
            0
        },
    )
}

impl Game {
    /// Step entity `obj_index` one tile toward `(target_x, target_y)`,
    /// resolving the step like any other move.
    pub fn move_obj_towards(&mut self, obj_index: usize, target_x: i32, target_y: i32) -> (rep:
        Option<AttackReport>)
        requires
            old(self).wf(),
            obj_index < old(self).objects@.len(),
            in_bounds(target_x as int, target_y as int),
            !(target_x == old(self).objects@[obj_index as int].x && target_y == old(self).objects@[obj_index as int].y),
        ensures
            final(self).wf(),
            final(self).map == old(self).map,
            final(self).objects@.len() == old(self).objects@.len(),
            Game::move_applied(
                *old(self),
                obj_index as int,
                step_toward(
                    target_x - old(self).objects@[obj_index as int].x,
                    target_y - old(self).objects@[obj_index as int].y,
                ).0,
                step_toward(
                    target_x - old(self).objects@[obj_index as int].x,
                    target_y - old(self).objects@[obj_index as int].y,
                ).1,
                *final(self),
                rep,
            ),
    {
        let x = self.objects[obj_index].x;
        let y = self.objects[obj_index].y;
        proof {
            assert(obj_ok(self.map, self.objects@[obj_index as int]));
        }
        let dx = target_x - x;
        let dy = target_y - y;
        proof {
            assert(0 <= 3 * dx * dx <= 30000 && 0 <= 3 * dy * dy <= 30000 && 0 <= dx * dx <= 10000
                && 0 <= dy * dy <= 10000) by (nonlinear_arith)
                requires
                    -100 <= dx <= 100,
                    -100 <= dy <= 100,
            ;
        }
        let sx: i32 = if 3 * dx * dx >= dy * dy {
            if dx > 0 {
                1
            } else if dx < 0 {
                -1
            } else {
                0
            }
        } else {
            0
        };
        let sy: i32 = if 3 * dy * dy >= dx * dx {
            if dy > 0 {
                1
            } else if dy < 0 {
                -1
            } else {
                0
            }
        } else {
            0
        };
        proof {
            assert((sx as int, sy as int) == step_toward(dx as int, dy as int));
            assert(!(sx == 0 && sy == 0)) by {
                assert(dx != 0 || dy != 0);
                assert(dx != 0 ==> dx * dx >= 1) by (nonlinear_arith);
                assert(dy != 0 ==> dy * dy >= 1) by (nonlinear_arith);
                if 3 * dx * dx >= dy * dy {
                    if dx == 0 {
                        assert(dy * dy <= 0);
                        assert(dy != 0 && dy * dy >= 1);
                        assert(false);
                    }
                } else {
                    assert(3 * dy * dy >= dx * dx) by (nonlinear_arith)
                        requires
                            3 * dx * dx < dy * dy,
                            dx * dx >= 0,
                    ;
                    if dy == 0 {
                        assert(dy * dy == 0) by (nonlinear_arith)
                            requires
                                dy == 0,
                        ;
                        assert(false);
                    }
                }
            }
        }
        self.move_obj_by(obj_index, sx, sy)
    }

    /// One monster turn, resolved. A monster outside the player's
    /// visible set is dormant. A seen monster at squared distance four
    /// or more steps one tile toward the player; any closer, it attacks
    /// a living player and otherwise stands still.
    pub open spec fn ai_turn_applied(
        pre: Game,
        i: int,
        post: Game,
        rep: Option<AttackReport>,
    ) -> bool {
        let m = pre.objects@[i];
        let pl = pre.objects@[PLAYER_INDEX as int];
        if pre.map.fov_grid()[m.x as int][m.y as int] {
            if crate::fov::dist_sq((m.x as int, m.y as int), (pl.x as int, pl.y as int)) >= 4 {
                Game::move_applied(
                    pre,
                    i,
                    step_toward(pl.x - m.x, pl.y - m.y).0,
                    step_toward(pl.x - m.x, pl.y - m.y).1,
                    post,
                    rep,
                )
            } else if pl.alive {
                match rep {
                    Option::Some(r) => r.attacker == i && r.target == PLAYER_INDEX
                        && post.map == pre.map && Game::attack_applied(
                        pre.objects@,
                        i,
                        PLAYER_INDEX as int,
                        post.objects@,
                        r.damage as int,
                    ),
                    Option::None => false,
                }
            } else {
                post == pre && rep is None
            }
        } else {
            post == pre && rep is None
        }
    }

    /// Take one monster's turn.
    fn ai_basic_turn(&mut self, monster_index: usize) -> (rep: Option<AttackReport>)
        requires
            old(self).wf(),
            1 <= monster_index < old(self).objects@.len(),
        ensures
            final(self).wf(),
            final(self).map == old(self).map,
            final(self).objects@.len() == old(self).objects@.len(),
            Game::ai_turn_applied(*old(self), monster_index as int, *final(self), rep),
    {
        let ghost g0 = *self;
        let mx = self.objects[monster_index].x;
        let my = self.objects[monster_index].y;
        proof {
            assert(obj_ok(self.map, self.objects@[monster_index as int]));
            assert(self.map.fov@[mx as int]@.len() == MAP_HEIGHT);
            assert(self.map.fov@[mx as int]@[my as int] == self.map.fov_grid()[mx as int][
                my as int]);
        }
        if self.map.fov[mx as usize][my as usize] {
            let px = self.objects[PLAYER_INDEX].x;
            let py = self.objects[PLAYER_INDEX].y;
            proof {
                assert(obj_ok(self.map, self.objects@[PLAYER_INDEX as int]));
            }
            let dx = px - mx;
            let dy = py - my;
            proof {
                assert(0 <= dx * dx <= 10000 && 0 <= dy * dy <= 10000) by (nonlinear_arith)
                    requires
                        -100 <= dx <= 100,
                        -100 <= dy <= 100,
                ;
            }
            let dsq = dx * dx + dy * dy;
            proof {
                assert(dsq == crate::fov::dist_sq(
                    (mx as int, my as int),
                    (px as int, py as int),
                ));
            }
            if dsq >= 4 {
                proof {
                    if px == mx && py == my {
                        assert(dx == 0 && dy == 0);
                        assert(dx * dx == 0 && dy * dy == 0) by (nonlinear_arith)
                            requires
                                dx == 0,
                                dy == 0,
                        ;
                        assert(false);
                    }
                }
                self.move_obj_towards(monster_index, px, py)
            } else if self.objects[PLAYER_INDEX].alive {
                let dmg = self.attack_index(monster_index, PLAYER_INDEX);
                proof {
                    let pre = g0.objects@;
                    let post = self.objects@;
                    assert(entity_ok(post[0]) && player_ok(post[0]) && obj_ok(self.map, post[0]))
                        by {
                        assert(Game::attack_applied(
                            pre,
                            monster_index as int,
                            0,
                            post,
                            dmg as int,
                        ));
                        if dmg > 0 {
                            assert(damage_applied(pre[0], dmg, post[0]));
                        }
                    }
                    assert forall|k: int| 0 <= k < post.len() implies obj_ok(
                        self.map,
                        #[trigger] post[k],
                    ) && entity_ok(post[k]) by {
                        if k != 0 {
                            assert(post[k] == pre[k]);
                        }
                    }
                    assert forall|k: int| 1 <= k < post.len() implies monster_ok(
                        #[trigger] post[k],
                    ) by {
                        assert(post[k] == pre[k]);
                    }
                    assert(self.wf());
                }
                Some(AttackReport { attacker: monster_index, target: PLAYER_INDEX, damage: dmg })
            } else {
                None
            }
        } else {
            None
        }
    }

    /// Whether `post` is `pre` after entity `i` had its turn, reporting
    /// `rep`: entities with a behavior tag act, everything else stands
    /// still and reports nothing.
    pub open spec fn turn_taken(pre: Game, i: int, post: Game, rep: Option<AttackReport>) -> bool {
        if pre.objects@[i].ai is Some {
            Game::ai_turn_applied(pre, i, post, rep)
        } else {
            post == pre && rep is None
        }
    }

    /// The attacks of one tick, in turn order: the reports of the turns
    /// that produced one.
    pub open spec fn collected(reps: Seq<Option<AttackReport>>) -> Seq<AttackReport>
        decreases reps.len(),
    {
        if reps.len() == 0 {
            Seq::empty()
        } else {
            let rest = Self::collected(reps.drop_last());
            match reps.last() {
                Option::Some(r) => rest.push(r),
                Option::None => rest,
            }
        }
    }

    /// Run one tick of monster turns: every entity, in store order, acts
    /// once, and the attacks that happened are returned in turn order.
    /// The player has no behavior tag and so never acts here.
    pub fn update_objects(&mut self) -> (reports: Vec<AttackReport>)
        requires
            old(self).wf(),
        ensures
            final(self).wf(),
            final(self).map == old(self).map,
            final(self).objects@.len() == old(self).objects@.len(),
            exists|gs: Seq<Game>, reps: Seq<Option<AttackReport>>|
                {
                    &&& gs.len() == old(self).objects@.len() + 1
                    &&& reps.len() == old(self).objects@.len()
                    &&& gs[0] == *old(self)
                    &&& gs[gs.len() - 1] == *final(self)
                    &&& (forall|k: int|
                        0 <= k < old(self).objects@.len() ==> #[trigger] Game::turn_taken(
                            gs[k],
                            k,
                            gs[k + 1],
                            reps[k],
                        ))
                    &&& reports@ == Game::collected(reps)
                },
    {
        let ghost g0 = *self;
        let mut reports: Vec<AttackReport> = Vec::new();
        let ghost mut gs: Seq<Game> = seq![*self];
        let ghost mut reps: Seq<Option<AttackReport>> = Seq::empty();
        let n = self.objects.len();
        let mut i: usize = 0;
        while i < n
            invariant
                self.wf(),
                n == g0.objects@.len(),
                self.objects@.len() == n,
                self.map == g0.map,
                0 <= i <= n,
                gs.len() == i + 1,
                reps.len() == i,
                gs[0] == g0,
                gs[i as int] == *self,
                forall|k: int|
                    0 <= k < i ==> #[trigger] Game::turn_taken(gs[k], k, gs[k + 1], reps[k]),
                reports@ == Game::collected(reps),
            decreases n - i,
        {
            let ghost pre = *self;
            let mut rep: Option<AttackReport> = None;
            if self.objects[i].ai.is_some() {
                proof {
                    assert(player_ok(self.objects@[PLAYER_INDEX as int]));
                    assert(i >= 1);
                }
                rep = self.ai_basic_turn(i);
                proof {
                    assert(Game::ai_turn_applied(pre, i as int, *self, rep));
                }
                if let Some(r) = rep {
                    reports.push(r);
                }
            }
            proof {
                assert(Game::turn_taken(pre, i as int, *self, rep));
                gs = gs.push(*self);
                let reps0 = reps;
                reps = reps.push(rep);
                assert(reps.drop_last() =~= reps0);
                assert(reps.last() == rep);
            }
            i = i + 1;
        }
        proof {
            assert(gs[gs.len() - 1] == *self);
        }
        reports
    }
}


/// An orc exactly as spawning makes one.
pub open spec fn orc_stats(o: Object) -> bool {
    &&& o.glyph == 'o'
    &&& o.name@ == "Orc"@
    &&& o.color == (Color { r: 0, g: 127, b: 0 })
    &&& o.fighter == Option::Some(
        Fighter { max_hp: 10, hp: 10, defense: 0, power: 3, death_type: DeathType::Monster },
    )
}

/// A troll exactly as spawning makes one.
pub open spec fn troll_stats(o: Object) -> bool {
    &&& o.glyph == 'T'
    &&& o.name@ == "Troll"@
    &&& o.color == (Color { r: 0, g: 191, b: 0 })
    &&& o.fighter == Option::Some(
        Fighter { max_hp: 16, hp: 16, defense: 1, power: 4, death_type: DeathType::Monster },
    )
}

/// A monster as dungeon population leaves it: an orc or a troll with its
/// full stat block, alive, blocking, chasing on sight, and standing in
/// some room's interior.
pub open spec fn populated_monster(rooms: Seq<crate::map::Rect>, o: Object) -> bool {
    &&& in_some_interior(rooms, (o.x as int, o.y as int))
    &&& o.alive
    &&& o.blocks
    &&& o.ai == Option::Some(Ai::Basic)
    &&& (orc_stats(o) || troll_stats(o))
}

/// What spawning into one room produces: an orc or a troll with its full
/// stat block, alive, blocking, chasing on sight, standing in the room's
/// interior.
pub open spec fn spawned_monster(room: crate::map::Rect, o: Object) -> bool {
    &&& in_interior(room, (o.x as int, o.y as int))
    &&& o.alive
    &&& o.blocks
    &&& o.ai == Option::Some(Ai::Basic)
    &&& (orc_stats(o) || troll_stats(o))
}

/// Entity `k` has its tile to itself: no other blocking entity of the
/// store stands on it.
pub open spec fn sole_blocker_at(objs: Seq<Object>, k: int) -> bool {
    forall|j: int|
        0 <= j < objs.len() && j != k && (#[trigger] objs[j]).blocks ==> !(objs[j].x == objs[k].x
            && objs[j].y == objs[k].y)
}

/// No two blocking entities of the store share a tile.
pub open spec fn blockers_distinct(objs: Seq<Object>) -> bool {
    forall|j: int, k: int|
        #![trigger objs[j], objs[k]]
        0 <= j < k < objs.len() && objs[j].blocks && objs[k].blocks ==> !(objs[j].x == objs[k].x
            && objs[j].y == objs[k].y)
}

/// A just-started game, as `Game::new` and a restart leave it: a fresh
/// dungeon; the player — `'@'`, named "Player", alive, blocking, at
/// full stats — standing at the first room's center; every other entity
/// an orc or a troll in some room's interior; and no two blocking
/// entities sharing a tile.
pub open spec fn fresh_start(g: Game) -> bool {
    &&& g.map.fresh()
    &&& g.objects@.len() >= 1
    &&& g.objects@[0].x == g.map.rooms@[0].center().0
    &&& g.objects@[0].y == g.map.rooms@[0].center().1
    &&& g.objects@[0].alive
    &&& g.objects@[0].blocks
    &&& g.objects@[0].glyph == '@'
    &&& g.objects@[0].name@ == "Player"@
    &&& g.objects@[0].fighter == Option::Some(
        Fighter { max_hp: 50, hp: 50, defense: 2, power: 5, death_type: DeathType::Player },
    )
    &&& (forall|k: int|
        1 <= k < g.objects@.len() ==> populated_monster(g.map.rooms@, #[trigger] g.objects@[k]))
    &&& blockers_distinct(g.objects@)
}

impl Game {
    /// Spawn a random number of monsters (at most `MAX_MONSTERS_IN_ROOM`)
    /// at random free tiles of one room's interior: mostly orcs, the
    /// rest trolls. A sampled tile that is already blocked spawns
    /// nothing, so every monster spawned here has its tile to itself.
    /// Existing entities are untouched.
    fn place_random_objects(&mut self, room_index: usize)
        requires
            old(self).wf(),
            room_index < old(self).map.rooms@.len(),
            room_ok(old(self).map.rooms@[room_index as int]),
        ensures
            final(self).wf(),
            final(self).map == old(self).map,
            old(self).objects@.len() <= final(self).objects@.len() <= old(self).objects@.len()
                + MAX_MONSTERS_IN_ROOM,
            forall|k: int|
                0 <= k < old(self).objects@.len() ==> final(self).objects@[k] == old(self).objects@[k],
            forall|k: int|
                old(self).objects@.len() <= k < final(self).objects@.len() ==> spawned_monster(
                    old(self).map.rooms@[room_index as int],
                    #[trigger] final(self).objects@[k],
                ),
            forall|k: int|
                old(self).objects@.len() <= k < final(self).objects@.len()
                    ==> #[trigger] sole_blocker_at(final(self).objects@, k),
    {
        let ghost g0 = *self;
        let num = rng_range(0, MAX_MONSTERS_IN_ROOM + 1);
        let room = self.map.rooms[room_index];
        let mut c: i32 = 0;
        while c < num
            invariant
                self.wf(),
                self.map == g0.map,
                room == g0.map.rooms@[room_index as int],
                room_ok(room),
                0 <= c <= num <= MAX_MONSTERS_IN_ROOM,
                self.objects@.len() <= g0.objects@.len() + c,
                self.objects@.len() >= g0.objects@.len(),
                forall|k: int|
                    0 <= k < g0.objects@.len() ==> self.objects@[k] == g0.objects@[k],
                forall|k: int|
                    g0.objects@.len() <= k < self.objects@.len() ==> spawned_monster(
                        room,
                        #[trigger] self.objects@[k],
                    ),
                forall|k: int|
                    g0.objects@.len() <= k < self.objects@.len()
                        ==> #[trigger] sole_blocker_at(self.objects@, k),
            decreases num - c,
        {
            let x = rng_range(room.x1 + 1, room.x2);
            let y = rng_range(room.y1 + 1, room.y2);
            if !self.is_blocked(x, y) {
                let ghost pre = self.objects@;
                let monster = if rng_range(0, 10) < 8 {
                    Object::new(x, y, 'o', Color { r: 0, g: 127, b: 0 }, "Orc", true).add_fighter(
                        10,
                        0,
                        3,
                        DeathType::Monster,
                    ).add_ai(Ai::Basic)
                } else {
                    Object::new(x, y, 'T', Color { r: 0, g: 191, b: 0 }, "Troll", true).add_fighter(
                        16,
                        1,
                        4,
                        DeathType::Monster,
                    ).add_ai(Ai::Basic)
                };
                self.objects.push(monster);
                proof {
                    let nk = pre.len() as int;
                    assert forall|k: int|
                        0 <= k < self.objects@.len() implies obj_ok(
                        self.map,
                        #[trigger] self.objects@[k],
                    ) && entity_ok(self.objects@[k]) by {
                        if k < pre.len() {
                            assert(self.objects@[k] == pre[k]);
                        }
                    }
                    assert forall|k: int|
                        1 <= k < self.objects@.len() implies monster_ok(
                        #[trigger] self.objects@[k],
                    ) by {
                        if k < pre.len() {
                            assert(self.objects@[k] == pre[k]);
                        }
                    }
                    // The sampled tile held no blocking entity, so the
                    // newcomer stands alone — and stands on nobody
                    // spawned earlier, who all block.
                    assert forall|k: int|
                        g0.objects@.len() <= k < self.objects@.len()
                            implies #[trigger] sole_blocker_at(self.objects@, k) by {
                        assert forall|j: int|
                            0 <= j < self.objects@.len() && j != k && (#[trigger] self.objects@[j]).blocks
                                implies !(self.objects@[j].x == self.objects@[k].x
                                && self.objects@[j].y == self.objects@[k].y) by {
                            if k == nk {
                                assert(self.objects@[j] == pre[j]);
                                assert(!(pre[j].blocks && pre[j].x == x && pre[j].y == y));
                            } else if j == nk {
                                assert(self.objects@[k] == pre[k]);
                                assert(spawned_monster(room, pre[k]));
                                assert(!(pre[k].blocks && pre[k].x == x && pre[k].y == y));
                            } else {
                                assert(self.objects@[j] == pre[j] && self.objects@[k] == pre[k]);
                                assert(sole_blocker_at(pre, k));
                            }
                        }
                    }
                }
            }
            c = c + 1;
        }
    }

    /// Put the player in the first room's center and populate every room
    /// with monsters. The map must be freshly generated: the first
    /// room's existence and walkable center come from generation, so a
    /// configuration that accepted no rooms is impossible here rather
    /// than a crash.
    fn init(&mut self)
        requires
            old(self).map.dims_ok(),
            old(self).map.open_inner(),
            old(self).map.fov_ok(),
            old(self).map.generated(),
            old(self).map.rooms_ok(),
            old(self).map.rooms@.len() >= 1,
            old(self).objects@.len() == 0,
        ensures
            final(self).wf(),
            final(self).map == old(self).map,
            final(self).objects@.len() >= 1,
            final(self).objects@[0].x == old(self).map.rooms@[0].center().0,
            final(self).objects@[0].y == old(self).map.rooms@[0].center().1,
            final(self).objects@[0].alive,
            final(self).objects@[0].blocks,
            final(self).objects@[0].glyph == '@',
            final(self).objects@[0].name@ == "Player"@,
            final(self).objects@[0].fighter == Option::Some(
                Fighter { max_hp: 50, hp: 50, defense: 2, power: 5, death_type: DeathType::Player },
            ),
            forall|k: int|
                1 <= k < final(self).objects@.len() ==> populated_monster(
                    old(self).map.rooms@,
                    #[trigger] final(self).objects@[k],
                ),
            blockers_distinct(final(self).objects@),
    {
        let ghost g0 = *self;
        proof {
            let dirs = choose|dirs: Seq<bool>|
                dirs.len() == self.map.rooms@.len() && #[trigger] carved_exactly(
                    self.map.grid(),
                    self.map.rooms@,
                    dirs,
                );
            lemma_room_center_open(self.map.grid(), self.map.rooms@, dirs, 0);
        }
        let room0 = self.map.rooms[0];
        let c = room0.get_center();
        let player = Object::new(
            c.0,
            c.1,
            '@',
            Color { r: 255, g: 255, b: 255 },
            "Player",
            true,
        ).add_fighter(50, 2, 5, DeathType::Player);
        self.objects.push(player);
        let ghost player0 = self.objects@[0];
        proof {
            assert(self.wf());
        }
        let n = self.map.rooms.len();
        let mut i: usize = 0;
        while i < n
            invariant
                self.wf(),
                self.map == g0.map,
                n == g0.map.rooms@.len(),
                g0.map.rooms_ok(),
                self.objects@.len() >= 1,
                self.objects@[0] == player0,
                player0.x == g0.map.rooms@[0].center().0,
                player0.y == g0.map.rooms@[0].center().1,
                player0.alive,
                player0.blocks,
                player0.glyph == '@',
                player0.name@ == "Player"@,
                blockers_distinct(self.objects@),
                player0.fighter == Option::Some(
                    Fighter {
                        max_hp: 50,
                        hp: 50,
                        defense: 2,
                        power: 5,
                        death_type: DeathType::Player,
                    },
                ),
                0 <= i <= n,
                forall|k: int|
                    1 <= k < self.objects@.len() ==> populated_monster(
                        g0.map.rooms@,
                        #[trigger] self.objects@[k],
                    ),
            decreases n - i,
        {
            let ghost prev = *self;
            self.place_random_objects(i);
            proof {
                assert forall|k: int|
                    1 <= k < self.objects@.len() implies populated_monster(
                    g0.map.rooms@,
                    #[trigger] self.objects@[k],
                ) by {
                    if k >= prev.objects@.len() {
                        let o = self.objects@[k];
                        assert(spawned_monster(prev.map.rooms@[i as int], o));
                        assert(prev.map.rooms@ == g0.map.rooms@);
                        assert(in_interior(g0.map.rooms@[i as int], (o.x as int, o.y as int)));
                        assert(in_some_interior(g0.map.rooms@, (o.x as int, o.y as int)));
                    } else {
                        assert(self.objects@[k] == prev.objects@[k]);
                    }
                }
                assert forall|j: int, k: int|
                    #![trigger self.objects@[j], self.objects@[k]]
                    0 <= j < k < self.objects@.len() && self.objects@[j].blocks
                        && self.objects@[k].blocks implies !(self.objects@[j].x
                        == self.objects@[k].x && self.objects@[j].y == self.objects@[k].y) by {
                    if k >= prev.objects@.len() {
                        assert(sole_blocker_at(self.objects@, k));
                    } else {
                        assert(self.objects@[j] == prev.objects@[j]);
                        assert(self.objects@[k] == prev.objects@[k]);
                        assert(blockers_distinct(prev.objects@));
                    }
                }
            }
            i = i + 1;
        }
    }

    /// A new game: a freshly generated dungeon, the player standing in
    /// the first accepted room's center, and monsters spread through the
    /// rooms.
    pub fn new() -> (g: Game)
        ensures
            g.wf(),
            fresh_start(g),
    {
        let mut g = Game { map: GameMap::new(), objects: Vec::new() };
        g.init();
        g
    }

    /// Start over: drop every entity, generate a fresh dungeon, and
    /// repopulate it. The visibility engine's state is fully reset with
    /// the map — no tile of the new dungeon is explored, whatever was
    /// explored before.
    pub fn restart(&mut self)
        ensures
            final(self).wf(),
            fresh_start(*final(self)),
    {
        self.objects.clear();
        self.map = GameMap::new();
        self.init();
    }

    /// Resolve one player command: a directional move (which may resolve
    /// as an attack), or a full restart.
    pub fn handle_action(&mut self, action: PlayerAction) -> (rep: Option<AttackReport>)
        requires
            old(self).wf(),
        ensures
            final(self).wf(),
            match action {
                PlayerAction::MoveUp => Game::move_applied(*old(self), 0, 0, -1, *final(self), rep),
                PlayerAction::MoveDown => Game::move_applied(*old(self), 0, 0, 1, *final(self), rep),
                PlayerAction::MoveLeft => Game::move_applied(
                    *old(self),
                    0,
                    -1,
                    0,
                    *final(self),
                    rep,
                ),
                PlayerAction::MoveRight => Game::move_applied(
                    *old(self),
                    0,
                    1,
                    0,
                    *final(self),
                    rep,
                ),
                PlayerAction::Restart => rep is None && fresh_start(*final(self)),
            },
    {
        match action {
            PlayerAction::MoveUp => self.move_obj_by(PLAYER_INDEX, 0, -1),
            PlayerAction::MoveDown => self.move_obj_by(PLAYER_INDEX, 0, 1),
            PlayerAction::MoveLeft => self.move_obj_by(PLAYER_INDEX, -1, 0),
            PlayerAction::MoveRight => self.move_obj_by(PLAYER_INDEX, 1, 0),
            PlayerAction::Restart => {
                self.restart();
                None
            },
        }
    }

    /// Bring the visible set up to date with the player's position and
    /// mark what it sees explored. Entities are untouched; tiles change
    /// only in their explored flag, which never goes back.
    pub fn update_fov(&mut self)
        requires
            old(self).wf(),
        ensures
            final(self).wf(),
            final(self).objects == old(self).objects,
            final(self).map.rooms == old(self).map.rooms,
            final(self).map.last_observer == Option::Some(
                (old(self).objects@[0].x, old(self).objects@[0].y),
            ),
            forall|x: int, y: int|
                in_bounds(x, y) ==> {
                    &&& (#[trigger] final(self).map.grid()[x][y]).solid == old(self).map.grid()[x][y].solid
                    &&& final(self).map.grid()[x][y].transparent == old(self).map.grid()[x][y].transparent
                    &&& (old(self).map.grid()[x][y].explored ==> final(self).map.grid()[x][y].explored)
                },
            old(self).map.last_observer == Option::Some(
                (old(self).objects@[0].x, old(self).objects@[0].y),
            ) ==> final(self).map == old(self).map,
            old(self).map.last_observer != Option::Some(
                (old(self).objects@[0].x, old(self).objects@[0].y),
            ) ==> (forall|x: int, y: int|
                in_bounds(x, y) ==> (#[trigger] final(self).map.grid()[x][y]).explored == (old(self).map.grid()[x][y].explored || crate::fov::visible_spec(
                    old(self).map.grid(),
                    (old(self).objects@[0].x as int, old(self).objects@[0].y as int),
                    crate::fov::FOV_RADIUS as int,
                    (x, y),
                ))),
    {
        let ghost g0 = *self;
        proof {
            assert(obj_ok(self.map, self.objects@[0]));
        }
        self.map.recaculate_fov(&self.objects[PLAYER_INDEX]);
        proof {
            assert forall|k: int|
                0 <= k < self.objects@.len() implies obj_ok(
                self.map,
                #[trigger] self.objects@[k],
            ) && entity_ok(self.objects@[k]) by {
                assert(obj_ok(g0.map, g0.objects@[k]) && entity_ok(g0.objects@[k]));
                let o = g0.objects@[k];
                assert(self.map.grid()[o.x as int][o.y as int].solid == g0.map.grid()[o.x as int][
                    o.y as int].solid);
            }
            assert(self.map.open_inner()) by {
                assert forall|x: int, y: int|
                    in_bounds(x, y) && !(#[trigger] self.map.grid()[x][y]).solid implies 1 <= x
                    < MAP_WIDTH - 1 && 1 <= y < MAP_HEIGHT - 1 by {
                    assert(self.map.grid()[x][y].solid == g0.map.grid()[x][y].solid);
                }
            }
            assert(self.wf());
        }
    }
}

} // verus!
