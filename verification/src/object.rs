//! Entities: the player, monsters, and their combat-capable aspect.
//! Death is a state transition, not removal: a dead entity stops
//! blocking, loses its behavior tag, and is drawn as remains.

use vstd::prelude::*;
use vstd::string::StringExecFns;

verus! {

/// An RGB color, as handed to the renderer.
#[derive(Debug, Clone, Copy, PartialEq, Eq, Structural)]
pub struct Color {
    pub r: u8,
    pub g: u8,
    pub b: u8,
}

/// What a fighter leaves behind: the player's remains keep their stats
/// for the final score display, a monster's remains lose them.
#[derive(Debug, Clone, Copy, PartialEq, Eq, Structural)]
pub enum DeathType {
    Player,
    Monster,
}

/// The combat-capable aspect of an entity.
#[derive(Debug, Clone, Copy, PartialEq, Eq, Structural)]
pub struct Fighter {
    pub max_hp: i32,
    pub hp: i32,
    pub defense: i32,
    pub power: i32,
    pub death_type: DeathType,
}

/// A monster behavior policy. `Basic` chases the player on sight and
/// attacks in melee range.
#[derive(Debug, Clone, Copy, PartialEq, Eq, Structural)]
pub enum Ai {
    Basic,
}

/// One entity: position, look, whether it blocks movement, its combat
/// aspect and behavior tag, and whether it is alive.
#[derive(Debug)]
pub struct Object {
    pub x: i32,
    pub y: i32,
    pub glyph: char,
    pub color: Color,
    pub name: String,
    pub blocks: bool,
    pub fighter: Option<Fighter>,
    pub ai: Option<Ai>,
    pub alive: bool,
}

/// The color of a freshly dead player.
pub open spec fn player_remains_color() -> Color {
    Color { r: 255, g: 0, b: 0 }
}

/// The color of a freshly dead monster.
pub open spec fn monster_remains_color() -> Color {
    Color { r: 191, g: 0, b: 0 }
}

/// `o` with its fighter's hit points replaced (unchanged if it has no
/// fighter).
pub open spec fn with_hp(o: Object, hp: i32) -> Object {
    match o.fighter {
        Option::Some(f) => Object { fighter: Option::Some(Fighter { hp: hp, ..f }), ..o },
        Option::None => o,
    }
}

/// The dead-state transition: `post` is `pre` after dying. Position is
/// kept; the entity stops blocking, loses its behavior tag and its
/// alive flag, and is renamed and recolored as remains. A dead player
/// keeps its stats, a dead monster loses its fighter.
pub open spec fn died_from(pre: Object, post: Object) -> bool {
    &&& post.x == pre.x
    &&& post.y == pre.y
    &&& post.glyph == '%'
    &&& !post.blocks
    &&& post.ai is None
    &&& !post.alive
    &&& post.name@ == "Remains of "@ + pre.name@
    &&& match pre.fighter {
        Option::Some(f) => match f.death_type {
            DeathType::Player => post.fighter == pre.fighter && post.color
                == player_remains_color(),
            DeathType::Monster => post.fighter is None && post.color == monster_remains_color(),
        },
        Option::None => false,
    }
}

/// The effect of `damage` on `pre`: no fighter shrugs it off; otherwise
/// hit points drop by `damage`, and reaching zero or less means death.
pub open spec fn damage_applied(pre: Object, damage: i32, post: Object) -> bool {
    match pre.fighter {
        Option::None => post == pre,
        Option::Some(f) => if f.hp - damage <= 0 {
            died_from(with_hp(pre, (f.hp - damage) as i32), post)
        } else {
            post == with_hp(pre, (f.hp - damage) as i32)
        },
    }
}

impl Object {
    /// The attack strength this entity contributes: its fighter's
    /// power, or none without a fighter.
    pub open spec fn power(self) -> int {
        match self.fighter {
            Option::Some(f) => f.power as int,
            Option::None => 0,
        }
    }

    /// The damage this entity absorbs: its fighter's defense, or none
    /// without a fighter.
    pub open spec fn defense(self) -> int {
        match self.fighter {
            Option::Some(f) => f.defense as int,
            Option::None => 0,
        }
    }

    /// A live entity at `(x, y)` with no fighter and no behavior tag.
    pub fn new(x: i32, y: i32, glyph: char, color: Color, name: &str, blocks: bool) -> (o: Object)
        ensures
            o.x == x,
            o.y == y,
            o.glyph == glyph,
            o.color == color,
            o.name@ == name@,
            o.blocks == blocks,
            o.fighter is None,
            o.ai is None,
            o.alive,
    {
        Object {
            x,
            y,
            glyph,
            color,
            name: String::from_str(name),
            blocks,
            fighter: None,
            ai: None,
            alive: true,
        }
    }

    /// This entity with a fighter aspect, starting at full hit points.
    pub fn add_fighter(self, max_hp: i32, defense: i32, power: i32, death_type: DeathType) -> (o:
        Object)
        ensures
            o == (Object {
                fighter: Option::Some(
                    Fighter { max_hp, hp: max_hp, defense, power, death_type },
                ),
                ..self
            }),
    {
        Object {
            fighter: Some(Fighter { max_hp, hp: max_hp, defense, power, death_type }),
            ..self
        }
    }

    /// This entity with a behavior tag.
    pub fn add_ai(self, ai: Ai) -> (o: Object)
        ensures
            o == (Object { ai: Option::Some(ai), ..self }),
    {
        Object { ai: Some(ai), ..self }
    }

    /// Move the entity to `(x, y)`. Collision rules live in the turn
    /// engine; this is the raw update.
    pub fn set_pos(&mut self, x: i32, y: i32)
        ensures
            *final(self) == (Object { x, y, ..*old(self) }),
    {
        self.x = x;
        self.y = y;
    }

    /// The entity's position.
    pub fn get_pos(&self) -> (p: (i32, i32))
        ensures
            p.0 == self.x,
            p.1 == self.y,
    {
        (self.x, self.y)
    }

    /// The squared Euclidean distance to `other`.
    pub fn distance_sq(&self, other: &Object) -> (d: i64)
        requires
            -1048576 <= self.x <= 1048576,
            -1048576 <= self.y <= 1048576,
            -1048576 <= other.x <= 1048576,
            -1048576 <= other.y <= 1048576,
        ensures
            d == crate::fov::dist_sq((self.x as int, self.y as int), (other.x as int, other.y as int)),
    {
        let dx = (other.x as i64) - (self.x as i64);
        let dy = (other.y as i64) - (self.y as i64);
        proof {
            assert(dx * dx + dy * dy <= 2 * 2097152 * 2097152) by (nonlinear_arith)
                requires
                    -2097152 <= dx <= 2097152,
                    -2097152 <= dy <= 2097152,
            ;
            assert(dx * dx >= 0 && dy * dy >= 0) by (nonlinear_arith);
        }
        dx * dx + dy * dy
    }

    /// Take `damage` hit points. Without a fighter nothing happens; at
    /// zero or fewer remaining hit points the entity dies.
    pub fn take_damage(&mut self, damage: i32)
        requires
            match old(self).fighter {
                Option::Some(f) => i32::MIN <= f.hp - damage <= i32::MAX,
                Option::None => true,
            },
        ensures
            damage_applied(*old(self), damage, *final(self)),
    {
        match self.fighter {
            Some(f) => {
                let hp2 = f.hp - damage;
                self.fighter = Some(
                    Fighter {
                        max_hp: f.max_hp,
                        hp: hp2,
                        defense: f.defense,
                        power: f.power,
                        death_type: f.death_type,
                    },
                );
                if hp2 <= 0 {
                    self.die();
                }
            },
            None => {},
        }
    }

    /// Strike `target`: it takes the attacker's power less its own
    /// defense. A non-positive difference has no effect — that is a
    /// normal outcome, not an error. The damage dealt is returned so
    /// the caller can report it.
    pub fn attack(&self, target: &mut Object) -> (damage: i32)
        requires
            i32::MIN <= self.power() - old(target).defense() <= i32::MAX,
            match old(target).fighter {
                Option::Some(f) => i32::MIN <= f.hp - (self.power() - old(target).defense())
                    <= i32::MAX,
                Option::None => true,
            },
        ensures
            damage == self.power() - old(target).defense(),
            damage > 0 ==> damage_applied(*old(target), damage, *final(target)),
            damage <= 0 ==> *final(target) == *old(target),
    {
        let power = match self.fighter {
            Some(f) => f.power,
            None => 0,
        };
        let defense = match target.fighter {
            Some(f) => f.defense,
            None => 0,
        };
        let damage = power - defense;
        if damage > 0 {
            target.take_damage(damage);
        }
        damage
    }

    /// Die: stop blocking, lose the behavior tag, become remains. The
    /// fighter aspect is kept by a dead player and cleared from a dead
    /// monster. Without a fighter nothing happens.
    pub fn die(&mut self)
        ensures
            old(self).fighter is Some ==> died_from(*old(self), *final(self)),
            old(self).fighter is None ==> *final(self) == *old(self),
    {
        match self.fighter {
            Some(f) => {
                match f.death_type {
                    DeathType::Player => {
                        self.color = Color { r: 255, g: 0, b: 0 };
                    },
                    DeathType::Monster => {
                        self.fighter = None;
                        self.color = Color { r: 191, g: 0, b: 0 };
                    },
                }
                self.glyph = '%';
                self.blocks = false;
                self.ai = None;
                self.alive = false;
                let mut nm = String::from_str("Remains of ");
                nm.append(self.name.as_str());
                self.name = nm;
            },
            None => {},
        }
    }
}

} // verus!
