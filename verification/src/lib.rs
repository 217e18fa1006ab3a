//! A turn-based roguelike engine: procedural dungeon generation over a tile
//! grid, a field-of-view engine with explored-tile tracking, and a per-turn
//! simulation loop resolving movement, blocking and melee combat.

pub mod fov;
pub mod game;
pub mod map;
pub mod object;
pub mod reach;
pub(crate) mod rng;

pub use game::Game;
pub use map::GameMap;
pub use map::Rect;
pub use map::Tile;
pub use object::Object;
