//! A small roguelike's core: a dungeon of rooms and corridors, line of sight
//! with a fog of war, an entity store with one table per component kind, and
//! the systems that run over it each frame.
pub mod random;
pub mod rect;
pub mod map;
pub mod components;
pub mod visibility;
pub mod ecs;
pub mod systems;
pub mod state;
