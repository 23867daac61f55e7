//! Turn-based simulation core of a grid-world dungeon crawler: dungeon
//! generation, per-entity visibility, shortest-path pursuit for hostile
//! entities, and a two-phase turn scheduler.

pub mod rect;
pub mod rng;
pub mod map;
pub mod connectivity;
pub mod components;
pub mod fov;
pub mod pathfind;
pub mod systems;
pub mod state;
