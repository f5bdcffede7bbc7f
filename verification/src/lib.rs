//! Procedural grid-world engine for a dungeon crawler: spatial primitives,
//! a multi-source distance field, shadowcasting visibility, a tile map with
//! fog-of-war state, level builders, connectivity repair and prefab overlays.

pub mod camera;
pub mod components;
pub mod dijkstra;
pub mod gamedata;
pub mod fov;
pub mod map;
pub mod map_builder;
pub mod reach;
pub mod point;
pub mod random;
pub mod turn_state;
pub mod rect;

use vstd::prelude::*;

verus! {

} // verus!
