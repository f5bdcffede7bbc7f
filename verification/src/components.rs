//! Plain data carried by game entities. The entity framework around the
//! core attaches these to its entities; the core itself only produces and
//! consumes their values.

use vstd::prelude::*;

use crate::point::Point;

verus! {

#[derive(Clone, Copy, Debug, PartialEq, Eq, Structural)]
pub struct Player {
    pub map_level: usize,
}

#[derive(Clone, Copy, Debug, PartialEq, Eq, Structural)]
pub struct Enemy;

#[derive(Clone, Copy, Debug, PartialEq, Eq, Structural)]
pub struct WantsToMove {
    pub destination: Point,
}

#[derive(Clone, Copy, Debug, PartialEq, Eq, Structural)]
pub struct Health {
    pub current: i32,
    pub max: i32,
}

#[derive(Clone, Debug)]
pub struct Name(pub String);

#[derive(Clone, Copy, Debug, PartialEq, Eq, Structural)]
pub struct ChasingPlayer;

#[derive(Clone, Copy, Debug, PartialEq, Eq, Structural)]
pub struct Item;

#[derive(Clone, Copy, Debug, PartialEq, Eq, Structural)]
pub struct AmuletOfYala;

/// What an entity currently sees: the visible tiles, its sight radius, and
/// whether the set must be recomputed.
#[derive(Clone, Debug)]
pub struct FieldOfView {
    pub visible_tiles: Vec<Point>,
    pub radius: i32,
    pub is_dirty: bool,
}

impl FieldOfView {
    pub fn new(radius: i32) -> (r: Self)
        ensures
            r.visible_tiles@.len() == 0,
            r.radius == radius,
            r.is_dirty,
    {
        Self { visible_tiles: Vec::new(), radius, is_dirty: true }
    }
}

#[derive(Clone, Copy, Debug, PartialEq, Eq, Structural)]
pub struct ProvidesHealing {
    pub amount: i32,
}

#[derive(Clone, Copy, Debug, PartialEq, Eq, Structural)]
pub struct ProvidesDungeonMap;

#[derive(Clone, Copy, Debug, PartialEq, Eq, Structural)]
pub struct Damage(pub i32);

#[derive(Clone, Copy, Debug, PartialEq, Eq, Structural)]
pub struct Weapon {
    pub equipped: bool,
}

#[derive(Clone, Debug)]
pub struct MapInfo {
    pub name: String,
}

#[derive(Clone, Copy, Debug, PartialEq, Eq, Structural)]
pub struct Position(pub Point);

} // verus!
