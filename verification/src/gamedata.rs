//! Level configuration data: builder parameters, entity templates and
//! theme choices, as plain values. The configuration loader around the
//! core fills these in.

use vstd::prelude::*;

verus! {

#[derive(Clone, Copy, Debug, PartialEq, Eq, Structural)]
pub struct PlayerTemplate {
    pub fov: i32,
    pub hp: i32,
    pub glyph: char,
    pub base_damage: i32,
}

#[derive(Clone, Debug)]
pub struct AmuletTemplate {
    pub glyph: char,
    pub name: String,
}

#[derive(Clone, Copy, Debug, PartialEq, Eq, Structural)]
pub enum EntityType {
    Enemy,
    Item,
}

#[derive(Clone, Debug)]
pub struct EntityTemplate {
    pub entity_type: EntityType,
    pub levels: Vec<usize>,
    pub frequency: i32,
    pub name: String,
    pub glyph: char,
    pub provides: Option<Vec<(String, i32)>>,
    pub hp: Option<i32>,
    pub base_damage: Option<i32>,
    pub fov: Option<i32>,
}

#[derive(Clone, Copy, Debug, PartialEq, Eq, Structural)]
pub enum MapBuilderType {
    CellularAutomata,
    Square,
    DrunkardWalk,
}

#[derive(Clone, Copy, Debug, PartialEq, Eq, Structural)]
pub enum MapThemeType {
    Forest,
    Dungeon,
}

#[derive(Clone, Debug)]
pub struct GameLevel {
    pub name: String,
    pub builder: MapBuilderType,
    pub theme: MapThemeType,
}

} // verus!
