//! Drunkard's-walk caves: random walks carve Floor until a target fraction
//! of the map is clear (or an attempt budget runs out).

use vstd::prelude::*;

use crate::map::GridMap;
use crate::map::MAX_DIM;
use crate::map::TileType;
use crate::map::enterable_cells_interior;
use crate::map_builder::BuiltMap;
use crate::map_builder::MapBuilder;
use crate::map_builder::finalize_connected;
use crate::map_builder::lemma_carve_keeps_interior;
use crate::point::Point;
use crate::random::rng_range;
use crate::rect::IRect;

verus! {

/// How many separate walks a build may start before giving up on the
/// target clear fraction; connectivity repair guarantees a playable level
/// either way.
pub const MAX_WALKS: u64 = 65536;

/// The longest accepted single walk.
pub const MAX_STAGGER: usize = 100000;

pub struct DrunkardWalkMapBuilder {
    /// Target fraction of the map to clear, in hundredths (percent).
    pub cleared_ratio_percent: i32,
    pub stagger_distance: usize,
}

impl MapBuilder for DrunkardWalkMapBuilder {
    open spec fn spec_valid(&self, width: int, height: int) -> bool {
        0 <= self.cleared_ratio_percent <= 100 && self.stagger_distance <= MAX_STAGGER
    }

    fn build(
        &self,
        rng: &mut rand::rngs::ThreadRng,
        width: i32,
        height: i32,
        num_monsters: usize,
    ) -> (r: BuiltMap)
        ensures
            enterable_cells_interior(r.map.tiles@, r.map.world_rect),
            // the player start is the Floor cell nearest the center of the
            // generated (pre-repair) tiles, from which the level differs
            // only by Floor carved into the interior
            exists|pre: Seq<TileType>|
                {
                    &&& pre.len() == r.map.tiles@.len()
                    &&& #[trigger] crate::map_builder::player_placed(
                        pre,
                        r.map.world_rect,
                        r.player_start,
                    )
                    &&& forall|i: int|
                        0 <= i < pre.len() ==> r.map.tiles@[i] == pre[i] || (r.map.tiles@[i]
                            is Floor && crate::map::interior_point(
                            r.map.world_rect,
                            r.map.world_rect.spec_index_to_point(i),
                        ))
                },
    {
        let mut map = GridMap::new(width, height, TileType::Wall);
        let ghost rect = map.world_rect;
        proof {
            assert(0 <= (width as int) * (height as int) * (self.cleared_ratio_percent as int)
                <= 0x1_0000_0000_0000) by (nonlinear_arith)
                requires
                    4 <= width <= MAX_DIM,
                    4 <= height <= MAX_DIM,
                    0 <= self.cleared_ratio_percent <= 100,
            ;
        }
        let desired_cleared: u64 = ((width as u64) * (height as u64) * (
        self.cleared_ratio_percent as u64)) / 100;
        let mut cleared: u64 = 0;
        let mut walks: u64 = 0;
        proof {
            assert(enterable_cells_interior(map.tiles@, rect));
        }
        while cleared < desired_cleared && walks < MAX_WALKS
            invariant
                map.wf(),
                rect == map.world_rect,
                rect == (IRect { x1: 0, x2: width, y1: 0, y2: height }),
                4 <= width <= MAX_DIM,
                4 <= height <= MAX_DIM,
                self.stagger_distance <= MAX_STAGGER,
                walks <= MAX_WALKS,
                cleared <= walks * (MAX_STAGGER as u64),
                enterable_cells_interior(map.tiles@, rect),
            decreases MAX_WALKS - walks,
        {
            let start = Point {
                x: rng_range(rng, 1, width - 1),
                y: rng_range(rng, 1, height - 1),
            };
            let c = self.drunkard(&mut map, start, rng);
            proof {
                assert(cleared + c <= (walks + 1) * (MAX_STAGGER as u64)) by (nonlinear_arith)
                    requires
                        cleared <= walks * (MAX_STAGGER as u64),
                        c <= MAX_STAGGER as u64,
                ;
                assert((walks + 1) * (MAX_STAGGER as u64) <= MAX_WALKS * (MAX_STAGGER as u64))
                    by (nonlinear_arith)
                    requires
                        walks + 1 <= MAX_WALKS,
                ;
            }
            cleared += c;
            walks += 1;
        }
        let ghost pre_tiles = map.tiles@;
        let ghost pre_rect = map.world_rect;
        let r = finalize_connected(map, rng, num_monsters);
        proof {
            assert(crate::map_builder::player_placed(pre_tiles, r.map.world_rect, r.player_start));
        }
        r
    }
}

impl DrunkardWalkMapBuilder {
    /// One walk: carve Floor at every visited cell, staying strictly inside
    /// the map border; returns how many Wall cells the walk cleared.
    fn drunkard(
        &self,
        map: &mut GridMap,
        start: Point,
        rng: &mut rand::rngs::ThreadRng,
    ) -> (cleared: u64)
        requires
            old(map).wf(),
            4 <= old(map).world_rect.x2,
            4 <= old(map).world_rect.y2,
            crate::map::interior_point(old(map).world_rect, start),
            old(map).spec_in_bounds(start),
            enterable_cells_interior(old(map).tiles@, old(map).world_rect),
            self.stagger_distance <= MAX_STAGGER,
        ensures
            final(map).wf(),
            final(map).world_rect == old(map).world_rect,
            final(map).revealed@ == old(map).revealed@,
            enterable_cells_interior(final(map).tiles@, final(map).world_rect),
            cleared <= MAX_STAGGER as u64,
            // the walk only carves: every change turns an interior cell to Floor
            forall|i: int|
                0 <= i < old(map).tiles@.len() ==> final(map).tiles@[i] == old(map).tiles@[i] || (
                final(map).tiles@[i] is Floor && crate::map::interior_point(
                    old(map).world_rect,
                    old(map).world_rect.spec_index_to_point(i),
                )),
            // a walk of any positive length floors its starting cell
            self.stagger_distance > 0 ==> final(map).tiles@[old(map).world_rect.spec_point_to_index(
                start,
            )] is Floor,
    {
        let ghost rect = map.world_rect;
        let ghost orig = *map;
        let walled = map.walled_rect();
        let mut drunkard_pos = start;
        let mut cleared: u64 = 0;
        let mut staggered: usize = 0;
        while staggered < self.stagger_distance
            invariant
                map.wf(),
                rect == map.world_rect,
                4 <= rect.x2,
                4 <= rect.y2,
                walled == (IRect {
                    x1: 1,
                    x2: (rect.x2 - 1) as i32,
                    y1: 1,
                    y2: (rect.y2 - 1) as i32,
                }),
                forall|p: Point| walled.spec_in_bounds(p) <==> crate::map::interior_point(rect, p),
                crate::map::interior_point(rect, drunkard_pos),
                map.spec_in_bounds(drunkard_pos),
                map.revealed@ == old(map).revealed@,
                enterable_cells_interior(map.tiles@, rect),
                self.stagger_distance <= MAX_STAGGER,
                staggered <= self.stagger_distance,
                cleared <= staggered as u64,
                orig.wf(),
                rect == orig.world_rect,
                orig.tiles@.len() == map.tiles@.len(),
                map.spec_in_bounds(start),
                staggered == 0 ==> drunkard_pos == start,
                forall|i: int|
                    0 <= i < orig.tiles@.len() ==> map.tiles@[i] == orig.tiles@[i] || (
                    map.tiles@[i] is Floor && crate::map::interior_point(
                        rect,
                        rect.spec_index_to_point(i),
                    )),
                staggered > 0 ==> map.tiles@[rect.spec_point_to_index(start)] is Floor,
            decreases self.stagger_distance - staggered,
        {
            let ghost before = map.tiles@;
            map.set_tile(drunkard_pos, TileType::Floor);
            proof {
                lemma_carve_keeps_interior(before, map.tiles@, rect, drunkard_pos);
                crate::rect::lemma_point_to_index_bounds(rect, drunkard_pos);
                crate::rect::lemma_point_index_round_trip(rect, drunkard_pos);
                crate::rect::lemma_point_to_index_bounds(rect, start);
            }
            let roll = rng_range(rng, 0, 4);
            let delta = if roll == 0 {
                Point { x: -1, y: 0 }
            } else if roll == 1 {
                Point { x: 1, y: 0 }
            } else if roll == 2 {
                Point { x: 0, y: -1 }
            } else {
                Point { x: 0, y: 1 }
            };
            let new_pos = drunkard_pos.plus(delta);
            if walled.in_bounds(new_pos) {
                drunkard_pos = new_pos;
                if map.tile_at(drunkard_pos) == TileType::Wall {
                    let ghost before2 = map.tiles@;
                    map.set_tile(drunkard_pos, TileType::Floor);
                    proof {
                        lemma_carve_keeps_interior(before2, map.tiles@, rect, drunkard_pos);
                        crate::rect::lemma_point_to_index_bounds(rect, drunkard_pos);
                        crate::rect::lemma_point_index_round_trip(rect, drunkard_pos);
                    }
                    cleared += 1;
                }
            }
            staggered += 1;
        }
        proof {
            assert(cleared <= self.stagger_distance as u64);
            assert(cleared <= MAX_STAGGER as u64);
        }
        cleared
    }
}

} // verus!
