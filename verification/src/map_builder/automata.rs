//! Cellular-automata caves: a noise grid smoothed by a neighbor-count rule.

use vstd::prelude::*;

use crate::map::GridMap;
use crate::map::MAX_DIM;
use crate::map::TileType;
use crate::map::enterable_cells_interior;
use crate::map::interior_point;
use crate::map_builder::BuiltMap;
use crate::map_builder::MapBuilder;
use crate::map_builder::finalize_connected;
use crate::map_builder::lemma_carve_keeps_interior;
use crate::point::Point;
use crate::random::rng_range;
use crate::rect::IRect;

verus! {

/// 1 when the cell at (x, y) is Wall, else 0.
pub open spec fn wall_ind(tiles: Seq<TileType>, rect: IRect, x: int, y: int) -> int {
    if tiles[rect.spec_point_to_index(Point { x: x as i32, y: y as i32 })] is Wall {
        1
    } else {
        0
    }
}

/// How many of the 8 neighbors of interior cell (x, y) are Wall.
pub open spec fn spec_neighbor_walls(tiles: Seq<TileType>, rect: IRect, x: int, y: int) -> int {
    wall_ind(tiles, rect, x - 1, y - 1) + wall_ind(tiles, rect, x, y - 1) + wall_ind(
        tiles,
        rect,
        x + 1,
        y - 1,
    ) + wall_ind(tiles, rect, x - 1, y) + wall_ind(tiles, rect, x + 1, y) + wall_ind(
        tiles,
        rect,
        x - 1,
        y + 1,
    ) + wall_ind(tiles, rect, x, y + 1) + wall_ind(tiles, rect, x + 1, y + 1)
}

/// The smoothing rule: an interior cell becomes Wall when it has no Wall
/// neighbors or more than four, else Floor.
pub open spec fn spec_smoothed(tiles: Seq<TileType>, rect: IRect, x: int, y: int) -> TileType {
    if spec_neighbor_walls(tiles, rect, x, y) > 4 || spec_neighbor_walls(tiles, rect, x, y) == 0 {
        TileType::Wall
    } else {
        TileType::Floor
    }
}

pub struct CellularAutomataMapBuilder {
    pub num_iterations: i32,
}

impl MapBuilder for CellularAutomataMapBuilder {
    open spec fn spec_valid(&self, width: int, height: int) -> bool {
        true
    }

    fn build(
        &self,
        rng: &mut rand::rngs::ThreadRng,
        width: i32,
        height: i32,
        num_monsters: usize,
    ) -> (r: BuiltMap)
        ensures
            enterable_cells_interior(r.map.tiles@, r.map.world_rect),
            // the player start is the Floor cell nearest the center of the
            // generated (pre-repair) tiles, from which the level differs
            // only by Floor carved into the interior
            exists|pre: Seq<TileType>|
                {
                    &&& pre.len() == r.map.tiles@.len()
                    &&& #[trigger] crate::map_builder::player_placed(
                        pre,
                        r.map.world_rect,
                        r.player_start,
                    )
                    &&& forall|i: int|
                        0 <= i < pre.len() ==> r.map.tiles@[i] == pre[i] || (r.map.tiles@[i]
                            is Floor && crate::map::interior_point(
                            r.map.world_rect,
                            r.map.world_rect.spec_index_to_point(i),
                        ))
                },
    {
        let mut map = Self::random_noise_map(width, height, rng);
        let mut k: i32 = 0;
        while k < self.num_iterations
            invariant
                map.wf(),
                map.world_rect == (IRect { x1: 0, x2: width, y1: 0, y2: height }),
                4 <= width <= MAX_DIM,
                4 <= height <= MAX_DIM,
                enterable_cells_interior(map.tiles@, map.world_rect),
            decreases self.num_iterations - k,
        {
            Self::iteration(&mut map);
            k += 1;
        }
        let ghost pre_tiles = map.tiles@;
        let ghost pre_rect = map.world_rect;
        let r = finalize_connected(map, rng, num_monsters);
        proof {
            assert(crate::map_builder::player_placed(pre_tiles, r.map.world_rect, r.player_start));
        }
        r
    }
}

impl CellularAutomataMapBuilder {
    /// A walled border around interior cells that are Floor with roughly
    /// 55% probability.
    fn random_noise_map(width: i32, height: i32, rng: &mut rand::rngs::ThreadRng) -> (r: GridMap)
        requires
            4 <= width <= MAX_DIM,
            4 <= height <= MAX_DIM,
        ensures
            r.wf(),
            r.world_rect == (IRect { x1: 0, x2: width, y1: 0, y2: height }),
            enterable_cells_interior(r.tiles@, r.world_rect),
    {
        let mut map = GridMap::new(width, height, TileType::Wall);
        let ghost rect = map.world_rect;
        let mut y: i32 = 1;
        while y < height - 1
            invariant
                map.wf(),
                rect == map.world_rect,
                rect == (IRect { x1: 0, x2: width, y1: 0, y2: height }),
                4 <= width <= MAX_DIM,
                4 <= height <= MAX_DIM,
                1 <= y <= height - 1,
                enterable_cells_interior(map.tiles@, rect),
            decreases height - 1 - y,
        {
            let mut x: i32 = 1;
            while x < width - 1
                invariant
                    map.wf(),
                    rect == map.world_rect,
                    rect == (IRect { x1: 0, x2: width, y1: 0, y2: height }),
                    4 <= width <= MAX_DIM,
                    4 <= height <= MAX_DIM,
                    1 <= y <= height - 2,
                    1 <= x <= width - 1,
                    enterable_cells_interior(map.tiles@, rect),
                decreases width - 1 - x,
            {
                let roll = rng_range(rng, 0, 100);
                if roll > 45 {
                    let p = Point { x, y };
                    let ghost before = map.tiles@;
                    map.set_tile(p, TileType::Floor);
                    proof {
                        lemma_carve_keeps_interior(before, map.tiles@, rect, p);
                    }
                }
                x += 1;
            }
            y += 1;
        }
        map
    }

    /// How many of the 8 neighbors of an interior cell are Wall.
    fn count_neighbor_walls(x: i32, y: i32, map: &GridMap) -> (r: usize)
        requires
            map.wf(),
            1 <= x <= map.world_rect.spec_width() - 2,
            1 <= y <= map.world_rect.spec_height() - 2,
        ensures
            r == spec_neighbor_walls(map.tiles@, map.world_rect, x as int, y as int),
            r <= 8,
    {
        let mut neighbors: usize = 0;
        if map.tile_at(Point { x: x - 1, y: y - 1 }) == TileType::Wall {
            neighbors += 1;
        }
        if map.tile_at(Point { x, y: y - 1 }) == TileType::Wall {
            neighbors += 1;
        }
        if map.tile_at(Point { x: x + 1, y: y - 1 }) == TileType::Wall {
            neighbors += 1;
        }
        if map.tile_at(Point { x: x - 1, y }) == TileType::Wall {
            neighbors += 1;
        }
        if map.tile_at(Point { x: x + 1, y }) == TileType::Wall {
            neighbors += 1;
        }
        if map.tile_at(Point { x: x - 1, y: y + 1 }) == TileType::Wall {
            neighbors += 1;
        }
        if map.tile_at(Point { x, y: y + 1 }) == TileType::Wall {
            neighbors += 1;
        }
        if map.tile_at(Point { x: x + 1, y: y + 1 }) == TileType::Wall {
            neighbors += 1;
        }
        neighbors
    }

    /// One smoothing pass: every interior cell is rewritten by the
    /// neighbor-count rule evaluated on the previous tiles; the border is
    /// untouched.
    fn iteration(map: &mut GridMap)
        requires
            old(map).wf(),
            4 <= old(map).world_rect.x2,
            4 <= old(map).world_rect.y2,
            enterable_cells_interior(old(map).tiles@, old(map).world_rect),
        ensures
            final(map).wf(),
            final(map).world_rect == old(map).world_rect,
            final(map).revealed@ == old(map).revealed@,
            enterable_cells_interior(final(map).tiles@, final(map).world_rect),
            forall|i: int|
                0 <= i < old(map).tiles@.len() ==> (#[trigger] final(map).tiles@[i]) == ({
                    let p = old(map).world_rect.spec_index_to_point(i);
                    if interior_point(old(map).world_rect, p) {
                        spec_smoothed(old(map).tiles@, old(map).world_rect, p.x as int, p.y as int)
                    } else {
                        old(map).tiles@[i]
                    }
                }),
    {
        let ghost rect = map.world_rect;
        let ghost orig_tiles = map.tiles@;
        let w = map.width();
        let h = map.height();
        let mut new_tiles = copy_tiles(&map.tiles);
        let mut y: i32 = 1;
        while y < h - 1
            invariant
                map.wf(),
                rect == map.world_rect,
                orig_tiles == map.tiles@,
                w == rect.spec_width(),
                h == rect.spec_height(),
                4 <= w,
                4 <= h,
                1 <= y <= h - 1,
                new_tiles@.len() == rect.spec_count(),
                enterable_cells_interior(map.tiles@, rect),
                enterable_cells_interior(new_tiles@, rect),
                forall|i: int|
                    0 <= i < rect.spec_count() ==> (#[trigger] new_tiles@[i]) == ({
                        let p = rect.spec_index_to_point(i);
                        if interior_point(rect, p) && p.y < y {
                            spec_smoothed(orig_tiles, rect, p.x as int, p.y as int)
                        } else {
                            orig_tiles[i]
                        }
                    }),
            decreases h - 1 - y,
        {
            let mut x: i32 = 1;
            while x < w - 1
                invariant
                    map.wf(),
                    rect == map.world_rect,
                    orig_tiles == map.tiles@,
                    w == rect.spec_width(),
                    h == rect.spec_height(),
                    4 <= w,
                    4 <= h,
                    1 <= y <= h - 2,
                    1 <= x <= w - 1,
                    new_tiles@.len() == rect.spec_count(),
                    enterable_cells_interior(map.tiles@, rect),
                    enterable_cells_interior(new_tiles@, rect),
                    forall|i: int|
                        0 <= i < rect.spec_count() ==> (#[trigger] new_tiles@[i]) == ({
                            let p = rect.spec_index_to_point(i);
                            if interior_point(rect, p) && (p.y < y || (p.y == y && p.x < x)) {
                                spec_smoothed(orig_tiles, rect, p.x as int, p.y as int)
                            } else {
                                orig_tiles[i]
                            }
                        }),
                decreases w - 1 - x,
            {
                let neighbor_walls = Self::count_neighbor_walls(x, y, map);
                let p = Point { x, y };
                let idx = map.point_to_index(p);
                let t = if neighbor_walls > 4 || neighbor_walls == 0 {
                    TileType::Wall
                } else {
                    TileType::Floor
                };
                let ghost before = new_tiles@;
                new_tiles.set(idx, t);
                proof {
                    crate::rect::lemma_point_index_round_trip(rect, p);
                    assert(t == spec_smoothed(orig_tiles, rect, x as int, y as int));
                    assert forall|i: int|
                        0 <= i < rect.spec_count() && crate::dijkstra::enterable_idx(
                            new_tiles@,
                            i,
                        ) implies interior_point(rect, #[trigger] rect.spec_index_to_point(i)) by {
                        if i == idx as int {
                            assert(rect.spec_index_to_point(i) == p);
                        } else {
                            assert(crate::dijkstra::enterable_idx(before, i));
                        }
                    }
                    assert forall|i: int| 0 <= i < rect.spec_count() implies (
                    #[trigger] new_tiles@[i]) == ({
                        let pi = rect.spec_index_to_point(i);
                        if interior_point(rect, pi) && (pi.y < y || (pi.y == y && pi.x < x + 1)) {
                            spec_smoothed(orig_tiles, rect, pi.x as int, pi.y as int)
                        } else {
                            orig_tiles[i]
                        }
                    }) by {
                        crate::rect::lemma_index_to_point_bounds(rect, i);
                        crate::rect::lemma_index_point_round_trip(rect, i);
                        if i == idx as int {
                            assert(rect.spec_index_to_point(i) == p);
                        } else {
                            assert(rect.spec_index_to_point(i) != p);
                        }
                    }
                }
                x += 1;
            }
            proof {
                assert forall|i: int| 0 <= i < rect.spec_count() implies (
                #[trigger] new_tiles@[i]) == ({
                    let pi = rect.spec_index_to_point(i);
                    if interior_point(rect, pi) && pi.y < y + 1 {
                        spec_smoothed(orig_tiles, rect, pi.x as int, pi.y as int)
                    } else {
                        orig_tiles[i]
                    }
                }) by {
                    crate::rect::lemma_index_to_point_bounds(rect, i);
                }
            }
            y += 1;
        }
        map.tiles = new_tiles;
        map.cached_dijkstra_map = None;
        proof {
            assert forall|i: int| 0 <= i < orig_tiles.len() implies (#[trigger] map.tiles@[i])
                == ({
                let p = rect.spec_index_to_point(i);
                if interior_point(rect, p) {
                    spec_smoothed(orig_tiles, rect, p.x as int, p.y as int)
                } else {
                    orig_tiles[i]
                }
            }) by {
                crate::rect::lemma_index_to_point_bounds(rect, i);
            }
        }
    }
}

/// An element-for-element copy of a tile array.
fn copy_tiles(v: &Vec<TileType>) -> (r: Vec<TileType>)
    ensures
        r@ == v@,
{
    let mut r: Vec<TileType> = Vec::new();
    let mut i: usize = 0;
    while i < v.len()
        invariant
            i <= v@.len(),
            r@ =~= v@.take(i as int),
        decreases v@.len() - i,
    {
        r.push(v[i]);
        i += 1;
    }
    proof {
        assert(v@.take(v@.len() as int) =~= v@);
    }
    r
}

} // verus!
