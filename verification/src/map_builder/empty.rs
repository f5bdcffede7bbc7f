//! The baseline builder: an entirely open map of Floor.

use vstd::prelude::*;

use crate::dijkstra;
use crate::map::GridMap;
use crate::map::MAX_DIM;
use crate::map::TileType;
use crate::map_builder::BuiltMap;
use crate::map_builder::MapBuilder;
use crate::map_builder::determine_entity_spawn_points;
use crate::point::Point;
use crate::point::spec_squared_distance;
use crate::rect::lemma_index_point_round_trip;
use crate::rect::lemma_point_index_round_trip;
use crate::rect::lemma_point_to_index_bounds;

verus! {

pub struct EmptyMapBuilder {}

impl MapBuilder for EmptyMapBuilder {
    open spec fn spec_valid(&self, width: int, height: int) -> bool {
        true
    }

    fn build(
        &self,
        rng: &mut rand::rngs::ThreadRng,
        width: i32,
        height: i32,
        num_monsters: usize,
    ) -> (r: BuiltMap)
        ensures
            forall|i: int| 0 <= i < r.map.tiles@.len() ==> (#[trigger] r.map.tiles@[i]) is Floor,
            r.player_start.x == width as int / 2 && r.player_start.y == height as int / 2,
    {
        let mut map = GridMap::new(width, height, TileType::Floor);
        let ghost rect = map.world_rect;
        proof {
            assert(16 <= (width as int) * (height as int)) by (nonlinear_arith)
                requires
                    4 <= width,
                    4 <= height,
            ;
        }
        let center = map.center();
        let player_start = map.closest_floor_point(center);
        proof {
            // everything is Floor, so the nearest Floor cell to the center
            // is the center itself
            lemma_point_to_index_bounds(rect, center);
            lemma_point_index_round_trip(rect, center);
            let ci = rect.spec_point_to_index(center);
            assert(map.tiles@[ci] is Floor);
            assert(exists|j: int|
                0 <= j < map.tiles@.len() && (#[trigger] map.tiles@[j]) is Floor);
            assert(map.spec_in_bounds(player_start));
            lemma_point_to_index_bounds(rect, player_start);
            let ri = rect.spec_point_to_index(player_start);
            crate::rect::lemma_index_point_round_trip(rect, ri);
            assert(spec_squared_distance(center, rect.spec_index_to_point(ri))
                <= spec_squared_distance(center, rect.spec_index_to_point(ci)));
            assert(rect.spec_index_to_point(ci) == center);
            lemma_point_index_round_trip(rect, player_start);
            assert(rect.spec_index_to_point(ri) == player_start);
            assert((center.x - center.x) * (center.x - center.x) + (center.y - center.y) * (
            center.y - center.y) == 0) by (nonlinear_arith);
            assert(spec_squared_distance(center, center) == 0);
            crate::point::lemma_square_nonneg(center.x - player_start.x);
            crate::point::lemma_square_nonneg(center.y - player_start.y);
            assert(spec_squared_distance(center, player_start) == 0);
            assert(player_start == center) by (nonlinear_arith)
                requires
                    (center.x - player_start.x) * (center.x - player_start.x) + (center.y
                        - player_start.y) * (center.y - player_start.y) == 0,
            ;
            assert(map.spec_can_enter(player_start));
        }
        let n = map.world_rect.max_index();
        proof {
            // the cell east of the center is enterable and reachable, so
            // the most distant cell cannot be the start itself
            let pi = rect.spec_point_to_index(player_start);
            assert(0 < rect.x2 / 2 < rect.x2 - 1) by (nonlinear_arith)
                requires
                    4 <= rect.x2,
            ;
            let nbr = Point { x: (player_start.x + 1) as i32, y: player_start.y };
            assert(rect.spec_in_bounds(nbr));
            lemma_point_to_index_bounds(rect, nbr);
            lemma_point_index_round_trip(rect, nbr);
            let j = rect.spec_point_to_index(nbr);
            assert(j != pi) by {
                assert(rect.spec_index_to_point(j) == nbr);
                assert(rect.spec_index_to_point(pi) == player_start);
            }
            assert(dijkstra::enterable_idx(map.tiles@, j));
            assert(dijkstra::idx_adjacent(rect, pi, j)) by {
                assert(dijkstra::points_adjacent(player_start, nbr));
            }
            let path = seq![pi, j];
            assert(crate::reach::connects(map.tiles@, rect, path, pi, j)) by {
                assert(path[0] == pi && path[1] == j);
                assert(forall|k: int|
                    0 <= k < path.len() - 1 ==> dijkstra::idx_adjacent(
                        rect,
                        #[trigger] path[k],
                        path[k + 1],
                    ));
            }
            assert(crate::reach::reachable_within(map.tiles@, rect, pi, j, n as int)) by {
                assert(crate::reach::connects(map.tiles@, rect, path, pi, j) && path.len() <= n
                    + 1);
            }
        }
        let amulet_start = map.find_most_distant(player_start, n);
        proof {
            assert(amulet_start != player_start);
        }
        let entity_spawns = determine_entity_spawn_points(&map, player_start, rng, num_monsters);
        BuiltMap { map, entity_spawns, player_start, amulet_start }
    }
}

} // verus!
