//! Rectangular rooms joined by L-shaped corridors.

use vstd::prelude::*;

use crate::dijkstra;
use crate::map::GridMap;
use crate::map::MAX_DIM;
use crate::map::TileType;
use crate::map_builder::BuiltMap;
use crate::map_builder::MapBuilder;
use crate::map_builder::determine_entity_spawn_points;
use crate::point::Point;
use crate::random::rng_range;
use crate::rect::IRect;
use crate::rect::lemma_index_point_round_trip;
use crate::rect::lemma_point_index_round_trip;
use crate::rect::lemma_point_to_index_bounds;

verus! {

/// How many room placements a build may try before settling for the rooms
/// it has (at least one room is always placed).
pub const MAX_ROOM_ATTEMPTS: u64 = 4096;

pub struct SquareMapBuilder {
    pub num_rooms: usize,
}

/// A room proper: strictly inside the map border, at least 2 cells a side.
pub open spec fn room_ok(rect: IRect, room: IRect) -> bool {
    &&& 1 <= room.x1
    &&& room.x1 < room.x2
    &&& room.x2 <= rect.x2 - 1
    &&& 1 <= room.y1
    &&& room.y1 < room.y2
    &&& room.y2 <= rect.y2 - 1
    &&& 2 <= room.x2 - room.x1 <= 16
    &&& 2 <= room.y2 - room.y1 <= 16
}

/// The corridor ordering key: squared distance of the room's center from
/// the origin.
pub open spec fn spec_room_key(room: IRect) -> int {
    let cx = (room.x1 + room.x2) as int / 2;
    let cy = (room.y1 + room.y2) as int / 2;
    cx * cx + cy * cy
}

/// Every cell of the room is Floor.
pub open spec fn room_carved(tiles: Seq<TileType>, rect: IRect, room: IRect) -> bool {
    forall|p: Point|
        room.spec_in_bounds(p) ==> rect.spec_in_bounds(p) && tiles[#[trigger] rect.spec_point_to_index(
            p,
        )] is Floor
}

impl MapBuilder for SquareMapBuilder {
    open spec fn spec_valid(&self, width: int, height: int) -> bool {
        12 <= width && 12 <= height
    }

    fn build(
        &self,
        rng: &mut rand::rngs::ThreadRng,
        width: i32,
        height: i32,
        num_monsters: usize,
    ) -> (r: BuiltMap)
        ensures
            // the placed rooms, ordered by squared center distance from the
            // origin: all carved, and the player starts at the center of
            // the room nearest the origin
            exists|rs: Seq<IRect>|
                {
                    &&& rs.len() >= 1
                    &&& forall|k: int|
                        0 <= k < rs.len() ==> #[trigger] room_ok(r.map.world_rect, rs[k])
                            && room_carved(r.map.tiles@, r.map.world_rect, rs[k])
                    &&& forall|a: int, b: int|
                        0 <= a < b < rs.len() ==> spec_room_key(#[trigger] rs[a])
                            <= spec_room_key(#[trigger] rs[b])
                    &&& r.player_start.x == (rs[0].x1 + rs[0].x2) as int / 2
                    &&& r.player_start.y == (rs[0].y1 + rs[0].y2) as int / 2
                },
    {
        let mut map = GridMap::new(width, height, TileType::Wall);
        let ghost rect = map.world_rect;
        let rooms = self.build_random_rooms(&mut map, rng);
        let ghost pre = map;
        Self::build_corridors(&mut map, rng, &rooms);
        proof {
            assert forall|k: int| 0 <= k < rooms@.len() implies room_carved(
                map.tiles@,
                rect,
                #[trigger] rooms@[k],
            ) by {
                assert(room_carved(pre.tiles@, rect, rooms@[k]));
                assert forall|p: Point| rooms@[k].spec_in_bounds(p) implies rect.spec_in_bounds(p)
                    && map.tiles@[#[trigger] rect.spec_point_to_index(p)] is Floor by {
                    assert(pre.tiles@[rect.spec_point_to_index(p)] is Floor);
                    lemma_point_to_index_bounds(rect, p);
                }
            }
        }
        let room0 = rooms[0];
        let player_start = room0.center();
        let ghost cx = (room0.x1 + room0.x2) as int / 2;
        let ghost cy = (room0.y1 + room0.y2) as int / 2;
        proof {
            assert(room0.x1 <= cx < room0.x2 && room0.y1 <= cy < room0.y2) by (nonlinear_arith)
                requires
                    cx == (room0.x1 + room0.x2) as int / 2,
                    cy == (room0.y1 + room0.y2) as int / 2,
                    room0.x1 < room0.x2,
                    room0.y1 < room0.y2,
            ;
            assert(room0.spec_in_bounds(player_start));
            assert(map.spec_can_enter(player_start)) by {
                lemma_point_to_index_bounds(rect, player_start);
            }
        }
        let n = map.world_rect.max_index();
        proof {
            // a second cell of the first room keeps the goal distinct
            lemma_point_to_index_bounds(rect, player_start);
            lemma_point_index_round_trip(rect, player_start);
            let pi = rect.spec_point_to_index(player_start);
            let nbr = if cx + 1 < room0.x2 {
                Point { x: (cx + 1) as i32, y: cy as i32 }
            } else {
                Point { x: (cx - 1) as i32, y: cy as i32 }
            };
            assert(room0.spec_in_bounds(nbr));
            assert(rect.spec_in_bounds(nbr));
            lemma_point_to_index_bounds(rect, nbr);
            lemma_point_index_round_trip(rect, nbr);
            let j = rect.spec_point_to_index(nbr);
            assert(j != pi);
            assert(dijkstra::enterable_idx(map.tiles@, j));
            assert(dijkstra::idx_adjacent(rect, pi, j)) by {
                assert(dijkstra::points_adjacent(player_start, nbr));
            }
            let path = seq![pi, j];
            assert(crate::reach::connects(map.tiles@, rect, path, pi, j)) by {
                assert(path[0] == pi && path[1] == j);
                assert(forall|k: int|
                    0 <= k < path.len() - 1 ==> dijkstra::idx_adjacent(
                        rect,
                        #[trigger] path[k],
                        path[k + 1],
                    ));
            }
            assert(crate::reach::reachable_within(map.tiles@, rect, pi, j, n as int)) by {
                assert(crate::reach::connects(map.tiles@, rect, path, pi, j) && path.len() <= n
                    + 1);
            }
        }
        let amulet_start = map.find_most_distant(player_start, n);
        proof {
            assert(amulet_start != player_start);
        }
        let entity_spawns = determine_entity_spawn_points(&map, player_start, rng, num_monsters);
        let result = BuiltMap { map, entity_spawns, player_start, amulet_start };
        proof {
            assert(result.map.world_rect == rect);
            assert(forall|k: int|
                0 <= k < rooms@.len() ==> #[trigger] room_ok(result.map.world_rect, rooms@[k])
                    && room_carved(result.map.tiles@, result.map.world_rect, rooms@[k]));
        }
        result
    }
}

impl SquareMapBuilder {
    /// Places up to `num_rooms` non-overlapping rooms (with a one-cell
    /// margin), carving each; a fixed fallback room guarantees at least one.
    /// Rooms are then ordered by squared distance of their center from the
    /// origin, so corridors connect neighboring rooms.
    fn build_random_rooms(
        &self,
        map: &mut GridMap,
        rng: &mut rand::rngs::ThreadRng,
    ) -> (rooms: Vec<IRect>)
        requires
            old(map).wf(),
            12 <= old(map).world_rect.x2 <= MAX_DIM,
            12 <= old(map).world_rect.y2 <= MAX_DIM,
        ensures
            final(map).wf(),
            final(map).world_rect == old(map).world_rect,
            final(map).revealed@ == old(map).revealed@,
            rooms@.len() >= 1,
            forall|k: int|
                0 <= k < rooms@.len() ==> room_ok(final(map).world_rect, #[trigger] rooms@[k])
                    && room_carved(final(map).tiles@, final(map).world_rect, rooms@[k]),
            forall|a: int, b: int|
                0 <= a < b < rooms@.len() ==> spec_room_key(#[trigger] rooms@[a])
                    <= spec_room_key(#[trigger] rooms@[b]),
    {
        let ghost rect = map.world_rect;
        let width = map.width();
        let height = map.height();
        let mut rooms: Vec<IRect> = Vec::new();
        let mut attempts: u64 = 0;
        while rooms.len() < self.num_rooms && attempts < MAX_ROOM_ATTEMPTS
            invariant
                map.wf(),
                rect == map.world_rect,
                map.revealed@ == old(map).revealed@,
                width == rect.spec_width(),
                height == rect.spec_height(),
                12 <= width <= MAX_DIM,
                12 <= height <= MAX_DIM,
                forall|k: int|
                    0 <= k < rooms@.len() ==> room_ok(rect, #[trigger] rooms@[k]) && room_carved(
                        map.tiles@,
                        rect,
                        rooms@[k],
                    ),
            decreases MAX_ROOM_ATTEMPTS - attempts,
        {
            attempts += 1;
            let room = IRect::with_size(
                rng_range(rng, 1, width - 10),
                rng_range(rng, 1, height - 10),
                rng_range(rng, 2, 10),
                rng_range(rng, 2, 10),
            );
            let overlap_room = IRect::new(room.x1 - 1, room.x2 + 1, room.y1 - 1, room.y2 + 1);
            let mut overlap = false;
            let mut k: usize = 0;
            while k < rooms.len()
                invariant
                    k <= rooms@.len(),
                decreases rooms@.len() - k,
            {
                if rooms[k].intersect(&overlap_room) {
                    overlap = true;
                }
                k += 1;
            }
            if !overlap {
                Self::carve_room(map, room);
                rooms.push(room);
            }
        }
        if rooms.len() == 0 {
            let room = IRect::with_size(1, 1, 3, 3);
            Self::carve_room(map, room);
            rooms.push(room);
        }
        // order rooms by squared distance of their center from the origin
        let ghost total = rooms@.len();
        let mut i: usize = 1;
        while i < rooms.len()
            invariant
                map.wf(),
                rect == map.world_rect,
                map.revealed@ == old(map).revealed@,
                rooms@.len() == total,
                total >= 1,
                1 <= i,
                forall|k: int|
                    0 <= k < rooms@.len() ==> room_ok(rect, #[trigger] rooms@[k]) && room_carved(
                        map.tiles@,
                        rect,
                        rooms@[k],
                    ),
                forall|a: int, b: int|
                    0 <= a < b < i && b < rooms@.len() ==> spec_room_key(#[trigger] rooms@[a])
                        <= spec_room_key(#[trigger] rooms@[b]),
            decreases total - i,
        {
            let mut j: usize = i;
            while j > 0 && Self::euclid(&rooms[j - 1]) > Self::euclid(&rooms[j])
                invariant
                    map.wf(),
                    rect == map.world_rect,
                    map.revealed@ == old(map).revealed@,
                    rooms@.len() == total,
                    j <= i < rooms@.len(),
                    forall|k: int|
                        0 <= k < rooms@.len() ==> room_ok(rect, #[trigger] rooms@[k])
                            && room_carved(map.tiles@, rect, rooms@[k]),
                    forall|a: int, b: int|
                        0 <= a < b <= i && b != j ==> spec_room_key(#[trigger] rooms@[a])
                            <= spec_room_key(#[trigger] rooms@[b]),
                    forall|a: int, b: int|
                        0 <= a < j && j < b <= i ==> spec_room_key(#[trigger] rooms@[a])
                            <= spec_room_key(#[trigger] rooms@[b]),
                decreases j,
            {
                let a = rooms[j - 1];
                let b = rooms[j];
                rooms.set(j - 1, b);
                rooms.set(j, a);
                j -= 1;
            }
            i += 1;
        }
        rooms
    }

    /// Carves one room and shows all its cells became Floor.
    fn carve_room(map: &mut GridMap, room: IRect)
        requires
            old(map).wf(),
            room_ok(old(map).world_rect, room),
        ensures
            final(map).wf(),
            final(map).world_rect == old(map).world_rect,
            final(map).revealed@ == old(map).revealed@,
            room_carved(final(map).tiles@, final(map).world_rect, room),
            forall|k: int|
                0 <= k < old(map).tiles@.len() ==> final(map).tiles@[k] == old(map).tiles@[k] || (
                final(map).tiles@[k] is Floor),
            // previously carved rooms stay carved
            forall|other: IRect|
                room_carved(old(map).tiles@, old(map).world_rect, other) ==> room_carved(
                    final(map).tiles@,
                    final(map).world_rect,
                    other,
                ),
    {
        let ghost rect = map.world_rect;
        proof {
            assert((room.x2 - room.x1) * (room.y2 - room.y1) <= 256) by (nonlinear_arith)
                requires
                    0 <= room.x2 - room.x1 <= 16,
                    0 <= room.y2 - room.y1 <= 16,
            ;
            assert(room.wf());
        }
        map.clear_rect(room);
        proof {
            assert forall|p: Point| room.spec_in_bounds(p) implies rect.spec_in_bounds(p)
                && map.tiles@[#[trigger] rect.spec_point_to_index(p)] is Floor by {
                assert(crate::map::interior_point(rect, p));
                assert(rect.spec_in_bounds(p));
                lemma_point_to_index_bounds(rect, p);
                lemma_point_index_round_trip(rect, p);
            }
            assert forall|other: IRect|
                room_carved(old(map).tiles@, rect, other) implies room_carved(
                map.tiles@,
                rect,
                other,
            ) by {
                assert forall|p: Point| other.spec_in_bounds(p) implies rect.spec_in_bounds(p)
                    && map.tiles@[#[trigger] rect.spec_point_to_index(p)] is Floor by {
                    assert(rect.spec_in_bounds(p));
                    lemma_point_to_index_bounds(rect, p);
                    assert(old(map).tiles@[rect.spec_point_to_index(p)] is Floor);
                }
            }
        }
    }

    /// The sort key: squared distance of the room's center from the origin.
    fn euclid(a: &IRect) -> (r: i64)
        requires
            0 <= a.x1 <= a.x2 <= MAX_DIM,
            0 <= a.y1 <= a.y2 <= MAX_DIM,
        ensures
            r == spec_room_key(*a),
    {
        let c = a.center();
        proof {
            assert(0 <= (c.x as int) * (c.x as int) <= 0x4000_0000 && 0 <= (c.y as int) * (
            c.y as int) <= 0x4000_0000) by (nonlinear_arith)
                requires
                    0 <= c.x <= MAX_DIM,
                    0 <= c.y <= MAX_DIM,
            ;
        }
        (c.x as i64) * (c.x as i64) + (c.y as i64) * (c.y as i64)
    }

    fn apply_vertical_tunnel(map: &mut GridMap, y1: i32, y2: i32, x: i32)
        requires
            old(map).wf(),
            0 <= x <= MAX_DIM,
            0 <= y1 <= MAX_DIM,
            0 <= y2 <= MAX_DIM,
        ensures
            final(map).wf(),
            final(map).world_rect == old(map).world_rect,
            final(map).revealed@ == old(map).revealed@,
            forall|k: int|
                0 <= k < old(map).tiles@.len() ==> final(map).tiles@[k] == old(map).tiles@[k] || (
                final(map).tiles@[k] is Floor),
    {
        let lo = if y1 <= y2 {
            y1
        } else {
            y2
        };
        let span = if y2 >= y1 {
            y2 - y1
        } else {
            y1 - y2
        };
        let tunnel = IRect::with_size(x, lo, 1, span + 1);
        proof {
            assert((tunnel.x2 - tunnel.x1) * (tunnel.y2 - tunnel.y1) <= i32::MAX)
                by (nonlinear_arith)
                requires
                    tunnel.x2 - tunnel.x1 == 1,
                    0 < tunnel.y2 - tunnel.y1 <= i32::MAX,
            ;
            assert(tunnel.wf());
        }
        map.clear_rect(tunnel);
    }

    fn apply_horizontal_tunnel(map: &mut GridMap, x1: i32, x2: i32, y: i32)
        requires
            old(map).wf(),
            0 <= y <= MAX_DIM,
            0 <= x1 <= MAX_DIM,
            0 <= x2 <= MAX_DIM,
        ensures
            final(map).wf(),
            final(map).world_rect == old(map).world_rect,
            final(map).revealed@ == old(map).revealed@,
            forall|k: int|
                0 <= k < old(map).tiles@.len() ==> final(map).tiles@[k] == old(map).tiles@[k] || (
                final(map).tiles@[k] is Floor),
    {
        let lo = if x1 <= x2 {
            x1
        } else {
            x2
        };
        let span = if x2 >= x1 {
            x2 - x1
        } else {
            x1 - x2
        };
        let tunnel = IRect::with_size(lo, y, span + 1, 1);
        proof {
            assert((tunnel.x2 - tunnel.x1) * (tunnel.y2 - tunnel.y1) <= i32::MAX)
                by (nonlinear_arith)
                requires
                    tunnel.y2 - tunnel.y1 == 1,
                    0 < tunnel.x2 - tunnel.x1 <= i32::MAX,
            ;
            assert(tunnel.wf());
        }
        map.clear_rect(tunnel);
    }

    /// Connects each consecutive pair of rooms with an L-shaped corridor,
    /// horizontal-then-vertical or the other way, chosen at random.
    fn build_corridors(map: &mut GridMap, rng: &mut rand::rngs::ThreadRng, rooms: &Vec<IRect>)
        requires
            old(map).wf(),
            forall|k: int|
                0 <= k < rooms@.len() ==> room_ok(old(map).world_rect, #[trigger] rooms@[k]),
            old(map).world_rect.x2 <= MAX_DIM,
            old(map).world_rect.y2 <= MAX_DIM,
        ensures
            final(map).wf(),
            final(map).world_rect == old(map).world_rect,
            final(map).revealed@ == old(map).revealed@,
            forall|k: int|
                0 <= k < old(map).tiles@.len() ==> final(map).tiles@[k] == old(map).tiles@[k] || (
                final(map).tiles@[k] is Floor),
    {
        let ghost orig = *map;
        let ghost rect = map.world_rect;
        if rooms.len() == 0 {
            return ;
        }
        let mut idx: usize = 0;
        while idx < rooms.len() - 1
            invariant
                map.wf(),
                orig.wf(),
                rect == map.world_rect,
                rect == orig.world_rect,
                rect.x2 <= MAX_DIM,
                rect.y2 <= MAX_DIM,
                rooms@.len() >= 1,
                idx <= rooms@.len(),
                map.revealed@ == orig.revealed@,
                forall|k: int| 0 <= k < rooms@.len() ==> room_ok(rect, #[trigger] rooms@[k]),
                forall|k: int|
                    0 <= k < orig.tiles@.len() ==> map.tiles@[k] == orig.tiles@[k] || (
                    map.tiles@[k] is Floor),
            decreases rooms@.len() - idx,
        {
            let ghost ra = rooms@[idx as int];
            let ghost rb = rooms@[idx as int + 1];
            proof {
                assert(room_ok(rect, ra));
                assert(room_ok(rect, rb));
                assert(ra.x1 <= (ra.x1 + ra.x2) as int / 2 < ra.x2 && ra.y1 <= (ra.y1
                    + ra.y2) as int / 2 < ra.y2) by (nonlinear_arith)
                    requires
                        ra.x1 < ra.x2,
                        ra.y1 < ra.y2,
                ;
                assert(rb.x1 <= (rb.x1 + rb.x2) as int / 2 < rb.x2 && rb.y1 <= (rb.y1
                    + rb.y2) as int / 2 < rb.y2) by (nonlinear_arith)
                    requires
                        rb.x1 < rb.x2,
                        rb.y1 < rb.y2,
                ;
            }
            let center1 = rooms[idx].center();
            let center2 = rooms[idx + 1].center();
            let roll = rng_range(rng, 0, 2);
            if roll == 1 {
                Self::apply_horizontal_tunnel(map, center1.x, center2.x, center1.y);
                Self::apply_vertical_tunnel(map, center1.y, center2.y, center2.x);
            } else {
                Self::apply_vertical_tunnel(map, center1.y, center2.y, center1.x);
                Self::apply_horizontal_tunnel(map, center1.x, center2.x, center2.y);
            }
            idx += 1;
        }
    }
}

} // verus!
