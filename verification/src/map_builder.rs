//! Level builders: each produces a complete candidate level — tiles, a
//! player start, a goal start and monster spawn candidates — from a grid
//! size and a source of randomness.

pub mod automata;
pub mod drunkard;
pub mod empty;
pub mod prefab;
pub mod square;

use vstd::prelude::*;

use crate::dijkstra;
use crate::map::GridMap;
use crate::map::MAX_DIM;
use crate::map::Revealed;
use crate::map::TileType;
use crate::map::enterable_cells_interior;
use crate::point::Point;
use crate::point::spec_squared_distance;
use crate::random::RngExtension;
use crate::rect::IRect;
use crate::rect::lemma_index_point_round_trip;
use crate::rect::lemma_index_to_point_bounds;
use crate::rect::lemma_point_index_round_trip;
use crate::rect::lemma_point_to_index_bounds;

verus! {

/// Spawn candidates keep at least this Euclidean distance (squared: 100)
/// from the player start.
pub const MIN_SPAWN_DISTANCE_SQUARED: i32 = 100;

/// A builder's output: the level's tiles, where entities may spawn, where
/// the player starts, and where the goal amulet starts.
pub struct BuiltMap {
    pub map: GridMap,
    pub entity_spawns: Vec<Point>,
    pub player_start: Point,
    pub amulet_start: Point,
}

impl BuiltMap {
    /// What every builder guarantees: a well-formed map of the requested
    /// size, enterable player and amulet starts, a goal distinct from the
    /// start whenever the map holds more than one enterable (Floor or
    /// Exit) cell, at most the requested number of spawn candidates, and
    /// every candidate on a distinct Floor cell far enough from the player.
    pub open spec fn wf(self, width: int, height: int, num_monsters: int) -> bool {
        &&& self.map.wf()
        &&& self.map.world_rect == (IRect { x1: 0, x2: width as i32, y1: 0, y2: height as i32 })
        &&& self.map.spec_can_enter(self.player_start)
        &&& self.map.spec_can_enter(self.amulet_start)
        &&& (exists|i: int, j: int|
            0 <= i < j < self.map.tiles@.len() && dijkstra::tile_walkable(
                #[trigger] self.map.tiles@[i],
            ) && dijkstra::tile_walkable(#[trigger] self.map.tiles@[j]))
            ==> self.amulet_start != self.player_start
        &&& self.entity_spawns@.len() <= num_monsters
        &&& forall|k: int|
            0 <= k < self.entity_spawns@.len() ==> {
                let p = #[trigger] self.entity_spawns@[k];
                &&& self.map.spec_in_bounds(p)
                &&& self.map.tiles@[self.map.world_rect.spec_point_to_index(p)] is Floor
                &&& spec_squared_distance(p, self.player_start) > MIN_SPAWN_DISTANCE_SQUARED
            }
        &&& forall|k1: int, k2: int|
            0 <= k1 < k2 < self.entity_spawns@.len() ==> self.entity_spawns@[k1]
                != self.entity_spawns@[k2]
    }
}

/// A level builder: produces a complete candidate level from a grid size
/// and a source of randomness.
pub trait MapBuilder {
    /// The builder's own constraints on its parameters and the grid size.
    spec fn spec_valid(&self, width: int, height: int) -> bool;

    fn build(
        &self,
        rng: &mut rand::rngs::ThreadRng,
        width: i32,
        height: i32,
        num_monsters: usize,
    ) -> (r: BuiltMap)
        requires
            self.spec_valid(width as int, height as int),
            4 <= width <= MAX_DIM,
            4 <= height <= MAX_DIM,
        ensures
            r.wf(width as int, height as int, num_monsters as int),
    ;
}

/// Per-cell display characters for each (tile type, revealed state) pair.
#[derive(Copy, Clone, Debug)]
pub struct MapTheme {
    pub seen_wall: char,
    pub seen_floor: char,
    pub seen_exit: char,
    pub mapped_wall: char,
    pub mapped_floor: char,
    pub mapped_exit: char,
    pub not_seen: char,
}

impl MapTheme {
    pub fn tile_to_render(&self, tile_type: TileType, revealed: Revealed) -> (r: char)
        ensures
            r == match revealed {
                Revealed::Seen => match tile_type {
                    TileType::Wall => self.seen_wall,
                    TileType::Floor => self.seen_floor,
                    TileType::Exit => self.seen_exit,
                },
                Revealed::Mapped => match tile_type {
                    TileType::Wall => self.mapped_wall,
                    TileType::Floor => self.mapped_floor,
                    TileType::Exit => self.mapped_exit,
                },
                Revealed::NotSeen => self.not_seen,
            },
    {
        match (tile_type, revealed) {
            (TileType::Wall, Revealed::Seen) => self.seen_wall,
            (TileType::Floor, Revealed::Seen) => self.seen_floor,
            (TileType::Exit, Revealed::Seen) => self.seen_exit,
            (TileType::Wall, Revealed::Mapped) => self.mapped_wall,
            (TileType::Floor, Revealed::Mapped) => self.mapped_floor,
            (TileType::Exit, Revealed::Mapped) => self.mapped_exit,
            (_, Revealed::NotSeen) => self.not_seen,
        }
    }
}

/// Whether the cell may host a spawn: a Floor cell farther than the
/// minimum spawn distance from the player.
pub open spec fn spec_spawnable(tiles: Seq<TileType>, rect: IRect, player: Point, j: int) -> bool {
    tiles[j] is Floor && spec_squared_distance(rect.spec_index_to_point(j), player)
        > MIN_SPAWN_DISTANCE_SQUARED
}

/// How many of the first `i` cells may host a spawn.
pub open spec fn spec_spawnable_count(
    tiles: Seq<TileType>,
    rect: IRect,
    player: Point,
    i: int,
) -> int
    decreases i,
{
    if i <= 0 {
        0
    } else {
        spec_spawnable_count(tiles, rect, player, i - 1) + (
        if spec_spawnable(tiles, rect, player, i - 1) {
            1int
        } else {
            0int
        })
    }
}

proof fn lemma_spawnable_count_le(tiles: Seq<TileType>, rect: IRect, player: Point, i: int)
    requires
        i >= 0,
    ensures
        0 <= spec_spawnable_count(tiles, rect, player, i) <= i,
    decreases i,
{
    if i > 0 {
        lemma_spawnable_count_le(tiles, rect, player, i - 1);
    }
}

/// Samples, without replacement, up to `num_monsters` spawn points from the
/// Floor cells farther than the minimum spawn distance from the player;
/// the sample is as large as the candidate pool allows.
pub fn determine_entity_spawn_points(
    map: &GridMap,
    player_pos: Point,
    rng: &mut rand::rngs::ThreadRng,
    num_monsters: usize,
) -> (r: Vec<Point>)
    requires
        map.wf(),
        map.spec_in_bounds(player_pos),
    ensures
        forall|k: int|
            0 <= k < r@.len() ==> {
                let p = #[trigger] r@[k];
                &&& map.spec_in_bounds(p)
                &&& map.tiles@[map.world_rect.spec_point_to_index(p)] is Floor
                &&& spec_squared_distance(p, player_pos) > MIN_SPAWN_DISTANCE_SQUARED
            },
        forall|k1: int, k2: int| 0 <= k1 < k2 < r@.len() ==> r@[k1] != r@[k2],
        r@.len() == if num_monsters <= spec_spawnable_count(
            map.tiles@,
            map.world_rect,
            player_pos,
            map.tiles@.len() as int,
        ) {
            num_monsters as int
        } else {
            spec_spawnable_count(map.tiles@, map.world_rect, player_pos, map.tiles@.len() as int)
        },
{
    let ghost rect = map.world_rect;
    let n = map.tiles.len();
    let mut candidates: Vec<Point> = Vec::new();
    let mut i: usize = 0;
    while i < n
        invariant
            map.wf(),
            map.spec_in_bounds(player_pos),
            rect == map.world_rect,
            n == map.tiles@.len(),
            i <= n,
            candidates@.len() == spec_spawnable_count(map.tiles@, rect, player_pos, i as int),
            forall|k: int|
                0 <= k < candidates@.len() ==> {
                    let p = #[trigger] candidates@[k];
                    &&& map.spec_in_bounds(p)
                    &&& rect.spec_point_to_index(p) < i
                    &&& map.tiles@[rect.spec_point_to_index(p)] is Floor
                    &&& spec_squared_distance(p, player_pos) > MIN_SPAWN_DISTANCE_SQUARED
                },
            forall|k1: int, k2: int|
                0 <= k1 < k2 < candidates@.len() ==> candidates@[k1] != candidates@[k2],
        decreases n - i,
    {
        let is_floor = map.tiles[i] == TileType::Floor;
        let ghost p_spec = rect.spec_index_to_point(i as int);
        proof {
            lemma_index_to_point_bounds(rect, i as int);
            crate::map::lemma_sqdist_in_bounds(rect, p_spec, player_pos);
        }
        if is_floor {
            let p = map.index_to_point(i);
            proof {
                lemma_index_point_round_trip(rect, i as int);
            }
            let d = p.pythagorean_squared_distance(player_pos);
            if d > MIN_SPAWN_DISTANCE_SQUARED {
                candidates.push(p);
            }
        }
        i += 1;
        proof {
            assert(spec_spawnable_count(map.tiles@, rect, player_pos, i as int)
                == spec_spawnable_count(map.tiles@, rect, player_pos, i - 1) + (
            if spec_spawnable(map.tiles@, rect, player_pos, i - 1) {
                1int
            } else {
                0int
            }));
        }
    }
    let ghost count0 = spec_spawnable_count(map.tiles@, rect, player_pos, n as int);
    proof {
        lemma_spawnable_count_le(map.tiles@, rect, player_pos, n as int);
    }
    let mut spawns: Vec<Point> = Vec::new();
    let mut m: usize = 0;
    while m < num_monsters
        invariant
            map.wf(),
            map.spec_in_bounds(player_pos),
            rect == map.world_rect,
            m <= num_monsters,
            count0 == spec_spawnable_count(map.tiles@, rect, player_pos, map.tiles@.len() as int),
            0 <= count0 <= map.tiles@.len(),
            map.tiles@.len() <= 0x7fff_ffff,
            candidates@.len() == count0 - spawns@.len(),
            spawns@.len() == if m <= count0 {
                m as int
            } else {
                count0
            },
            forall|k: int|
                0 <= k < candidates@.len() ==> {
                    let p = #[trigger] candidates@[k];
                    &&& map.spec_in_bounds(p)
                    &&& map.tiles@[rect.spec_point_to_index(p)] is Floor
                    &&& spec_squared_distance(p, player_pos) > MIN_SPAWN_DISTANCE_SQUARED
                },
            forall|k1: int, k2: int|
                0 <= k1 < k2 < candidates@.len() ==> candidates@[k1] != candidates@[k2],
            forall|k: int|
                0 <= k < spawns@.len() ==> {
                    let p = #[trigger] spawns@[k];
                    &&& map.spec_in_bounds(p)
                    &&& map.tiles@[rect.spec_point_to_index(p)] is Floor
                    &&& spec_squared_distance(p, player_pos) > MIN_SPAWN_DISTANCE_SQUARED
                },
            forall|k1: int, k2: int| 0 <= k1 < k2 < spawns@.len() ==> spawns@[k1] != spawns@[k2],
            forall|k1: int, k2: int|
                0 <= k1 < spawns@.len() && 0 <= k2 < candidates@.len() ==> spawns@[k1]
                    != candidates@[k2],
        decreases num_monsters - m,
    {
        match rng.random_slice_index(candidates.as_slice()) {
            Some(target_index) => {
                let chosen = candidates[target_index];
                spawns.push(chosen);
                candidates.remove(target_index);
                proof {
                    assert forall|k1: int, k2: int|
                        0 <= k1 < spawns@.len() && 0 <= k2
                            < candidates@.len() implies spawns@[k1] != candidates@[k2] by {
                        if k1 < spawns@.len() - 1 {
                        } else {
                            assert(spawns@[k1] == chosen);
                        }
                    }
                }
            },
            None => {},
        }
        m += 1;
    }
    spawns
}

/// The player start is the Floor cell of `tiles` nearest the map center
/// (first in array order on an exact tie), or the center itself when no
/// Floor cell exists.
pub open spec fn player_placed(tiles: Seq<TileType>, rect: IRect, start: Point) -> bool {
    let center = Point { x: (rect.x2 / 2) as i32, y: (rect.y2 / 2) as i32 };
    let ri = rect.spec_point_to_index(start);
    if exists|j: int| 0 <= j < tiles.len() && (#[trigger] tiles[j]) is Floor {
        &&& rect.spec_in_bounds(start)
        &&& tiles[ri] is Floor
        &&& forall|j: int|
            0 <= j < tiles.len() && (#[trigger] tiles[j]) is Floor ==> spec_squared_distance(
                center,
                rect.spec_index_to_point(ri),
            ) <= spec_squared_distance(center, rect.spec_index_to_point(j))
        &&& forall|j: int|
            0 <= j < ri && (#[trigger] tiles[j]) is Floor ==> spec_squared_distance(
                center,
                rect.spec_index_to_point(ri),
            ) < spec_squared_distance(center, rect.spec_index_to_point(j))
    } else {
        start == center
    }
}

/// Carving a Floor into the interior keeps every enterable cell interior.
pub proof fn lemma_carve_keeps_interior(
    old_tiles: Seq<TileType>,
    new_tiles: Seq<TileType>,
    rect: IRect,
    p: Point,
)
    requires
        rect.wf(),
        old_tiles.len() == rect.spec_count(),
        enterable_cells_interior(old_tiles, rect),
        rect.spec_in_bounds(p),
        crate::map::interior_point(rect, p),
        new_tiles == old_tiles.update(rect.spec_point_to_index(p), TileType::Floor),
    ensures
        enterable_cells_interior(new_tiles, rect),
{
    lemma_point_to_index_bounds(rect, p);
    lemma_point_index_round_trip(rect, p);
    assert forall|i: int|
        0 <= i < rect.spec_count() && dijkstra::enterable_idx(
            new_tiles,
            i,
        ) implies crate::map::interior_point(rect, #[trigger] rect.spec_index_to_point(i)) by {
        if i == rect.spec_point_to_index(p) {
            assert(rect.spec_index_to_point(i) == p);
        } else {
            assert(dijkstra::enterable_idx(old_tiles, i));
        }
    }
}

/// Shared tail of the cave-style builders: finds a player start near the
/// center (carving the center as a fallback when no Floor cell exists),
/// repairs connectivity, places the goal at the most distant reachable
/// cell, and samples spawn points.
#[verifier::rlimit(60)]
pub fn finalize_connected(
    map: GridMap,
    rng: &mut rand::rngs::ThreadRng,
    num_monsters: usize,
) -> (r: BuiltMap)
    requires
        map.wf(),
        4 <= map.world_rect.x2,
        4 <= map.world_rect.y2,
        enterable_cells_interior(map.tiles@, map.world_rect),
    ensures
        r.wf(map.world_rect.x2 as int, map.world_rect.y2 as int, num_monsters as int),
        enterable_cells_interior(r.map.tiles@, r.map.world_rect),
        // repair and the fallback carve only ever turn interior cells to Floor
        forall|i: int|
            0 <= i < map.tiles@.len() ==> r.map.tiles@[i] == map.tiles@[i] || (r.map.tiles@[i]
                is Floor && crate::map::interior_point(
                map.world_rect,
                map.world_rect.spec_index_to_point(i),
            )),
        // where the player start came from: the Floor cell of the input
        // map nearest its center (first in array order on an exact tie),
        // or the carved center when the input held no Floor at all
        player_placed(map.tiles@, map.world_rect, r.player_start),
        exists|f: Seq<usize>|
            {
                let ri = r.map.world_rect.spec_point_to_index(r.amulet_start);
                &&& #[trigger] dijkstra::is_distance_field(
                    r.map.tiles@,
                    r.map.world_rect,
                    seq![r.map.world_rect.spec_point_to_index(r.player_start)],
                    r.map.world_rect.spec_count(),
                    f,
                )
                &&& dijkstra::finite_dist(f[ri])
                &&& forall|j: int|
                    0 <= j < f.len() && dijkstra::finite_dist(#[trigger] f[j]) ==> f[j] <= f[ri]
            },
{
    let mut map = map;
    let ghost rect = map.world_rect;
    let center = map.center();
    let mut player_start = map.closest_floor_point(center);
    if !map.can_enter_tile(player_start) {
        let ghost before = map.tiles@;
        proof {
            assert(0 < rect.x2 / 2 < rect.x2 - 1) by (nonlinear_arith)
                requires
                    4 <= rect.x2,
            ;
            assert(0 < rect.y2 / 2 < rect.y2 - 1) by (nonlinear_arith)
                requires
                    4 <= rect.y2,
            ;
            assert(crate::map::interior_point(rect, center));
        }
        map.set_tile(center, TileType::Floor);
        proof {
            lemma_carve_keeps_interior(before, map.tiles@, rect, center);
            lemma_point_to_index_bounds(rect, center);
            assert(map.spec_can_enter(center));
        }
        player_start = center;
    }
    let n = map.world_rect.max_index();
    let ghost pre_repair = map;
    map.connect_disconnected(player_start, rng);
    proof {
        // carving never breaks the player's own cell
        lemma_point_to_index_bounds(rect, player_start);
        assert(map.spec_can_enter(player_start)) by {
            let pi = rect.spec_point_to_index(player_start);
            assert(map.tiles@[pi] == pre_repair.tiles@[pi] || map.tiles@[pi] is Floor);
        }
    }
    let ghost repaired = map;
    let amulet_start = map.find_most_distant(player_start, n);
    proof {
        // more than one Floor cell forces a distinct goal: some Floor cell
        // other than the player's is reachable after repair
        let pi = rect.spec_point_to_index(player_start);
        if exists|i: int, j: int|
            0 <= i < j < repaired.tiles@.len() && dijkstra::tile_walkable(
                #[trigger] repaired.tiles@[i],
            ) && dijkstra::tile_walkable(#[trigger] repaired.tiles@[j]) {
            let (i, j) = choose|i: int, j: int|
                0 <= i < j < repaired.tiles@.len() && dijkstra::tile_walkable(
                    #[trigger] repaired.tiles@[i],
                ) && dijkstra::tile_walkable(#[trigger] repaired.tiles@[j]);
            let other = if i != pi {
                i
            } else {
                j
            };
            assert(dijkstra::enterable_idx(repaired.tiles@, other));
            assert(crate::reach::reachable(repaired.tiles@, rect, pi, other));
            crate::reach::lemma_reachable_within_count(repaired.tiles@, rect, pi, other);
            let p = choose|p: Seq<int>|
                crate::reach::connects(repaired.tiles@, rect, p, pi, other) && p.len() <= (
                rect.spec_count() - 1) + 1;
            assert(crate::reach::reachable_within(repaired.tiles@, rect, pi, other, n as int))
                by {
                assert(crate::reach::connects(repaired.tiles@, rect, p, pi, other) && p.len()
                    <= n + 1);
            }
            assert(amulet_start != player_start);
        }
    }
    let entity_spawns = determine_entity_spawn_points(&map, player_start, rng, num_monsters);
    let result = BuiltMap { map, entity_spawns, player_start, amulet_start };
    proof {
        let fwit = choose|f: Seq<usize>|
            {
                let ri = repaired.world_rect.spec_point_to_index(amulet_start);
                &&& #[trigger] dijkstra::is_distance_field(
                    repaired.tiles@,
                    repaired.world_rect,
                    seq![repaired.world_rect.spec_point_to_index(player_start)],
                    n as int,
                    f,
                )
                &&& dijkstra::finite_dist(f[ri])
                &&& forall|j: int|
                    0 <= j < f.len() && dijkstra::finite_dist(#[trigger] f[j]) ==> f[j] <= f[ri]
                &&& forall|j: int|
                    0 <= j < ri && dijkstra::finite_dist(#[trigger] f[j]) ==> f[j] < f[ri]
            };
        assert(dijkstra::is_distance_field(
            result.map.tiles@,
            result.map.world_rect,
            seq![result.map.world_rect.spec_point_to_index(result.player_start)],
            result.map.world_rect.spec_count(),
            fwit,
        ));
        assert(dijkstra::finite_dist(
            fwit[result.map.world_rect.spec_point_to_index(result.amulet_start)],
        ));
    }
    result
}

} // verus!
