use dungeon_core::dijkstra::{DijkstraMap, UNREACHABLE};
use dungeon_core::fov::field_of_view_set;
use dungeon_core::map::{GridMap, Revealed, TileType};
use dungeon_core::map_builder::automata::CellularAutomataMapBuilder;
use dungeon_core::map_builder::drunkard::DrunkardWalkMapBuilder;
use dungeon_core::map_builder::empty::EmptyMapBuilder;
use dungeon_core::map_builder::prefab::Prefab;
use dungeon_core::map_builder::square::SquareMapBuilder;
use dungeon_core::map_builder::{
    determine_entity_spawn_points, BuiltMap, MapBuilder, MapTheme,
};
use dungeon_core::point::Point;
use dungeon_core::random::RngExtension;

fn manhattan(a: Point, b: Point) -> usize {
    ((a.x - b.x).abs() + (a.y - b.y).abs()) as usize
}

fn squared_distance(a: Point, b: Point) -> i32 {
    (a.x - b.x) * (a.x - b.x) + (a.y - b.y) * (a.y - b.y)
}

fn contains(points: &[Point], p: Point) -> bool {
    points.iter().any(|q| *q == p)
}

/// On an open floor the distance field from a single source equals the
/// Manhattan distance everywhere, with zero at the source.
#[test]
fn distance_field_open_floor_is_manhattan() {
    let map = GridMap::new(9, 7, TileType::Floor);
    let source = Point::new(4, 3);
    let field = map.uncached_dijkstra_map(source, 1000);
    let src_idx = map.point_to_index(source);
    assert_eq!(field.values[src_idx], 0);
    for y in 0..7 {
        for x in 0..9 {
            let p = Point::new(x, y);
            let idx = map.point_to_index(p);
            assert_eq!(field.values[idx], manhattan(source, p));
        }
    }
}

/// A wall splits the map: cells on the far side stay unreachable, and the
/// depth cutoff caps recorded distances.
#[test]
fn distance_field_respects_walls_and_depth() {
    let mut map = GridMap::new(7, 5, TileType::Floor);
    for y in 0..5 {
        map.set_tile(Point::new(3, y), TileType::Wall);
    }
    let field = map.uncached_dijkstra_map(Point::new(1, 2), 1000);
    for y in 0..5 {
        for x in 4..7 {
            let idx = map.point_to_index(Point::new(x, y));
            assert_eq!(field.values[idx], UNREACHABLE);
        }
        let wall_idx = map.point_to_index(Point::new(3, y));
        assert_eq!(field.values[wall_idx], UNREACHABLE);
    }
    let shallow = map.uncached_dijkstra_map(Point::new(1, 2), 2);
    for y in 0..5 {
        for x in 0..3 {
            let p = Point::new(x, y);
            let idx = map.point_to_index(p);
            if manhattan(Point::new(1, 2), p) <= 2 {
                assert_eq!(shallow.values[idx], manhattan(Point::new(1, 2), p));
            } else {
                assert_eq!(shallow.values[idx], UNREACHABLE);
            }
        }
    }
}

/// An Exit tile is traversable like Floor; only Wall blocks movement.
#[test]
fn exit_tiles_are_enterable() {
    let mut map = GridMap::new(5, 5, TileType::Floor);
    map.set_tile(Point::new(2, 2), TileType::Exit);
    map.set_tile(Point::new(3, 2), TileType::Wall);
    assert!(map.can_enter_tile(Point::new(2, 2)));
    assert!(!map.can_enter_tile(Point::new(3, 2)));
    assert!(!map.can_enter_tile(Point::new(-1, 2)));
    let field = map.uncached_dijkstra_map(Point::new(0, 2), 1000);
    let exit_idx = map.point_to_index(Point::new(2, 2));
    assert_eq!(field.values[exit_idx], 2);
}

/// The lowest exit steps downhill in the field toward the source, with
/// west-east-north-south tie order; an isolated cell has no exit.
#[test]
fn find_lowest_exit_steps_downhill() {
    let map = GridMap::new(7, 7, TileType::Floor);
    let source = Point::new(1, 3);
    let field = map.uncached_dijkstra_map(source, 1000);
    let monster_idx = map.point_to_index(Point::new(4, 3));
    let step = field.find_lowest_exit(monster_idx, &map);
    assert_eq!(step, Some(map.point_to_index(Point::new(3, 3))));

    let mut walled = GridMap::new(5, 5, TileType::Wall);
    walled.set_tile(Point::new(2, 2), TileType::Floor);
    let lonely_field = walled.uncached_dijkstra_map(Point::new(2, 2), 1000);
    let lonely = lonely_field.find_lowest_exit(map.point_to_index(Point::new(2, 2)), &walled);
    assert_eq!(lonely, None);
}

/// Visibility: the origin is always in its own visible set, and on an open
/// floor the set is exactly the Euclidean disc — origin (5,5), radius 3 on
/// a 20x20 floor yields the 29 cells with squared distance at most 9.
#[test]
fn fov_open_floor_is_a_disc() {
    let map = GridMap::new(20, 20, TileType::Floor);
    let origin = Point::new(5, 5);
    let fov = field_of_view_set(origin, 3, &map);
    assert!(contains(&fov, origin));
    assert_eq!(fov.len(), 29);
    for p in &fov {
        assert!(squared_distance(origin, *p) <= 9);
    }
    for y in 0..20 {
        for x in 0..20 {
            let p = Point::new(x, y);
            if squared_distance(origin, p) <= 9 {
                assert!(contains(&fov, p));
            }
        }
    }
}

/// Visibility never reveals a cell strictly behind an intervening wall,
/// in any of the four cardinal directions.
#[test]
fn fov_walls_occlude() {
    let mut map = GridMap::new(21, 21, TileType::Floor);
    let origin = Point::new(10, 10);
    map.set_tile(Point::new(10, 8), TileType::Wall);
    map.set_tile(Point::new(10, 12), TileType::Wall);
    map.set_tile(Point::new(8, 10), TileType::Wall);
    map.set_tile(Point::new(12, 10), TileType::Wall);
    let fov = field_of_view_set(origin, 6, &map);
    assert!(contains(&fov, origin));
    assert!(contains(&fov, Point::new(10, 8)));
    assert!(!contains(&fov, Point::new(10, 7)));
    assert!(!contains(&fov, Point::new(10, 6)));
    assert!(!contains(&fov, Point::new(10, 13)));
    assert!(!contains(&fov, Point::new(6, 10)));
    assert!(!contains(&fov, Point::new(14, 10)));
}

/// Revealing marks a cell Seen and never regresses it; the map-reveal
/// effect raises NotSeen to Mapped and leaves Seen cells alone.
#[test]
fn revealed_state_is_monotonic() {
    let mut map = GridMap::new(8, 8, TileType::Floor);
    let p = Point::new(3, 3);
    let idx = map.point_to_index(p);
    assert_eq!(map.revealed[idx], Revealed::NotSeen);
    map.reveal_point(p);
    assert_eq!(map.revealed[idx], Revealed::Seen);
    map.reveal_all_mapped();
    assert_eq!(map.revealed[idx], Revealed::Seen);
    let other = map.point_to_index(Point::new(5, 5));
    assert_eq!(map.revealed[other], Revealed::Mapped);
    map.reveal_point(p);
    assert_eq!(map.revealed[idx], Revealed::Seen);
    assert_eq!(map.revealed[other], Revealed::Mapped);
}

/// A pocket of never-seen wall that is fully outlined by Seen walls gets
/// promoted to Seen when the outline closes.
#[test]
fn enclosed_walls_are_promoted() {
    // an all-wall map: seeing the ring of walls around a hidden center
    // wall encloses it, which promotes it to Seen
    let mut map = GridMap::new(7, 7, TileType::Wall);
    let center = map.point_to_index(Point::new(3, 3));
    for (x, y) in [(2, 2), (3, 2), (4, 2), (2, 3), (4, 3), (2, 4), (3, 4), (4, 4)] {
        map.reveal_point(Point::new(x, y));
    }
    assert_eq!(map.revealed[center], Revealed::Seen);
}

/// After connectivity repair, a distance field from the player start shows
/// no enterable cell with the unreachable sentinel.
#[test]
fn connectivity_repair_connects_everything() {
    let mut rng = rand::thread_rng();
    let mut map = GridMap::new(11, 9, TileType::Wall);
    // two pockets that do not touch
    for x in 1..4 {
        for y in 1..4 {
            map.set_tile(Point::new(x, y), TileType::Floor);
        }
    }
    for x in 7..10 {
        for y in 5..8 {
            map.set_tile(Point::new(x, y), TileType::Floor);
        }
    }
    let player = Point::new(2, 2);
    map.connect_disconnected(player, &mut rng);
    let n = map.world_rect.max_index();
    let field = map.uncached_dijkstra_map(player, n);
    for idx in 0..n {
        let p = map.index_to_point(idx);
        if map.can_enter_tile(p) {
            assert_ne!(field.values[idx], UNREACHABLE);
        }
    }
}

/// Carving Floor then the original tile back at one cell restores the
/// distance-field values everywhere, through the cache as well.
#[test]
fn carve_round_trip_restores_distance_field() {
    let mut map = GridMap::new(10, 10, TileType::Floor);
    for y in 1..9 {
        map.set_tile(Point::new(5, y), TileType::Wall);
    }
    let player = Point::new(2, 2);
    let before = map.dijkstra_map(player, 500);
    let c = Point::new(5, 4);
    map.set_tile(c, TileType::Floor);
    map.set_tile(c, TileType::Wall);
    let after = map.dijkstra_map(player, 500);
    assert_eq!(before.values, after.values);
}

fn check_built(built: &BuiltMap, width: i32, height: i32) {
    let map = &built.map;
    assert_eq!(map.width(), width);
    assert_eq!(map.height(), height);
    assert!(map.can_enter_tile(built.player_start));
    assert!(map.can_enter_tile(built.amulet_start));
    let floors = map
        .tiles
        .iter()
        .filter(|t| **t == TileType::Floor)
        .count();
    if floors > 1 {
        assert_ne!(built.player_start, built.amulet_start);
    }
    for (i, p) in built.entity_spawns.iter().enumerate() {
        let idx = map.point_to_index(*p);
        assert_eq!(map.tiles[idx], TileType::Floor);
        assert!(squared_distance(*p, built.player_start) > 100);
        for q in &built.entity_spawns[..i] {
            assert_ne!(*q, *p);
        }
    }
}

/// Every builder yields an enterable player start and goal, a goal distinct
/// from the start on any map with more than one floor cell, and valid
/// spawn candidates.
#[test]
fn builders_produce_valid_levels() {
    let mut rng = rand::thread_rng();
    let built = EmptyMapBuilder {}.build(&mut rng, 20, 16, 4);
    check_built(&built, 20, 16);

    let built = CellularAutomataMapBuilder { num_iterations: 4 }.build(&mut rng, 40, 30, 6);
    check_built(&built, 40, 30);

    let built = DrunkardWalkMapBuilder {
        cleared_ratio_percent: 35,
        stagger_distance: 300,
    }
    .build(&mut rng, 40, 30, 6);
    check_built(&built, 40, 30);

    let built = SquareMapBuilder { num_rooms: 8 }.build(&mut rng, 50, 40, 6);
    check_built(&built, 50, 40);
}

/// The repaired cave builders leave every enterable cell reachable from
/// the player start.
#[test]
fn cave_builders_are_fully_connected() {
    let mut rng = rand::thread_rng();
    for _ in 0..3 {
        let mut built = CellularAutomataMapBuilder { num_iterations: 3 }.build(&mut rng, 30, 24, 0);
        let n = built.map.world_rect.max_index();
        let field = built.map.dijkstra_map(built.player_start, n);
        for idx in 0..n {
            let p = built.map.index_to_point(idx);
            if built.map.can_enter_tile(p) {
                assert_ne!(field.values[idx], UNREACHABLE);
            }
        }
    }
}

/// Spawn candidates are floor cells farther than 10 units from the player,
/// sampled without replacement.
#[test]
fn spawn_points_avoid_the_player() {
    let mut rng = rand::thread_rng();
    let map = GridMap::new(30, 30, TileType::Floor);
    let player = Point::new(15, 15);
    let spawns = determine_entity_spawn_points(&map, player, &mut rng, 7);
    assert_eq!(spawns.len(), 7);
    for (i, p) in spawns.iter().enumerate() {
        assert!(squared_distance(*p, player) > 100);
        for q in &spawns[..i] {
            assert_ne!(*q, *p);
        }
    }
}

/// Applying a prefab stamps its characters onto the map and registers a
/// spawn for each `M` cell; `#` cells become walls.
#[test]
fn prefab_stamps_pattern() {
    let prefab = Prefab {
        text: vec!["###".to_string(), "#M#".to_string(), "###".to_string()],
    };
    assert_eq!(prefab.width(), 3);
    assert_eq!(prefab.height(), 3);
    let mut rng = rand::thread_rng();
    let mut placed = false;
    for _ in 0..50 {
        let mut map = GridMap::new(30, 30, TileType::Floor);
        let mut spawns: Vec<Point> = Vec::new();
        let player = Point::new(1, 1);
        let amulet = Point::new(28, 28);
        let before = map.tiles.clone();
        prefab.apply_prefab(&mut map, &mut rng, player, amulet, &mut spawns);
        if map.tiles != before {
            placed = true;
            assert_eq!(spawns.len(), 1);
            let m = spawns[0];
            let m_idx = map.point_to_index(m);
            assert_eq!(map.tiles[m_idx], TileType::Floor);
            for dy in -1..=1 {
                for dx in -1..=1 {
                    if dx != 0 || dy != 0 {
                        let q = Point::new(m.x + dx, m.y + dy);
                        let q_idx = map.point_to_index(q);
                        assert_eq!(map.tiles[q_idx], TileType::Wall);
                    }
                }
            }
            break;
        }
    }
    assert!(placed);
}

/// Theme lookup: each (tile, revealed) pair maps to its configured glyph.
#[test]
fn theme_renders_by_state() {
    let theme = MapTheme {
        seen_wall: '#',
        seen_floor: '.',
        seen_exit: '>',
        mapped_wall: 'x',
        mapped_floor: ',',
        mapped_exit: ')',
        not_seen: ' ',
    };
    assert_eq!(theme.tile_to_render(TileType::Wall, Revealed::Seen), '#');
    assert_eq!(theme.tile_to_render(TileType::Floor, Revealed::Seen), '.');
    assert_eq!(theme.tile_to_render(TileType::Exit, Revealed::Seen), '>');
    assert_eq!(theme.tile_to_render(TileType::Wall, Revealed::Mapped), 'x');
    assert_eq!(theme.tile_to_render(TileType::Floor, Revealed::Mapped), ',');
    assert_eq!(theme.tile_to_render(TileType::Exit, Revealed::Mapped), ')');
    assert_eq!(theme.tile_to_render(TileType::Wall, Revealed::NotSeen), ' ');
    assert_eq!(theme.tile_to_render(TileType::Floor, Revealed::NotSeen), ' ');
}

/// Random slice draws: empty slices yield nothing; otherwise the index is
/// always within the slice.
#[test]
fn random_slice_draws_stay_in_range() {
    let mut rng = rand::thread_rng();
    let empty: Vec<u32> = Vec::new();
    assert_eq!(rng.random_slice_index(&empty), None);
    let values = [10u32, 20, 30];
    for _ in 0..100 {
        let i = rng.random_slice_index(&values).unwrap();
        assert!(i < 3);
        let e = rng.random_slice_entry(&values).unwrap();
        assert!(values.contains(e));
    }
}

/// The closest floor point prefers the query point itself when it is
/// floor, and finds the nearest floor otherwise.
#[test]
fn closest_floor_point_finds_nearest() {
    let mut map = GridMap::new(9, 9, TileType::Wall);
    map.set_tile(Point::new(6, 4), TileType::Floor);
    map.set_tile(Point::new(2, 4), TileType::Floor);
    let near = map.closest_floor_point(Point::new(4, 4));
    assert_eq!(near, Point::new(2, 4));
    let all_wall = GridMap::new(5, 5, TileType::Wall);
    assert_eq!(all_wall.closest_floor_point(Point::new(2, 2)), Point::new(2, 2));
}

/// The most distant reachable cell from an open map's corner is the
/// opposite corner region.
#[test]
fn find_most_distant_reaches_far_corner() {
    let mut map = GridMap::new(10, 10, TileType::Floor);
    let far = map.find_most_distant(Point::new(0, 0), 1000);
    assert_eq!(far, Point::new(9, 9));
    let dm = DijkstraMap::new(10, 10, &vec![0usize], &map, 1000);
    let far_idx = map.point_to_index(far);
    assert_eq!(dm.values[far_idx], 18);
}

/// Rectangle fills only ever touch the map interior: the border stays as
/// it was, and the cache is invalidated so later queries see the change.
#[test]
fn set_rect_clips_to_interior() {
    let mut map = GridMap::new(8, 8, TileType::Wall);
    map.set_rect(
        dungeon_core::rect::IRect::new(0, 8, 0, 8),
        TileType::Floor,
    );
    for y in 0..8 {
        for x in 0..8 {
            let idx = map.point_to_index(Point::new(x, y));
            let interior = x > 0 && x < 7 && y > 0 && y < 7;
            if interior {
                assert_eq!(map.tiles[idx], TileType::Floor);
            } else {
                assert_eq!(map.tiles[idx], TileType::Wall);
            }
        }
    }
}

/// A multi-source field records the distance to the nearest source.
#[test]
fn distance_field_multi_source() {
    let map = GridMap::new(11, 3, TileType::Floor);
    let a = map.point_to_index(Point::new(0, 1));
    let b = map.point_to_index(Point::new(10, 1));
    let field = DijkstraMap::new(11, 3, &vec![a, b], &map, 1000);
    assert_eq!(field.values[a], 0);
    assert_eq!(field.values[b], 0);
    let mid = map.point_to_index(Point::new(5, 1));
    assert_eq!(field.values[mid], 5);
    let near_b = map.point_to_index(Point::new(8, 1));
    assert_eq!(field.values[near_b], 2);
}

/// The camera slides back flush with a world edge instead of showing
/// space outside the world.
#[test]
fn camera_clamps_to_world_edges() {
    let mut camera = dungeon_core::camera::Camera::new(20, 15, 100, 100);
    camera.center_on_point(Point::new(2, 3));
    assert_eq!(camera.view_rect, dungeon_core::rect::IRect::new(0, 20, 0, 15));
    camera.center_on_point(Point::new(99, 98));
    assert_eq!(
        camera.view_rect,
        dungeon_core::rect::IRect::new(80, 100, 85, 100)
    );
}

/// The sample is as large as the candidate pool allows: with fewer
/// qualifying Floor cells than requested monsters, every candidate is
/// used; with plenty, exactly the requested number is drawn.
#[test]
fn spawn_points_exhaust_candidates() {
    let mut rng = rand::thread_rng();
    let mut map = GridMap::new(30, 3, TileType::Wall);
    let player = Point::new(1, 1);
    // one floor cell too close to qualify, two far enough
    map.set_tile(Point::new(2, 1), TileType::Floor);
    map.set_tile(Point::new(15, 1), TileType::Floor);
    map.set_tile(Point::new(16, 1), TileType::Floor);
    let spawns = determine_entity_spawn_points(&map, player, &mut rng, 5);
    assert_eq!(spawns.len(), 2);
    for p in &spawns {
        assert!(squared_distance(*p, player) > 100);
    }
}
