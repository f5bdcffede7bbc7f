//! The grid map: tile classification, fog-of-war state, traversal queries,
//! and a single-entry cache of the last-computed distance field.

use vstd::prelude::*;

use crate::dijkstra;
use crate::dijkstra::DijkstraMap;
use crate::point::Point;
use crate::rect::IRect;
use crate::rect::lemma_index_point_round_trip;
use crate::rect::lemma_index_to_point_bounds;
use crate::rect::lemma_point_index_round_trip;
use crate::rect::lemma_point_to_index_bounds;

verus! {

#[derive(Copy, Clone, PartialEq, Eq, Structural, Debug)]
pub enum TileType {
    Wall,
    Floor,
    Exit,
}

/// Fog-of-war state of a cell. `Seen` is sticky: ordinary gameplay never
/// regresses it; the map-reveal effect only raises `NotSeen` to `Mapped`.
#[derive(Copy, Clone, PartialEq, Eq, Structural, Debug)]
pub enum Revealed {
    NotSeen,
    Mapped,
    Seen,
}

/// Largest accepted side length of a map; keeps every squared Euclidean
/// distance between in-bounds points within `i32`.
pub const MAX_DIM: i32 = 32767;

pub struct GridMap {
    pub tiles: Vec<TileType>,
    pub world_rect: IRect,
    pub revealed: Vec<Revealed>,
    pub cached_dijkstra_map: Option<(Point, usize, DijkstraMap)>,
}

impl GridMap {
    /// Well-formedness: the world rectangle is anchored at the origin with
    /// positive, bounded sides; both per-cell arrays cover it exactly; and
    /// the cached distance field, if any, matches the current tiles.
    pub open spec fn wf(self) -> bool {
        &&& self.world_rect.x1 == 0
        &&& self.world_rect.y1 == 0
        &&& 0 < self.world_rect.x2 <= MAX_DIM
        &&& 0 < self.world_rect.y2 <= MAX_DIM
        &&& self.world_rect.wf()
        &&& self.tiles@.len() == self.world_rect.spec_count()
        &&& self.revealed@.len() == self.world_rect.spec_count()
        &&& self.cache_ok()
    }

    /// The cached field, if present, is a distance field of the current
    /// tiles for its (source point, max depth) key.
    pub open spec fn cache_ok(self) -> bool {
        match self.cached_dijkstra_map {
            None => true,
            Some((p, depth, f)) => {
                &&& self.spec_in_bounds(p)
                &&& depth < dijkstra::UNREACHABLE
                &&& dijkstra::is_distance_field(
                    self.tiles@,
                    self.world_rect,
                    seq![self.world_rect.spec_point_to_index(p)],
                    depth as int,
                    f.values@,
                )
            },
        }
    }

    pub open spec fn spec_count(self) -> int {
        self.world_rect.spec_count()
    }

    pub open spec fn spec_in_bounds(self, point: Point) -> bool {
        self.world_rect.spec_in_bounds(point)
    }

    pub open spec fn spec_can_enter(self, point: Point) -> bool {
        self.spec_in_bounds(point) && dijkstra::tile_walkable(
            self.tiles@[self.world_rect.spec_point_to_index(point)],
        )
    }

    pub fn new(width: i32, height: i32, tile: TileType) -> (r: Self)
        requires
            0 < width <= MAX_DIM,
            0 < height <= MAX_DIM,
        ensures
            r.wf(),
            r.world_rect == (IRect { x1: 0, x2: width, y1: 0, y2: height }),
            r.tiles@ == Seq::new((width * height) as nat, |i: int| tile),
            r.revealed@ == Seq::new((width * height) as nat, |i: int| Revealed::NotSeen),
            r.cached_dijkstra_map is None,
    {
        proof {
            assert(width * height <= MAX_DIM * MAX_DIM) by (nonlinear_arith)
                requires
                    0 < width <= MAX_DIM,
                    0 < height <= MAX_DIM,
            ;
            assert(width * height >= 1) by (nonlinear_arith)
                requires
                    0 < width,
                    0 < height,
            ;
        }
        let rect = IRect::with_size(0, 0, width, height);
        let num_tiles = rect.max_index();
        let mut tiles: Vec<TileType> = Vec::new();
        let mut revealed: Vec<Revealed> = Vec::new();
        let mut i: usize = 0;
        while i < num_tiles
            invariant
                i <= num_tiles,
                tiles@ =~= Seq::new(i as nat, |k: int| tile),
                revealed@ =~= Seq::new(i as nat, |k: int| Revealed::NotSeen),
            decreases num_tiles - i,
        {
            tiles.push(tile);
            revealed.push(Revealed::NotSeen);
            i += 1;
        }
        assert(tiles@ =~= Seq::new((width * height) as nat, |i: int| tile));
        assert(revealed@ =~= Seq::new((width * height) as nat, |i: int| Revealed::NotSeen));
        Self { tiles, world_rect: rect, revealed, cached_dijkstra_map: None }
    }

    pub fn in_bounds(&self, point: Point) -> (r: bool)
        requires
            self.wf(),
        ensures
            r == self.spec_in_bounds(point),
    {
        self.world_rect.in_bounds(point)
    }

    pub fn width(&self) -> (r: i32)
        requires
            self.wf(),
        ensures
            r == self.world_rect.spec_width(),
    {
        self.world_rect.width()
    }

    pub fn height(&self) -> (r: i32)
        requires
            self.wf(),
        ensures
            r == self.world_rect.spec_height(),
    {
        self.world_rect.height()
    }

    /// A cell is enterable iff in-bounds and its tile is Floor or Exit.
    pub fn can_enter_tile(&self, point: Point) -> (r: bool)
        requires
            self.wf(),
        ensures
            r == self.spec_can_enter(point),
    {
        self.in_bounds(point) && {
            let t = self.tile_at(point);
            t == TileType::Floor || t == TileType::Exit
        }
    }

    pub fn tile_at(&self, point: Point) -> (r: TileType)
        requires
            self.wf(),
            self.spec_in_bounds(point),
        ensures
            r == self.tiles@[self.world_rect.spec_point_to_index(point)],
    {
        let idx = self.point_to_index(point);
        self.tiles[idx]
    }

    pub fn point_to_index(&self, point: Point) -> (r: usize)
        requires
            self.wf(),
            self.spec_in_bounds(point),
        ensures
            r == self.world_rect.spec_point_to_index(point),
            r < self.spec_count(),
    {
        self.world_rect.point_to_index(point)
    }

    pub fn index_to_point(&self, idx: usize) -> (r: Point)
        requires
            self.wf(),
            idx < self.spec_count(),
        ensures
            r == self.world_rect.spec_index_to_point(idx as int),
            self.spec_in_bounds(r),
    {
        self.world_rect.index_to_point(idx)
    }

    /// Sets one tile; any tile mutation invalidates the cached distance field.
    pub fn set_tile(&mut self, point: Point, tile: TileType)
        requires
            old(self).wf(),
            old(self).spec_in_bounds(point),
        ensures
            final(self).wf(),
            final(self).world_rect == old(self).world_rect,
            final(self).revealed == old(self).revealed,
            final(self).tiles@ == old(self).tiles@.update(
                old(self).world_rect.spec_point_to_index(point),
                tile,
            ),
            final(self).cached_dijkstra_map is None,
    {
        self.cached_dijkstra_map = None;
        let index = self.point_to_index(point);
        self.tiles.set(index, tile);
    }

    /// The interior band of the map: every coordinate strictly between the
    /// border cells. Rectangle fills only ever touch these cells.
    pub open spec fn spec_interior(self, p: Point) -> bool {
        interior_point(self.world_rect, p)
    }

    /// Fills every cell of `rect` that lies in the map interior.
    pub fn set_rect(&mut self, rect: IRect, tile: TileType)
        requires
            old(self).wf(),
            rect.wf(),
        ensures
            final(self).wf(),
            final(self).world_rect == old(self).world_rect,
            final(self).revealed == old(self).revealed,
            final(self).tiles@.len() == old(self).tiles@.len(),
            forall|i: int|
                0 <= i < old(self).tiles@.len() ==> final(self).tiles@[i] == (
                if rect.spec_in_bounds(old(self).world_rect.spec_index_to_point(i)) && old(self).spec_interior(old(self).world_rect.spec_index_to_point(i)) {
                    tile
                } else {
                    old(self).tiles@[i]
                }),
            final(self).cached_dijkstra_map is None,
    {
        self.cached_dijkstra_map = None;
        let ghost orig = *self;
        let mut iter = rect.points();
        while iter.current_index < iter.max_index
            invariant
                orig.wf(),
                rect.wf(),
                iter.wf(),
                iter.rect == rect,
                self.wf(),
                self.world_rect == orig.world_rect,
                self.revealed == orig.revealed,
                self.tiles@.len() == orig.tiles@.len(),
                forall|i: int|
                    0 <= i < orig.tiles@.len() ==> self.tiles@[i] == (
                    if rect.spec_in_bounds(orig.world_rect.spec_index_to_point(i))
                        && orig.spec_interior(orig.world_rect.spec_index_to_point(i))
                        && rect.spec_point_to_index(orig.world_rect.spec_index_to_point(i))
                        < iter.current_index {
                        tile
                    } else {
                        orig.tiles@[i]
                    }),
                self.cached_dijkstra_map is None || self.cached_dijkstra_map
                    == orig.cached_dijkstra_map,
            decreases iter.max_index - iter.current_index,
        {
            let ghost k = iter.current_index as int;
            match iter.next() {
                None => {},
                Some(point) => {
                    proof {
                        lemma_index_to_point_bounds(rect, k);
                        lemma_index_point_round_trip(rect, k);
                    }
                    if point.x > 0 && point.x < self.world_rect.x2 - 1 && point.y > 0 && point.y
                        < self.world_rect.y2 - 1 {
                        let ghost pre = *self;
                        self.set_tile(point, tile);
                        proof {
                            lemma_point_to_index_bounds(orig.world_rect, point);
                            lemma_point_index_round_trip(orig.world_rect, point);
                            assert forall|i: int| 0 <= i < orig.tiles@.len() implies self.tiles@[i]
                                == (if rect.spec_in_bounds(
                                orig.world_rect.spec_index_to_point(i),
                            ) && orig.spec_interior(orig.world_rect.spec_index_to_point(i))
                                && rect.spec_point_to_index(
                                orig.world_rect.spec_index_to_point(i),
                            ) < k + 1 {
                                tile
                            } else {
                                orig.tiles@[i]
                            }) by {
                                let pi = orig.world_rect.spec_index_to_point(i);
                                lemma_index_to_point_bounds(orig.world_rect, i);
                                lemma_index_point_round_trip(orig.world_rect, i);
                                if i != orig.world_rect.spec_point_to_index(point) {
                                    assert(pi != point);
                                    if rect.spec_in_bounds(pi) {
                                        lemma_point_index_round_trip(rect, pi);
                                    }
                                }
                            }
                        }
                    } else {
                        proof {
                            assert forall|i: int| 0 <= i < orig.tiles@.len() implies self.tiles@[i]
                                == (if rect.spec_in_bounds(
                                orig.world_rect.spec_index_to_point(i),
                            ) && orig.spec_interior(orig.world_rect.spec_index_to_point(i))
                                && rect.spec_point_to_index(
                                orig.world_rect.spec_index_to_point(i),
                            ) < k + 1 {
                                tile
                            } else {
                                orig.tiles@[i]
                            }) by {
                                let pi = orig.world_rect.spec_index_to_point(i);
                                lemma_index_to_point_bounds(orig.world_rect, i);
                                lemma_index_point_round_trip(orig.world_rect, i);
                                if rect.spec_in_bounds(pi) {
                                    lemma_point_index_round_trip(rect, pi);
                                }
                            }
                        }
                    }
                },
            }
        }
        proof {
            assert forall|i: int| 0 <= i < orig.tiles@.len() implies self.tiles@[i] == (
            if rect.spec_in_bounds(orig.world_rect.spec_index_to_point(i)) && orig.spec_interior(
                orig.world_rect.spec_index_to_point(i),
            ) {
                tile
            } else {
                orig.tiles@[i]
            }) by {
                let pi = orig.world_rect.spec_index_to_point(i);
                lemma_index_to_point_bounds(orig.world_rect, i);
                if rect.spec_in_bounds(pi) {
                    lemma_point_to_index_bounds(rect, pi);
                }
            }
        }
    }

    /// Carves a rectangle of Floor (clipped to the interior).
    pub fn clear_rect(&mut self, rect: IRect)
        requires
            old(self).wf(),
            rect.wf(),
        ensures
            final(self).wf(),
            final(self).world_rect == old(self).world_rect,
            final(self).revealed == old(self).revealed,
            final(self).tiles@.len() == old(self).tiles@.len(),
            forall|i: int|
                0 <= i < old(self).tiles@.len() ==> final(self).tiles@[i] == (
                if rect.spec_in_bounds(old(self).world_rect.spec_index_to_point(i)) && old(self).spec_interior(old(self).world_rect.spec_index_to_point(i)) {
                    TileType::Floor
                } else {
                    old(self).tiles@[i]
                }),
            final(self).cached_dijkstra_map is None,
    {
        self.set_rect(rect, TileType::Floor);
    }

    pub fn world_rect(&self) -> (r: IRect)
        ensures
            r == self.world_rect,
    {
        self.world_rect
    }

    fn valid_exit(&self, destination: Point) -> (r: Option<usize>)
        requires
            self.wf(),
        ensures
            match r {
                Some(idx) => self.spec_can_enter(destination) && idx
                    == self.world_rect.spec_point_to_index(destination) && idx < self.spec_count(),
                None => !self.spec_can_enter(destination),
            },
    {
        if self.can_enter_tile(destination) {
            Some(self.point_to_index(destination))
        } else {
            None
        }
    }

    pub fn center(&self) -> (r: Point)
        requires
            self.wf(),
        ensures
            r.x == self.world_rect.spec_width() / 2,
            r.y == self.world_rect.spec_height() / 2,
            self.spec_in_bounds(r),
    {
        Point::new(self.width() / 2, self.height() / 2)
    }

    /// The interior rectangle: everything except the one-cell border.
    pub fn walled_rect(&self) -> (r: IRect)
        requires
            self.wf(),
        ensures
            r == (IRect {
                x1: 1,
                x2: (self.world_rect.x2 - 1) as i32,
                y1: 1,
                y2: (self.world_rect.y2 - 1) as i32,
            }),
            forall|p: Point| r.spec_in_bounds(p) <==> self.spec_interior(p),
    {
        IRect::with_size(1, 1, self.width() - 2, self.height() - 2)
    }

    /// The in-bounds 4-connected neighbors of a cell, in west, east,
    /// north, south order.
    pub fn get_neighbors(&self, idx: usize) -> (r: Vec<Point>)
        requires
            self.wf(),
            idx < self.spec_count(),
        ensures
            r@ == spec_neighbors(self.world_rect, self.world_rect.spec_index_to_point(idx as int)),
    {
        let p = self.index_to_point(idx);
        let mut result: Vec<Point> = Vec::new();
        let west = Point { x: p.x - 1, y: p.y };
        let east = Point { x: p.x + 1, y: p.y };
        let north = Point { x: p.x, y: p.y - 1 };
        let south = Point { x: p.x, y: p.y + 1 };
        if self.in_bounds(west) {
            result.push(west);
        }
        if self.in_bounds(east) {
            result.push(east);
        }
        if self.in_bounds(north) {
            result.push(north);
        }
        if self.in_bounds(south) {
            result.push(south);
        }
        assert(result@ =~= spec_neighbors(self.world_rect, p));
        result
    }

    /// The enterable 4-connected neighbors of a cell, as cell indices, in
    /// west, east, north, south order. Entry cost is one step per cell.
    pub fn get_available_exits(&self, idx: usize) -> (r: Vec<usize>)
        requires
            self.wf(),
            idx < self.spec_count(),
        ensures
            r@.map_values(|e: usize| e as int) == spec_exits(
                self.tiles@,
                self.world_rect,
                idx as int,
            ),
            forall|k: int|
                0 <= k < r@.len() ==> dijkstra::enterable_idx(self.tiles@, #[trigger] r@[k] as int)
                    && dijkstra::idx_adjacent(self.world_rect, idx as int, r@[k] as int),
    {
        let neighbors = self.get_neighbors(idx);
        let ghost p = self.world_rect.spec_index_to_point(idx as int);
        let mut result: Vec<usize> = Vec::new();
        let mut k: usize = 0;
        proof {
            lemma_index_to_point_bounds(self.world_rect, idx as int);
        }
        while k < neighbors.len()
            invariant
                self.wf(),
                idx < self.spec_count(),
                k <= neighbors.len(),
                p == self.world_rect.spec_index_to_point(idx as int),
                self.spec_in_bounds(p),
                neighbors@ == spec_neighbors(self.world_rect, p),
                result@.map_values(|e: usize| e as int) =~= exits_of_points(
                    self.tiles@,
                    self.world_rect,
                    neighbors@.take(k as int),
                ),
                forall|t: int|
                    0 <= t < result@.len() ==> dijkstra::enterable_idx(
                        self.tiles@,
                        #[trigger] result@[t] as int,
                    ) && dijkstra::idx_adjacent(self.world_rect, idx as int, result@[t] as int),
            decreases neighbors.len() - k,
        {
            let pt = neighbors[k];
            proof {
                lemma_neighbors_are_adjacent(self.world_rect, p, k as int);
                assert(neighbors@.take(k + 1) =~= neighbors@.take(k as int).push(pt));
                lemma_exits_of_points_push(
                    self.tiles@,
                    self.world_rect,
                    neighbors@.take(k as int),
                    pt,
                );
                if self.spec_can_enter(pt) {
                    lemma_point_to_index_bounds(self.world_rect, pt);
                    lemma_point_index_round_trip(self.world_rect, pt);
                }
            }
            match self.valid_exit(pt) {
                Some(e) => {
                    result.push(e);
                },
                None => {},
            }
            k += 1;
        }
        proof {
            assert(neighbors@.take(neighbors@.len() as int) =~= neighbors@);
        }
        result
    }

    /// Marks a cell Seen; on the first time a cell becomes Seen, runs the
    /// enclosed-area promotion pass from each of its neighbors. Seen cells
    /// are never regressed, and promotion only raises Wall cells to Seen.
    #[verifier::loop_isolation(false)]
    pub fn reveal_point(&mut self, point: Point)
        requires
            old(self).wf(),
            old(self).spec_in_bounds(point),
        ensures
            final(self).wf(),
            final(self).world_rect == old(self).world_rect,
            final(self).tiles@ == old(self).tiles@,
            final(self).cached_dijkstra_map == old(self).cached_dijkstra_map,
            final(self).revealed@.len() == old(self).revealed@.len(),
            final(self).revealed@[old(self).world_rect.spec_point_to_index(point)] is Seen,
            forall|i: int|
                0 <= i < old(self).revealed@.len() ==> final(self).revealed@[i] == old(self).revealed@[i] || (final(self).revealed@[i] is Seen && (i == old(self).world_rect.spec_point_to_index(point) || old(self).tiles@[i] is Wall)),
            forall|i: int|
                0 <= i < old(self).revealed@.len() && old(self).revealed@[i] is Seen ==> final(self).revealed@[i] is Seen,
            old(self).revealed@[old(self).world_rect.spec_point_to_index(point)] is Seen
                ==> final(self).revealed@ == old(self).revealed@,
            !(old(self).revealed@[old(self).world_rect.spec_point_to_index(point)] is Seen)
                ==> exists|mids: Seq<Seq<Revealed>>|
                #[trigger] promote_chain(
                    old(self).tiles@,
                    old(self).world_rect,
                    point,
                    old(self).revealed@.update(
                        old(self).world_rect.spec_point_to_index(point),
                        Revealed::Seen,
                    ),
                    mids,
                    final(self).revealed@,
                ),
    {
        let ghost orig = *self;
        let index = self.point_to_index(point);
        if !(self.revealed[index] == Revealed::Seen) {
            self.revealed.set(index, Revealed::Seen);
            let neighbors = self.get_neighbors(index);
            proof {
                lemma_point_index_round_trip(orig.world_rect, point);
            }
            let ghost mid = *self;
            let ghost mut mids: Seq<Seq<Revealed>> = seq![mid.revealed@];
            let mut k: usize = 0;
            while k < neighbors.len()
                invariant
                    k <= neighbors@.len(),
                    mid.wf(),
                    self.wf(),
                    orig.wf(),
                    orig.spec_in_bounds(point),
                    index == orig.world_rect.spec_point_to_index(point),
                    index < orig.revealed@.len(),
                    self.revealed@[index as int] is Seen,
                    mid.world_rect == orig.world_rect,
                    mid.tiles@ == orig.tiles@,
                    mid.cached_dijkstra_map == orig.cached_dijkstra_map,
                    mid.revealed@ == orig.revealed@.update(index as int, Revealed::Seen),
                    self.world_rect == mid.world_rect,
                    self.tiles@ == mid.tiles@,
                    self.cached_dijkstra_map == mid.cached_dijkstra_map,
                    self.revealed@.len() == mid.revealed@.len(),
                    neighbors@ == spec_neighbors(orig.world_rect, point),
                    mids.len() == k + 1,
                    mids[0] == mid.revealed@,
                    mids[mids.len() - 1] == self.revealed@,
                    forall|t: int|
                        0 <= t < k ==> promote_step(
                            orig.tiles@,
                            orig.world_rect,
                            #[trigger] mids[t],
                            neighbors@[t],
                            mids[t + 1],
                        ),
                    forall|i: int|
                        0 <= i < mid.revealed@.len() ==> self.revealed@[i] == mid.revealed@[i] || (
                        self.revealed@[i] is Seen && mid.tiles@[i] is Wall),
                    forall|i: int|
                        0 <= i < mid.revealed@.len() && mid.revealed@[i] is Seen
                            ==> self.revealed@[i] is Seen,
                decreases neighbors@.len() - k,
            {
                let pt = neighbors[k];
                self.find_encompassed_tiles(pt);
                proof {
                    mids = mids.push(self.revealed@);
                }
                k += 1;
            }
            proof {
                assert(promote_chain(
                    orig.tiles@,
                    orig.world_rect,
                    point,
                    orig.revealed@.update(index as int, Revealed::Seen),
                    mids,
                    self.revealed@,
                ));
                assert forall|i: int| 0 <= i < orig.revealed@.len() implies self.revealed@[i]
                    == orig.revealed@[i] || (self.revealed@[i] is Seen && (i == index as int
                    || orig.tiles@[i] is Wall)) by {
                    assert(self.revealed@[i] == mid.revealed@[i] || (self.revealed@[i] is Seen
                        && mid.tiles@[i] is Wall));
                }
                assert forall|i: int|
                    0 <= i < orig.revealed@.len() && orig.revealed@[i] is Seen implies self.revealed@[i]
                    is Seen by {
                    assert(mid.revealed@[i] is Seen);
                }
            }
        }
    }

    /// Collects the Wall cells around `point` that are fully enclosed by
    /// Seen walls: a breadth-first exploration through not-yet-Seen Wall
    /// cells that aborts (yields nothing) when it escapes onto a Floor or
    /// Exit cell. When the region around `point` is fully enclosed, every
    /// cell of it is collected.
    #[verifier::rlimit(100)]
    fn collect_encompassed(&self, point: Point) -> (r: Vec<usize>)
        requires
            self.wf(),
        ensures
            forall|k: int|
                0 <= k < r@.len() ==> (#[trigger] r@[k]) < self.spec_count()
                    && self.tiles@[r@[k] as int] is Wall && !(self.revealed@[r@[k] as int]
                    is Seen),
            ({
                let pidx = self.world_rect.spec_point_to_index(point);
                (self.spec_in_bounds(point) && unseen_wall(self.tiles@, self.revealed@, pidx)
                    && region_enclosed(self.tiles@, self.revealed@, self.world_rect, pidx))
                    ==> forall|b: int|
                    wall_connected(self.tiles@, self.revealed@, self.world_rect, pidx, b)
                        ==> exists|t: int| 0 <= t < r@.len() && #[trigger] r@[t] == b
            }),
            ({
                let pidx = self.world_rect.spec_point_to_index(point);
                r@.len() > 0 ==> {
                    &&& self.spec_in_bounds(point)
                    &&& unseen_wall(self.tiles@, self.revealed@, pidx)
                    &&& region_enclosed(self.tiles@, self.revealed@, self.world_rect, pidx)
                    &&& forall|t: int|
                        0 <= t < r@.len() ==> wall_connected(
                            self.tiles@,
                            self.revealed@,
                            self.world_rect,
                            pidx,
                            (#[trigger] r@[t]) as int,
                        )
                }
            }),
    {
        let ghost rect = self.world_rect;
        let ghost pidx = rect.spec_point_to_index(point);
        let ghost enclosed = self.spec_in_bounds(point) && unseen_wall(
            self.tiles@,
            self.revealed@,
            pidx,
        ) && region_enclosed(self.tiles@, self.revealed@, rect, pidx);
        if !self.in_bounds(point) {
            let empty: Vec<usize> = Vec::new();
            return empty;
        }
        let start = self.point_to_index(point);
        let n = self.world_rect.max_index();
        let mut visited: Vec<bool> = Vec::new();
        let mut i: usize = 0;
        while i < n
            invariant
                i <= n,
                visited@ =~= Seq::new(i as nat, |k: int| false),
            decreases n - i,
        {
            visited.push(false);
            i += 1;
        }
        let mut visited_count: usize = 0;
        let ghost mut vset: Set<int> = Set::empty();
        let mut encompassed: Vec<usize> = Vec::new();
        let mut queue: Vec<usize> = Vec::new();
        let mut head: usize = 0;
        queue.push(start);
        while head < queue.len()
            invariant
                self.wf(),
                rect == self.world_rect,
                pidx == rect.spec_point_to_index(point),
                start as int == pidx,
                enclosed == (self.spec_in_bounds(point) && unseen_wall(
                    self.tiles@,
                    self.revealed@,
                    pidx,
                ) && region_enclosed(self.tiles@, self.revealed@, rect, pidx)),
                0 <= start < n,
                n == self.spec_count(),
                visited@.len() == n,
                head <= queue@.len(),
                vset.finite(),
                vset.len() == visited_count,
                forall|i2: int| vset.contains(i2) ==> 0 <= i2 < n,
                forall|i2: int|
                    0 <= i2 < n ==> ((#[trigger] visited@[i2]) <==> vset.contains(i2)),
                visited_count <= n,
                forall|k: int|
                    0 <= k < encompassed@.len() ==> (#[trigger] encompassed@[k])
                        < self.spec_count() && self.tiles@[encompassed@[k] as int] is Wall && !(
                    self.revealed@[encompassed@[k] as int] is Seen),
                queue@.len() >= 1,
                queue@[0] == start,
                forall|k: int| 0 <= k < queue@.len() ==> (#[trigger] queue@[k]) < n,
                forall|k: int| #![trigger queue@[k]]
                    1 <= k < queue@.len() ==> exists|t: int|
                        0 <= t < encompassed@.len() && dijkstra::idx_adjacent(
                            rect,
                            #[trigger] encompassed@[t] as int,
                            queue@[k] as int,
                        ),
                forall|t: int, j: int|
                    0 <= t < encompassed@.len() && #[trigger] dijkstra::idx_adjacent(
                        rect,
                        encompassed@[t] as int,
                        j,
                    ) ==> exists|k: int| 0 <= k < queue@.len() && (#[trigger] queue@[k]) == j,
                forall|k: int| 0 <= k < head ==> visited@[#[trigger] queue@[k] as int],
                forall|i2: int| 0 <= i2 < n && #[trigger] visited@[i2] ==> self.tiles@[i2] is Wall,
                forall|i2: int|
                    0 <= i2 < n && #[trigger] visited@[i2] && !(self.revealed@[i2] is Seen)
                        ==> exists|t: int|
                        0 <= t < encompassed@.len() && #[trigger] encompassed@[t] == i2,
                encompassed@.len() > 0 ==> encompassed@[0] == start && unseen_wall(
                    self.tiles@,
                    self.revealed@,
                    pidx,
                ),
                forall|t: int|
                    0 <= t < encompassed@.len() ==> wall_connected(
                        self.tiles@,
                        self.revealed@,
                        rect,
                        pidx,
                        #[trigger] encompassed@[t] as int,
                    ),
            decreases n - visited_count, queue@.len() - head,
        {
            let index = queue[head];
            let ghost kpos = head as int;
            head += 1;
            if !visited[index] {
                proof {
                    assert(!vset.contains(index as int));
                    vstd::set_lib::lemma_int_range(0, n as int);
                    vstd::set_lib::lemma_len_subset(
                        vset.insert(index as int),
                        vstd::set_lib::set_int_range(0, n as int),
                    );
                    vset = vset.insert(index as int);
                }
                visited.set(index, true);
                visited_count += 1;
                match self.tiles[index] {
                    TileType::Wall => {
                        if !(self.revealed[index] == Revealed::Seen) {
                            proof {
                                if kpos == 0 {
                                    assert(index as int == pidx);
                                    lemma_wall_self(self.tiles@, self.revealed@, rect, pidx);
                                } else {
                                    let t = choose|t: int|
                                        0 <= t < encompassed@.len() && dijkstra::idx_adjacent(
                                            rect,
                                            #[trigger] encompassed@[t] as int,
                                            queue@[kpos] as int,
                                        );
                                    lemma_wall_extend(
                                        self.tiles@,
                                        self.revealed@,
                                        rect,
                                        pidx,
                                        encompassed@[t] as int,
                                        index as int,
                                    );
                                }
                            }
                            let ghost enc_pre = encompassed@;
                            encompassed.push(index);
                            proof {
                                assert(encompassed@ == enc_pre.push(index));
                                assert(encompassed@[encompassed@.len() - 1] == index);
                                if enc_pre.len() == 0 {
                                    assert(kpos == 0);
                                    assert(encompassed@[0] == start);
                                } else {
                                    assert(encompassed@[0] == enc_pre[0]);
                                }
                            }
                            let neighbors = self.get_neighbors(index);
                            let ghost qpre = queue@;
                            let mut k: usize = 0;
                            while k < neighbors.len()
                                invariant
                                    self.wf(),
                                    rect == self.world_rect,
                                    index < self.spec_count(),
                                    n == self.spec_count(),
                                    k <= neighbors@.len(),
                                    head <= queue@.len(),
                                    neighbors@ == spec_neighbors(
                                        rect,
                                        rect.spec_index_to_point(index as int),
                                    ),
                                    qpre.len() <= queue@.len(),
                                    forall|k2: int|
                                        0 <= k2 < qpre.len() ==> queue@[k2] == qpre[k2],
                                    forall|k2: int|
                                        qpre.len() <= k2 < queue@.len() ==> (
                                        #[trigger] queue@[k2]) as int
                                            == rect.spec_point_to_index(
                                            neighbors@[k2 - qpre.len()],
                                        ) && queue@[k2] < n,
                                    queue@.len() == qpre.len() + k,
                                decreases neighbors@.len() - k,
                            {
                                proof {
                                    lemma_index_to_point_bounds(rect, index as int);
                                    lemma_neighbors_are_adjacent(
                                        rect,
                                        rect.spec_index_to_point(index as int),
                                        k as int,
                                    );
                                }
                                let nidx = self.point_to_index(neighbors[k]);
                                queue.push(nidx);
                                k += 1;
                            }
                            proof {
                                lemma_index_to_point_bounds(rect, index as int);
                                lemma_index_point_round_trip(rect, index as int);
                                let pi = rect.spec_index_to_point(index as int);
                                // every neighbor of the collected cells is queued
                                assert forall|t: int, j: int|
                                    0 <= t < encompassed@.len()
                                        && #[trigger] dijkstra::idx_adjacent(
                                        rect,
                                        encompassed@[t] as int,
                                        j,
                                    ) implies exists|k2: int|
                                    0 <= k2 < queue@.len() && (#[trigger] queue@[k2])
                                        == j by {
                                    if t == encompassed@.len() - 1 {
                                        let pj = rect.spec_index_to_point(j);
                                        lemma_index_to_point_bounds(rect, j);
                                        lemma_index_point_round_trip(rect, j);
                                        lemma_neighbors_complete(rect, pi, pj);
                                        let s = choose|s: int|
                                            0 <= s < neighbors@.len() && neighbors@[s] == pj;
                                        assert((queue@[qpre.len() + s]) as int
                                            == rect.spec_point_to_index(pj));
                                    } else {
                                        assert(enc_pre[t] == encompassed@[t]);
                                        assert(dijkstra::idx_adjacent(
                                            rect,
                                            enc_pre[t] as int,
                                            j,
                                        ));
                                        let k2 = choose|k2: int|
                                            0 <= k2 < qpre.len() && (#[trigger] qpre[k2]) == j;
                                        assert(queue@[k2] == j);
                                    }
                                }
                                // every queued cell touches a collected cell
                                assert forall|k2: int| #![trigger queue@[k2]]
                                    1 <= k2 < queue@.len() implies exists|t: int|
                                    0 <= t < encompassed@.len() && dijkstra::idx_adjacent(
                                        rect,
                                        #[trigger] encompassed@[t] as int,
                                        queue@[k2] as int,
                                    ) by {
                                    if k2 < qpre.len() {
                                        let t = choose|t: int|
                                            0 <= t < enc_pre.len() && dijkstra::idx_adjacent(
                                                rect,
                                                #[trigger] enc_pre[t] as int,
                                                qpre[k2] as int,
                                            );
                                        assert(encompassed@[t] == enc_pre[t]);
                                        assert(dijkstra::idx_adjacent(
                                            rect,
                                            encompassed@[t] as int,
                                            queue@[k2] as int,
                                        ));
                                    } else {
                                        let s = k2 - qpre.len();
                                        lemma_neighbors_are_adjacent(rect, pi, s);
                                        lemma_index_point_round_trip(rect, index as int);
                                        assert(dijkstra::idx_adjacent(
                                            rect,
                                            encompassed@[encompassed@.len() - 1] as int,
                                            queue@[k2] as int,
                                        ));
                                    }
                                }
                                // processed cells stay visited, and visited
                                // unseen walls stay collected
                                assert forall|k2: int| 0 <= k2 < head implies visited@[(
                                #[trigger] queue@[k2]) as int] by {
                                    assert(queue@[k2] == qpre[k2]);
                                }
                                assert forall|i2: int|
                                    0 <= i2 < n && #[trigger] visited@[i2] && !(
                                    self.revealed@[i2] is Seen) implies exists|t: int|
                                    0 <= t < encompassed@.len() && #[trigger] encompassed@[t]
                                        == i2 by {
                                    if i2 == index as int {
                                        assert(encompassed@[encompassed@.len() - 1] == index);
                                    } else {
                                        let t = choose|t: int|
                                            0 <= t < enc_pre.len() && (#[trigger] enc_pre[t])
                                                == i2;
                                        assert(encompassed@[t] == i2);
                                    }
                                }
                            }
                        }
                    },
                    TileType::Floor => {
                        proof {
                            if enclosed {
                                // escaping onto a walkable cell contradicts enclosure
                                if kpos == 0 {
                                    assert(unseen_wall(self.tiles@, self.revealed@, pidx));
                                } else {
                                    let t = choose|t: int|
                                        0 <= t < encompassed@.len() && dijkstra::idx_adjacent(
                                            rect,
                                            #[trigger] encompassed@[t] as int,
                                            queue@[kpos] as int,
                                        );
                                    assert(wall_connected(
                                        self.tiles@,
                                        self.revealed@,
                                        rect,
                                        pidx,
                                        encompassed@[t] as int,
                                    ));
                                    assert(self.tiles@[index as int] is Wall);
                                }
                            }
                        }
                        let empty: Vec<usize> = Vec::new();
                        return empty;
                    },
                    TileType::Exit => {
                        proof {
                            if enclosed {
                                if kpos == 0 {
                                    assert(unseen_wall(self.tiles@, self.revealed@, pidx));
                                } else {
                                    let t = choose|t: int|
                                        0 <= t < encompassed@.len() && dijkstra::idx_adjacent(
                                            rect,
                                            #[trigger] encompassed@[t] as int,
                                            queue@[kpos] as int,
                                        );
                                    assert(wall_connected(
                                        self.tiles@,
                                        self.revealed@,
                                        rect,
                                        pidx,
                                        encompassed@[t] as int,
                                    ));
                                    assert(self.tiles@[index as int] is Wall);
                                }
                            }
                        }
                        let empty: Vec<usize> = Vec::new();
                        return empty;
                    },
                }
            }
        }
        proof {
            // every neighbor of a collected cell was visited, hence a Wall
            assert forall|t: int, j: int|
                0 <= t < encompassed@.len() && #[trigger] dijkstra::idx_adjacent(
                    rect,
                    encompassed@[t] as int,
                    j,
                ) implies self.tiles@[j] is Wall by {
                let k = choose|k: int| 0 <= k < queue@.len() && (#[trigger] queue@[k]) == j;
                assert(visited@[j]);
            }
            if encompassed@.len() > 0 {
                assert(visited@[pidx]) by {
                    assert(queue@[0] == start);
                }
                // the collection is closed under unseen-wall adjacency and
                // holds the start, so it holds the whole region
                assert forall|b: int|
                    wall_connected(
                        self.tiles@,
                        self.revealed@,
                        rect,
                        pidx,
                        b,
                    ) implies exists|t: int|
                    0 <= t < encompassed@.len() && #[trigger] encompassed@[t] == b by {
                    let path = choose|path: Seq<int>|
                        wall_path(self.tiles@, self.revealed@, rect, path) && path.first() == pidx
                            && path.last() == b;
                    assert forall|t: int, j: int|
                        0 <= t < encompassed@.len() && #[trigger] dijkstra::idx_adjacent(
                            rect,
                            encompassed@[t] as int,
                            j,
                        ) && unseen_wall(self.tiles@, self.revealed@, j) implies exists|t2: int|
                        0 <= t2 < encompassed@.len() && #[trigger] encompassed@[t2] == j by {
                        let k = choose|k: int|
                            0 <= k < queue@.len() && (#[trigger] queue@[k]) == j;
                        assert(visited@[j]);
                    }
                    lemma_wall_region_collected(
                        self.tiles@,
                        self.revealed@,
                        rect,
                        encompassed@,
                        path,
                    );
                }
                // so the region around the start is fully enclosed
                assert(region_enclosed(self.tiles@, self.revealed@, rect, pidx)) by {
                    assert forall|b: int, j: int|
                        #[trigger] wall_connected(self.tiles@, self.revealed@, rect, pidx, b)
                            && #[trigger] dijkstra::idx_adjacent(rect, b, j) implies self.tiles@[j]
                        is Wall by {
                        let t = choose|t: int|
                            0 <= t < encompassed@.len() && #[trigger] encompassed@[t] == b;
                    }
                }
            }
            if enclosed {
                assert(visited@[pidx]) by {
                    assert(queue@[0] == start);
                }
                assert(exists|t: int|
                    0 <= t < encompassed@.len() && #[trigger] encompassed@[t] == pidx);
                assert(encompassed@.len() > 0);
            }
        }
        encompassed
    }

    /// Promotes the fully enclosed Wall cells around `point` to Seen.
    fn find_encompassed_tiles(&mut self, point: Point)
        requires
            old(self).wf(),
        ensures
            final(self).wf(),
            final(self).world_rect == old(self).world_rect,
            final(self).tiles@ == old(self).tiles@,
            final(self).cached_dijkstra_map == old(self).cached_dijkstra_map,
            final(self).revealed@.len() == old(self).revealed@.len(),
            promote_step(
                old(self).tiles@,
                old(self).world_rect,
                old(self).revealed@,
                point,
                final(self).revealed@,
            ),
    {
        let encompassed = self.collect_encompassed(point);
        let ghost orig = *self;
        let mut t: usize = 0;
        while t < encompassed.len()
            invariant
                orig.wf(),
                self.wf(),
                t <= encompassed@.len(),
                self.world_rect == orig.world_rect,
                self.tiles@ == orig.tiles@,
                self.cached_dijkstra_map == orig.cached_dijkstra_map,
                self.revealed@.len() == orig.revealed@.len(),
                forall|k: int|
                    0 <= k < encompassed@.len() ==> (#[trigger] encompassed@[k])
                        < orig.spec_count() && orig.tiles@[encompassed@[k] as int] is Wall,
                forall|k: int|
                    0 <= k < t ==> self.revealed@[#[trigger] encompassed@[k] as int] is Seen,
                forall|i: int|
                    0 <= i < orig.revealed@.len() ==> self.revealed@[i] == orig.revealed@[i] || (
                    self.revealed@[i] is Seen && orig.tiles@[i] is Wall),
                forall|i: int|
                    0 <= i < orig.revealed@.len() && orig.revealed@[i] is Seen
                        ==> self.revealed@[i] is Seen,
                forall|i: int|
                    0 <= i < orig.revealed@.len() && self.revealed@[i] != orig.revealed@[i]
                        ==> exists|k: int|
                        0 <= k < encompassed@.len() && (#[trigger] encompassed@[k]) == i,
            decreases encompassed@.len() - t,
        {
            let idx = encompassed[t];
            self.revealed.set(idx, Revealed::Seen);
            proof {
                assert(encompassed@[t as int] == idx);
            }
            t += 1;
        }
        proof {
            let rect = orig.world_rect;
            let qi = rect.spec_point_to_index(point);
            if rect.spec_in_bounds(point) && unseen_wall(orig.tiles@, orig.revealed@, qi)
                && region_enclosed(orig.tiles@, orig.revealed@, rect, qi) {
                assert forall|b: int|
                    wall_connected(
                        orig.tiles@,
                        orig.revealed@,
                        rect,
                        qi,
                        b,
                    ) implies #[trigger] self.revealed@[b] is Seen by {
                    let t2 = choose|t2: int|
                        0 <= t2 < encompassed@.len() && #[trigger] encompassed@[t2] == b;
                    assert(self.revealed@[encompassed@[t2] as int] is Seen);
                }
            }
            // conversely, a changed cell lies in the enclosed region of the
            // starting point
            assert forall|b: int|
                0 <= b < orig.revealed@.len() && (#[trigger] self.revealed@[b])
                    != orig.revealed@[b] implies {
                &&& rect.spec_in_bounds(point)
                &&& unseen_wall(orig.tiles@, orig.revealed@, qi)
                &&& region_enclosed(orig.tiles@, orig.revealed@, rect, qi)
                &&& wall_connected(orig.tiles@, orig.revealed@, rect, qi, b)
            } by {
                let k = choose|k: int|
                    0 <= k < encompassed@.len() && (#[trigger] encompassed@[k]) == b;
                assert(encompassed@.len() > 0);
            }
        }
    }

    /// The map-reveal effect: raises every NotSeen cell to Mapped; Mapped
    /// and Seen cells are left untouched.
    pub fn reveal_all_mapped(&mut self)
        requires
            old(self).wf(),
        ensures
            final(self).wf(),
            final(self).world_rect == old(self).world_rect,
            final(self).tiles@ == old(self).tiles@,
            final(self).cached_dijkstra_map == old(self).cached_dijkstra_map,
            final(self).revealed@.len() == old(self).revealed@.len(),
            forall|i: int|
                0 <= i < old(self).revealed@.len() ==> final(self).revealed@[i] == (if old(self).revealed@[i] is NotSeen {
                    Revealed::Mapped
                } else {
                    old(self).revealed@[i]
                }),
    {
        let ghost orig = *self;
        let n = self.revealed.len();
        let mut i: usize = 0;
        while i < n
            invariant
                orig.wf(),
                self.wf(),
                i <= n,
                n == orig.revealed@.len(),
                self.world_rect == orig.world_rect,
                self.tiles@ == orig.tiles@,
                self.cached_dijkstra_map == orig.cached_dijkstra_map,
                self.revealed@.len() == orig.revealed@.len(),
                forall|k: int|
                    0 <= k < n ==> self.revealed@[k] == (if k < i && orig.revealed@[k]
                        is NotSeen {
                        Revealed::Mapped
                    } else {
                        orig.revealed@[k]
                    }),
            decreases n - i,
        {
            if self.revealed[i] == Revealed::NotSeen {
                self.revealed.set(i, Revealed::Mapped);
            }
            i += 1;
        }
    }

    /// A distance field from `point`, cut off at `max_depth`, computed
    /// afresh (bypassing and leaving the cache untouched).
    pub fn uncached_dijkstra_map(&self, point: Point, max_depth: usize) -> (r: DijkstraMap)
        requires
            self.wf(),
            self.spec_in_bounds(point),
            max_depth < dijkstra::UNREACHABLE,
        ensures
            dijkstra::is_distance_field(
                self.tiles@,
                self.world_rect,
                seq![self.world_rect.spec_point_to_index(point)],
                max_depth as int,
                r.values@,
            ),
            r.values@.len() == self.spec_count(),
    {
        let start = self.point_to_index(point);
        let mut starts_vec: Vec<usize> = Vec::new();
        starts_vec.push(start);
        let r = DijkstraMap::new(self.width(), self.height(), &starts_vec, self, max_depth);
        proof {
            assert(starts_vec@.map_values(|s: usize| s as int) =~= seq![
                self.world_rect.spec_point_to_index(point),
            ]);
        }
        r
    }

    /// The distance field from `point` at `max_depth`, answered from the
    /// single-slot cache when the key matches, else recomputed and cached.
    pub fn dijkstra_map(&mut self, point: Point, max_depth: usize) -> (r: DijkstraMap)
        requires
            old(self).wf(),
            old(self).spec_in_bounds(point),
            max_depth < dijkstra::UNREACHABLE,
        ensures
            final(self).wf(),
            final(self).world_rect == old(self).world_rect,
            final(self).tiles@ == old(self).tiles@,
            final(self).revealed@ == old(self).revealed@,
            dijkstra::is_distance_field(
                old(self).tiles@,
                old(self).world_rect,
                seq![old(self).world_rect.spec_point_to_index(point)],
                max_depth as int,
                r.values@,
            ),
            r.values@.len() == old(self).spec_count(),
            exists|f: DijkstraMap|
                final(self).cached_dijkstra_map == Some((point, max_depth, f)) && (
                #[trigger] f.values@) == r.values@,
    {
        let mut cache_hit = false;
        if let Some((p, d, _)) = &self.cached_dijkstra_map {
            if p.x == point.x && p.y == point.y && *d == max_depth {
                cache_hit = true;
            }
        }
        if cache_hit {
            if let Some((p, d, f)) = &self.cached_dijkstra_map {
                proof {
                    assert(*p == point);
                }
                return DijkstraMap { values: copy_distances(&f.values) };
            }
        }
        let field = self.uncached_dijkstra_map(point, max_depth);
        let result = DijkstraMap { values: copy_distances(&field.values) };
        self.cached_dijkstra_map = Some((point, max_depth, field));
        result
    }

    /// The most distant cell reachable from `point` within `max_depth`:
    /// the first cell, in array order, holding the largest finite distance.
    /// When nothing but the source is reachable this is `point` itself.
    pub fn find_most_distant(&mut self, point: Point, max_depth: usize) -> (r: Point)
        requires
            old(self).wf(),
            old(self).spec_in_bounds(point),
            max_depth < dijkstra::UNREACHABLE,
        ensures
            final(self).wf(),
            final(self).world_rect == old(self).world_rect,
            final(self).tiles@ == old(self).tiles@,
            final(self).revealed@ == old(self).revealed@,
            final(self).spec_in_bounds(r),
            exists|f: Seq<usize>|
                {
                    let ri = old(self).world_rect.spec_point_to_index(r);
                    &&& #[trigger] dijkstra::is_distance_field(
                        old(self).tiles@,
                        old(self).world_rect,
                        seq![old(self).world_rect.spec_point_to_index(point)],
                        max_depth as int,
                        f,
                    )
                    &&& dijkstra::finite_dist(f[ri])
                    &&& forall|j: int|
                        0 <= j < f.len() && dijkstra::finite_dist(#[trigger] f[j]) ==> f[j]
                            <= f[ri]
                    &&& forall|j: int|
                        0 <= j < ri && dijkstra::finite_dist(#[trigger] f[j]) ==> f[j] < f[ri]
                },
            old(self).spec_can_enter(r) || r == point,
            (exists|j: int|
                0 <= j < old(self).spec_count() && dijkstra::enterable_idx(old(self).tiles@, j)
                    && j != old(self).world_rect.spec_point_to_index(point)
                    && crate::reach::reachable_within(
                    old(self).tiles@,
                    old(self).world_rect,
                    old(self).world_rect.spec_point_to_index(point),
                    j,
                    max_depth as int,
                )) ==> r != point,
    {
        let dm = self.dijkstra_map(point, max_depth);
        let ghost f = dm.values@;
        let n = dm.values.len();
        let start = self.point_to_index(point);
        let mut best: usize = start;
        proof {
            let ss = seq![old(self).world_rect.spec_point_to_index(point)];
            assert(ss[0] == start as int);
            assert(f[ss[0]] == 0);
            assert(dijkstra::UNREACHABLE != 0);
            assert(dijkstra::finite_dist(f[start as int]) && f[start as int] == 0);
        }
        let mut best_set = false;
        let mut i: usize = 0;
        while i < n
            invariant
                n == f.len(),
                f == dm.values@,
                i <= n,
                best < n,
                start < n,
                dijkstra::finite_dist(f[start as int]),
                best_set ==> {
                    &&& dijkstra::finite_dist(f[best as int])
                    &&& forall|j: int|
                        0 <= j < i && dijkstra::finite_dist(#[trigger] f[j]) ==> f[j] <= f[best as int]
                    &&& forall|j: int|
                        0 <= j < best && dijkstra::finite_dist(#[trigger] f[j]) ==> f[j] < f[best as int]
                },
                !best_set ==> forall|j: int|
                    0 <= j < i ==> !dijkstra::finite_dist(#[trigger] f[j]),
            decreases n - i,
        {
            let v = dm.values[i];
            if v != dijkstra::UNREACHABLE {
                if !best_set {
                    best = i;
                    best_set = true;
                } else if v > dm.values[best] {
                    best = i;
                }
            }
            i += 1;
        }
        proof {
            assert(best_set);
        }
        let rp = self.index_to_point(best);
        proof {
            lemma_index_point_round_trip(self.world_rect, best as int);
            assert(self.world_rect.spec_point_to_index(rp) == best as int);
            let rect = self.world_rect;
            lemma_point_index_round_trip(rect, point);
            // the result is enterable unless it is the source itself
            if f[best as int] == 0 {
                assert(seq![rect.spec_point_to_index(point)].contains(best as int));
                assert(best as int == rect.spec_point_to_index(point));
                assert(rp == point);
            } else {
                assert(dijkstra::enterable_idx(self.tiles@, best as int));
                assert(self.spec_can_enter(rp));
            }
            // some other enterable cell within reach forces a distinct result
            if exists|j: int|
                0 <= j < self.spec_count() && dijkstra::enterable_idx(self.tiles@, j) && j
                    != rect.spec_point_to_index(point) && crate::reach::reachable_within(
                    self.tiles@,
                    rect,
                    rect.spec_point_to_index(point),
                    j,
                    max_depth as int,
                ) {
                let j = choose|j: int|
                    0 <= j < self.spec_count() && dijkstra::enterable_idx(self.tiles@, j) && j
                        != rect.spec_point_to_index(point) && crate::reach::reachable_within(
                        self.tiles@,
                        rect,
                        rect.spec_point_to_index(point),
                        j,
                        max_depth as int,
                    );
                let p = choose|p: Seq<int>|
                    crate::reach::connects(
                        self.tiles@,
                        rect,
                        p,
                        rect.spec_point_to_index(point),
                        j,
                    ) && p.len() <= max_depth + 1;
                assert(seq![rect.spec_point_to_index(point)].contains(p.first())) by {
                    assert(seq![rect.spec_point_to_index(point)][0] == rect.spec_point_to_index(
                        point,
                    ));
                }
                crate::reach::lemma_field_complete(
                    self.tiles@,
                    rect,
                    seq![rect.spec_point_to_index(point)],
                    max_depth as int,
                    f,
                    p,
                );
                assert(dijkstra::finite_dist(f[j]));
                if f[j] == 0 {
                    assert(seq![rect.spec_point_to_index(point)].contains(j));
                    assert(false);
                }
                assert(f[best as int] >= f[j] > 0);
                assert(best as int != rect.spec_point_to_index(point));
                assert(rp != point);
            }
        }
        rp
    }

    /// The Floor cell nearest to `point` by Euclidean distance (first in
    /// array order on an exact tie), or `point` itself when the map holds
    /// no Floor cell at all.
    pub fn closest_floor_point(&self, point: Point) -> (r: Point)
        requires
            self.wf(),
            self.spec_in_bounds(point),
        ensures
            if exists|j: int| 0 <= j < self.tiles@.len() && (#[trigger] self.tiles@[j]) is Floor {
                let ri = self.world_rect.spec_point_to_index(r);
                &&& self.spec_in_bounds(r)
                &&& self.tiles@[ri] is Floor
                &&& forall|j: int|
                    0 <= j < self.tiles@.len() && (#[trigger] self.tiles@[j]) is Floor
                        ==> crate::point::spec_squared_distance(
                        point,
                        self.world_rect.spec_index_to_point(ri),
                    ) <= crate::point::spec_squared_distance(
                        point,
                        self.world_rect.spec_index_to_point(j),
                    )
                &&& forall|j: int|
                    0 <= j < ri && (#[trigger] self.tiles@[j]) is Floor
                        ==> crate::point::spec_squared_distance(
                        point,
                        self.world_rect.spec_index_to_point(ri),
                    ) < crate::point::spec_squared_distance(
                        point,
                        self.world_rect.spec_index_to_point(j),
                    )
            } else {
                r == point
            },
    {
        let n = self.tiles.len();
        let mut best: usize = 0;
        let mut best_d: i32 = 0;
        let mut best_set = false;
        let mut i: usize = 0;
        while i < n
            invariant
                self.wf(),
                self.spec_in_bounds(point),
                n == self.tiles@.len(),
                i <= n,
                best_set ==> {
                    &&& best < n
                    &&& self.tiles@[best as int] is Floor
                    &&& best_d == crate::point::spec_squared_distance(
                        point,
                        self.world_rect.spec_index_to_point(best as int),
                    )
                    &&& forall|j: int|
                        0 <= j < i && (#[trigger] self.tiles@[j]) is Floor ==> best_d
                            <= crate::point::spec_squared_distance(
                            point,
                            self.world_rect.spec_index_to_point(j),
                        )
                    &&& forall|j: int|
                        0 <= j < best && (#[trigger] self.tiles@[j]) is Floor ==> best_d
                            < crate::point::spec_squared_distance(
                            point,
                            self.world_rect.spec_index_to_point(j),
                        )
                },
                !best_set ==> forall|j: int|
                    0 <= j < i ==> !((#[trigger] self.tiles@[j]) is Floor),
            decreases n - i,
        {
            let matches_floor = self.tiles[i] == TileType::Floor;
            if matches_floor {
                let p = self.index_to_point(i);
                proof {
                    lemma_sqdist_in_bounds(self.world_rect, point, p);
                }
                let d = point.pythagorean_squared_distance(p);
                if !best_set {
                    best = i;
                    best_d = d;
                    best_set = true;
                } else if d < best_d {
                    best = i;
                    best_d = d;
                }
            }
            i += 1;
        }
        if best_set {
            let rp = self.index_to_point(best);
            proof {
                lemma_index_point_round_trip(self.world_rect, best as int);
                assert(self.world_rect.spec_point_to_index(rp) == best as int);
            }
            rp
        } else {
            point
        }
    }

    /// Connectivity repair: as long as some enterable cell is unreachable
    /// from the player start, takes the closest such cell (by squared
    /// Euclidean distance) and carves Floor along randomly biased steps
    /// toward the player — falling back to a deterministic straight carve
    /// if the random walk stalls — until every enterable cell is reachable.
    pub fn connect_disconnected(&mut self, player_pos: Point, rng: &mut rand::rngs::ThreadRng)
        requires
            old(self).wf(),
            old(self).spec_can_enter(player_pos),
            enterable_cells_interior(old(self).tiles@, old(self).world_rect),
        ensures
            final(self).wf(),
            final(self).world_rect == old(self).world_rect,
            final(self).revealed@ == old(self).revealed@,
            final(self).cached_dijkstra_map is None || final(self).cached_dijkstra_map == old(
                self,
            ).cached_dijkstra_map,
            forall|i: int|
                0 <= i < old(self).tiles@.len() ==> final(self).tiles@[i] == old(self).tiles@[i]
                    || (final(self).tiles@[i] is Floor && interior_point(
                    old(self).world_rect,
                    old(self).world_rect.spec_index_to_point(i),
                )),
            enterable_cells_interior(final(self).tiles@, final(self).world_rect),
            forall|i: int|
                0 <= i < old(self).tiles@.len() && dijkstra::enterable_idx(old(self).tiles@, i)
                    ==> dijkstra::enterable_idx(final(self).tiles@, i),
            forall|i: int|
                0 <= i < final(self).tiles@.len() && dijkstra::enterable_idx(
                    final(self).tiles@,
                    i,
                ) ==> crate::reach::reachable(
                    final(self).tiles@,
                    final(self).world_rect,
                    final(self).world_rect.spec_point_to_index(player_pos),
                    i,
                ),
    {
        let ghost orig = *self;
        let player_idx = self.point_to_index(player_pos);
        let n = self.world_rect.max_index();
        let walled = self.walled_rect();
        let ghost rect = self.world_rect;
        loop
            invariant
                orig.wf(),
                orig.spec_can_enter(player_pos),
                self.wf(),
                rect == orig.world_rect,
                self.world_rect == orig.world_rect,
                self.revealed@ == orig.revealed@,
                self.cached_dijkstra_map is None || self.cached_dijkstra_map
                    == orig.cached_dijkstra_map,
                player_idx == rect.spec_point_to_index(player_pos),
                player_idx < n,
                n == rect.spec_count(),
                n == self.tiles@.len(),
                n == orig.tiles@.len(),
                walled == (IRect {
                    x1: 1,
                    x2: (rect.x2 - 1) as i32,
                    y1: 1,
                    y2: (rect.y2 - 1) as i32,
                }),
                forall|p: Point| walled.spec_in_bounds(p) <==> interior_point(rect, p),
                self.spec_can_enter(player_pos),
                enterable_cells_interior(self.tiles@, rect),
                forall|i: int|
                    0 <= i < n ==> self.tiles@[i] == orig.tiles@[i] || (self.tiles@[i] is Floor
                        && interior_point(rect, rect.spec_index_to_point(i))),
            ensures
                forall|i: int|
                    0 <= i < n && dijkstra::enterable_idx(self.tiles@, i)
                        ==> crate::reach::reachable(self.tiles@, rect, player_idx as int, i),
            decreases unreachable_enterable_set(self.tiles@, rect, player_idx as int).len(),
        {
            let ghost t0 = self.tiles@;
            let ghost u_old = unreachable_enterable_set(t0, rect, player_idx as int);
            let field = self.uncached_dijkstra_map(player_pos, n);
            proof {
                assert(seq![rect.spec_point_to_index(player_pos)][0] == player_idx as int);
                lemma_unreachable_set_finite(t0, rect, player_idx as int);
            }
            let mut best: usize = 0;
            let mut best_d: i32 = 0;
            let mut found = false;
            let mut i: usize = 0;
            while i < n
                invariant
                    self.wf(),
                    self.tiles@ == t0,
                    self.world_rect == rect,
                    i <= n,
                    n == rect.spec_count(),
                    n == self.tiles@.len(),
                    rect.x1 == 0 && rect.y1 == 0 && 0 < rect.x2 <= MAX_DIM && 0 < rect.y2
                        <= MAX_DIM,
                    self.spec_in_bounds(player_pos),
                    field.values@.len() == n,
                    found ==> {
                        &&& best < n
                        &&& field.values@[best as int] == dijkstra::UNREACHABLE
                        &&& dijkstra::enterable_idx(t0, best as int)
                        &&& best_d == crate::point::spec_squared_distance(
                            rect.spec_index_to_point(best as int),
                            player_pos,
                        )
                        &&& forall|j: int|
                            0 <= j < i && field.values@[j] == dijkstra::UNREACHABLE
                                && dijkstra::enterable_idx(t0, j) ==> best_d
                                <= crate::point::spec_squared_distance(
                                #[trigger] rect.spec_index_to_point(j),
                                player_pos,
                            )
                    },
                    !found ==> forall|j: int|
                        0 <= j < i ==> !((#[trigger] field.values@[j]) == dijkstra::UNREACHABLE
                            && dijkstra::enterable_idx(t0, j)),
                decreases n - i,
            {
                let v = field.values[i];
                if v == dijkstra::UNREACHABLE {
                    let p = self.index_to_point(i);
                    proof {
                        lemma_index_point_round_trip(rect, i as int);
                    }
                    if self.can_enter_tile(p) {
                        proof {
                            lemma_sqdist_in_bounds(rect, p, player_pos);
                        }
                        let d = p.pythagorean_squared_distance(player_pos);
                        if !found || d < best_d {
                            best = i;
                            best_d = d;
                            found = true;
                        }
                    }
                }
                i += 1;
            }
            if !found {
                proof {
                    assert forall|i2: int|
                        0 <= i2 < n && dijkstra::enterable_idx(
                            self.tiles@,
                            i2,
                        ) implies crate::reach::reachable(
                        self.tiles@,
                        rect,
                        player_idx as int,
                        i2,
                    ) by {
                        lemma_index_to_point_bounds(rect, i2);
                        lemma_index_point_round_trip(rect, i2);
                        assert(self.spec_can_enter(rect.spec_index_to_point(i2)));
                        assert(field.values@[i2] != dijkstra::UNREACHABLE);
                        crate::reach::lemma_field_sound(
                            t0,
                            rect,
                            seq![player_idx as int],
                            n as int,
                            field.values@,
                            i2,
                        );
                        let s = choose|s: int|
                            #[trigger] seq![player_idx as int].contains(s)
                                && crate::reach::reachable_within(
                                t0,
                                rect,
                                s,
                                i2,
                                field.values@[i2] as int,
                            );
                        assert(s == player_idx as int);
                        crate::reach::lemma_within_implies_reachable(
                            t0,
                            rect,
                            s,
                            i2,
                            field.values@[i2] as int,
                        );
                    }
                }
                break ;
            }
            let target0 = best;
            let mut target: usize = target0;
            let ghost mut chain: Seq<int> = seq![target0 as int];
            let mut fuel: usize = n;
            proof {
                lemma_index_to_point_bounds(rect, target0 as int);
            }
            while fuel > 0 && field.values[target] == dijkstra::UNREACHABLE
                invariant
                    orig.wf(),
                    self.wf(),
                    rect == orig.world_rect,
                    self.world_rect == rect,
                    self.revealed@ == orig.revealed@,
                    self.cached_dijkstra_map is None || self.cached_dijkstra_map
                        == orig.cached_dijkstra_map,
                    player_idx == rect.spec_point_to_index(player_pos),
                    player_idx < n,
                    n == rect.spec_count(),
                    n == self.tiles@.len(),
                    n == orig.tiles@.len(),
                    n == t0.len(),
                    walled == (IRect {
                        x1: 1,
                        x2: (rect.x2 - 1) as i32,
                        y1: 1,
                        y2: (rect.y2 - 1) as i32,
                    }),
                    forall|p: Point| walled.spec_in_bounds(p) <==> interior_point(rect, p),
                    self.spec_can_enter(player_pos),
                    self.spec_in_bounds(player_pos),
                    enterable_cells_interior(self.tiles@, rect),
                    forall|i2: int|
                        0 <= i2 < n ==> t0[i2] == orig.tiles@[i2] || (t0[i2] is Floor
                            && interior_point(rect, rect.spec_index_to_point(i2))),
                    forall|i2: int|
                        0 <= i2 < n ==> self.tiles@[i2] == t0[i2] || (self.tiles@[i2] is Floor
                            && interior_point(rect, rect.spec_index_to_point(i2))),
                    field.values@.len() == n,
                    target < n,
                    target0 < n,
                    chain.len() >= 1,
                    chain[0] == target as int,
                    chain.last() == target0 as int,
                    forall|k: int|
                        0 <= k < chain.len() ==> dijkstra::enterable_idx(
                            self.tiles@,
                            #[trigger] chain[k],
                        ),
                    forall|k: int|
                        0 <= k < chain.len() - 1 ==> dijkstra::idx_adjacent(
                            rect,
                            #[trigger] chain[k],
                            chain[k + 1],
                        ),
                    forall|i2: int|
                        0 <= i2 < n && self.tiles@[i2] != t0[i2] ==> chain.contains(i2),
                decreases fuel,
            {
                let tp = self.index_to_point(target);
                let dx = player_pos.x - tp.x;
                let dy = player_pos.y - tp.y;
                let adx = if dx < 0 {
                    -dx
                } else {
                    dx
                };
                let ady = if dy < 0 {
                    -dy
                } else {
                    dy
                };
                let roll = crate::random::rng_range(rng, 0, adx + ady + 2);
                let sx: i32 = if dx > 0 {
                    1
                } else if dx < 0 {
                    -1
                } else {
                    0
                };
                let sy: i32 = if dy > 0 {
                    1
                } else if dy < 0 {
                    -1
                } else {
                    0
                };
                let delta = if roll < adx + 1 {
                    Point { x: sx, y: 0 }
                } else {
                    Point { x: 0, y: sy }
                };
                let np = tp.plus(delta);
                if walled.in_bounds(np) {
                    let newchain = self.carve_step(
                        np,
                        Ghost(t0),
                        Ghost(chain),
                        Ghost(target as int),
                    );
                    proof {
                        chain = newchain@;
                    }
                    target = self.point_to_index(np);
                    proof {
                        assert(chain[0] == target as int);
                    }
                }
                fuel -= 1;
            }
            if field.values[target] == dijkstra::UNREACHABLE {
                while target != player_idx
                    invariant
                        orig.wf(),
                        self.wf(),
                        rect == orig.world_rect,
                        self.world_rect == rect,
                        self.revealed@ == orig.revealed@,
                        self.cached_dijkstra_map is None || self.cached_dijkstra_map
                            == orig.cached_dijkstra_map,
                        player_idx == rect.spec_point_to_index(player_pos),
                        player_idx < n,
                        n == rect.spec_count(),
                        n == self.tiles@.len(),
                        n == orig.tiles@.len(),
                        n == t0.len(),
                        walled == (IRect {
                            x1: 1,
                            x2: (rect.x2 - 1) as i32,
                            y1: 1,
                            y2: (rect.y2 - 1) as i32,
                        }),
                        forall|p: Point| walled.spec_in_bounds(p) <==> interior_point(rect, p),
                        self.spec_can_enter(player_pos),
                        self.spec_in_bounds(player_pos),
                        enterable_cells_interior(self.tiles@, rect),
                        forall|i2: int|
                            0 <= i2 < n ==> t0[i2] == orig.tiles@[i2] || (t0[i2] is Floor
                                && interior_point(rect, rect.spec_index_to_point(i2))),
                        forall|i2: int|
                            0 <= i2 < n ==> self.tiles@[i2] == t0[i2] || (self.tiles@[i2]
                                is Floor && interior_point(rect, rect.spec_index_to_point(i2))),
                        target < n,
                        target0 < n,
                        chain.len() >= 1,
                        chain[0] == target as int,
                        chain.last() == target0 as int,
                        forall|k: int|
                            0 <= k < chain.len() ==> dijkstra::enterable_idx(
                                self.tiles@,
                                #[trigger] chain[k],
                            ),
                        forall|k: int|
                            0 <= k < chain.len() - 1 ==> dijkstra::idx_adjacent(
                                rect,
                                #[trigger] chain[k],
                                chain[k + 1],
                            ),
                        forall|i2: int|
                            0 <= i2 < n && self.tiles@[i2] != t0[i2] ==> chain.contains(i2),
                    decreases crate::point::spec_abs(
                        player_pos.x - rect.spec_index_to_point(target as int).x,
                    ) + crate::point::spec_abs(
                        player_pos.y - rect.spec_index_to_point(target as int).y,
                    ),
                {
                    let tp = self.index_to_point(target);
                    proof {
                        lemma_index_to_point_bounds(rect, target as int);
                        lemma_index_point_round_trip(rect, target as int);
                        assert(dijkstra::enterable_idx(self.tiles@, target as int));
                        assert(interior_point(rect, tp));
                        lemma_point_to_index_bounds(rect, player_pos);
                        lemma_point_index_round_trip(rect, player_pos);
                        if tp.x == player_pos.x && tp.y == player_pos.y {
                            assert(target as int == player_idx as int);
                        }
                        assert(interior_point(rect, player_pos));
                    }
                    let delta = if tp.x < player_pos.x {
                        Point { x: 1, y: 0 }
                    } else if tp.x > player_pos.x {
                        Point { x: -1, y: 0 }
                    } else if tp.y < player_pos.y {
                        Point { x: 0, y: 1 }
                    } else {
                        Point { x: 0, y: -1 }
                    };
                    let np = tp.plus(delta);
                    proof {
                        assert(walled.spec_in_bounds(np));
                    }
                    let newchain = self.carve_step(
                        np,
                        Ghost(t0),
                        Ghost(chain),
                        Ghost(target as int),
                    );
                    proof {
                        chain = newchain@;
                    }
                    target = self.point_to_index(np);
                    proof {
                        lemma_point_to_index_bounds(rect, np);
                        lemma_point_index_round_trip(rect, np);
                        assert(rect.spec_index_to_point(target as int) == np);
                    }
                }
            }
            proof {
                // the walk's endpoint is reachable from the player
                if field.values@[target as int] != dijkstra::UNREACHABLE {
                    crate::reach::lemma_field_sound(
                        t0,
                        rect,
                        seq![player_idx as int],
                        n as int,
                        field.values@,
                        target as int,
                    );
                    let s = choose|s: int|
                        #[trigger] seq![player_idx as int].contains(s)
                            && crate::reach::reachable_within(
                            t0,
                            rect,
                            s,
                            target as int,
                            field.values@[target as int] as int,
                        );
                    assert(s == player_idx as int);
                    crate::reach::lemma_within_implies_reachable(
                        t0,
                        rect,
                        s,
                        target as int,
                        field.values@[target as int] as int,
                    );
                    crate::reach::lemma_reach_mono(
                        t0,
                        self.tiles@,
                        rect,
                        player_idx as int,
                        target as int,
                    );
                } else {
                    assert(target == player_idx);
                    crate::reach::lemma_reach_self(self.tiles@, rect, player_idx as int);
                }
                assert(crate::reach::reachable(self.tiles@, rect, player_idx as int, target as int));
                // every cell of the carved chain is reachable from the player
                assert(crate::reach::is_path(self.tiles@, rect, chain));
                assert forall|k: int| 0 <= k < chain.len() implies crate::reach::reachable(
                    self.tiles@,
                    rect,
                    player_idx as int,
                    #[trigger] chain[k],
                ) by {
                    crate::reach::lemma_reach_prefix(self.tiles@, rect, chain, k);
                    crate::reach::lemma_reach_trans(
                        self.tiles@,
                        rect,
                        player_idx as int,
                        target as int,
                        chain[k],
                    );
                }
                assert(crate::reach::reachable(
                    self.tiles@,
                    rect,
                    player_idx as int,
                    target0 as int,
                ));
                // the closest unreachable cell was unreachable before this pass
                assert(!crate::reach::reachable(t0, rect, player_idx as int, target0 as int)) by {
                    if crate::reach::reachable(t0, rect, player_idx as int, target0 as int) {
                        crate::reach::lemma_reachable_within_count(
                            t0,
                            rect,
                            player_idx as int,
                            target0 as int,
                        );
                        let p = choose|p: Seq<int>|
                            crate::reach::connects(t0, rect, p, player_idx as int, target0 as int)
                                && p.len() <= (rect.spec_count() - 1) + 1;
                        assert(seq![player_idx as int].contains(p.first())) by {
                            assert(seq![player_idx as int][0] == player_idx as int);
                        }
                        crate::reach::lemma_field_complete(
                            t0,
                            rect,
                            seq![player_idx as int],
                            n as int,
                            field.values@,
                            p,
                        );
                    }
                }
                // so the set of unreachable enterable cells strictly shrinks
                let u_new = unreachable_enterable_set(self.tiles@, rect, player_idx as int);
                assert(u_old.contains(target0 as int));
                assert(!u_new.contains(target0 as int));
                assert forall|i2: int| u_new.contains(i2) implies u_old.contains(i2) by {
                    if self.tiles@[i2] != t0[i2] {
                        assert(chain.contains(i2));
                        let k = choose|k: int| 0 <= k < chain.len() && chain[k] == i2;
                        assert(crate::reach::reachable(self.tiles@, rect, player_idx as int, i2));
                    } else {
                        if crate::reach::reachable(t0, rect, player_idx as int, i2) {
                            crate::reach::lemma_reach_mono(
                                t0,
                                self.tiles@,
                                rect,
                                player_idx as int,
                                i2,
                            );
                        }
                    }
                }
                lemma_set_strictly_smaller(u_new, u_old, target0 as int);
            }
        }
    }

    /// One carving step of the repair walk: sets `np` to Floor and, when it
    /// moves to a new cell, records it at the head of the carved chain.
    fn carve_step(
        &mut self,
        np: Point,
        Ghost(t0): Ghost<Seq<TileType>>,
        Ghost(chain): Ghost<Seq<int>>,
        Ghost(target): Ghost<int>,
    ) -> (newchain: Ghost<Seq<int>>)
        requires
            old(self).wf(),
            old(self).spec_interior(np),
            old(self).tiles@.len() == old(self).world_rect.spec_count(),
            t0.len() == old(self).world_rect.spec_count(),
            chain.len() >= 1,
            chain[0] == target,
            0 <= target < old(self).world_rect.spec_count(),
            dijkstra::points_adjacent(old(self).world_rect.spec_index_to_point(target), np) || np
                == old(self).world_rect.spec_index_to_point(target),
            forall|k: int|
                0 <= k < chain.len() ==> dijkstra::enterable_idx(
                    old(self).tiles@,
                    #[trigger] chain[k],
                ),
            forall|k: int|
                0 <= k < chain.len() - 1 ==> dijkstra::idx_adjacent(
                    old(self).world_rect,
                    #[trigger] chain[k],
                    chain[k + 1],
                ),
            forall|i2: int|
                0 <= i2 < old(self).tiles@.len() && old(self).tiles@[i2] != t0[i2]
                    ==> chain.contains(i2),
        ensures
            final(self).wf(),
            final(self).world_rect == old(self).world_rect,
            final(self).revealed@ == old(self).revealed@,
            final(self).cached_dijkstra_map is None,
            final(self).tiles@.len() == old(self).tiles@.len(),
            newchain@.len() >= 1,
            newchain@[0] == old(self).world_rect.spec_point_to_index(np),
            newchain@.last() == chain.last(),
            forall|i2: int|
                0 <= i2 < old(self).tiles@.len() ==> final(self).tiles@[i2] == old(
                    self,
                ).tiles@[i2] || (final(self).tiles@[i2] is Floor && interior_point(
                    old(self).world_rect,
                    old(self).world_rect.spec_index_to_point(i2),
                )),
            forall|k: int|
                0 <= k < newchain@.len() ==> dijkstra::enterable_idx(
                    final(self).tiles@,
                    #[trigger] newchain@[k],
                ),
            forall|k: int|
                0 <= k < newchain@.len() - 1 ==> dijkstra::idx_adjacent(
                    old(self).world_rect,
                    #[trigger] newchain@[k],
                    newchain@[k + 1],
                ),
            forall|i2: int|
                0 <= i2 < old(self).tiles@.len() && final(self).tiles@[i2] != t0[i2]
                    ==> newchain@.contains(i2),
    {
        proof {
            lemma_point_to_index_bounds(self.world_rect, np);
            lemma_point_index_round_trip(self.world_rect, np);
            lemma_index_to_point_bounds(self.world_rect, target);
            lemma_index_point_round_trip(self.world_rect, target);
        }
        let ghost rect = self.world_rect;
        let ghost nt = self.world_rect.spec_point_to_index(np);
        self.set_tile(np, TileType::Floor);
        let ghost newc: Seq<int> = if nt != target {
            seq![nt] + chain
        } else {
            chain
        };
        proof {
            if nt != target {
                assert(newc[0] == nt);
                assert(newc.last() == chain.last());
                assert forall|k: int| 0 <= k < newc.len() implies dijkstra::enterable_idx(
                    self.tiles@,
                    #[trigger] newc[k],
                ) by {
                    if k == 0 {
                        assert(self.tiles@[nt] is Floor);
                    } else {
                        assert(newc[k] == chain[k - 1]);
                        assert(dijkstra::enterable_idx(old(self).tiles@, chain[k - 1]));
                    }
                }
                assert forall|k: int| 0 <= k < newc.len() - 1 implies dijkstra::idx_adjacent(
                    rect,
                    #[trigger] newc[k],
                    newc[k + 1],
                ) by {
                    if k == 0 {
                        assert(newc[0] == nt && newc[1] == target);
                        assert(dijkstra::points_adjacent(rect.spec_index_to_point(target), np));
                    } else {
                        assert(newc[k] == chain[k - 1] && newc[k + 1] == chain[k]);
                    }
                }
                assert forall|i2: int|
                    0 <= i2 < old(self).tiles@.len() && self.tiles@[i2]
                        != t0[i2] implies newc.contains(i2) by {
                    if i2 == nt {
                        assert(newc[0] == i2);
                    } else {
                        assert(old(self).tiles@[i2] != t0[i2]);
                        let k = choose|k: int| 0 <= k < chain.len() && chain[k] == i2;
                        assert(newc[k + 1] == i2);
                    }
                }
            } else {
                assert forall|k: int| 0 <= k < newc.len() implies dijkstra::enterable_idx(
                    self.tiles@,
                    #[trigger] newc[k],
                ) by {
                    if newc[k] == nt {
                        assert(self.tiles@[nt] is Floor);
                    } else {
                        assert(self.tiles@[newc[k]] == old(self).tiles@[newc[k]]);
                    }
                }
                assert forall|i2: int|
                    0 <= i2 < old(self).tiles@.len() && self.tiles@[i2]
                        != t0[i2] implies newc.contains(i2) by {
                    if i2 == nt {
                        assert(newc[0] == i2);
                    } else {
                        assert(old(self).tiles@[i2] != t0[i2]);
                    }
                }
            }
        }
        Ghost(newc)
    }

    pub fn is_opaque(&self, idx: usize) -> (r: bool)
        requires
            self.wf(),
            idx < self.spec_count(),
        ensures
            r == (self.tiles@[idx as int] is Wall),
    {
        match self.tiles[idx] {
            TileType::Wall => true,
            TileType::Floor => false,
            TileType::Exit => false,
        }
    }
}

/// A Wall cell that has not yet been Seen: what the enclosed-area
/// promotion pass floods through.
pub open spec fn unseen_wall(tiles: Seq<TileType>, revealed: Seq<Revealed>, i: int) -> bool {
    0 <= i < tiles.len() && tiles[i] is Wall && !(revealed[i] is Seen)
}

/// A 4-connected walk whose every cell is a not-yet-Seen Wall.
pub open spec fn wall_path(
    tiles: Seq<TileType>,
    revealed: Seq<Revealed>,
    rect: IRect,
    path: Seq<int>,
) -> bool {
    &&& path.len() >= 1
    &&& forall|k: int|
        0 <= k < path.len() - 1 ==> dijkstra::idx_adjacent(rect, #[trigger] path[k], path[k + 1])
    &&& forall|k: int| 0 <= k < path.len() ==> unseen_wall(tiles, revealed, #[trigger] path[k])
}

/// `b` lies in the connected region of not-yet-Seen Wall cells around `a`.
pub open spec fn wall_connected(
    tiles: Seq<TileType>,
    revealed: Seq<Revealed>,
    rect: IRect,
    a: int,
    b: int,
) -> bool {
    exists|path: Seq<int>|
        wall_path(tiles, revealed, rect, path) && path.first() == a && path.last() == b
}

/// The region around `a` is fully enclosed: no cell of it borders a Floor
/// or Exit cell (every neighbor is Wall; the map edge needs no bound).
pub open spec fn region_enclosed(
    tiles: Seq<TileType>,
    revealed: Seq<Revealed>,
    rect: IRect,
    a: int,
) -> bool {
    forall|b: int, j: int|
        #[trigger] wall_connected(tiles, revealed, rect, a, b) && #[trigger] dijkstra::idx_adjacent(
            rect,
            b,
            j,
        ) ==> tiles[j] is Wall
}

/// One enclosed-area promotion pass from `q`: revealed states only rise to
/// Seen, only on Wall cells; when `q` starts a fully enclosed region of
/// not-yet-Seen walls, that whole region ends up Seen; and nothing else
/// changes — a cell changes state exactly when it lies in such an
/// enclosed region.
pub open spec fn promote_step(
    tiles: Seq<TileType>,
    rect: IRect,
    rev0: Seq<Revealed>,
    q: Point,
    rev1: Seq<Revealed>,
) -> bool {
    &&& rev1.len() == rev0.len()
    &&& forall|i: int|
        0 <= i < rev0.len() ==> rev1[i] == rev0[i] || (rev1[i] is Seen && tiles[i] is Wall)
    &&& forall|i: int| 0 <= i < rev0.len() && rev0[i] is Seen ==> rev1[i] is Seen
    &&& {
        let qi = rect.spec_point_to_index(q);
        (rect.spec_in_bounds(q) && unseen_wall(tiles, rev0, qi) && region_enclosed(
            tiles,
            rev0,
            rect,
            qi,
        )) ==> forall|b: int|
            wall_connected(tiles, rev0, rect, qi, b) ==> #[trigger] rev1[b] is Seen
    }
    &&& forall|b: int|
        0 <= b < rev0.len() && (#[trigger] rev1[b]) != rev0[b] ==> {
            let qi = rect.spec_point_to_index(q);
            &&& rect.spec_in_bounds(q)
            &&& unseen_wall(tiles, rev0, qi)
            &&& region_enclosed(tiles, rev0, rect, qi)
            &&& wall_connected(tiles, rev0, rect, qi, b)
        }
}

/// The whole reveal pass: after the revealed cell is marked Seen, one
/// promotion pass runs from each of its in-bounds neighbors in turn.
pub open spec fn promote_chain(
    tiles: Seq<TileType>,
    rect: IRect,
    point: Point,
    rev_start: Seq<Revealed>,
    mids: Seq<Seq<Revealed>>,
    rev_end: Seq<Revealed>,
) -> bool {
    let nbrs = spec_neighbors(rect, point);
    &&& mids.len() == nbrs.len() + 1
    &&& mids[0] == rev_start
    &&& mids[mids.len() - 1] == rev_end
    &&& forall|k: int|
        0 <= k < nbrs.len() ==> promote_step(tiles, rect, #[trigger] mids[k], nbrs[k], mids[k + 1])
}

proof fn lemma_wall_self(tiles: Seq<TileType>, revealed: Seq<Revealed>, rect: IRect, a: int)
    requires
        unseen_wall(tiles, revealed, a),
    ensures
        wall_connected(tiles, revealed, rect, a, a),
{
    let path = seq![a];
    assert(wall_path(tiles, revealed, rect, path) && path.first() == a && path.last() == a);
}

proof fn lemma_wall_extend(
    tiles: Seq<TileType>,
    revealed: Seq<Revealed>,
    rect: IRect,
    a: int,
    b: int,
    c: int,
)
    requires
        wall_connected(tiles, revealed, rect, a, b),
        dijkstra::idx_adjacent(rect, b, c),
        unseen_wall(tiles, revealed, c),
    ensures
        wall_connected(tiles, revealed, rect, a, c),
{
    let p = choose|p: Seq<int>|
        wall_path(tiles, revealed, rect, p) && p.first() == a && p.last() == b;
    let q = p.push(c);
    assert(q.first() == a && q.last() == c);
    assert forall|k: int| 0 <= k < q.len() - 1 implies dijkstra::idx_adjacent(
        rect,
        #[trigger] q[k],
        q[k + 1],
    ) by {
        if k == q.len() - 2 {
            assert(q[k] == p.last() && q[k + 1] == c);
        } else {
            assert(q[k] == p[k] && q[k + 1] == p[k + 1]);
        }
    }
    assert forall|k: int| 0 <= k < q.len() implies unseen_wall(
        tiles,
        revealed,
        #[trigger] q[k],
    ) by {
        if k < q.len() - 1 {
            assert(q[k] == p[k]);
        }
    }
    assert(wall_path(tiles, revealed, rect, q));
}

/// A collection closed under unseen-wall adjacency that holds `a` holds
/// every cell of `a`'s region.
proof fn lemma_wall_region_collected(
    tiles: Seq<TileType>,
    revealed: Seq<Revealed>,
    rect: IRect,
    enc: Seq<usize>,
    path: Seq<int>,
)
    requires
        wall_path(tiles, revealed, rect, path),
        exists|t: int| 0 <= t < enc.len() && enc[t] == path.first(),
        forall|t: int, j: int|
            0 <= t < enc.len() && #[trigger] dijkstra::idx_adjacent(rect, enc[t] as int, j)
                && unseen_wall(tiles, revealed, j) ==> exists|t2: int|
                0 <= t2 < enc.len() && #[trigger] enc[t2] == j,
    ensures
        exists|t: int| 0 <= t < enc.len() && enc[t] == path.last(),
    decreases path.len(),
{
    if path.len() > 1 {
        let p = path.drop_last();
        assert(wall_path(tiles, revealed, rect, p)) by {
            assert(forall|k: int|
                0 <= k < p.len() - 1 ==> dijkstra::idx_adjacent(
                    rect,
                    #[trigger] p[k],
                    p[k + 1],
                ));
            assert(forall|k: int|
                0 <= k < p.len() ==> unseen_wall(tiles, revealed, #[trigger] p[k]));
        }
        lemma_wall_region_collected(tiles, revealed, rect, enc, p);
        let e = p.last();
        let b = path.last();
        assert(dijkstra::idx_adjacent(rect, e, b)) by {
            assert(path[path.len() - 2] == e && path[path.len() - 1] == b);
        }
        assert(unseen_wall(tiles, revealed, b));
        let t = choose|t: int| 0 <= t < enc.len() && enc[t] == e;
        assert(exists|t2: int| 0 <= t2 < enc.len() && #[trigger] enc[t2] == b);
    }
}

/// A point of the interior band of `rect`: strictly inside its one-cell
/// border.
pub open spec fn interior_point(rect: IRect, p: Point) -> bool {
    &&& 0 < p.x < rect.spec_width() - 1
    &&& 0 < p.y < rect.spec_height() - 1
}

/// Every enterable cell lies in the interior: the one-cell border is Wall.
pub open spec fn enterable_cells_interior(tiles: Seq<TileType>, rect: IRect) -> bool {
    forall|i: int|
        0 <= i < rect.spec_count() && dijkstra::enterable_idx(tiles, i) ==> interior_point(
            rect,
            #[trigger] rect.spec_index_to_point(i),
        )
}

/// The enterable cells that no walk from `src` reaches.
pub open spec fn unreachable_enterable_set(tiles: Seq<TileType>, rect: IRect, src: int) -> Set<
    int,
> {
    Set::new(
        |i: int|
            0 <= i < rect.spec_count() && dijkstra::enterable_idx(tiles, i)
                && !crate::reach::reachable(tiles, rect, src, i),
    )
}

pub proof fn lemma_unreachable_set_finite(tiles: Seq<TileType>, rect: IRect, src: int)
    requires
        rect.spec_count() >= 0,
    ensures
        unreachable_enterable_set(tiles, rect, src).finite(),
        unreachable_enterable_set(tiles, rect, src).len() <= rect.spec_count(),
{
    let s = unreachable_enterable_set(tiles, rect, src);
    vstd::set_lib::lemma_int_range(0, rect.spec_count());
    assert(s.subset_of(vstd::set_lib::set_int_range(0, rect.spec_count())));
    vstd::set_lib::lemma_len_subset(s, vstd::set_lib::set_int_range(0, rect.spec_count()));
}

/// A strict subset, witnessed by a missing element, is strictly smaller.
proof fn lemma_set_strictly_smaller(s1: Set<int>, s2: Set<int>, x: int)
    requires
        s2.finite(),
        s1.subset_of(s2),
        s2.contains(x),
        !s1.contains(x),
    ensures
        s1.len() < s2.len(),
{
    assert(s1.subset_of(s2.remove(x)));
    vstd::set_lib::lemma_len_subset(s1, s2.remove(x));
    assert(s2.remove(x).len() == s2.len() - 1);
}

/// An element-for-element copy of a distance array.
fn copy_distances(v: &Vec<usize>) -> (r: Vec<usize>)
    ensures
        r@ == v@,
{
    let mut r: Vec<usize> = Vec::new();
    let mut i: usize = 0;
    while i < v.len()
        invariant
            i <= v@.len(),
            r@ =~= v@.take(i as int),
        decreases v@.len() - i,
    {
        r.push(v[i]);
        i += 1;
    }
    proof {
        assert(v@.take(v@.len() as int) =~= v@);
    }
    r
}

/// The squared distance between two in-bounds points of a bounded map
/// rectangle stays within `i32`.
pub proof fn lemma_sqdist_in_bounds(rect: IRect, a: Point, b: Point)
    requires
        rect.x1 == 0,
        rect.y1 == 0,
        0 < rect.x2 <= MAX_DIM,
        0 < rect.y2 <= MAX_DIM,
        rect.spec_in_bounds(a),
        rect.spec_in_bounds(b),
    ensures
        i32::MIN <= a.x - b.x <= i32::MAX,
        i32::MIN <= a.y - b.y <= i32::MAX,
        0 <= crate::point::spec_squared_distance(a, b) <= i32::MAX,
{
    let dx = a.x - b.x;
    let dy = a.y - b.y;
    assert(-32767 <= dx <= 32767 && -32767 <= dy <= 32767);
    assert(0 <= dx * dx <= 32767 * 32767) by (nonlinear_arith)
        requires
            -32767 <= dx <= 32767,
    ;
    assert(0 <= dy * dy <= 32767 * 32767) by (nonlinear_arith)
        requires
            -32767 <= dy <= 32767,
    ;
}

/// The in-bounds cardinal neighbors of `p`, in west, east, north, south order.
pub open spec fn spec_neighbors(rect: IRect, p: Point) -> Seq<Point> {
    let west = Point { x: (p.x - 1) as i32, y: p.y };
    let east = Point { x: (p.x + 1) as i32, y: p.y };
    let north = Point { x: p.x, y: (p.y - 1) as i32 };
    let south = Point { x: p.x, y: (p.y + 1) as i32 };
    (if rect.spec_in_bounds(west) {
        seq![west]
    } else {
        Seq::empty()
    }) + (if rect.spec_in_bounds(east) {
        seq![east]
    } else {
        Seq::empty()
    }) + (if rect.spec_in_bounds(north) {
        seq![north]
    } else {
        Seq::empty()
    }) + (if rect.spec_in_bounds(south) {
        seq![south]
    } else {
        Seq::empty()
    })
}

/// The enterable cells among a sequence of in-bounds points, as indices.
pub open spec fn exits_of_points(tiles: Seq<TileType>, rect: IRect, pts: Seq<Point>) -> Seq<int>
    decreases pts.len(),
{
    if pts.len() == 0 {
        Seq::empty()
    } else {
        exits_of_points(tiles, rect, pts.drop_last()) + (
        if rect.spec_in_bounds(pts.last()) && dijkstra::enterable_idx(
            tiles,
            rect.spec_point_to_index(pts.last()),
        ) {
            seq![rect.spec_point_to_index(pts.last())]
        } else {
            Seq::empty()
        })
    }
}

pub proof fn lemma_exits_of_points_push(
    tiles: Seq<TileType>,
    rect: IRect,
    pts: Seq<Point>,
    p: Point,
)
    ensures
        exits_of_points(tiles, rect, pts.push(p)) == exits_of_points(tiles, rect, pts) + (
        if rect.spec_in_bounds(p) && dijkstra::enterable_idx(tiles, rect.spec_point_to_index(p)) {
            seq![rect.spec_point_to_index(p)]
        } else {
            Seq::empty()
        }),
{
    assert(pts.push(p).drop_last() =~= pts);
    assert(pts.push(p).last() == p);
}

/// The enterable exits of cell `i`, in west, east, north, south order.
pub open spec fn spec_exits(tiles: Seq<TileType>, rect: IRect, i: int) -> Seq<int> {
    exits_of_points(tiles, rect, spec_neighbors(rect, rect.spec_index_to_point(i)))
}

/// Every entry of `spec_neighbors(rect, p)` is in bounds and adjacent to `p`,
/// and its index round-trips.
pub proof fn lemma_neighbors_are_adjacent(rect: IRect, p: Point, k: int)
    requires
        rect.wf(),
        i32::MIN < rect.x1,
        rect.x2 < i32::MAX,
        i32::MIN < rect.y1,
        rect.y2 < i32::MAX,
        rect.spec_in_bounds(p),
        0 <= k < spec_neighbors(rect, p).len(),
    ensures
        rect.spec_in_bounds(spec_neighbors(rect, p)[k]),
        dijkstra::points_adjacent(p, spec_neighbors(rect, p)[k]),
        dijkstra::idx_adjacent(
            rect,
            rect.spec_point_to_index(p),
            rect.spec_point_to_index(spec_neighbors(rect, p)[k]),
        ),
{
    let q = spec_neighbors(rect, p)[k];
    lemma_point_to_index_bounds(rect, p);
    lemma_point_index_round_trip(rect, p);
    let west = Point { x: (p.x - 1) as i32, y: p.y };
    let east = Point { x: (p.x + 1) as i32, y: p.y };
    let north = Point { x: p.x, y: (p.y - 1) as i32 };
    let south = Point { x: p.x, y: (p.y + 1) as i32 };
    assert(i32::MIN <= p.x - 1 && p.x + 1 <= i32::MAX && i32::MIN <= p.y - 1 && p.y + 1
        <= i32::MAX);
    assert(dijkstra::points_adjacent(p, west));
    assert(dijkstra::points_adjacent(p, east));
    assert(dijkstra::points_adjacent(p, north));
    assert(dijkstra::points_adjacent(p, south));
    assert(q == west || q == east || q == north || q == south);
    assert(rect.spec_in_bounds(q) && dijkstra::points_adjacent(p, q));
    lemma_point_to_index_bounds(rect, q);
    lemma_point_index_round_trip(rect, q);
}

/// Every in-bounds cardinal neighbor of `p` appears in `spec_neighbors`.
pub proof fn lemma_neighbors_complete(rect: IRect, p: Point, q: Point)
    requires
        rect.wf(),
        rect.spec_in_bounds(p),
        rect.spec_in_bounds(q),
        dijkstra::points_adjacent(p, q),
    ensures
        spec_neighbors(rect, p).contains(q),
{
    let s = spec_neighbors(rect, p);
    let west = Point { x: (p.x - 1) as i32, y: p.y };
    let east = Point { x: (p.x + 1) as i32, y: p.y };
    let north = Point { x: p.x, y: (p.y - 1) as i32 };
    let south = Point { x: p.x, y: (p.y + 1) as i32 };
    if q.y == p.y && q.x == p.x - 1 {
        assert(i32::MIN <= p.x - 1 <= i32::MAX);
        assert(q == west);
    } else if q.y == p.y && q.x == p.x + 1 {
        assert(i32::MIN <= p.x + 1 <= i32::MAX);
        assert(q == east);
    } else if q.x == p.x && q.y == p.y - 1 {
        assert(i32::MIN <= p.y - 1 <= i32::MAX);
        assert(q == north);
    } else {
        assert(q.x == p.x && q.y == p.y + 1);
        assert(i32::MIN <= p.y + 1 <= i32::MAX);
        assert(q == south);
    }
    assert(q == west || q == east || q == north || q == south);
    if q == west {
        assert(s[0] == west);
    } else if q == east {
        let off = if rect.spec_in_bounds(west) {
            1int
        } else {
            0int
        };
        assert(s[off] == east);
    } else if q == north {
        let off = (if rect.spec_in_bounds(west) {
            1int
        } else {
            0int
        }) + (if rect.spec_in_bounds(east) {
            1int
        } else {
            0int
        });
        assert(s[off] == north);
    } else {
        let off = (if rect.spec_in_bounds(west) {
            1int
        } else {
            0int
        }) + (if rect.spec_in_bounds(east) {
            1int
        } else {
            0int
        }) + (if rect.spec_in_bounds(north) {
            1int
        } else {
            0int
        });
        assert(s[off] == south);
    }
}

} // verus!
