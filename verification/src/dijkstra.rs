//! The distance field: minimum accumulated movement cost from a set of source
//! cells to every cell of the grid, on 4-connected neighbors with unit step
//! cost, cut off at a maximum depth. With uniform costs the min-first
//! priority frontier of a weighted search degenerates to a plain FIFO
//! frontier, which is what this implementation uses.

use vstd::prelude::*;

use crate::map::GridMap;
use crate::map::TileType;
use crate::map::spec_exits;
use crate::point::Point;
use crate::rect::IRect;

verus! {

/// Sentinel distance of a cell not reached within the depth cutoff;
/// treated as effectively infinite.
pub const UNREACHABLE: usize = usize::MAX;

/// A walkable tile: Floor and Exit are traversable, only Wall blocks.
pub open spec fn tile_walkable(t: TileType) -> bool {
    t is Floor || t is Exit
}

/// Cell index `i` may be entered (it is on the grid and walkable).
pub open spec fn enterable_idx(tiles: Seq<TileType>, i: int) -> bool {
    0 <= i < tiles.len() && tile_walkable(tiles[i])
}

/// Two points are 4-connected neighbors.
pub open spec fn points_adjacent(a: Point, b: Point) -> bool {
    ||| (a.x == b.x && (a.y == b.y + 1 || a.y + 1 == b.y))
    ||| (a.y == b.y && (a.x == b.x + 1 || a.x + 1 == b.x))
}

/// Two cell indices are 4-connected neighbors on the grid of `rect`.
pub open spec fn idx_adjacent(rect: IRect, i: int, j: int) -> bool {
    &&& 0 <= i < rect.spec_count()
    &&& 0 <= j < rect.spec_count()
    &&& points_adjacent(rect.spec_index_to_point(i), rect.spec_index_to_point(j))
}

pub open spec fn finite_dist(d: usize) -> bool {
    d != UNREACHABLE
}

/// What the breadth-first expansion guarantees of its output `field`:
/// sources sit at distance 0, every other finite cell is an enterable cell
/// one step further than some finite neighbor (so finite values are exact
/// path lengths from a source), and every finite cell's enterable neighbors
/// within the depth cutoff have been settled no more than one step later
/// (so no cell reachable within the cutoff is left unreached).
pub open spec fn is_distance_field(
    tiles: Seq<TileType>,
    rect: IRect,
    starts: Seq<int>,
    depth: int,
    field: Seq<usize>,
) -> bool {
    &&& field.len() == rect.spec_count()
    &&& tiles.len() == rect.spec_count()
    &&& forall|i: int|
        0 <= i < field.len() && finite_dist(#[trigger] field[i]) ==> field[i] <= depth
    &&& forall|k: int|
        0 <= k < starts.len() ==> 0 <= #[trigger] starts[k] < field.len() && field[starts[k]]
            == 0
    &&& forall|i: int|
        0 <= i < field.len() && finite_dist(#[trigger] field[i]) && field[i] == 0
            ==> starts.contains(i)
    &&& forall|i: int|
        0 <= i < field.len() && finite_dist(#[trigger] field[i]) && field[i] > 0 ==> {
            &&& enterable_idx(tiles, i)
            &&& exists|j: int|
                idx_adjacent(rect, j, i) && finite_dist(#[trigger] field[j]) && field[j] + 1
                    == field[i]
        }
    &&& forall|i: int, j: int|
        0 <= i < field.len() && finite_dist(#[trigger] field[i]) && idx_adjacent(rect, i, j)
            && enterable_idx(tiles, j) && field[i] + 1 <= depth ==> finite_dist(
            #[trigger] field[j],
        ) && field[j] <= field[i] + 1
}

/// A dense array of minimum accumulated cost from the nearest source cell,
/// or `UNREACHABLE` for cells not reached within the depth cutoff.
pub struct DijkstraMap {
    pub values: Vec<usize>,
}

/// A duplicate-free sequence of indices below `n` has at most `n` entries.
proof fn lemma_distinct_bounded_len(q: Seq<usize>, n: int)
    requires
        n >= 0,
        forall|k: int| 0 <= k < q.len() ==> (#[trigger] q[k]) < n,
        forall|k1: int, k2: int| 0 <= k1 < k2 < q.len() ==> q[k1] != q[k2],
    ensures
        q.len() <= n,
{
    let qi = q.map_values(|x: usize| x as int);
    assert(qi.no_duplicates());
    qi.unique_seq_to_set();
    vstd::set_lib::lemma_int_range(0, n);
    assert(qi.to_set().subset_of(vstd::set_lib::set_int_range(0, n))) by {
        assert forall|x: int| qi.to_set().contains(x) implies vstd::set_lib::set_int_range(
            0,
            n,
        ).contains(x) by {
            let k = choose|k: int| 0 <= k < qi.len() && qi[k] == x;
            assert(q[k] < n);
        }
    }
    vstd::set_lib::lemma_len_subset(qi.to_set(), vstd::set_lib::set_int_range(0, n));
}

/// The invariant of the breadth-first expansion. `queue[..head]` are the
/// processed cells, `queue[head..]` the pending frontier; a cell's distance
/// is finite exactly when it has been enqueued, and frontier distances are
/// nondecreasing and span at most one step.
pub open spec fn bfs_inv(
    tiles: Seq<TileType>,
    rect: IRect,
    starts: Seq<int>,
    depth: int,
    field: Seq<usize>,
    queue: Seq<usize>,
    head: int,
) -> bool {
    &&& field.len() == rect.spec_count()
    &&& tiles.len() == rect.spec_count()
    &&& 0 <= head <= queue.len()
    &&& forall|k: int|
        0 <= k < queue.len() ==> (#[trigger] queue[k]) < field.len() && finite_dist(
            field[queue[k] as int],
        )
    &&& forall|k1: int, k2: int| 0 <= k1 < k2 < queue.len() ==> queue[k1] != queue[k2]
    &&& forall|i: int|
        0 <= i < field.len() && finite_dist(#[trigger] field[i]) ==> exists|k: int|
            0 <= k < queue.len() && queue[k] == i
    &&& forall|i: int|
        0 <= i < field.len() && finite_dist(#[trigger] field[i]) ==> field[i] <= depth
    &&& forall|i: int|
        0 <= i < field.len() && finite_dist(#[trigger] field[i]) && field[i] == 0
            ==> starts.contains(i)
    &&& forall|k: int|
        0 <= k < starts.len() ==> 0 <= #[trigger] starts[k] < field.len() && field[starts[k]]
            == 0
    &&& forall|i: int|
        0 <= i < field.len() && finite_dist(#[trigger] field[i]) && field[i] > 0 ==> {
            &&& enterable_idx(tiles, i)
            &&& exists|j: int|
                idx_adjacent(rect, j, i) && finite_dist(#[trigger] field[j]) && field[j] + 1
                    == field[i]
        }
    &&& forall|k: int, j: int|
        0 <= k < head && idx_adjacent(rect, #[trigger] queue[k] as int, j) && enterable_idx(
            tiles,
            j,
        ) && field[queue[k] as int] + 1 <= depth ==> finite_dist(#[trigger] field[j]) && field[j]
            <= field[queue[k] as int] + 1
    &&& forall|k1: int, k2: int|
        0 <= k1 <= k2 < queue.len() ==> field[(#[trigger] queue[k1]) as int] <= field[(
        #[trigger] queue[k2]) as int]
    &&& forall|k: int|
        head <= k < queue.len() && head < queue.len() ==> field[(#[trigger] queue[k]) as int]
            <= field[queue[head as int] as int] + 1
}

impl DijkstraMap {
    /// Builds the distance field from the given source cells out to
    /// `max_depth`, on the 4-connected enterable cells of `map`.
    #[verifier::rlimit(60)]
    pub fn new(
        width: i32,
        height: i32,
        starts: &Vec<usize>,
        map: &GridMap,
        max_depth: usize,
    ) -> (r: Self)
        requires
            map.wf(),
            width == map.world_rect.spec_width(),
            height == map.world_rect.spec_height(),
            forall|k: int| 0 <= k < starts@.len() ==> (#[trigger] starts@[k]) < map.spec_count(),
            max_depth < UNREACHABLE,
        ensures
            is_distance_field(
                map.tiles@,
                map.world_rect,
                starts@.map_values(|s: usize| s as int),
                max_depth as int,
                r.values@,
            ),
            r.values@.len() == map.spec_count(),
    {
        let ghost tiles = map.tiles@;
        let ghost rect = map.world_rect;
        let ghost sstarts = starts@.map_values(|s: usize| s as int);
        let n = map.world_rect.max_index();
        let mut values: Vec<usize> = Vec::new();
        let mut i: usize = 0;
        while i < n
            invariant
                i <= n,
                values@ =~= Seq::new(i as nat, |k: int| UNREACHABLE),
            decreases n - i,
        {
            values.push(UNREACHABLE);
            i += 1;
        }
        let mut queue: Vec<usize> = Vec::new();
        let ghost head_g: int = 0;
        let mut s: usize = 0;
        while s < starts.len()
            invariant
                map.wf(),
                s <= starts@.len(),
                n == map.spec_count(),
                values@.len() == n,
                max_depth < UNREACHABLE,
                sstarts == starts@.map_values(|x: usize| x as int),
                forall|k: int|
                    0 <= k < starts@.len() ==> (#[trigger] starts@[k]) < map.spec_count(),
                forall|k: int|
                    0 <= k < s ==> 0 <= #[trigger] sstarts[k] < values@.len()
                        && values@[sstarts[k]] == 0,
                forall|i2: int|
                    0 <= i2 < values@.len() && finite_dist(#[trigger] values@[i2])
                        ==> values@[i2] == 0 && sstarts.contains(i2),
                forall|k: int|
                    0 <= k < queue@.len() ==> (#[trigger] queue@[k]) < values@.len() && finite_dist(
                        values@[queue@[k] as int],
                    ),
                forall|k1: int, k2: int| 0 <= k1 < k2 < queue@.len() ==> queue@[k1] != queue@[k2],
                forall|i2: int|
                    0 <= i2 < values@.len() && finite_dist(#[trigger] values@[i2]) ==> exists|k: int|
                        0 <= k < queue@.len() && queue@[k] == i2,
            decreases starts@.len() - s,
        {
            let st = starts[s];
            proof {
                assert(sstarts[s as int] == starts@[s as int] as int);
            }
            if values[st] == UNREACHABLE {
                let ghost vpre = values@;
                let ghost qpre = queue@;
                proof {
                    assert forall|k: int| 0 <= k < qpre.len() implies qpre[k] != st by {
                        assert(finite_dist(vpre[(#[trigger] qpre[k]) as int]));
                    }
                }
                values.set(st, 0);
                queue.push(st);
                proof {
                    assert(queue@[qpre.len() as int] == st);
                    assert forall|i2: int|
                        0 <= i2 < values@.len() && finite_dist(
                            #[trigger] values@[i2],
                        ) implies exists|k: int| 0 <= k < queue@.len() && queue@[k] == i2 by {
                        if i2 == st as int {
                            assert(queue@[qpre.len() as int] == i2);
                        } else {
                            let k = choose|k: int| 0 <= k < qpre.len() && qpre[k] == i2;
                            assert(queue@[k] == i2);
                        }
                    }
                }
            }
            s += 1;
        }
        assert(bfs_inv(tiles, rect, sstarts, max_depth as int, values@, queue@, 0));
        let mut head: usize = 0;
        while head < queue.len()
            invariant
                map.wf(),
                tiles == map.tiles@,
                rect == map.world_rect,
                n == map.spec_count(),
                values@.len() == n,
                max_depth < UNREACHABLE,
                head <= queue@.len(),
                bfs_inv(tiles, rect, sstarts, max_depth as int, values@, queue@, head as int),
            decreases n - head,
        {
            proof {
                lemma_distinct_bounded_len(queue@, n as int);
            }
            let i = queue[head];
            let d = values[i];
            head += 1;
            let exits = map.get_available_exits(i);
            if d < max_depth {
                let mut t: usize = 0;
                while t < exits.len()
                    invariant
                        map.wf(),
                        tiles == map.tiles@,
                        rect == map.world_rect,
                        n == map.spec_count(),
                        values@.len() == n,
                        max_depth < UNREACHABLE,
                        d < max_depth,
                        t <= exits@.len(),
                        head <= queue@.len(),
                        1 <= head,
                        queue@[head - 1] == i,
                        i < n,
                        values@[i as int] == d,
                        exits@.map_values(|e: usize| e as int) == spec_exits(
                            tiles,
                            rect,
                            i as int,
                        ),
                        forall|k: int|
                            0 <= k < exits@.len() ==> enterable_idx(
                                tiles,
                                #[trigger] exits@[k] as int,
                            ) && idx_adjacent(rect, i as int, exits@[k] as int),
                        forall|k: int|
                            0 <= k < t ==> finite_dist(values@[#[trigger] exits@[k] as int])
                                && values@[exits@[k] as int] <= d + 1,
                        bfs_inv(
                            tiles,
                            rect,
                            sstarts,
                            max_depth as int,
                            values@,
                            queue@,
                            head - 1,
                        ),
                        // everything pending or pushed this round stays within one step
                        forall|k: int|
                            head - 1 <= k < queue@.len() ==> field_at(values@, queue@, k) <= d + 1,
                        forall|k: int|
                            head - 1 <= k < queue@.len() ==> d <= field_at(values@, queue@, k),
                    decreases exits@.len() - t,
                {
                    let e = exits[t];
                    if values[e] == UNREACHABLE {
                        let ghost vpre = values@;
                        let ghost qpre = queue@;
                        proof {
                            assert forall|k: int| 0 <= k < qpre.len() implies qpre[k] != e by {
                                assert(finite_dist(vpre[(#[trigger] qpre[k]) as int]));
                            }
                        }
                        values.set(e, d + 1);
                        queue.push(e);
                        proof {
                            assert(values@ == vpre.update(e as int, (d + 1) as usize));
                            assert(queue@ == qpre.push(e));
                            assert(queue@[qpre.len() as int] == e);
                            // the newly settled cell has `i` as a one-step predecessor
                            assert forall|i2: int|
                                0 <= i2 < values@.len() && finite_dist(#[trigger] values@[i2])
                                    && values@[i2] > 0 implies {
                                &&& enterable_idx(tiles, i2)
                                &&& exists|j: int|
                                    idx_adjacent(rect, j, i2) && finite_dist(#[trigger] values@[j])
                                        && values@[j] + 1 == values@[i2]
                            } by {
                                if i2 == e as int {
                                    assert(idx_adjacent(rect, i as int, i2) && finite_dist(
                                        values@[i as int],
                                    ) && values@[i as int] + 1 == values@[i2]);
                                } else {
                                    assert(finite_dist(vpre[i2]) && vpre[i2] > 0);
                                    let j = choose|j: int|
                                        idx_adjacent(rect, j, i2) && finite_dist(
                                            #[trigger] vpre[j],
                                        ) && vpre[j] + 1 == vpre[i2];
                                    assert(vpre[e as int] == UNREACHABLE);
                                    assert(j != e as int);
                                    assert(idx_adjacent(rect, j, i2) && finite_dist(values@[j])
                                        && values@[j] + 1 == values@[i2]);
                                }
                            }
                            // every finite cell is enqueued
                            assert forall|i2: int|
                                0 <= i2 < values@.len() && finite_dist(
                                    #[trigger] values@[i2],
                                ) implies exists|k: int|
                                0 <= k < queue@.len() && queue@[k] == i2 by {
                                if i2 == e as int {
                                    assert(queue@[qpre.len() as int] == i2);
                                } else {
                                    let k = choose|k: int|
                                        0 <= k < qpre.len() && qpre[k] == i2;
                                    assert(queue@[k] == i2);
                                }
                            }
                            // queue distances stay nondecreasing and within one step
                            assert forall|k1: int, k2: int|
                                0 <= k1 <= k2 < queue@.len() implies values@[(
                            #[trigger] queue@[k1]) as int] <= values@[(
                            #[trigger] queue@[k2]) as int] by {
                                if k2 == qpre.len() as int {
                                    if k1 < k2 {
                                        assert(queue@[k1] == qpre[k1]);
                                        if k1 <= head - 1 {
                                            assert(vpre[(qpre[k1]) as int] <= vpre[(qpre[head
                                                - 1]) as int]);
                                        } else {
                                            assert(field_at(vpre, qpre, k1) <= d + 1);
                                        }
                                    }
                                }
                            }
                            // processed cells remain closed
                            assert forall|k: int, j: int|
                                0 <= k < head - 1 && idx_adjacent(
                                    rect,
                                    (#[trigger] queue@[k]) as int,
                                    j,
                                ) && enterable_idx(tiles, j) && values@[queue@[k] as int] + 1
                                    <= max_depth implies finite_dist(#[trigger] values@[j])
                                && values@[j] <= values@[queue@[k] as int] + 1 by {
                                assert(queue@[k] == qpre[k]);
                                assert(values@[qpre[k] as int] == vpre[qpre[k] as int]);
                                assert(finite_dist(vpre[j]) && vpre[j] <= vpre[qpre[k] as int]
                                    + 1);
                                assert(j != e as int);
                            }
                        }
                    } else {
                        proof {
                            let k = choose|k: int|
                                0 <= k < queue@.len() && queue@[k] == e as int;
                            if k <= head - 1 {
                                assert(values@[(queue@[k]) as int] <= values@[(queue@[head
                                    - 1]) as int]);
                            } else {
                                assert(field_at(values@, queue@, k) <= d + 1);
                            }
                        }
                    }
                    t += 1;
                }
                proof {
                    lemma_processed_closed_step(
                        tiles,
                        rect,
                        sstarts,
                        max_depth as int,
                        values@,
                        queue@,
                        head as int,
                        i as int,
                        exits@,
                    );
                }
            } else {
                proof {
                    assert forall|k: int, j: int|
                        0 <= k < head && idx_adjacent(rect, #[trigger] queue@[k] as int, j)
                            && enterable_idx(tiles, j) && values@[queue@[k] as int] + 1
                            <= max_depth implies finite_dist(#[trigger] values@[j]) && values@[j]
                        <= values@[queue@[k] as int] + 1 by {
                        assert(k < head - 1);
                    }
                    assert forall|k: int|
                        head <= k < queue@.len() && head < queue@.len() implies values@[(
                    #[trigger] queue@[k]) as int] <= values@[queue@[head as int] as int] + 1 by {
                        assert(values@[(queue@[k]) as int] <= values@[(queue@[head - 1]) as int]
                            + 1);
                        assert(values@[(queue@[head - 1]) as int] <= values@[(
                        queue@[head as int]) as int]);
                    }
                }
            }
        }
        assert(is_distance_field(tiles, rect, sstarts, max_depth as int, values@)) by {
            assert forall|i2: int, j: int|
                0 <= i2 < values@.len() && finite_dist(#[trigger] values@[i2]) && idx_adjacent(
                    rect,
                    i2,
                    j,
                ) && enterable_idx(tiles, j) && values@[i2] + 1 <= max_depth implies finite_dist(
                #[trigger] values@[j],
            ) && values@[j] <= values@[i2] + 1 by {
                let k = choose|k: int| 0 <= k < queue@.len() && queue@[k] == i2;
            }
        }
        Self { values }
    }
}

impl DijkstraMap {
    /// The lowest-cost exit from a cell: among its enterable neighbors in
    /// west, east, north, south order, the first one holding the smallest
    /// finite distance; `None` when no neighbor has a finite distance.
    pub fn find_lowest_exit(&self, idx: usize, map: &GridMap) -> (r: Option<usize>)
        requires
            map.wf(),
            idx < map.spec_count(),
            self.values@.len() == map.spec_count(),
        ensures
            ({
                let exits = spec_exits(map.tiles@, map.world_rect, idx as int);
                match r {
                    Some(e) => {
                        &&& exits.contains(e as int)
                        &&& finite_dist(self.values@[e as int])
                        &&& forall|k: int|
                            0 <= k < exits.len() && finite_dist(
                                self.values@[#[trigger] exits[k]],
                            ) ==> self.values@[e as int] <= self.values@[exits[k]]
                        &&& exists|t: int|
                            0 <= t < exits.len() && exits[t] == e as int && forall|k: int|
                                0 <= k < t ==> !finite_dist(self.values@[#[trigger] exits[k]])
                                    || self.values@[e as int] < self.values@[exits[k]]
                    },
                    None => forall|k: int|
                        0 <= k < exits.len() ==> !finite_dist(self.values@[#[trigger] exits[k]]),
                }
            }),
    {
        let exits = map.get_available_exits(idx);
        let ghost sx = spec_exits(map.tiles@, map.world_rect, idx as int);
        let mut best: usize = 0;
        let mut best_set = false;
        let ghost mut best_t: int = 0;
        let mut k: usize = 0;
        while k < exits.len()
            invariant
                map.wf(),
                idx < map.spec_count(),
                self.values@.len() == map.spec_count(),
                k <= exits@.len(),
                sx == spec_exits(map.tiles@, map.world_rect, idx as int),
                exits@.map_values(|e: usize| e as int) == sx,
                forall|t: int|
                    0 <= t < exits@.len() ==> enterable_idx(
                        map.tiles@,
                        #[trigger] exits@[t] as int,
                    ),
                best_set ==> {
                    &&& 0 <= best_t < k
                    &&& sx[best_t] == best as int
                    &&& best < self.values@.len()
                    &&& finite_dist(self.values@[best as int])
                    &&& forall|t: int|
                        0 <= t < k && finite_dist(self.values@[#[trigger] sx[t]])
                            ==> self.values@[best as int] <= self.values@[sx[t]]
                    &&& forall|t: int|
                        0 <= t < best_t ==> !finite_dist(self.values@[#[trigger] sx[t]])
                            || self.values@[best as int] < self.values@[sx[t]]
                },
                !best_set ==> forall|t: int|
                    0 <= t < k ==> !finite_dist(self.values@[#[trigger] sx[t]]),
            decreases exits@.len() - k,
        {
            let e = exits[k];
            proof {
                assert(sx[k as int] == e as int);
            }
            let d = self.values[e];
            if d != UNREACHABLE {
                if !best_set {
                    best = e;
                    best_set = true;
                    proof {
                        best_t = k as int;
                    }
                } else if d < self.values[best] {
                    best = e;
                    proof {
                        best_t = k as int;
                    }
                }
            }
            k += 1;
        }
        if best_set {
            proof {
                assert(sx[best_t] == best as int);
            }
            Some(best)
        } else {
            None
        }
    }
}

/// The distance recorded for the queue entry at position `k`.
pub open spec fn field_at(field: Seq<usize>, queue: Seq<usize>, k: int) -> int {
    field[queue[k] as int] as int
}

/// After processing cell `i` (all of whose exits have been settled to at
/// most one step further), the processed-closed property extends to `i`.
proof fn lemma_processed_closed_step(
    tiles: Seq<TileType>,
    rect: IRect,
    starts: Seq<int>,
    depth: int,
    field: Seq<usize>,
    queue: Seq<usize>,
    head: int,
    i: int,
    exits: Seq<usize>,
)
    requires
        rect.wf(),
        rect.x1 == 0,
        rect.y1 == 0,
        rect.x2 < i32::MAX,
        rect.y2 < i32::MAX,
        bfs_inv(tiles, rect, starts, depth, field, queue, head - 1),
        1 <= head <= queue.len(),
        queue[head - 1] == i,
        0 <= i < field.len(),
        exits.map_values(|e: usize| e as int) == spec_exits(tiles, rect, i),
        forall|k: int|
            0 <= k < exits.len() ==> finite_dist(field[#[trigger] exits[k] as int])
                && field[exits[k] as int] <= field[i] + 1,
    ensures
        bfs_inv(tiles, rect, starts, depth, field, queue, head),
{
    assert forall|k: int, j: int|
        0 <= k < head && idx_adjacent(rect, #[trigger] queue[k] as int, j) && enterable_idx(
            tiles,
            j,
        ) && field[queue[k] as int] + 1 <= depth implies finite_dist(#[trigger] field[j])
        && field[j] <= field[queue[k] as int] + 1 by {
        if k == head - 1 {
            lemma_exits_complete_aux(tiles, rect, i, j);
            let t = choose|t: int|
                0 <= t < spec_exits(tiles, rect, i).len() && spec_exits(tiles, rect, i)[t] == j;
            assert(exits.map_values(|e: usize| e as int)[t] == j);
            assert(exits[t] as int == j);
            assert(finite_dist(field[exits[t] as int]));
        }
    }
    assert forall|k: int|
        head <= k < queue.len() && head < queue.len() implies field[(
    #[trigger] queue[k]) as int] <= field[queue[head as int] as int] + 1 by {
        assert(field[(queue[k]) as int] <= field[(queue[head - 1]) as int] + 1);
        assert(field[(queue[head - 1]) as int] <= field[(queue[head as int]) as int]);
    }
}

/// Any enterable neighbor of `i` appears among `spec_exits(tiles, rect, i)`.
proof fn lemma_exits_complete_aux(tiles: Seq<TileType>, rect: IRect, i: int, j: int)
    requires
        rect.wf(),
        rect.x1 == 0,
        rect.y1 == 0,
        rect.x2 < i32::MAX,
        rect.y2 < i32::MAX,
        tiles.len() == rect.spec_count(),
        idx_adjacent(rect, i, j),
        enterable_idx(tiles, j),
    ensures
        crate::map::spec_exits(tiles, rect, i).contains(j),
{
    let p = rect.spec_index_to_point(i);
    let q = rect.spec_index_to_point(j);
    crate::rect::lemma_index_to_point_bounds(rect, i);
    crate::rect::lemma_index_to_point_bounds(rect, j);
    crate::rect::lemma_index_point_round_trip(rect, j);
    crate::map::lemma_neighbors_complete(rect, p, q);
    let nbrs = crate::map::spec_neighbors(rect, p);
    let t = choose|t: int| 0 <= t < nbrs.len() && nbrs[t] == q;
    lemma_exits_of_points_at(tiles, rect, nbrs, t);
}

/// If `pts[t]` is in bounds and enterable, its index is among
/// `exits_of_points(tiles, rect, pts)`.
proof fn lemma_exits_of_points_at(tiles: Seq<TileType>, rect: IRect, pts: Seq<Point>, t: int)
    requires
        0 <= t < pts.len(),
        rect.spec_in_bounds(pts[t]),
        enterable_idx(tiles, rect.spec_point_to_index(pts[t])),
    ensures
        crate::map::exits_of_points(tiles, rect, pts).contains(rect.spec_point_to_index(pts[t])),
    decreases pts.len(),
{
    let whole = crate::map::exits_of_points(tiles, rect, pts);
    if t == pts.len() - 1 {
        let prefix = crate::map::exits_of_points(tiles, rect, pts.drop_last());
        assert(whole[prefix.len() as int] == rect.spec_point_to_index(pts[t]));
    } else {
        lemma_exits_of_points_at(tiles, rect, pts.drop_last(), t);
        let prefix = crate::map::exits_of_points(tiles, rect, pts.drop_last());
        let k = choose|k: int|
            0 <= k < prefix.len() && prefix[k] == rect.spec_point_to_index(pts.drop_last()[t]);
        assert(whole[k] == rect.spec_point_to_index(pts[t]));
    }
}

} // verus!
