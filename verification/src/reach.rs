//! Path-based reachability on the grid, and what a distance field says
//! about it: a cell's recorded distance is finite exactly when a path of
//! enterable cells of that length leads to it from a source, so the field
//! is the exact shortest-path distance and is unique.

use vstd::prelude::*;

use crate::dijkstra::UNREACHABLE;
use crate::dijkstra::enterable_idx;
use crate::dijkstra::finite_dist;
use crate::dijkstra::idx_adjacent;
use crate::dijkstra::is_distance_field;
use crate::map::TileType;
use crate::point::Point;
use crate::rect::IRect;

verus! {

/// A walk over cell indices: consecutive cells are 4-connected and every
/// cell after the first is enterable (the first may be any cell, matching
/// a search that starts from an arbitrary source).
pub open spec fn is_path(tiles: Seq<TileType>, rect: IRect, path: Seq<int>) -> bool {
    &&& path.len() >= 1
    &&& forall|k: int|
        0 <= k < path.len() - 1 ==> idx_adjacent(rect, #[trigger] path[k], path[k + 1])
    &&& forall|k: int| 1 <= k < path.len() ==> enterable_idx(tiles, #[trigger] path[k])
}

pub open spec fn connects(
    tiles: Seq<TileType>,
    rect: IRect,
    path: Seq<int>,
    src: int,
    dst: int,
) -> bool {
    is_path(tiles, rect, path) && path.first() == src && path.last() == dst
}

pub open spec fn reachable(tiles: Seq<TileType>, rect: IRect, src: int, dst: int) -> bool {
    exists|path: Seq<int>| connects(tiles, rect, path, src, dst)
}

/// Reachable by a path of at most `depth` steps.
pub open spec fn reachable_within(
    tiles: Seq<TileType>,
    rect: IRect,
    src: int,
    dst: int,
    depth: int,
) -> bool {
    exists|path: Seq<int>|
        connects(tiles, rect, path, src, dst) && path.len() <= depth + 1
}

pub proof fn lemma_within_implies_reachable(
    tiles: Seq<TileType>,
    rect: IRect,
    src: int,
    dst: int,
    depth: int,
)
    requires
        reachable_within(tiles, rect, src, dst, depth),
    ensures
        reachable(tiles, rect, src, dst),
{
    let p = choose|p: Seq<int>| connects(tiles, rect, p, src, dst) && p.len() <= depth + 1;
    assert(connects(tiles, rect, p, src, dst));
}

pub proof fn lemma_reach_self(tiles: Seq<TileType>, rect: IRect, i: int)
    ensures
        reachable(tiles, rect, i, i),
{
    let path = seq![i];
    assert(connects(tiles, rect, path, i, i));
}

pub proof fn lemma_reach_trans(tiles: Seq<TileType>, rect: IRect, a: int, b: int, c: int)
    requires
        reachable(tiles, rect, a, b),
        reachable(tiles, rect, b, c),
    ensures
        reachable(tiles, rect, a, c),
{
    let p1 = choose|p: Seq<int>| connects(tiles, rect, p, a, b);
    let p2 = choose|p: Seq<int>| connects(tiles, rect, p, b, c);
    if p2.len() == 1 {
        assert(b == c);
        assert(connects(tiles, rect, p1, a, c));
    } else {
        let q = p1 + p2.subrange(1, p2.len() as int);
        assert(q.first() == a);
        assert(q.last() == p2[p2.len() - 1]);
        assert forall|k: int| 0 <= k < q.len() - 1 implies idx_adjacent(
            rect,
            #[trigger] q[k],
            q[k + 1],
        ) by {
            if k < p1.len() - 1 {
                assert(q[k] == p1[k] && q[k + 1] == p1[k + 1]);
            } else if k == p1.len() - 1 {
                assert(q[k] == p1.last() && q[k + 1] == p2[1]);
                assert(p1.last() == p2[0]);
                assert(idx_adjacent(rect, p2[0], p2[1]));
            } else {
                assert(q[k] == p2[k - p1.len() + 1] && q[k + 1] == p2[k - p1.len() + 2]);
            }
        }
        assert forall|k: int| 1 <= k < q.len() implies enterable_idx(tiles, #[trigger] q[k]) by {
            if k < p1.len() {
                assert(q[k] == p1[k]);
            } else {
                assert(q[k] == p2[k - p1.len() + 1]);
            }
        }
        assert(connects(tiles, rect, q, a, c));
    }
}

/// Every cell along a walk from `src` is reachable from `src`.
pub proof fn lemma_reach_prefix(tiles: Seq<TileType>, rect: IRect, path: Seq<int>, k: int)
    requires
        is_path(tiles, rect, path),
        0 <= k < path.len(),
    ensures
        reachable(tiles, rect, path.first(), path[k]),
{
    let q = path.subrange(0, k + 1);
    assert(q.first() == path.first() && q.last() == path[k]);
    assert(connects(tiles, rect, q, path.first(), path[k]));
}

/// Carving tiles never breaks a walk: if every cell walkable before stays
/// walkable after, reachability is preserved.
pub proof fn lemma_reach_mono(
    t1: Seq<TileType>,
    t2: Seq<TileType>,
    rect: IRect,
    src: int,
    dst: int,
)
    requires
        t1.len() == t2.len(),
        forall|i: int|
            0 <= i < t1.len() && crate::dijkstra::tile_walkable(#[trigger] t1[i])
                ==> crate::dijkstra::tile_walkable(t2[i]),
        reachable(t1, rect, src, dst),
    ensures
        reachable(t2, rect, src, dst),
{
    let p = choose|p: Seq<int>| connects(t1, rect, p, src, dst);
    assert forall|k: int| 1 <= k < p.len() implies enterable_idx(t2, #[trigger] p[k]) by {
        assert(enterable_idx(t1, p[k]));
    }
    assert(connects(t2, rect, p, src, dst));
}

/// A duplicate-free sequence of cell indices has at most `n` entries.
proof fn lemma_distinct_ints_bounded(q: Seq<int>, n: int)
    requires
        n >= 0,
        forall|k: int| 0 <= k < q.len() ==> 0 <= #[trigger] q[k] < n,
        forall|k1: int, k2: int| 0 <= k1 < k2 < q.len() ==> q[k1] != q[k2],
    ensures
        q.len() <= n,
{
    assert(q.no_duplicates());
    q.unique_seq_to_set();
    vstd::set_lib::lemma_int_range(0, n);
    assert(q.to_set().subset_of(vstd::set_lib::set_int_range(0, n))) by {
        assert forall|x: int| q.to_set().contains(x) implies vstd::set_lib::set_int_range(
            0,
            n,
        ).contains(x) by {
            let k = choose|k: int| 0 <= k < q.len() && q[k] == x;
        }
    }
    vstd::set_lib::lemma_len_subset(q.to_set(), vstd::set_lib::set_int_range(0, n));
}

/// A reachable cell is reachable by a duplicate-free walk, hence within
/// `count - 1` steps.
pub proof fn lemma_reachable_within_count(tiles: Seq<TileType>, rect: IRect, src: int, dst: int)
    requires
        reachable(tiles, rect, src, dst),
        0 <= src < rect.spec_count(),
        tiles.len() == rect.spec_count(),
    ensures
        reachable_within(tiles, rect, src, dst, rect.spec_count() - 1),
{
    let p = choose|p: Seq<int>| connects(tiles, rect, p, src, dst);
    lemma_shorten_path(tiles, rect, p, src, dst);
}

#[verifier::rlimit(60)]
proof fn lemma_shorten_path(tiles: Seq<TileType>, rect: IRect, p: Seq<int>, src: int, dst: int)
    requires
        connects(tiles, rect, p, src, dst),
        0 <= src < rect.spec_count(),
        tiles.len() == rect.spec_count(),
    ensures
        reachable_within(tiles, rect, src, dst, rect.spec_count() - 1),
    decreases p.len(),
{
    if forall|k1: int, k2: int| 0 <= k1 < k2 < p.len() ==> p[k1] != p[k2] {
        assert forall|k: int| 0 <= k < p.len() implies 0 <= #[trigger] p[k] < rect.spec_count() by {
            if k == 0 {
                assert(p[k] == src);
            } else {
                assert(enterable_idx(tiles, p[k]));
            }
        }
        lemma_distinct_ints_bounded(p, rect.spec_count());
        assert(connects(tiles, rect, p, src, dst) && p.len() <= (rect.spec_count() - 1) + 1);
    } else {
        let (k1, k2) = choose|k1: int, k2: int| 0 <= k1 < k2 < p.len() && p[k1] == p[k2];
        let q = p.subrange(0, k1 + 1) + p.subrange(k2 + 1, p.len() as int);
        assert(q.first() == p[0]);
        assert(q.len() < p.len());
        assert(q.last() == dst) by {
            if k2 + 1 < p.len() {
                assert(q.last() == p[p.len() - 1]);
            } else {
                assert(q.last() == p[k1]);
                assert(p[k1] == p[k2] && p[k2] == p[p.len() - 1]);
            }
        }
        assert forall|k: int| 0 <= k < q.len() - 1 implies idx_adjacent(
            rect,
            #[trigger] q[k],
            q[k + 1],
        ) by {
            if k < k1 {
                assert(q[k] == p[k] && q[k + 1] == p[k + 1]);
            } else if k == k1 {
                assert(q[k] == p[k1] && p[k1] == p[k2]);
                assert(q[k + 1] == p[k2 + 1]);
                assert(idx_adjacent(rect, p[k2], p[k2 + 1]));
            } else {
                assert(q[k] == p[k - k1 + k2] && q[k + 1] == p[k - k1 + k2 + 1]);
            }
        }
        assert forall|k: int| 1 <= k < q.len() implies enterable_idx(tiles, #[trigger] q[k]) by {
            if k <= k1 {
                assert(q[k] == p[k]);
            } else {
                assert(q[k] == p[k - k1 + k2]);
            }
        }
        assert(connects(tiles, rect, q, src, dst));
        lemma_shorten_path(tiles, rect, q, src, dst);
    }
}

/// Soundness of a distance field: a finite recorded distance is witnessed
/// by a walk of exactly that many steps from one of the sources.
pub proof fn lemma_field_sound(
    tiles: Seq<TileType>,
    rect: IRect,
    starts: Seq<int>,
    depth: int,
    field: Seq<usize>,
    i: int,
)
    requires
        is_distance_field(tiles, rect, starts, depth, field),
        0 <= i < field.len(),
        finite_dist(field[i]),
    ensures
        exists|s: int|
            #[trigger] starts.contains(s) && reachable_within(
                tiles,
                rect,
                s,
                i,
                field[i] as int,
            ),
    decreases field[i],
{
    if field[i] == 0 {
        assert(starts.contains(i));
        let path = seq![i];
        assert(connects(tiles, rect, path, i, i) && path.len() <= field[i] + 1);
        assert(reachable_within(tiles, rect, i, i, field[i] as int));
    } else {
        let j = choose|j: int|
            idx_adjacent(rect, j, i) && finite_dist(#[trigger] field[j]) && field[j] + 1
                == field[i];
        lemma_field_sound(tiles, rect, starts, depth, field, j);
        let s = choose|s: int|
            #[trigger] starts.contains(s) && reachable_within(
                tiles,
                rect,
                s,
                j,
                field[j] as int,
            );
        let p = choose|p: Seq<int>|
            connects(tiles, rect, p, s, j) && p.len() <= field[j] + 1;
        let q = p.push(i);
        assert(q.first() == s && q.last() == i);
        assert forall|k: int| 0 <= k < q.len() - 1 implies idx_adjacent(
            rect,
            #[trigger] q[k],
            q[k + 1],
        ) by {
            if k == q.len() - 2 {
                assert(q[k] == p.last() && q[k + 1] == i);
            } else {
                assert(q[k] == p[k] && q[k + 1] == p[k + 1]);
            }
        }
        assert forall|k: int| 1 <= k < q.len() implies enterable_idx(tiles, #[trigger] q[k]) by {
            if k < q.len() - 1 {
                assert(q[k] == p[k]);
            } else {
                assert(q[k] == i);
            }
        }
        assert(connects(tiles, rect, q, s, i) && q.len() <= field[i] + 1);
        assert(reachable_within(tiles, rect, s, i, field[i] as int));
    }
}

/// Completeness of a distance field: every walk from a source whose length
/// stays within the depth cutoff settles its endpoint at no more than the
/// walk's step count.
pub proof fn lemma_field_complete(
    tiles: Seq<TileType>,
    rect: IRect,
    starts: Seq<int>,
    depth: int,
    field: Seq<usize>,
    path: Seq<int>,
)
    requires
        is_distance_field(tiles, rect, starts, depth, field),
        is_path(tiles, rect, path),
        starts.contains(path.first()),
        path.len() <= depth + 1,
    ensures
        0 <= path.last() < field.len(),
        finite_dist(field[path.last()]),
        field[path.last()] <= path.len() - 1,
    decreases path.len(),
{
    let k0 = choose|k: int| 0 <= k < starts.len() && starts[k] == path.first();
    assert(field[path.first()] == 0);
    if path.len() == 1 {
        assert(field[path.last()] == 0);
        assert(finite_dist(field[path.last()])) by {
            assert(0 <= depth);
            assert(field[path.last()] != UNREACHABLE);
        }
    } else {
        let p = path.drop_last();
        assert(p.first() == path.first());
        assert(is_path(tiles, rect, p)) by {
            assert forall|k: int| 0 <= k < p.len() - 1 implies idx_adjacent(
                rect,
                #[trigger] p[k],
                p[k + 1],
            ) by {
                assert(p[k] == path[k] && p[k + 1] == path[k + 1]);
            }
            assert forall|k: int| 1 <= k < p.len() implies enterable_idx(
                tiles,
                #[trigger] p[k],
            ) by {
                assert(p[k] == path[k]);
            }
        }
        lemma_field_complete(tiles, rect, starts, depth, field, p);
        let j = p.last();
        let i = path.last();
        assert(idx_adjacent(rect, j, i)) by {
            assert(path[path.len() - 2] == j && path[path.len() - 1] == i);
        }
        assert(enterable_idx(tiles, i));
        assert(field[j] + 1 <= depth);
        assert(finite_dist(field[i]) && field[i] <= field[j] + 1);
    }
}

/// Two distance fields of the same tiles, sources and depth agree
/// everywhere: the characterization pins the field down uniquely.
pub proof fn lemma_field_unique(
    tiles: Seq<TileType>,
    rect: IRect,
    starts: Seq<int>,
    depth: int,
    f1: Seq<usize>,
    f2: Seq<usize>,
)
    requires
        is_distance_field(tiles, rect, starts, depth, f1),
        is_distance_field(tiles, rect, starts, depth, f2),
    ensures
        f1 == f2,
{
    assert forall|i: int| 0 <= i < f1.len() implies f1[i] == f2[i] by {
        lemma_field_le(tiles, rect, starts, depth, f1, f2, i);
        lemma_field_le(tiles, rect, starts, depth, f2, f1, i);
        if finite_dist(f1[i]) || finite_dist(f2[i]) {
            assert(f1[i] == f2[i]);
        } else {
            assert(f1[i] == UNREACHABLE && f2[i] == UNREACHABLE);
        }
    }
    assert(f1 =~= f2);
}

proof fn lemma_field_le(
    tiles: Seq<TileType>,
    rect: IRect,
    starts: Seq<int>,
    depth: int,
    f1: Seq<usize>,
    f2: Seq<usize>,
    i: int,
)
    requires
        is_distance_field(tiles, rect, starts, depth, f1),
        is_distance_field(tiles, rect, starts, depth, f2),
        0 <= i < f1.len(),
    ensures
        finite_dist(f1[i]) ==> finite_dist(f2[i]) && f2[i] <= f1[i],
{
    if finite_dist(f1[i]) {
        lemma_field_sound(tiles, rect, starts, depth, f1, i);
        let s = choose|s: int|
            #[trigger] starts.contains(s) && reachable_within(tiles, rect, s, i, f1[i] as int);
        let p = choose|p: Seq<int>| connects(tiles, rect, p, s, i) && p.len() <= f1[i] + 1;
        lemma_field_complete(tiles, rect, starts, depth, f2, p);
    }
}

/// Manhattan distance between two points.
pub open spec fn manhattan(a: Point, b: Point) -> int {
    crate::point::spec_abs(a.x - b.x) + crate::point::spec_abs(a.y - b.y)
}

/// On an all-walkable grid there is a straight L-shaped walk between any
/// two cells whose length is exactly their Manhattan distance.
pub proof fn lemma_straight_path(tiles: Seq<TileType>, rect: IRect, a: int, b: int)
    requires
        rect.wf(),
        i32::MIN < rect.x1,
        rect.x2 < i32::MAX,
        i32::MIN < rect.y1,
        rect.y2 < i32::MAX,
        tiles.len() == rect.spec_count(),
        forall|k: int| 0 <= k < tiles.len() ==> crate::dijkstra::tile_walkable(#[trigger] tiles[k]),
        0 <= a < rect.spec_count(),
        0 <= b < rect.spec_count(),
    ensures
        exists|path: Seq<int>|
            connects(tiles, rect, path, a, b) && path.len() == manhattan(
                rect.spec_index_to_point(a),
                rect.spec_index_to_point(b),
            ) + 1,
    decreases manhattan(rect.spec_index_to_point(a), rect.spec_index_to_point(b)),
{
    let pa = rect.spec_index_to_point(a);
    let pb = rect.spec_index_to_point(b);
    crate::rect::lemma_index_to_point_bounds(rect, a);
    crate::rect::lemma_index_to_point_bounds(rect, b);
    crate::rect::lemma_index_point_round_trip(rect, a);
    crate::rect::lemma_index_point_round_trip(rect, b);
    if pa == pb {
        assert(a == b);
        let path = seq![a];
        assert(connects(tiles, rect, path, a, b) && path.len() == manhattan(pa, pb) + 1);
    } else {
        let step = if pa.x < pb.x {
            Point { x: (pa.x + 1) as i32, y: pa.y }
        } else if pa.x > pb.x {
            Point { x: (pa.x - 1) as i32, y: pa.y }
        } else if pa.y < pb.y {
            Point { x: pa.x, y: (pa.y + 1) as i32 }
        } else {
            Point { x: pa.x, y: (pa.y - 1) as i32 }
        };
        assert(rect.spec_in_bounds(step));
        crate::rect::lemma_point_to_index_bounds(rect, step);
        crate::rect::lemma_point_index_round_trip(rect, step);
        let c = rect.spec_point_to_index(step);
        assert(manhattan(step, pb) == manhattan(pa, pb) - 1);
        lemma_straight_path(tiles, rect, c, b);
        let p = choose|p: Seq<int>|
            connects(tiles, rect, p, c, b) && p.len() == manhattan(
                rect.spec_index_to_point(c),
                rect.spec_index_to_point(b),
            ) + 1;
        let q = seq![a] + p;
        assert(q.last() == b);
        assert(crate::dijkstra::idx_adjacent(rect, a, c)) by {
            assert(crate::dijkstra::points_adjacent(pa, step));
        }
        assert forall|k: int| 0 <= k < q.len() - 1 implies crate::dijkstra::idx_adjacent(
            rect,
            #[trigger] q[k],
            q[k + 1],
        ) by {
            if k == 0 {
                assert(q[0] == a && q[1] == p[0]);
            } else {
                assert(q[k] == p[k - 1] && q[k + 1] == p[k]);
            }
        }
        assert forall|k: int| 1 <= k < q.len() implies crate::dijkstra::enterable_idx(
            tiles,
            #[trigger] q[k],
        ) by {
            assert(q[k] == p[k - 1]);
            if k == 1 {
                assert(p[0] == c);
            } else {
                assert(crate::dijkstra::enterable_idx(tiles, p[k - 1]));
            }
        }
        assert(connects(tiles, rect, q, a, b) && q.len() == manhattan(pa, pb) + 1);
    }
}

/// A walk cannot beat the Manhattan distance between its endpoints.
pub proof fn lemma_path_manhattan(tiles: Seq<TileType>, rect: IRect, path: Seq<int>)
    requires
        rect.wf(),
        is_path(tiles, rect, path),
        0 <= path.first() < rect.spec_count(),
    ensures
        manhattan(
            rect.spec_index_to_point(path.first()),
            rect.spec_index_to_point(path.last()),
        ) <= path.len() - 1,
    decreases path.len(),
{
    if path.len() > 1 {
        let p = path.drop_last();
        assert(is_path(tiles, rect, p)) by {
            assert(forall|k: int|
                0 <= k < p.len() - 1 ==> crate::dijkstra::idx_adjacent(
                    rect,
                    #[trigger] p[k],
                    p[k + 1],
                ));
            assert(forall|k: int|
                1 <= k < p.len() ==> crate::dijkstra::enterable_idx(tiles, #[trigger] p[k]));
        }
        lemma_path_manhattan(tiles, rect, p);
        let j = p.last();
        let i = path.last();
        assert(crate::dijkstra::idx_adjacent(rect, j, i)) by {
            assert(path[path.len() - 2] == j && path[path.len() - 1] == i);
        }
        assert(manhattan(rect.spec_index_to_point(j), rect.spec_index_to_point(i)) == 1);
    }
}

/// On an open (all-walkable) map, a distance field from a single source
/// records exactly the Manhattan distance for every cell within the depth
/// cutoff: with a uniform step cost of one on a 4-connected grid, the
/// shortest-path distance is the Manhattan distance.
pub proof fn lemma_open_floor_manhattan(
    tiles: Seq<TileType>,
    rect: IRect,
    s: int,
    depth: int,
    field: Seq<usize>,
    i: int,
)
    requires
        rect.wf(),
        i32::MIN < rect.x1,
        rect.x2 < i32::MAX,
        i32::MIN < rect.y1,
        rect.y2 < i32::MAX,
        tiles.len() == rect.spec_count(),
        forall|k: int| 0 <= k < tiles.len() ==> crate::dijkstra::tile_walkable(#[trigger] tiles[k]),
        is_distance_field(tiles, rect, seq![s], depth, field),
        0 <= s < rect.spec_count(),
        0 <= i < rect.spec_count(),
        manhattan(rect.spec_index_to_point(s), rect.spec_index_to_point(i)) <= depth,
    ensures
        finite_dist(field[i]),
        field[i] == manhattan(rect.spec_index_to_point(s), rect.spec_index_to_point(i)),
{
    let ps = rect.spec_index_to_point(s);
    let pi = rect.spec_index_to_point(i);
    // upper bound: the straight walk settles the cell at Manhattan distance
    lemma_straight_path(tiles, rect, s, i);
    let p = choose|p: Seq<int>|
        connects(tiles, rect, p, s, i) && p.len() == manhattan(ps, pi) + 1;
    assert(seq![s].contains(p.first())) by {
        assert(seq![s][0] == s);
    }
    lemma_field_complete(tiles, rect, seq![s], depth, field, p);
    assert(finite_dist(field[i]) && field[i] <= manhattan(ps, pi));
    // lower bound: no walk beats the Manhattan distance
    lemma_field_sound(tiles, rect, seq![s], depth, field, i);
    let s2 = choose|s2: int|
        #[trigger] seq![s].contains(s2) && reachable_within(tiles, rect, s2, i, field[i] as int);
    assert(s2 == s);
    let q = choose|q: Seq<int>| connects(tiles, rect, q, s, i) && q.len() <= field[i] + 1;
    lemma_path_manhattan(tiles, rect, q);
}

/// Carving Floor into a cell and then restoring the cell's original tile
/// restores the distance field: the map round-trips to its original tiles,
/// so any field computed after the round trip agrees everywhere with any
/// field computed before it.
pub proof fn lemma_carve_round_trip(
    tiles: Seq<TileType>,
    rect: IRect,
    c: int,
    starts: Seq<int>,
    depth: int,
    f1: Seq<usize>,
    f2: Seq<usize>,
)
    requires
        0 <= c < tiles.len(),
        is_distance_field(tiles, rect, starts, depth, f1),
        is_distance_field(
            tiles.update(c, TileType::Floor).update(c, tiles[c]),
            rect,
            starts,
            depth,
            f2,
        ),
    ensures
        f1 == f2,
{
    assert(tiles.update(c, TileType::Floor).update(c, tiles[c]) =~= tiles);
    lemma_field_unique(tiles, rect, starts, depth, f1, f2);
}

} // verus!
