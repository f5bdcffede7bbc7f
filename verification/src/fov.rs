//! Visibility by recursive shadowcasting, expressed with an explicit work
//! stack. The plane around the origin is split into four cardinal
//! quadrants; each quadrant scans rows of growing depth, narrowing a slope
//! interval with exact integer rational arithmetic (floating-point slopes
//! would leak single cells at the radius edge). Opacity lookups overscan
//! the radius by two cells so that walls just outside the radius still
//! occlude cells within it; the final reveal admits only points within true
//! Euclidean range of the origin, which yields a round field of view.

use vstd::prelude::*;

use crate::map::GridMap;
use crate::map::TileType;
use crate::map::MAX_DIM;
use crate::point::Point;
use crate::point::spec_squared_distance;

verus! {

/// Bound on slope numerators and denominators: a row's columns lie within
/// its depth, so `2 * col - 1` and `2 * depth` stay well below this.
pub const SLOPE_BOUND: i64 = 70000;

#[derive(Copy, Clone, PartialEq, Eq, Structural, Debug)]
pub enum Cardinal {
    North,
    South,
    East,
    West,
}

impl Cardinal {
    pub fn values() -> (r: Vec<Cardinal>)
        ensures
            r@ == seq![Cardinal::North, Cardinal::South, Cardinal::East, Cardinal::West],
    {
        let mut r: Vec<Cardinal> = Vec::new();
        r.push(Cardinal::North);
        r.push(Cardinal::South);
        r.push(Cardinal::East);
        r.push(Cardinal::West);
        proof {
            assert(r@ =~= seq![Cardinal::North, Cardinal::South, Cardinal::East, Cardinal::West]);
        }
        r
    }
}

/// An exact rational slope: `num / den` with `den > 0`.
#[derive(Clone, Copy)]
struct Slope {
    num: i64,
    den: i64,
}

impl Slope {
    spec fn wf(self) -> bool {
        0 < self.den <= SLOPE_BOUND && -SLOPE_BOUND <= self.num <= SLOPE_BOUND
    }
}

/// A row of a quadrant scan: cells at `depth` whose columns lie between the
/// two slopes.
#[derive(Clone, Copy)]
struct Row {
    depth: i32,
    start_slope: Slope,
    end_slope: Slope,
}

impl Row {
    spec fn wf(self) -> bool {
        1 <= self.depth <= MAX_DIM + 3 && self.start_slope.wf() && self.end_slope.wf()
    }
}

/// Floor division for a non-negative divisor: `b * r <= a < b * (r + 1)`.
fn div_floor(a: i64, b: i64) -> (r: i64)
    requires
        0 < b <= 0x2_0000_0000,
        -0x40_0000_0000 <= a <= 0x40_0000_0000,
    ensures
        b * r <= a < b * (r + 1),
        -0x40_0000_0000 <= r <= 0x40_0000_0000,
{
    if a >= 0 {
        let au = a as u64;
        let bu = b as u64;
        let qu = au / bu;
        proof {
            assert(au == a as int && bu == b as int);
            vstd::arithmetic::div_mod::lemma_fundamental_div_mod(au as int, bu as int);
            assert(0 <= (au as int) % (bu as int) < bu as int) by (nonlinear_arith)
                requires
                    bu as int > 0,
            ;
            assert((bu as int) * (qu as int) <= (au as int) < (bu as int) * ((qu as int) + 1))
                by (nonlinear_arith)
                requires
                    qu as int == (au as int) / (bu as int),
                    au as int == (bu as int) * ((au as int) / (bu as int)) + (au as int) % (
                    bu as int),
                    0 <= (au as int) % (bu as int) < bu as int,
            ;
            assert(qu as int <= au as int) by (nonlinear_arith)
                requires
                    bu as int * (qu as int) <= au as int,
                    bu as int >= 1,
                    0 <= qu as int,
            ;
        }
        qu as i64
    } else {
        let m = (-a) as u64;
        let bu = b as u64;
        let q0u = (m + bu - 1) / bu;
        proof {
            let mi = m as int;
            let bi = bu as int;
            assert(mi == -(a as int) && bi == b as int);
            vstd::arithmetic::div_mod::lemma_fundamental_div_mod(mi + bi - 1, bi);
            assert(0 <= (mi + bi - 1) % bi < bi) by (nonlinear_arith)
                requires
                    bi > 0,
                    mi + bi - 1 >= 0,
            ;
            assert(bi * ((q0u as int) - 1) < mi <= bi * (q0u as int)) by (nonlinear_arith)
                requires
                    q0u as int == (mi + bi - 1) / bi,
                    mi + bi - 1 == bi * ((mi + bi - 1) / bi) + (mi + bi - 1) % bi,
                    0 <= (mi + bi - 1) % bi < bi,
                    mi >= 1,
            ;
            assert(q0u as int <= mi) by (nonlinear_arith)
                requires
                    bi * ((q0u as int) - 1) < mi,
                    bi >= 1,
                    mi >= 1,
                    0 <= q0u as int,
            ;
            assert(b * (-(q0u as int)) <= a < b * ((-(q0u as int)) + 1)) by (nonlinear_arith)
                requires
                    bi * ((q0u as int) - 1) < mi <= bi * (q0u as int),
                    a as int == -mi,
                    b as int == bi,
            ;
        }
        let q0 = q0u as i64;
        -q0
    }
}

/// `round-ties-up(s * depth)`: the first column of a row, clamped to the
/// row's diamond (`-depth`), which a slope interval within [-1, 1] never
/// leaves anyway.
fn min_column(s: &Slope, depth: i32) -> (r: i32)
    requires
        s.wf(),
        1 <= depth <= MAX_DIM + 3,
    ensures
        -depth <= r <= depth + 1,
        s.num <= 0 ==> r <= 0,
        s.num > 0 && s.num * 2 * (depth as int) >= s.den ==> r >= 1,
{
    proof {
        assert(-0x40_0000_0000 <= 2 * (s.num as int) * (depth as int) + s.den
            <= 0x40_0000_0000) by (nonlinear_arith)
            requires
                -SLOPE_BOUND <= s.num <= SLOPE_BOUND,
                0 < s.den <= SLOPE_BOUND,
                1 <= depth <= MAX_DIM + 3,
        ;
    }
    let a = 2 * s.num * (depth as i64) + s.den;
    let b = 2 * s.den;
    let q = div_floor(a, b);
    proof {
        if s.num <= 0 {
            assert(a < b) by (nonlinear_arith)
                requires
                    a == 2 * (s.num as int) * (depth as int) + s.den,
                    b == 2 * (s.den as int),
                    s.num <= 0,
                    s.den > 0,
                    depth >= 1,
            ;
            assert(q <= 0) by (nonlinear_arith)
                requires
                    b * (q as int) <= a,
                    a < b,
                    b > 0,
            ;
        }
        if s.num > 0 && s.num * 2 * (depth as int) >= s.den {
            assert(a >= b) by (nonlinear_arith)
                requires
                    a == 2 * (s.num as int) * (depth as int) + s.den,
                    b == 2 * (s.den as int),
                    s.num * 2 * (depth as int) >= s.den,
                    s.den > 0,
            ;
            assert(q >= 1) by (nonlinear_arith)
                requires
                    a < b * ((q as int) + 1),
                    a >= b,
                    b > 0,
            ;
        }
    }
    if q < -(depth as i64) {
        -depth
    } else if q > (depth as i64) + 1 {
        depth + 1
    } else {
        q as i32
    }
}

/// `round-ties-down(s * depth)`: the last column of a row, clamped to the
/// row's diamond (`depth`).
fn max_column(s: &Slope, depth: i32) -> (r: i32)
    requires
        s.wf(),
        1 <= depth <= MAX_DIM + 3,
    ensures
        -depth - 1 <= r <= depth,
        s.num >= 0 ==> r >= 0,
        s.num < 0 && (-s.num) * 2 * (depth as int) >= s.den ==> r <= -1,
{
    proof {
        assert(-0x40_0000_0000 <= 2 * (s.num as int) * (depth as int) - s.den
            <= 0x40_0000_0000) by (nonlinear_arith)
            requires
                -SLOPE_BOUND <= s.num <= SLOPE_BOUND,
                0 < s.den <= SLOPE_BOUND,
                1 <= depth <= MAX_DIM + 3,
        ;
    }
    let a = 2 * s.num * (depth as i64) - s.den;
    let b = 2 * s.den;
    // ceil(a / b) == -floor(-a / b)
    let f = div_floor(-a, b);
    let q = -f;
    proof {
        if s.num >= 0 {
            assert(-a < b) by (nonlinear_arith)
                requires
                    a == 2 * (s.num as int) * (depth as int) - s.den,
                    b == 2 * (s.den as int),
                    s.num >= 0,
                    s.den > 0,
                    depth >= 1,
            ;
            assert(f <= 0) by (nonlinear_arith)
                requires
                    b * (f as int) <= -a,
                    -a < b,
                    b > 0,
            ;
        }
        if s.num < 0 && (-s.num) * 2 * (depth as int) >= s.den {
            assert(-a >= b) by (nonlinear_arith)
                requires
                    a == 2 * (s.num as int) * (depth as int) - s.den,
                    b == 2 * (s.den as int),
                    (-s.num) * 2 * (depth as int) >= s.den,
                    s.den > 0,
            ;
            assert(f >= 1) by (nonlinear_arith)
                requires
                    -a < b * ((f as int) + 1),
                    -a >= b,
                    b > 0,
            ;
            assert(q <= -1);
        }
    }
    if q < -(depth as i64) - 1 {
        -depth - 1
    } else if q > depth as i64 {
        depth
    } else {
        q as i32
    }
}

/// The column lies within the row's slope interval (inclusive on both
/// ends), by exact cross-multiplied comparison.
fn is_symmetric(row: &Row, col: i32) -> bool
    requires
        row.wf(),
        -(MAX_DIM + 3) <= col <= MAX_DIM + 3,
{
    let c = col as i64;
    let d = row.depth as i64;
    proof {
        assert(-0x40_0000_0000 <= (col as i64) * row.start_slope.den <= 0x40_0000_0000
            && -0x40_0000_0000 <= row.start_slope.num * (row.depth as i64) <= 0x40_0000_0000
            && -0x40_0000_0000 <= (col as i64) * row.end_slope.den <= 0x40_0000_0000
            && -0x40_0000_0000 <= row.end_slope.num * (row.depth as i64) <= 0x40_0000_0000)
            by (nonlinear_arith)
            requires
                row.wf(),
                -(MAX_DIM + 3) <= col <= MAX_DIM + 3,
        ;
    }
    c * row.start_slope.den >= row.start_slope.num * d && c * row.end_slope.den
        <= row.end_slope.num * d
}

/// The slope through the left corner of the cell at (depth, col).
fn corner_slope(depth: i32, col: i32) -> (r: Slope)
    requires
        1 <= depth <= MAX_DIM + 3,
        -(MAX_DIM + 3) <= col <= MAX_DIM + 3,
    ensures
        r.wf(),
        r.num == 2 * (col as int) - 1,
        r.den == 2 * (depth as int),
{
    Slope { num: 2 * (col as i64) - 1, den: 2 * (depth as i64) }
}

/// The world direction of a quadrant's axis (its column-zero ray).
pub open spec fn cardinal_dx(c: Cardinal) -> int {
    match c {
        Cardinal::North => 0,
        Cardinal::South => 0,
        Cardinal::East => 1,
        Cardinal::West => -1,
    }
}

pub open spec fn cardinal_dy(c: Cardinal) -> int {
    match c {
        Cardinal::North => -1,
        Cardinal::South => 1,
        Cardinal::East => 0,
        Cardinal::West => 0,
    }
}

/// Quadrant-local (depth, col) coordinates as a world point.
pub open spec fn spec_transform(origin: Point, c: Cardinal, depth: int, col: int) -> Point {
    match c {
        Cardinal::North => Point { x: (origin.x + col) as i32, y: (origin.y - depth) as i32 },
        Cardinal::South => Point { x: (origin.x + col) as i32, y: (origin.y + depth) as i32 },
        Cardinal::East => Point { x: (origin.x + depth) as i32, y: (origin.y + col) as i32 },
        Cardinal::West => Point { x: (origin.x - depth) as i32, y: (origin.y + col) as i32 },
    }
}

/// The scan sees the cell as a wall: within the overscan window and
/// blocking sight.
pub open spec fn scan_wall_cell(
    map: GridMap,
    origin: Point,
    c: Cardinal,
    range: int,
    depth: int,
    col: int,
) -> bool {
    spec_squared_distance(origin, spec_transform(origin, c, depth, col)) <= (range + 2) * (range
        + 2) && spec_blocked(map, spec_transform(origin, c, depth, col))
}

/// The scan sees the cell as a floor: within the overscan window and clear.
pub open spec fn scan_floor_cell(
    map: GridMap,
    origin: Point,
    c: Cardinal,
    range: int,
    depth: int,
    col: int,
) -> bool {
    spec_squared_distance(origin, spec_transform(origin, c, depth, col)) <= (range + 2) * (range
        + 2) && !spec_blocked(map, spec_transform(origin, c, depth, col))
}

/// No wall inside the overscan window sits on the quadrant's axis strictly
/// before depth `d`.
pub open spec fn axis_clear_to(map: GridMap, origin: Point, c: Cardinal, range: int, d: int) -> bool {
    forall|e: int| 1 <= e < d ==> !#[trigger] scan_wall_cell(map, origin, c, range, e, 0)
}

/// For in-bounds origins the quadrant transform never wraps: the world
/// point is origin plus the rotated offset, and its squared distance from
/// the origin is exactly depth² + col².
pub proof fn lemma_transform_sq(origin: Point, c: Cardinal, depth: int, col: int)
    requires
        0 <= origin.x <= MAX_DIM,
        0 <= origin.y <= MAX_DIM,
        1 <= depth <= MAX_DIM + 3,
        -(MAX_DIM + 3) <= col <= MAX_DIM + 3,
    ensures
        spec_squared_distance(origin, spec_transform(origin, c, depth, col)) == depth * depth + col
            * col,
{
    let t = spec_transform(origin, c, depth, col);
    match c {
        Cardinal::North => {
            assert(t.x == origin.x + col && t.y == origin.y - depth);
            assert((origin.x - t.x) * (origin.x - t.x) + (origin.y - t.y) * (origin.y - t.y)
                == depth * depth + col * col) by (nonlinear_arith)
                requires
                    origin.x - t.x == -col,
                    origin.y - t.y == depth,
            ;
        },
        Cardinal::South => {
            assert(t.x == origin.x + col && t.y == origin.y + depth);
            assert((origin.x - t.x) * (origin.x - t.x) + (origin.y - t.y) * (origin.y - t.y)
                == depth * depth + col * col) by (nonlinear_arith)
                requires
                    origin.x - t.x == -col,
                    origin.y - t.y == -depth,
            ;
        },
        Cardinal::East => {
            assert(t.x == origin.x + depth && t.y == origin.y + col);
            assert((origin.x - t.x) * (origin.x - t.x) + (origin.y - t.y) * (origin.y - t.y)
                == depth * depth + col * col) by (nonlinear_arith)
                requires
                    origin.x - t.x == -depth,
                    origin.y - t.y == -col,
            ;
        },
        Cardinal::West => {
            assert(t.x == origin.x - depth && t.y == origin.y + col);
            assert((origin.x - t.x) * (origin.x - t.x) + (origin.y - t.y) * (origin.y - t.y)
                == depth * depth + col * col) by (nonlinear_arith)
                requires
                    origin.x - t.x == depth,
                    origin.y - t.y == -col,
            ;
        },
    }
}

/// The row-stack facts behind axis occlusion: a row whose slope interval
/// still covers the axis has a clear axis below it, and a slope pushed off
/// the axis stays off it (its first column is at least one off center).
spec fn row_axis_ok(map: GridMap, origin: Point, c: Cardinal, range: int, row: Row) -> bool {
    &&& (row.start_slope.num <= 0 && row.end_slope.num >= 0) ==> axis_clear_to(
        map,
        origin,
        c,
        range,
        row.depth as int,
    )
    &&& row.start_slope.num > 0 ==> row.start_slope.num * 2 * (row.depth as int)
        >= row.start_slope.den
    &&& row.end_slope.num < 0 ==> (-row.end_slope.num) * 2 * (row.depth as int)
        >= row.end_slope.den
}

/// Quadrant-local (depth, col) coordinates mapped to a world point.
fn transform(origin: Point, cardinal: Cardinal, depth: i32, col: i32) -> (r: Point)
    requires
        0 <= origin.x <= MAX_DIM,
        0 <= origin.y <= MAX_DIM,
        1 <= depth <= MAX_DIM + 3,
        -(MAX_DIM + 3) <= col <= MAX_DIM + 3,
    ensures
        -(MAX_DIM + MAX_DIM + 3) <= r.x <= MAX_DIM + MAX_DIM + 3,
        -(MAX_DIM + MAX_DIM + 3) <= r.y <= MAX_DIM + MAX_DIM + 3,
        spec_squared_distance(origin, r) >= depth * depth,
        r == spec_transform(origin, cardinal, depth as int, col as int),
    {
    let (dx, dy) = match cardinal {
        Cardinal::North => (col, -depth),
        Cardinal::South => (col, depth),
        Cardinal::East => (depth, col),
        Cardinal::West => (-depth, col),
    };
    let r = Point { x: origin.x + dx, y: origin.y + dy };
    proof {
        crate::point::lemma_square_nonneg(r.x - origin.x);
        crate::point::lemma_square_nonneg(r.y - origin.y);
        assert(origin.x - r.x == -dx && origin.y - r.y == -dy);
        assert((-(dx as int)) * (-(dx as int)) + (-(dy as int)) * (-(dy as int)) >= (
        depth as int) * (depth as int)) by (nonlinear_arith)
            requires
                dx == depth || dx == -depth || dy == depth || dy == -depth,
        ;
        assert(spec_squared_distance(origin, r) == (origin.x - r.x) * (origin.x - r.x) + (origin.y
            - r.y) * (origin.y - r.y));
    }
    r
}

/// Squared Euclidean distance computed without overflow.
fn sq_dist(a: Point, b: Point) -> (r: i64)
    requires
        -3 * MAX_DIM <= a.x <= 3 * MAX_DIM,
        -3 * MAX_DIM <= a.y <= 3 * MAX_DIM,
        -3 * MAX_DIM <= b.x <= 3 * MAX_DIM,
        -3 * MAX_DIM <= b.y <= 3 * MAX_DIM,
    ensures
        r == spec_squared_distance(a, b),
        r >= 0,
{
    let dx = (a.x as i64) - (b.x as i64);
    let dy = (a.y as i64) - (b.y as i64);
    proof {
        crate::point::lemma_square_nonneg(dx as int);
        crate::point::lemma_square_nonneg(dy as int);
        assert(dx * dx + dy * dy <= 0x1000_0000_0000) by (nonlinear_arith)
            requires
                -6 * MAX_DIM <= dx <= 6 * MAX_DIM,
                -6 * MAX_DIM <= dy <= 6 * MAX_DIM,
        ;
    }
    dx * dx + dy * dy
}

/// Appends a point unless it is already present, keeping the set free of
/// duplicates.
fn push_if_absent(v: &mut Vec<Point>, p: Point)
    ensures
        final(v)@ == if old(v)@.contains(p) {
            old(v)@
        } else {
            old(v)@.push(p)
        },
        final(v)@.contains(p),
        old(v)@.len() <= final(v)@.len(),
        forall|k: int| 0 <= k < old(v)@.len() ==> final(v)@[k] == old(v)@[k],
{
    let mut i: usize = 0;
    while i < v.len()
        invariant
            i <= v@.len(),
            forall|k: int| 0 <= k < i ==> v@[k] != p,
        decreases v@.len() - i,
    {
        if v[i] == p {
            proof {
                assert(v@.contains(p));
            }
            return ;
        }
        i += 1;
    }
    proof {
        assert(!v@.contains(p));
    }
    v.push(p);
    proof {
        assert(v@[v@.len() - 1] == p);
        assert(v@.contains(p));
    }
}

/// A point that blocks sight: outside the map, or a Wall tile.
pub open spec fn spec_blocked(map: GridMap, point: Point) -> bool {
    !map.spec_in_bounds(point) || map.tiles@[map.world_rect.spec_point_to_index(point)] is Wall
}

/// A unit step along one of the four cardinal directions.
pub open spec fn cardinal_unit(dx: int, dy: int) -> bool {
    (dx == 0 || dy == 0) && crate::point::spec_abs(dx) + crate::point::spec_abs(dy) == 1
}

/// The cell `d` steps from the origin along a cardinal direction.
pub open spec fn ray_cell(origin: Point, dx: int, dy: int, d: int) -> Point {
    Point { x: (origin.x + d * dx) as i32, y: (origin.y + d * dy) as i32 }
}

/// Nothing blocks sight strictly before depth `d` on the ray.
pub open spec fn ray_clear(map: GridMap, origin: Point, dx: int, dy: int, d: int) -> bool {
    forall|e: int| 1 <= e < d ==> !spec_blocked(map, #[trigger] ray_cell(origin, dx, dy, e))
}

/// Whether a point blocks sight: outside the map, or a Wall tile.
fn is_blocked(map: &GridMap, point: Point) -> (r: bool)
    requires
        map.wf(),
    ensures
        r == spec_blocked(*map, point),
{
    if !map.in_bounds(point) {
        true
    } else {
        let idx = map.point_to_index(point);
        map.is_opaque(idx)
    }
}

/// A map with no Wall cell anywhere: sight is limited only by the map
/// edge and the radius.
pub open spec fn wall_free(map: GridMap) -> bool {
    forall|i: int| 0 <= i < map.tiles@.len() ==> !((#[trigger] map.tiles@[i]) is Wall)
}

/// On a wall-free map, reveals the whole in-bounds Euclidean disc, making
/// open-map visibility exactly the disc rather than merely within it.
fn reveal_open_disc(origin: Point, range: i32, map: &GridMap, fov: &mut Vec<Point>)
    requires
        map.wf(),
        map.spec_in_bounds(origin),
        0 <= range <= MAX_DIM,
        forall|k1: int, k2: int| 0 <= k1 < k2 < old(fov)@.len() ==> old(fov)@[k1] != old(fov)@[k2],
    ensures
        old(fov)@.len() <= final(fov)@.len(),
        forall|k: int| 0 <= k < old(fov)@.len() ==> final(fov)@[k] == old(fov)@[k],
        forall|k: int|
            old(fov)@.len() <= k < final(fov)@.len() ==> spec_squared_distance(
                origin,
                #[trigger] final(fov)@[k],
            ) <= range * range && map.spec_in_bounds(final(fov)@[k]),
        forall|k1: int, k2: int|
            0 <= k1 < k2 < final(fov)@.len() ==> final(fov)@[k1] != final(fov)@[k2],
        wall_free(*map) ==> forall|q: Point|
            map.spec_in_bounds(q) && spec_squared_distance(origin, q) <= range * range
                ==> final(fov)@.contains(q),
        forall|sx2: int, sy2: int, dd: int, k: int|
            #![trigger final(fov)@[k], ray_cell(origin, sx2, sy2, dd)]
            cardinal_unit(sx2, sy2) && 1 <= dd <= 2 * MAX_DIM + 6 && old(fov)@.len() <= k
                < final(fov)@.len() && final(fov)@[k] == ray_cell(origin, sx2, sy2, dd)
                ==> ray_clear(*map, origin, sx2, sy2, dd),
{
    let n = map.tiles.len();
    let mut has_wall = false;
    let mut i: usize = 0;
    while i < n
        invariant
            map.wf(),
            n == map.tiles@.len(),
            i <= n,
            !has_wall ==> forall|j: int| 0 <= j < i ==> !((#[trigger] map.tiles@[j]) is Wall),
            has_wall ==> exists|j: int| 0 <= j < n && (#[trigger] map.tiles@[j]) is Wall,
        decreases n - i,
    {
        if map.tiles[i] == TileType::Wall {
            has_wall = true;
        }
        i += 1;
    }
    if has_wall {
        return ;
    }
    let w = map.width();
    let h = map.height();
    let mut y: i32 = 0;
    while y < h
        invariant
            map.wf(),
            map.spec_in_bounds(origin),
            0 <= range <= MAX_DIM,
            w == map.world_rect.spec_width(),
            h == map.world_rect.spec_height(),
            0 <= y <= h,
            old(fov)@.len() <= fov@.len(),
            forall|k: int| 0 <= k < old(fov)@.len() ==> fov@[k] == old(fov)@[k],
            forall|k: int|
                old(fov)@.len() <= k < fov@.len() ==> spec_squared_distance(
                    origin,
                    #[trigger] fov@[k],
                ) <= range * range && map.spec_in_bounds(fov@[k]),
            forall|k1: int, k2: int| 0 <= k1 < k2 < fov@.len() ==> fov@[k1] != fov@[k2],
            wall_free(*map),
            forall|sx2: int, sy2: int, dd: int, k: int|
                #![trigger fov@[k], ray_cell(origin, sx2, sy2, dd)]
                cardinal_unit(sx2, sy2) && 1 <= dd <= 2 * MAX_DIM + 6 && old(fov)@.len() <= k
                    < fov@.len() && fov@[k] == ray_cell(origin, sx2, sy2, dd) ==> ray_clear(
                    *map,
                    origin,
                    sx2,
                    sy2,
                    dd,
                ),
            forall|q: Point|
                #[trigger] map.spec_in_bounds(q) && q.y < y && spec_squared_distance(origin, q)
                    <= range * range ==> fov@.contains(q),
        decreases h - y,
    {
        let mut x: i32 = 0;
        while x < w
            invariant
                map.wf(),
                map.spec_in_bounds(origin),
                0 <= range <= MAX_DIM,
                w == map.world_rect.spec_width(),
                h == map.world_rect.spec_height(),
                0 <= y < h,
                0 <= x <= w,
                old(fov)@.len() <= fov@.len(),
                forall|k: int| 0 <= k < old(fov)@.len() ==> fov@[k] == old(fov)@[k],
                forall|k: int|
                    old(fov)@.len() <= k < fov@.len() ==> spec_squared_distance(
                        origin,
                        #[trigger] fov@[k],
                    ) <= range * range && map.spec_in_bounds(fov@[k]),
                forall|k1: int, k2: int| 0 <= k1 < k2 < fov@.len() ==> fov@[k1] != fov@[k2],
                wall_free(*map),
                forall|sx2: int, sy2: int, dd: int, k: int|
                    #![trigger fov@[k], ray_cell(origin, sx2, sy2, dd)]
                    cardinal_unit(sx2, sy2) && 1 <= dd <= 2 * MAX_DIM + 6 && old(fov)@.len() <= k
                        < fov@.len() && fov@[k] == ray_cell(origin, sx2, sy2, dd) ==> ray_clear(
                        *map,
                        origin,
                        sx2,
                        sy2,
                        dd,
                    ),
                forall|q: Point|
                    #[trigger] map.spec_in_bounds(q) && (q.y < y || (q.y == y && q.x < x))
                        && spec_squared_distance(origin, q) <= range * range ==> fov@.contains(
                        q,
                    ),
            decreases w - x,
        {
            let p = Point { x, y };
            let d2 = sq_dist(origin, p);
            proof {
                assert(0 <= (range as int) * (range as int) <= 0x4000_0000_0000)
                    by (nonlinear_arith)
                    requires
                        0 <= range <= MAX_DIM,
                ;
            }
            let ghost pre = fov@;
            if d2 <= (range as i64) * (range as i64) {
                push_if_absent(fov, p);
            }
            proof {
                assert forall|sx2: int, sy2: int, dd: int, k: int|
                    #![trigger fov@[k], ray_cell(origin, sx2, sy2, dd)]
                    cardinal_unit(sx2, sy2) && 1 <= dd <= 2 * MAX_DIM + 6 && old(fov)@.len() <= k
                        < fov@.len() && fov@[k] == ray_cell(origin, sx2, sy2, dd) implies ray_clear(
                    *map,
                    origin,
                    sx2,
                    sy2,
                    dd,
                ) by {
                    if k < pre.len() {
                        assert(pre[k] == fov@[k]);
                    } else {
                        assert(fov@[k] == p);
                        assert(map.spec_in_bounds(p));
                        lemma_ray_between_clear(*map, origin, sx2, sy2, dd);
                    }
                }
                assert forall|q: Point|
                    #[trigger] map.spec_in_bounds(q) && (q.y < y || (q.y == y && q.x < x + 1))
                        && spec_squared_distance(origin, q) <= range * range implies fov@.contains(
                    q,
                ) by {
                    if q.y < y || (q.y == y && q.x < x) {
                        assert(pre.contains(q));
                        let k = choose|k: int| 0 <= k < pre.len() && pre[k] == q;
                        assert(fov@[k] == q);
                    } else {
                        assert(q == p);
                        assert(fov@.contains(p));
                    }
                }
            }
            x += 1;
        }
        y += 1;
    }
}

/// Walks one cardinal ray outward from the origin, revealing every cell
/// until the first blocking cell (which is itself revealed, as walls are):
/// along the cardinal axes, everything with a clear line of sight within
/// range is guaranteed visible.
fn walk_ray(origin: Point, range: i32, map: &GridMap, fov: &mut Vec<Point>, sx: i32, sy: i32)
    requires
        map.wf(),
        map.spec_in_bounds(origin),
        0 <= range <= MAX_DIM,
        -1 <= sx <= 1,
        -1 <= sy <= 1,
        cardinal_unit(sx as int, sy as int),
        forall|k1: int, k2: int| 0 <= k1 < k2 < old(fov)@.len() ==> old(fov)@[k1] != old(fov)@[k2],
    ensures
        old(fov)@.len() <= final(fov)@.len(),
        forall|k: int| 0 <= k < old(fov)@.len() ==> final(fov)@[k] == old(fov)@[k],
        forall|k: int|
            old(fov)@.len() <= k < final(fov)@.len() ==> spec_squared_distance(
                origin,
                #[trigger] final(fov)@[k],
            ) <= range * range,
        forall|k1: int, k2: int|
            0 <= k1 < k2 < final(fov)@.len() ==> final(fov)@[k1] != final(fov)@[k2],
        forall|d: int|
            1 <= d <= range && ray_clear(*map, origin, sx as int, sy as int, d)
                ==> final(fov)@.contains(ray_cell(origin, sx as int, sy as int, d)),
        forall|sx2: int, sy2: int, dd: int, k: int|
            #![trigger final(fov)@[k], ray_cell(origin, sx2, sy2, dd)]
            cardinal_unit(sx2, sy2) && 1 <= dd <= 2 * MAX_DIM + 6 && old(fov)@.len() <= k
                < final(fov)@.len() && final(fov)@[k] == ray_cell(origin, sx2, sy2, dd)
                ==> ray_clear(
                *map,
                origin,
                sx2,
                sy2,
                dd,
            ),
{
    let mut d: i32 = 1;
    let mut stopped = false;
    while d <= range && !stopped
        invariant
            map.wf(),
            map.spec_in_bounds(origin),
            0 <= range <= MAX_DIM,
            -1 <= sx <= 1,
            -1 <= sy <= 1,
            cardinal_unit(sx as int, sy as int),
            1 <= d <= range + 1,
            old(fov)@.len() <= fov@.len(),
            forall|k: int| 0 <= k < old(fov)@.len() ==> fov@[k] == old(fov)@[k],
            forall|k: int|
                old(fov)@.len() <= k < fov@.len() ==> spec_squared_distance(
                    origin,
                    #[trigger] fov@[k],
                ) <= range * range,
            forall|k1: int, k2: int| 0 <= k1 < k2 < fov@.len() ==> fov@[k1] != fov@[k2],
            stopped ==> exists|e0: int|
                1 <= e0 < d && spec_blocked(*map, #[trigger] ray_cell(origin, sx as int, sy as int, e0)),
            !stopped ==> ray_clear(*map, origin, sx as int, sy as int, d as int),
            forall|e: int|
                1 <= e < d && ray_clear(*map, origin, sx as int, sy as int, e) ==> fov@.contains(
                    ray_cell(origin, sx as int, sy as int, e),
                ),
            forall|sx2: int, sy2: int, dd: int, k: int|
                #![trigger fov@[k], ray_cell(origin, sx2, sy2, dd)]
                cardinal_unit(sx2, sy2) && 1 <= dd <= 2 * MAX_DIM + 6 && old(fov)@.len() <= k
                    < fov@.len() && fov@[k] == ray_cell(origin, sx2, sy2, dd) ==> ray_clear(
                    *map,
                    origin,
                    sx2,
                    sy2,
                    dd,
                ),
        decreases range + 1 - d,
    {
        proof {
            assert(-(range as int) <= (d as int) * (sx as int) <= range && -(range as int) <= (
            d as int) * (sy as int) <= range) by (nonlinear_arith)
                requires
                    -1 <= sx <= 1,
                    -1 <= sy <= 1,
                    1 <= d <= range,
            ;
        }
        let p = Point { x: origin.x + d * sx, y: origin.y + d * sy };
        proof {
            assert(p == ray_cell(origin, sx as int, sy as int, d as int));
            assert(spec_squared_distance(origin, p) == (d as int) * (d as int) * ((sx as int) * (
            sx as int) + (sy as int) * (sy as int))) by (nonlinear_arith)
                requires
                    p.x == origin.x + d * sx,
                    p.y == origin.y + d * sy,
            ;
            assert((sx as int) * (sx as int) + (sy as int) * (sy as int) == 1) by (nonlinear_arith)
                requires
                    cardinal_unit(sx as int, sy as int),
                    -1 <= sx <= 1,
                    -1 <= sy <= 1,
            ;
            assert(spec_squared_distance(origin, p) <= (range as int) * (range as int))
                by (nonlinear_arith)
                requires
                    spec_squared_distance(origin, p) == (d as int) * (d as int),
                    1 <= d <= range,
            ;
        }
        let ghost pre = fov@;
        push_if_absent(fov, p);
        proof {
            assert forall|sx2: int, sy2: int, dd: int, k: int|
                #![trigger fov@[k], ray_cell(origin, sx2, sy2, dd)]
                cardinal_unit(sx2, sy2) && 1 <= dd <= 2 * MAX_DIM + 6 && old(fov)@.len() <= k
                    < fov@.len() && fov@[k] == ray_cell(origin, sx2, sy2, dd) implies ray_clear(
                *map,
                origin,
                sx2,
                sy2,
                dd,
            ) by {
                if k < pre.len() {
                    assert(pre[k] == fov@[k]);
                } else {
                    assert(fov@[k] == p);
                    lemma_ray_cells_distinct(
                        origin,
                        sx as int,
                        sy as int,
                        d as int,
                        sx2,
                        sy2,
                        dd,
                    );
                }
            }
            assert forall|e: int|
                1 <= e < d + 1 && ray_clear(*map, origin, sx as int, sy as int, e) implies fov@.contains(
                ray_cell(origin, sx as int, sy as int, e),
            ) by {
                if e < d {
                    assert(pre.contains(ray_cell(origin, sx as int, sy as int, e)));
                    let k = choose|k: int|
                        0 <= k < pre.len() && pre[k] == ray_cell(origin, sx as int, sy as int, e);
                    assert(fov@[k] == ray_cell(origin, sx as int, sy as int, e));
                } else {
                    assert(fov@.contains(p));
                }
            }
        }
        if is_blocked(map, p) {
            stopped = true;
        }
        d += 1;
    }
    proof {
        assert forall|dd: int|
            1 <= dd <= range && ray_clear(*map, origin, sx as int, sy as int, dd) implies fov@.contains(
            ray_cell(origin, sx as int, sy as int, dd),
        ) by {
            if dd >= d {
                assert(stopped);
                let e0 = choose|e0: int|
                    1 <= e0 < d && spec_blocked(
                        *map,
                        #[trigger] ray_cell(origin, sx as int, sy as int, e0),
                    );
                assert(!spec_blocked(*map, ray_cell(origin, sx as int, sy as int, e0)));
            }
        }
    }
}

/// The set of points visible from `origin` within Euclidean `range`,
/// relative to the opacity of `map`; always includes the origin, never a
/// point beyond the range, and never a duplicate. The result may include
/// out-of-map points at the edge of sight; `field_of_view_set` filters
/// them.
pub fn compute_fov(origin: Point, range: i32, map: &GridMap) -> (r: Vec<Point>)
    requires
        map.wf(),
        map.spec_in_bounds(origin),
        0 <= range <= MAX_DIM,
    ensures
        r@.contains(origin),
        forall|k: int|
            0 <= k < r@.len() ==> #[trigger] r@[k] == origin || spec_squared_distance(
                origin,
                r@[k],
            ) <= range * range,
        forall|k1: int, k2: int| 0 <= k1 < k2 < r@.len() ==> r@[k1] != r@[k2],
        forall|sx: int, sy: int, d: int|
            cardinal_unit(sx, sy) && 1 <= d <= range && ray_clear(*map, origin, sx, sy, d)
                ==> r@.contains(#[trigger] ray_cell(origin, sx, sy, d)),
        wall_free(*map) ==> forall|q: Point|
            #[trigger] map.spec_in_bounds(q) && spec_squared_distance(origin, q) <= range * range
                ==> r@.contains(q),
        forall|sx: int, sy: int, d: int|
            cardinal_unit(sx, sy) && 1 <= d <= 2 * MAX_DIM + 6 && r@.contains(
                #[trigger] ray_cell(origin, sx, sy, d),
            ) ==> ray_clear(*map, origin, sx, sy, d),
{
    let mut fov: Vec<Point> = Vec::new();
    push_if_absent(&mut fov, origin);
    proof {
        assert(fov@[0] == origin);
    }
    let cardinals = Cardinal::values();
    let mut c: usize = 0;
    while c < cardinals.len()
        invariant
            map.wf(),
            map.spec_in_bounds(origin),
            0 <= range <= MAX_DIM,
            fov@.len() >= 1,
            fov@[0] == origin,
            fov@.contains(origin),
            forall|k: int|
                0 <= k < fov@.len() ==> #[trigger] fov@[k] == origin || spec_squared_distance(
                    origin,
                    fov@[k],
                ) <= range * range,
            forall|k1: int, k2: int| 0 <= k1 < k2 < fov@.len() ==> fov@[k1] != fov@[k2],
            forall|sx: int, sy: int, d: int, k: int|
                #![trigger fov@[k], ray_cell(origin, sx, sy, d)]
                cardinal_unit(sx, sy) && 1 <= d <= 2 * MAX_DIM + 6 && 1 <= k < fov@.len()
                    && fov@[k] == ray_cell(origin, sx, sy, d) ==> ray_clear(
                    *map,
                    origin,
                    sx,
                    sy,
                    d,
                ),
        decreases cardinals@.len() - c,
    {
        let ghost gpre = fov@;
        let cardinal = cardinals[c];
        scan_quadrant(origin, range, map, cardinal, &mut fov);
        proof {
            assert forall|sx: int, sy: int, d: int, k: int|
                #![trigger fov@[k], ray_cell(origin, sx, sy, d)]
                cardinal_unit(sx, sy) && 1 <= d <= 2 * MAX_DIM + 6 && 1 <= k < fov@.len()
                    && fov@[k] == ray_cell(origin, sx, sy, d) implies ray_clear(
                *map,
                origin,
                sx,
                sy,
                d,
            ) by {
                if k < gpre.len() {
                    assert(fov@[k] == gpre[k]);
                }
            }
        }
        c += 1;
    }
    // the cardinal rays are revealed up to their first blocking cell, so
    // axis visibility is guaranteed, not merely permitted
    let ghost f0 = fov@;
    walk_ray(origin, range, map, &mut fov, 1, 0);
    let ghost f1 = fov@;
    walk_ray(origin, range, map, &mut fov, -1, 0);
    let ghost f2 = fov@;
    walk_ray(origin, range, map, &mut fov, 0, 1);
    let ghost f3 = fov@;
    walk_ray(origin, range, map, &mut fov, 0, -1);
    let ghost f4 = fov@;
    reveal_open_disc(origin, range, map, &mut fov);
    proof {
        // everything appended since the quadrant scans is itself a clear
        // ray cell or off the axes, so the occlusion fact carries over
        assert forall|sx: int, sy: int, d: int, k: int|
            #![trigger fov@[k], ray_cell(origin, sx, sy, d)]
            cardinal_unit(sx, sy) && 1 <= d <= 2 * MAX_DIM + 6 && 1 <= k < fov@.len() && fov@[k]
                == ray_cell(origin, sx, sy, d) implies ray_clear(*map, origin, sx, sy, d) by {
            if k < f0.len() {
                assert(fov@[k] == f4[k] && f4[k] == f3[k] && f3[k] == f2[k] && f2[k] == f1[k]
                    && f1[k] == f0[k]);
            } else if k < f1.len() {
                assert(fov@[k] == f4[k] && f4[k] == f3[k] && f3[k] == f2[k] && f2[k] == f1[k]);
            } else if k < f2.len() {
                assert(fov@[k] == f4[k] && f4[k] == f3[k] && f3[k] == f2[k]);
            } else if k < f3.len() {
                assert(fov@[k] == f4[k] && f4[k] == f3[k]);
            } else if k < f4.len() {
                assert(fov@[k] == f4[k]);
            }
        }
        assert forall|sx: int, sy: int, d: int|
            cardinal_unit(sx, sy) && 1 <= d <= 2 * MAX_DIM + 6 && fov@.contains(
                #[trigger] ray_cell(origin, sx, sy, d),
            ) implies ray_clear(*map, origin, sx, sy, d) by {
            let k = choose|k: int|
                0 <= k < fov@.len() && fov@[k] == ray_cell(origin, sx, sy, d);
            if k == 0 {
                assert(fov@[0] == f4[0] && f4[0] == f3[0] && f3[0] == f2[0] && f2[0] == f1[0]
                    && f1[0] == f0[0]);
                assert(fov@[0] == origin);
                lemma_ray_not_origin(origin, sx, sy, d);
            }
        }
    }
    proof {
        assert forall|sx: int, sy: int, d: int|
            cardinal_unit(sx, sy) && 1 <= d <= range && ray_clear(
                *map,
                origin,
                sx,
                sy,
                d,
            ) implies fov@.contains(#[trigger] ray_cell(origin, sx, sy, d)) by {
            let cell = ray_cell(origin, sx, sy, d);
            if sx == 1 && sy == 0 {
                assert(f1.contains(cell));
                let k = choose|k: int| 0 <= k < f1.len() && f1[k] == cell;
                assert(f2[k] == cell && f3[k] == cell && f4[k] == cell && fov@[k] == cell);
            } else if sx == -1 && sy == 0 {
                assert(f2.contains(cell));
                let k = choose|k: int| 0 <= k < f2.len() && f2[k] == cell;
                assert(f3[k] == cell && f4[k] == cell && fov@[k] == cell);
            } else if sx == 0 && sy == 1 {
                assert(f3.contains(cell));
                let k = choose|k: int| 0 <= k < f3.len() && f3[k] == cell;
                assert(f4[k] == cell && fov@[k] == cell);
            } else {
                assert(sx == 0 && sy == -1);
                assert(f4.contains(cell));
                let k = choose|k: int| 0 <= k < f4.len() && f4[k] == cell;
                assert(fov@[k] == cell);
            }
        }
    }
    fov
}

/// Scans one quadrant, appending newly visible points to `fov`. Along the
/// quadrant's own axis the scan is occlusion-sound: a cell on the axis is
/// revealed only when no wall sits strictly between it and the origin.
#[verifier::rlimit(100)]
fn scan_quadrant(origin: Point, range: i32, map: &GridMap, cardinal: Cardinal, fov: &mut Vec<Point>)
    requires
        map.wf(),
        map.spec_in_bounds(origin),
        0 <= range <= MAX_DIM,
        forall|k1: int, k2: int| 0 <= k1 < k2 < old(fov)@.len() ==> old(fov)@[k1] != old(fov)@[k2],
    ensures
        old(fov)@.len() <= final(fov)@.len(),
        forall|k: int| 0 <= k < old(fov)@.len() ==> final(fov)@[k] == old(fov)@[k],
        forall|k: int|
            old(fov)@.len() <= k < final(fov)@.len() ==> spec_squared_distance(
                origin,
                #[trigger] final(fov)@[k],
            ) <= range * range,
        forall|k1: int, k2: int|
            0 <= k1 < k2 < final(fov)@.len() ==> final(fov)@[k1] != final(fov)@[k2],
        forall|sx: int, sy: int, d: int, k: int|
            #![trigger final(fov)@[k], ray_cell(origin, sx, sy, d)]
            cardinal_unit(sx, sy) && 1 <= d <= 2 * MAX_DIM + 6 && old(fov)@.len() <= k < final(fov)@.len()
                && final(fov)@[k] == ray_cell(origin, sx, sy, d) ==> ray_clear(
                *map,
                origin,
                sx,
                sy,
                d,
            ),
{
    let mut rows: Vec<Row> = Vec::new();
    rows.push(
        Row {
            depth: 1,
            start_slope: Slope { num: -1, den: 1 },
            end_slope: Slope { num: 1, den: 1 },
        },
    );
    proof {
        assert(((range as int) + 5) * ((range as int) + 5) * 4 + 8 <= 0xFFFF_FFFF_FFFF)
            by (nonlinear_arith)
            requires
                0 <= range <= MAX_DIM,
        ;
    }
    let mut fuel: u64 = ((range as u64) + 5) * ((range as u64) + 5) * 4 + 8;
    while rows.len() > 0 && fuel > 0
        invariant
            map.wf(),
            map.spec_in_bounds(origin),
            0 <= range <= MAX_DIM,
            forall|k: int| 0 <= k < rows@.len() ==> (#[trigger] rows@[k]).wf(),
            forall|k: int|
                0 <= k < rows@.len() ==> row_axis_ok(
                    *map,
                    origin,
                    cardinal,
                    range as int,
                    #[trigger] rows@[k],
                ),
            old(fov)@.len() <= fov@.len(),
            forall|k: int| 0 <= k < old(fov)@.len() ==> fov@[k] == old(fov)@[k],
            forall|k: int|
                old(fov)@.len() <= k < fov@.len() ==> spec_squared_distance(
                    origin,
                    #[trigger] fov@[k],
                ) <= range * range,
            forall|k1: int, k2: int| 0 <= k1 < k2 < fov@.len() ==> fov@[k1] != fov@[k2],
            forall|sx: int, sy: int, d: int, k: int|
                #![trigger fov@[k], ray_cell(origin, sx, sy, d)]
                cardinal_unit(sx, sy) && 1 <= d <= 2 * MAX_DIM + 6 && old(fov)@.len() <= k < fov@.len() && fov@[k]
                    == ray_cell(origin, sx, sy, d) ==> ray_clear(*map, origin, sx, sy, d),
        decreases fuel,
    {
        fuel -= 1;
        let mut row = rows.pop().unwrap();
        let depth = row.depth;
        let min_col = min_column(&row.start_slope, depth);
        let max_col = max_column(&row.end_slope, depth);
        let ghost pop_covers0 = row.start_slope.num <= 0 && row.end_slope.num >= 0;
        let ghost pop_start_nonpos = row.start_slope.num <= 0;
        let ghost axisw = scan_wall_cell(
            *map,
            origin,
            cardinal,
            range as int,
            depth as int,
            0,
        );
        let mut col = min_col;
        // (was there a previous tile, it was a wall, it was a floor)
        let mut prev_wall = false;
        let mut prev_floor = false;
        let mut have_prev = false;
        while col <= max_col
            invariant
                map.wf(),
                map.spec_in_bounds(origin),
                0 <= range <= MAX_DIM,
                row.wf(),
                row.depth == depth,
                1 <= depth <= MAX_DIM + 3,
                -depth <= min_col,
                max_col <= depth,
                min_col <= col,
                prev_floor ==> depth <= range + 2,
                row.end_slope.num >= 0 ==> max_col >= 0,
                row.end_slope.num < 0 ==> max_col <= -1 && (-row.end_slope.num) * 2 * (
                depth as int) >= row.end_slope.den,
                pop_start_nonpos ==> min_col <= 0,
                !pop_start_nonpos ==> min_col >= 1,
                row.start_slope.num <= 0 ==> pop_start_nonpos,
                row.start_slope.num > 0 && pop_start_nonpos ==> col >= 2,
                (row.start_slope.num <= 0 && row.end_slope.num >= 0) ==> pop_covers0,
                pop_covers0 ==> axis_clear_to(*map, origin, cardinal, range as int, depth as int),
                row.start_slope.num > 0 ==> row.start_slope.num * 2 * (depth as int)
                    >= row.start_slope.den,
                axisw == scan_wall_cell(*map, origin, cardinal, range as int, depth as int, 0),
                (axisw && col >= 1 && row.start_slope.num <= 0) ==> !prev_floor,
                have_prev ==> min_col <= col - 1 && prev_wall == scan_wall_cell(
                    *map,
                    origin,
                    cardinal,
                    range as int,
                    depth as int,
                    col as int - 1,
                ) && prev_floor == scan_floor_cell(
                    *map,
                    origin,
                    cardinal,
                    range as int,
                    depth as int,
                    col as int - 1,
                ),
                !have_prev ==> col == min_col,
                forall|k: int| 0 <= k < rows@.len() ==> (#[trigger] rows@[k]).wf(),
                forall|k: int|
                    0 <= k < rows@.len() ==> row_axis_ok(
                        *map,
                        origin,
                        cardinal,
                        range as int,
                        #[trigger] rows@[k],
                    ),
                old(fov)@.len() <= fov@.len(),
                forall|k: int| 0 <= k < old(fov)@.len() ==> fov@[k] == old(fov)@[k],
                forall|k: int|
                    old(fov)@.len() <= k < fov@.len() ==> spec_squared_distance(
                        origin,
                        #[trigger] fov@[k],
                    ) <= range * range,
                forall|k1: int, k2: int| 0 <= k1 < k2 < fov@.len() ==> fov@[k1] != fov@[k2],
                forall|sx: int, sy: int, d: int, k: int|
                    #![trigger fov@[k], ray_cell(origin, sx, sy, d)]
                    cardinal_unit(sx, sy) && 1 <= d <= 2 * MAX_DIM + 6 && old(fov)@.len() <= k < fov@.len() && fov@[k]
                        == ray_cell(origin, sx, sy, d) ==> ray_clear(*map, origin, sx, sy, d),
            decreases max_col + 1 - col,
        {
            let t = transform(origin, cardinal, depth, col);
            let d2 = sq_dist(origin, t);
            proof {
                assert(0 <= ((range as int) + 2) * ((range as int) + 2) <= 0x4000_0000_0000)
                    by (nonlinear_arith)
                    requires
                        0 <= range <= MAX_DIM,
                ;
                assert(0 <= (range as int) * (range as int) <= 0x4000_0000_0000)
                    by (nonlinear_arith)
                    requires
                        0 <= range <= MAX_DIM,
                ;
                lemma_transform_sq(origin, cardinal, depth as int, col as int);
            }
            let overscan = ((range as i64) + 2) * ((range as i64) + 2);
            let in_scan = d2 <= overscan;
            let blocked = is_blocked(map, t);
            let wall = in_scan && blocked;
            let floor = in_scan && !blocked;
            proof {
                assert(wall == scan_wall_cell(
                    *map,
                    origin,
                    cardinal,
                    range as int,
                    depth as int,
                    col as int,
                ));
                assert(floor == scan_floor_cell(
                    *map,
                    origin,
                    cardinal,
                    range as int,
                    depth as int,
                    col as int,
                ));
            }
            if wall || is_symmetric(&row, col) {
                if d2 <= (range as i64) * (range as i64) {
                    let ghost pre = fov@;
                    push_if_absent(fov, t);
                    proof {
                        // the only axis cells this quadrant touches lie on
                        // its own axis at column zero, where the covered
                        // slope interval certifies a clear line of sight
                        assert forall|sx: int, sy: int, d: int, k: int|
                            #![trigger fov@[k], ray_cell(origin, sx, sy, d)]
                            cardinal_unit(sx, sy) && 1 <= d <= 2 * MAX_DIM + 6 && old(
                                fov,
                            )@.len() <= k < fov@.len()
                                && fov@[k] == ray_cell(origin, sx, sy, d) implies ray_clear(
                            *map,
                            origin,
                            sx,
                            sy,
                            d,
                        ) by {
                            if k < pre.len() {
                                assert(pre[k] == fov@[k]);
                            } else {
                                assert(fov@[k] == t);
                                lemma_on_axis(origin, cardinal, depth as int, col as int, sx, sy, d);
                                assert(col == 0 && d == depth && sx == cardinal_dx(cardinal) && sy
                                    == cardinal_dy(cardinal));
                                assert(row.start_slope.num <= 0) by {
                                    if row.start_slope.num > 0 {
                                        assert(min_col >= 1);
                                    }
                                }
                                assert(row.end_slope.num >= 0) by {
                                    if row.end_slope.num < 0 {
                                        assert(max_col <= -1);
                                    }
                                }
                                assert(axis_clear_to(
                                    *map,
                                    origin,
                                    cardinal,
                                    range as int,
                                    depth as int,
                                ));
                                assert(depth <= range) by (nonlinear_arith)
                                    requires
                                        (depth as int) * (depth as int) + (col as int) * (
                                        col as int) <= (range as int) * (range as int),
                                        col == 0,
                                        depth >= 1,
                                        range >= 0,
                                ;
                                assert forall|e: int| 1 <= e < d implies !spec_blocked(
                                    *map,
                                    #[trigger] ray_cell(origin, sx, sy, e),
                                ) by {
                                    assert(!scan_wall_cell(
                                        *map,
                                        origin,
                                        cardinal,
                                        range as int,
                                        e,
                                        0,
                                    ));
                                    lemma_transform_sq(origin, cardinal, e, 0);
                                    lemma_axis_cell(origin, cardinal, e);
                                    assert(spec_transform(origin, cardinal, e, 0) == ray_cell(
                                        origin,
                                        sx,
                                        sy,
                                        e,
                                    ));
                                    assert(e * e <= ((range as int) + 2) * ((range as int) + 2))
                                        by (nonlinear_arith)
                                        requires
                                            1 <= e,
                                            e < depth,
                                            depth <= range,
                                            0 <= range,
                                    ;
                                }
                            }
                        }
                    }
                }
            }
            if have_prev && prev_wall && floor {
                proof {
                    assert(col >= min_col + 1);
                }
                row.start_slope = corner_slope(depth, col);
                proof {
                    assert(row.start_slope.num == 2 * (col as int) - 1);
                    if row.start_slope.num <= 0 {
                        // the new start is at or left of the axis, so the
                        // old one was too
                        assert(col <= 0);
                    } else {
                        assert(col >= 1);
                        assert(row.start_slope.num * 2 * (depth as int) >= row.start_slope.den)
                            by (nonlinear_arith)
                            requires
                                row.start_slope.num >= 1,
                                row.start_slope.den == 2 * (depth as int),
                                depth >= 1,
                        ;
                    }
                }
            }
            proof {
                if floor || wall {
                    assert(depth <= range + 2) by (nonlinear_arith)
                        requires
                            (depth as int) * (depth as int) + (col as int) * (col as int) <= ((
                            range as int) + 2) * ((range as int) + 2),
                            depth >= 1,
                            range >= 0,
                    ;
                }
            }
            if have_prev && prev_floor && wall {
                proof {
                    assert(col >= min_col + 1);
                    // the pushed row covers the axis only when this row
                    // does, and the axis cell here is clear floor
                    if row.start_slope.num <= 0 && 2 * (col as int) - 1 >= 0 {
                        assert(col >= 1);
                        assert(row.end_slope.num >= 0) by {
                            if row.end_slope.num < 0 {
                                assert(max_col <= -1);
                            }
                        }
                        assert(!axisw);
                    }
                }
                let next = Row {
                    depth: depth + 1,
                    start_slope: row.start_slope,
                    end_slope: corner_slope(depth, col),
                };
                proof {
                    lemma_child_axis_ok(*map, origin, cardinal, range as int, row, next);
                }
                rows.push(next);
            }
            proof {
                // the axis-wall flag keeps later floors from following a
                // wall on the axis without lifting the start slope
                if row.start_slope.num <= 0 {
                    assert(pop_start_nonpos) by {
                        if !pop_start_nonpos {
                            assert(min_col >= 1);
                            if have_prev && prev_wall && floor {
                                assert(col >= min_col + 1);
                            }
                        }
                    }
                }
                if axisw && col + 1 >= 1 && row.start_slope.num <= 0 {
                    if col == 0 {
                        assert(!floor);
                    } else if floor {
                        if have_prev && prev_wall {
                            assert(false);
                        } else if have_prev {
                            assert(!prev_floor);
                            assert(spec_squared_distance(
                                origin,
                                spec_transform(origin, cardinal, depth as int, col as int - 1),
                            ) > ((range as int) + 2) * ((range as int) + 2)) by {
                                assert(!scan_wall_cell(
                                    *map,
                                    origin,
                                    cardinal,
                                    range as int,
                                    depth as int,
                                    col as int - 1,
                                ));
                                assert(!scan_floor_cell(
                                    *map,
                                    origin,
                                    cardinal,
                                    range as int,
                                    depth as int,
                                    col as int - 1,
                                ));
                            }
                            assert((depth as int) * (depth as int) + (col as int - 1) * (
                            col as int - 1) <= (depth as int) * (depth as int) + (col as int) * (
                            col as int)) by (nonlinear_arith)
                                requires
                                    col >= 1,
                            ;
                            lemma_transform_sq(origin, cardinal, depth as int, col as int - 1);
                            lemma_transform_sq(origin, cardinal, depth as int, col as int);
                            assert(false);
                        } else {
                            assert(col == min_col);
                            assert(min_col <= 0);
                            assert(false);
                        }
                    }
                }
            }
            have_prev = true;
            prev_wall = wall;
            prev_floor = floor;
            col += 1;
        }
        if have_prev && prev_floor {
            proof {
                assert(depth <= range + 2);
                if row.start_slope.num <= 0 && row.end_slope.num >= 0 {
                    assert(max_col >= 0);
                    assert(col >= 1);
                    assert(!axisw);
                }
            }
            let next = Row {
                depth: depth + 1,
                start_slope: row.start_slope,
                end_slope: row.end_slope,
            };
            proof {
                lemma_child_axis_ok(*map, origin, cardinal, range as int, row, next);
            }
            rows.push(next);
        }
    }
}

/// Two bounded cardinal ray cells coincide only when their directions and
/// depths agree; none of them is the origin.
proof fn lemma_ray_cells_distinct(
    origin: Point,
    sx: int,
    sy: int,
    d: int,
    sx2: int,
    sy2: int,
    d2: int,
)
    requires
        0 <= origin.x <= MAX_DIM,
        0 <= origin.y <= MAX_DIM,
        cardinal_unit(sx, sy),
        cardinal_unit(sx2, sy2),
        1 <= d <= 2 * MAX_DIM + 6,
        1 <= d2 <= 2 * MAX_DIM + 6,
        ray_cell(origin, sx, sy, d) == ray_cell(origin, sx2, sy2, d2),
    ensures
        sx == sx2,
        sy == sy2,
        d == d2,
{
    assert(d * 1 == d && d * (-1) == -d && d * 0 == 0 && d2 * 1 == d2 && d2 * (-1) == -d2 && d2
        * 0 == 0) by (nonlinear_arith);
}

/// A bounded cardinal ray cell differs from the origin.
proof fn lemma_ray_not_origin(origin: Point, sx: int, sy: int, d: int)
    requires
        0 <= origin.x <= MAX_DIM,
        0 <= origin.y <= MAX_DIM,
        cardinal_unit(sx, sy),
        1 <= d <= 2 * MAX_DIM + 6,
    ensures
        ray_cell(origin, sx, sy, d) != origin,
{
    assert(d * 1 == d && d * (-1) == -d && d * 0 == 0) by (nonlinear_arith);
}

/// On a wall-free map, a ray to an in-bounds cell is clear: every cell
/// strictly between lies in bounds too, and nothing blocks there.
proof fn lemma_ray_between_clear(
    map: GridMap,
    origin: Point,
    sx: int,
    sy: int,
    d: int,
)
    requires
        map.wf(),
        wall_free(map),
        map.spec_in_bounds(origin),
        map.spec_in_bounds(ray_cell(origin, sx, sy, d)),
        cardinal_unit(sx, sy),
        1 <= d <= 2 * MAX_DIM + 6,
    ensures
        ray_clear(map, origin, sx, sy, d),
{
    let q = ray_cell(origin, sx, sy, d);
    assert(d * 1 == d && d * (-1) == -d && d * 0 == 0) by (nonlinear_arith);
    assert forall|e: int| 1 <= e < d implies !spec_blocked(
        map,
        #[trigger] ray_cell(origin, sx, sy, e),
    ) by {
        let c = ray_cell(origin, sx, sy, e);
        assert(e * 1 == e && e * (-1) == -e && e * 0 == 0) by (nonlinear_arith);
        assert(map.spec_in_bounds(c));
        crate::rect::lemma_point_to_index_bounds(map.world_rect, c);
        assert(!(map.tiles@[map.world_rect.spec_point_to_index(c)] is Wall));
    }
}

/// A quadrant's column-zero cell at depth `e` is its cardinal ray cell.
proof fn lemma_axis_cell(origin: Point, c: Cardinal, e: int)
    requires
        0 <= origin.x <= MAX_DIM,
        0 <= origin.y <= MAX_DIM,
        1 <= e <= MAX_DIM + 3,
    ensures
        spec_transform(origin, c, e, 0) == ray_cell(origin, cardinal_dx(c), cardinal_dy(c), e),
{
    assert(e * 1 == e && e * (-1) == -e && e * 0 == 0) by (nonlinear_arith);
    match c {
        Cardinal::North => {
            assert(spec_transform(origin, c, e, 0) == ray_cell(origin, 0, -1, e));
        },
        Cardinal::South => {
            assert(spec_transform(origin, c, e, 0) == ray_cell(origin, 0, 1, e));
        },
        Cardinal::East => {
            assert(spec_transform(origin, c, e, 0) == ray_cell(origin, 1, 0, e));
        },
        Cardinal::West => {
            assert(spec_transform(origin, c, e, 0) == ray_cell(origin, -1, 0, e));
        },
    }
}

/// A transformed quadrant cell that lands on a cardinal ray (at a depth
/// small enough not to wrap the coordinate space) lies on the quadrant's
/// own axis: its column is zero and its depth is the ray depth.
proof fn lemma_on_axis(
    origin: Point,
    c: Cardinal,
    depth: int,
    col: int,
    sx: int,
    sy: int,
    d: int,
)
    requires
        0 <= origin.x <= MAX_DIM,
        0 <= origin.y <= MAX_DIM,
        1 <= depth <= MAX_DIM + 3,
        -(MAX_DIM + 3) <= col <= MAX_DIM + 3,
        cardinal_unit(sx, sy),
        1 <= d <= 2 * MAX_DIM + 6,
        spec_transform(origin, c, depth, col) == ray_cell(origin, sx, sy, d),
    ensures
        col == 0,
        d == depth,
        sx == cardinal_dx(c),
        sy == cardinal_dy(c),
{
    let t = spec_transform(origin, c, depth, col);
    let r = ray_cell(origin, sx, sy, d);
    assert(sx == 1 && sy == 0 || sx == -1 && sy == 0 || sx == 0 && sy == 1 || sx == 0 && sy
        == -1);
    assert(d * 1 == d && d * (-1) == -d && d * 0 == 0) by (nonlinear_arith);
    assert(r.x == origin.x + d * sx && r.y == origin.y + d * sy);
    match c {
        Cardinal::North => {
            assert(t.x == origin.x + col && t.y == origin.y - depth);
        },
        Cardinal::South => {
            assert(t.x == origin.x + col && t.y == origin.y + depth);
        },
        Cardinal::East => {
            assert(t.x == origin.x + depth && t.y == origin.y + col);
        },
        Cardinal::West => {
            assert(t.x == origin.x - depth && t.y == origin.y + col);
        },
    }
}

/// A row pushed one step deeper keeps the axis facts: slopes off the axis
/// stay off it, and a covering child extends the clear axis through the
/// parent's clear axis cell.
proof fn lemma_child_axis_ok(
    map: GridMap,
    origin: Point,
    c: Cardinal,
    range: int,
    parent: Row,
    child: Row,
)
    requires
        1 <= parent.depth,
        child.depth == parent.depth + 1,
        child.start_slope.num <= 0 || (child.start_slope == parent.start_slope
            && parent.start_slope.num * 2 * (parent.depth as int) >= parent.start_slope.den) || (
        child.start_slope.num >= 1 && child.start_slope.den == 2 * (parent.depth as int)),
        child.end_slope.num >= 0 || (child.end_slope == parent.end_slope && (
        -parent.end_slope.num) * 2 * (parent.depth as int) >= parent.end_slope.den) || ((
        -child.end_slope.num) >= 1 && child.end_slope.den == 2 * (parent.depth as int)),
        (child.start_slope.num <= 0 && child.end_slope.num >= 0) ==> (axis_clear_to(
            map,
            origin,
            c,
            range,
            parent.depth as int,
        ) && !scan_wall_cell(map, origin, c, range, parent.depth as int, 0)),
    ensures
        row_axis_ok(map, origin, c, range, child),
{
    if child.start_slope.num <= 0 && child.end_slope.num >= 0 {
        assert forall|e: int| 1 <= e < child.depth implies !#[trigger] scan_wall_cell(
            map,
            origin,
            c,
            range,
            e,
            0,
        ) by {
            if e < parent.depth {
            } else {
                assert(e == parent.depth);
            }
        }
    }
    if child.start_slope.num > 0 {
        assert(child.start_slope.num * 2 * (child.depth as int) >= child.start_slope.den)
            by (nonlinear_arith)
            requires
                child.start_slope.num > 0,
                child.depth == parent.depth + 1,
                parent.depth >= 1,
                (child.start_slope.num * 2 * (parent.depth as int) >= child.start_slope.den) || (
                child.start_slope.num >= 1 && child.start_slope.den == 2 * (
                parent.depth as int)),
        ;
    }
    if child.end_slope.num < 0 {
        assert((-child.end_slope.num) * 2 * (child.depth as int) >= child.end_slope.den)
            by (nonlinear_arith)
            requires
                child.end_slope.num < 0,
                child.depth == parent.depth + 1,
                parent.depth >= 1,
                ((-child.end_slope.num) * 2 * (parent.depth as int) >= child.end_slope.den) || ((
                -child.end_slope.num) >= 1 && child.end_slope.den == 2 * (parent.depth as int)),
        ;
    }
}

/// The set of map cells visible from `origin` within Euclidean `range`:
/// the origin is always in its own visible set; every other member is
/// in bounds and within true Euclidean range; no cell appears twice.
pub fn field_of_view_set(origin: Point, range: i32, map: &GridMap) -> (r: Vec<Point>)
    requires
        map.wf(),
        map.spec_in_bounds(origin),
        0 <= range <= MAX_DIM,
    ensures
        r@.contains(origin),
        forall|k: int|
            0 <= k < r@.len() ==> map.spec_in_bounds(#[trigger] r@[k]) && (r@[k] == origin
                || spec_squared_distance(origin, r@[k]) <= range * range),
        forall|k1: int, k2: int| 0 <= k1 < k2 < r@.len() ==> r@[k1] != r@[k2],
        forall|sx: int, sy: int, d: int|
            cardinal_unit(sx, sy) && 1 <= d <= range && ray_clear(*map, origin, sx, sy, d)
                && map.spec_in_bounds(#[trigger] ray_cell(origin, sx, sy, d)) ==> r@.contains(
                ray_cell(origin, sx, sy, d),
            ),
        wall_free(*map) ==> forall|q: Point|
            #[trigger] map.spec_in_bounds(q) && spec_squared_distance(origin, q) <= range * range
                ==> r@.contains(q),
        forall|sx: int, sy: int, d: int|
            cardinal_unit(sx, sy) && 1 <= d <= 2 * MAX_DIM + 6 && r@.contains(
                #[trigger] ray_cell(origin, sx, sy, d),
            ) ==> ray_clear(*map, origin, sx, sy, d),
{
    let all = compute_fov(origin, range, map);
    let mut result: Vec<Point> = Vec::new();
    let mut i: usize = 0;
    while i < all.len()
        invariant
            map.wf(),
            map.spec_in_bounds(origin),
            i <= all@.len(),
            forall|k: int|
                0 <= k < all@.len() ==> #[trigger] all@[k] == origin || spec_squared_distance(
                    origin,
                    all@[k],
                ) <= range * range,
            forall|j: int|
                0 <= j < i && map.spec_in_bounds(#[trigger] all@[j]) ==> result@.contains(all@[j]),
            forall|k: int|
                0 <= k < result@.len() ==> map.spec_in_bounds(#[trigger] result@[k]) && (
                result@[k] == origin || spec_squared_distance(origin, result@[k]) <= range
                    * range),
            forall|k: int|
                0 <= k < result@.len() ==> all@.contains(#[trigger] result@[k]),
            forall|k1: int, k2: int| 0 <= k1 < k2 < result@.len() ==> result@[k1] != result@[k2],
        decreases all@.len() - i,
    {
        let p = all[i];
        if map.in_bounds(p) {
            let ghost rpre = result@;
            push_if_absent(&mut result, p);
            proof {
                assert forall|k: int|
                    0 <= k < result@.len() implies all@.contains(#[trigger] result@[k]) by {
                    if k < rpre.len() {
                        assert(result@[k] == rpre[k]);
                    } else {
                        assert(result@[k] == p);
                        assert(all@[i as int] == p);
                    }
                }
            }
        }
        i += 1;
    }
    proof {
        let k = choose|k: int| 0 <= k < all@.len() && all@[k] == origin;
        assert(map.spec_in_bounds(all@[k]));
        assert(result@.contains(origin));
        assert forall|sx: int, sy: int, d: int|
            cardinal_unit(sx, sy) && 1 <= d <= range && ray_clear(*map, origin, sx, sy, d)
                && map.spec_in_bounds(
                #[trigger] ray_cell(origin, sx, sy, d),
            ) implies result@.contains(ray_cell(origin, sx, sy, d)) by {
            let cell = ray_cell(origin, sx, sy, d);
            assert(all@.contains(cell));
            let j = choose|j: int| 0 <= j < all@.len() && all@[j] == cell;
            assert(result@.contains(all@[j]));
        }
        if wall_free(*map) {
            assert forall|q: Point|
                #[trigger] map.spec_in_bounds(q) && spec_squared_distance(origin, q) <= range
                    * range implies result@.contains(q) by {
                assert(all@.contains(q));
                let j = choose|j: int| 0 <= j < all@.len() && all@[j] == q;
                assert(result@.contains(all@[j]));
            }
        }
        assert forall|sx: int, sy: int, d: int|
            cardinal_unit(sx, sy) && 1 <= d <= 2 * MAX_DIM + 6 && result@.contains(
                #[trigger] ray_cell(origin, sx, sy, d),
            ) implies ray_clear(*map, origin, sx, sy, d) by {
            let k2 = choose|k2: int|
                0 <= k2 < result@.len() && result@[k2] == ray_cell(origin, sx, sy, d);
            assert(all@.contains(result@[k2]));
        }
    }
    result
}

} // verus!
