//! Prefab overlays: a fixed ASCII pattern stamped onto a generated level
//! at a validated location.

use vstd::prelude::*;

use crate::map::GridMap;
use crate::map::MAX_DIM;
use crate::map::TileType;
use crate::point::Point;
use crate::random::rng_range;
use crate::rect::IRect;
use crate::rect::lemma_point_index_round_trip;
use crate::rect::lemma_point_to_index_bounds;

verus! {

/// A covered cell must be farther than this from the player for a
/// placement to be accepted (the prefab must not sit at the player's feet).
pub const PREFAB_MIN_DISTANCE: usize = 20;

/// Distance-field cutoff used to probe placements; cells at or beyond it
/// count as unreached.
pub const PREFAB_MAX_DISTANCE: usize = 2000;

/// An ASCII pattern: `.` for Floor, `#` for Wall, `M` for Floor plus a
/// monster spawn.
pub struct Prefab {
    pub text: Vec<String>,
}

/// The tile a prefab character stands for.
pub open spec fn char_to_tile(c: char) -> TileType {
    if c == '#' {
        TileType::Wall
    } else {
        TileType::Floor
    }
}

/// The length of the longest row.
pub open spec fn max_row_len(rows: Seq<Seq<char>>) -> int
    decreases rows.len(),
{
    if rows.len() == 0 {
        0
    } else {
        let m = max_row_len(rows.drop_last());
        if rows.last().len() > m {
            rows.last().len() as int
        } else {
            m
        }
    }
}

pub proof fn lemma_max_row_len(rows: Seq<Seq<char>>, k: int)
    requires
        0 <= k < rows.len(),
    ensures
        rows[k].len() <= max_row_len(rows),
        max_row_len(rows) >= 0,
    decreases rows.len(),
{
    if rows.len() > 0 {
        if k == rows.len() - 1 {
            if rows.len() == 1 {
            } else {
                lemma_max_row_len(rows.drop_last(), 0);
            }
        } else {
            lemma_max_row_len(rows.drop_last(), k);
            assert(rows.drop_last()[k] == rows[k]);
        }
    }
}

pub proof fn lemma_max_row_len_nonneg(rows: Seq<Seq<char>>)
    ensures
        max_row_len(rows) >= 0,
    decreases rows.len(),
{
    if rows.len() > 0 {
        lemma_max_row_len_nonneg(rows.drop_last());
    }
}

impl Prefab {
    /// A usable pattern: at least one row, every row within bounds, at
    /// least one column, and only the three understood characters (any
    /// other character in a pattern is a fatal configuration error, which
    /// callers rule out up front).
    pub open spec fn wf(self) -> bool {
        &&& 1 <= self.text@.len() <= MAX_DIM
        &&& 1 <= max_row_len(self.text@.map_values(|s: String| s@)) <= MAX_DIM
        &&& max_row_len(self.text@.map_values(|s: String| s@)) * self.text@.len() <= 0x7fff_ffff
        &&& forall|ty: int|
            0 <= ty < self.text@.len() ==> (#[trigger] self.text@[ty])@.len() <= MAX_DIM
        &&& forall|ty: int, tx: int|
            0 <= ty < self.text@.len() && 0 <= tx < self.text@[ty]@.len() ==> {
                let c = #[trigger] self.text@[ty]@[tx];
                c == '.' || c == '#' || c == 'M'
            }
    }

    pub open spec fn spec_height(self) -> int {
        self.text@.len() as int
    }

    pub open spec fn spec_width(self) -> int {
        max_row_len(self.text@.map_values(|s: String| s@))
    }

    /// The length of the longest row of the pattern.
    pub fn width(&self) -> (r: i32)
        requires
            self.wf(),
        ensures
            r == self.spec_width(),
            1 <= r <= MAX_DIM,
    {
        let ghost rows = self.text@.map_values(|s: String| s@);
        let mut best: usize = 0;
        let mut ty: usize = 0;
        while ty < self.text.len()
            invariant
                self.wf(),
                rows == self.text@.map_values(|s: String| s@),
                ty <= rows.len(),
                best == max_row_len(rows.take(ty as int)),
                best <= MAX_DIM,
            decreases self.text@.len() - ty,
        {
            let len = self.text[ty].unicode_len();
            proof {
                assert(rows.take(ty + 1).drop_last() =~= rows.take(ty as int));
                assert(rows.take(ty + 1).last() == rows[ty as int]);
            }
            if len > best {
                best = len;
            }
            ty += 1;
        }
        proof {
            assert(rows.take(rows.len() as int) =~= rows);
        }
        best as i32
    }

    /// The number of rows of the pattern.
    pub fn height(&self) -> (r: i32)
        requires
            self.wf(),
        ensures
            r == self.spec_height(),
            1 <= r <= MAX_DIM,
    {
        self.text.len() as i32
    }
}

/// The rectangle of cells a placement at `anchor` claims (the pattern's
/// full bounding box).
pub open spec fn footprint(anchor: Point, width: int, height: int, p: Point) -> bool {
    anchor.x <= p.x < anchor.x + width && anchor.y <= p.y < anchor.y + height
}

/// The cell holds an `M` of the pattern placed at `anchor`.
pub open spec fn is_m_cell(prefab: Prefab, anchor: Point, p: Point) -> bool {
    let oy = p.y - anchor.y;
    let ox = p.x - anchor.x;
    &&& 0 <= oy < prefab.text@.len()
    &&& 0 <= ox < prefab.text@[oy]@.len()
    &&& prefab.text@[oy]@[ox] == 'M'
}

/// The stamping of the first cells of the pattern, in row-major order up
/// to (but excluding) offset (ty, tx).
pub open spec fn stamp_covered(prefab: Prefab, anchor: Point, p: Point, ty: int, tx: int) -> bool {
    let oy = p.y - anchor.y;
    let ox = p.x - anchor.x;
    &&& 0 <= oy < prefab.text@.len()
    &&& 0 <= ox < prefab.text@[oy]@.len()
    &&& (oy < ty || (oy == ty && ox < tx))
}

/// Every pattern cell overwrote its map cell with the tile its character
/// stands for; everything else is untouched.
pub open spec fn stamped(
    prefab: Prefab,
    anchor: Point,
    rect: IRect,
    old_tiles: Seq<TileType>,
    new_tiles: Seq<TileType>,
) -> bool {
    &&& new_tiles.len() == old_tiles.len()
    &&& forall|i: int|
        0 <= i < rect.spec_count() ==> {
            let p = rect.spec_index_to_point(i);
            let oy = p.y - anchor.y;
            let ox = p.x - anchor.x;
            (#[trigger] new_tiles[i]) == if 0 <= oy < prefab.text@.len() && 0 <= ox
                < prefab.text@[oy]@.len() {
                char_to_tile(prefab.text@[oy]@[ox])
            } else {
                old_tiles[i]
            }
        }
}

/// An anchor the placement test accepts: its box misses the goal cell and
/// covers at least one cell in the distance window from the player.
pub open spec fn anchor_acceptable(
    pw: int,
    ph: int,
    rect: IRect,
    amulet: Point,
    f: Seq<usize>,
    ax: int,
    ay: int,
) -> bool {
    let dims = IRect { x1: ax as i32, x2: (ax + pw) as i32, y1: ay as i32, y2: (ay + ph) as i32 };
    &&& !dims.spec_in_bounds(amulet)
    &&& exists|p: Point|
        #[trigger] dims.spec_in_bounds(p) && rect.spec_in_bounds(p) && PREFAB_MIN_DISTANCE < f[
            rect.spec_point_to_index(p)
        ] < PREFAB_MAX_DISTANCE
}

/// What a successful placement did: the anchor keeps the pattern strictly
/// inside the border, the pattern was stamped, pending spawns inside the
/// footprint were dropped, and each `M` cell may appear as a new spawn.
pub open spec fn placed(
    prefab: Prefab,
    anchor: Point,
    rect: IRect,
    amulet: Point,
    old_tiles: Seq<TileType>,
    new_tiles: Seq<TileType>,
    old_spawns: Seq<Point>,
    new_spawns: Seq<Point>,
) -> bool {
    &&& 1 <= anchor.x && anchor.x + prefab.spec_width() < rect.x2
    &&& 1 <= anchor.y && anchor.y + prefab.spec_height() < rect.y2
    &&& !footprint(anchor, prefab.spec_width(), prefab.spec_height(), amulet)
    &&& stamped(prefab, anchor, rect, old_tiles, new_tiles)
    &&& forall|p: Point| #[trigger] is_m_cell(prefab, anchor, p) ==> new_spawns.contains(p)
    &&& forall|k: int|
        0 <= k < new_spawns.len() ==> (old_spawns.contains(#[trigger] new_spawns[k])
            && !footprint(anchor, prefab.spec_width(), prefab.spec_height(), new_spawns[k]))
            || is_m_cell(prefab, anchor, new_spawns[k])
    &&& forall|k: int|
        0 <= k < old_spawns.len() && !footprint(
            anchor,
            prefab.spec_width(),
            prefab.spec_height(),
            #[trigger] old_spawns[k],
        ) ==> new_spawns.contains(old_spawns[k])
}

impl Prefab {
    /// Attempts up to 10 placements of this pattern: a random anchor whose
    /// bounding box fits strictly inside the map border and does not cover
    /// the goal cell, accepted when some covered cell sits in the distance
    /// window from the player (reachable but not trivially close). On
    /// acceptance, pending spawn points inside the footprint are dropped
    /// and the pattern is stamped: `.` Floor, `#` Wall, `M` Floor plus a
    /// new spawn point. With no valid placement the overlay is skipped.
    pub fn apply_prefab(
        &self,
        map: &mut GridMap,
        rng: &mut rand::rngs::ThreadRng,
        player_start: Point,
        amulet_start: Point,
        entity_spawns: &mut Vec<Point>,
    )
        requires
            self.wf(),
            old(map).wf(),
            old(map).spec_in_bounds(player_start),
            self.spec_width() + 3 <= old(map).world_rect.x2,
            self.spec_height() + 3 <= old(map).world_rect.y2,
        ensures
            final(map).wf(),
            final(map).world_rect == old(map).world_rect,
            final(map).revealed@ == old(map).revealed@,
            (final(map).tiles@ == old(map).tiles@ && final(entity_spawns)@ == old(
                entity_spawns,
            )@) || exists|anchor: Point|
                placed(
                    *self,
                    anchor,
                    old(map).world_rect,
                    amulet_start,
                    old(map).tiles@,
                    final(map).tiles@,
                    old(entity_spawns)@,
                    final(entity_spawns)@,
                ),
            // when every drawable anchor is acceptable, no draw can make
            // the overlay skip: a placement is guaranteed
            (exists|f: Seq<usize>|
                #[trigger] crate::dijkstra::is_distance_field(
                    old(map).tiles@,
                    old(map).world_rect,
                    seq![old(map).world_rect.spec_point_to_index(player_start)],
                    PREFAB_MAX_DISTANCE as int,
                    f,
                ) && forall|ax: int, ay: int|
                    1 <= ax < old(map).world_rect.x2 - self.spec_width() - 1 && 1 <= ay < old(
                        map,
                    ).world_rect.y2 - self.spec_height() - 1 ==> #[trigger] anchor_acceptable(
                        self.spec_width(),
                        self.spec_height(),
                        old(map).world_rect,
                        amulet_start,
                        f,
                        ax,
                        ay,
                    )) ==> exists|anchor: Point|
                placed(
                    *self,
                    anchor,
                    old(map).world_rect,
                    amulet_start,
                    old(map).tiles@,
                    final(map).tiles@,
                    old(entity_spawns)@,
                    final(entity_spawns)@,
                ),
    {
        let ghost rect = map.world_rect;
        let ghost orig_tiles = map.tiles@;
        let ghost orig_spawns = entity_spawns@;
        let dm = map.dijkstra_map(player_start, PREFAB_MAX_DISTANCE);
        let w = self.width();
        let h = self.height();
        let map_w = map.width();
        let map_h = map.height();
        let mut placement: Option<Point> = None;
        let mut attempts: usize = 0;
        while attempts < 10
            invariant
                attempts <= 10,
                self.wf(),
                map.wf(),
                rect == map.world_rect,
                orig_tiles == map.tiles@,
                map_w == rect.spec_width(),
                map_h == rect.spec_height(),
                w == self.spec_width(),
                h == self.spec_height(),
                1 <= w <= MAX_DIM,
                1 <= h <= MAX_DIM,
                w + 3 <= map_w,
                h + 3 <= map_h,
                dm.values@.len() == rect.spec_count(),
                match placement {
                    Some(a) => 1 <= a.x && a.x + w < rect.x2 && 1 <= a.y && a.y + h < rect.y2
                        && !footprint(a, w as int, h as int, amulet_start),
                    None => true,
                },
                crate::dijkstra::is_distance_field(
                    orig_tiles,
                    rect,
                    seq![rect.spec_point_to_index(player_start)],
                    PREFAB_MAX_DISTANCE as int,
                    dm.values@,
                ),
                (attempts > 0 && placement is None) ==> !(forall|ax2: int, ay2: int|
                    1 <= ax2 < rect.x2 - w - 1 && 1 <= ay2 < rect.y2 - h - 1
                        ==> #[trigger] anchor_acceptable(
                        w as int,
                        h as int,
                        rect,
                        amulet_start,
                        dm.values@,
                        ax2,
                        ay2,
                    )),
            decreases 10 - attempts,
        {
            attempts += 1;
            if placement.is_none() {
                let ax = rng_range(rng, 1, map_w - w - 1);
                let ay = rng_range(rng, 1, map_h - h - 1);
                proof {
                    assert((w as int) * (h as int) <= 0x7fff_ffff);
                }
                let dims = IRect::with_size(ax, ay, w, h);
                if !dims.in_bounds(amulet_start) {
                    let mut can_place = false;
                    let mut iter = dims.points();
                    while iter.current_index < iter.max_index
                        invariant
                            map.wf(),
                            rect == map.world_rect,
                            dims.wf(),
                            iter.wf(),
                            iter.rect == dims,
                            1 <= dims.x1,
                            dims.x2 < rect.x2,
                            1 <= dims.y1,
                            dims.y2 < rect.y2,
                            dm.values@.len() == rect.spec_count(),
                            !can_place ==> forall|t: int|
                                0 <= t < iter.current_index ==> !{
                                    let p = #[trigger] dims.spec_index_to_point(t);
                                    &&& rect.spec_in_bounds(p)
                                    &&& PREFAB_MIN_DISTANCE < dm.values@[rect.spec_point_to_index(
                                        p,
                                    )] < PREFAB_MAX_DISTANCE
                                },
                        decreases iter.max_index - iter.current_index,
                    {
                        let ghost k = iter.current_index as int;
                        match iter.next() {
                            None => {},
                            Some(pt) => {
                                proof {
                                    crate::rect::lemma_index_to_point_bounds(dims, k);
                                }
                                let idx = map.point_to_index(pt);
                                let d = dm.values[idx];
                                if d > PREFAB_MIN_DISTANCE && d < PREFAB_MAX_DISTANCE {
                                    can_place = true;
                                }
                                proof {
                                    if !can_place {
                                        assert(!{
                                            let p = dims.spec_index_to_point(k);
                                            &&& rect.spec_in_bounds(p)
                                            &&& PREFAB_MIN_DISTANCE < dm.values@[rect.spec_point_to_index(
                                                p,
                                            )] < PREFAB_MAX_DISTANCE
                                        });
                                    }
                                }
                            },
                        }
                    }
                    if can_place {
                        placement = Some(Point { x: ax, y: ay });
                        proof {
                            assert(!footprint(
                                Point { x: ax, y: ay },
                                w as int,
                                h as int,
                                amulet_start,
                            ));
                        }
                    } else {
                        proof {
                            // this drawable anchor fails the window test,
                            // so not every anchor is acceptable
                            if anchor_acceptable(
                                w as int,
                                h as int,
                                rect,
                                amulet_start,
                                dm.values@,
                                ax as int,
                                ay as int,
                            ) {
                                let p = choose|p: Point|
                                    #[trigger] dims.spec_in_bounds(p) && rect.spec_in_bounds(p)
                                        && PREFAB_MIN_DISTANCE < dm.values@[rect.spec_point_to_index(
                                        p,
                                    )] < PREFAB_MAX_DISTANCE;
                                crate::rect::lemma_point_to_index_bounds(dims, p);
                                crate::rect::lemma_point_index_round_trip(dims, p);
                                let t = dims.spec_point_to_index(p);
                                assert(dims.spec_index_to_point(t) == p);
                                assert(false);
                            }
                        }
                    }
                } else {
                    proof {
                        // the goal sits inside this drawable anchor's box
                        assert(!anchor_acceptable(
                            w as int,
                            h as int,
                            rect,
                            amulet_start,
                            dm.values@,
                            ax as int,
                            ay as int,
                        ));
                    }
                }
            }
        }
        if let Some(anchor) = placement {
            // drop pending spawn points inside the pattern's footprint
            let mut kept: Vec<Point> = Vec::new();
            let mut k: usize = 0;
            while k < entity_spawns.len()
                invariant
                    map.wf(),
                    rect == map.world_rect,
                    k <= entity_spawns@.len(),
                    entity_spawns@ == orig_spawns,
                    w == self.spec_width(),
                    h == self.spec_height(),
                    1 <= anchor.x,
                    anchor.x + w < rect.x2,
                    1 <= anchor.y,
                    anchor.y + h < rect.y2,
                    forall|t: int|
                        0 <= t < kept@.len() ==> orig_spawns.contains(#[trigger] kept@[t])
                            && !footprint(anchor, w as int, h as int, kept@[t]),
                    forall|j: int|
                        0 <= j < k && !footprint(
                            anchor,
                            w as int,
                            h as int,
                            #[trigger] orig_spawns[j],
                        ) ==> kept@.contains(orig_spawns[j]),
                decreases entity_spawns@.len() - k,
            {
                let p = entity_spawns[k];
                let ghost kept_pre = kept@;
                let inside = anchor.x <= p.x && p.x < anchor.x + w && anchor.y <= p.y && p.y
                    < anchor.y + h;
                if !inside {
                    kept.push(p);
                    proof {
                        assert(kept@.last() == p);
                        assert(orig_spawns.contains(p)) by {
                            assert(orig_spawns[k as int] == p);
                        }
                    }
                }
                proof {
                    assert forall|j: int|
                        0 <= j < k + 1 && !footprint(
                            anchor,
                            w as int,
                            h as int,
                            #[trigger] orig_spawns[j],
                        ) implies kept@.contains(orig_spawns[j]) by {
                        if j < k {
                            assert(kept_pre.contains(orig_spawns[j]));
                            let t = choose|t: int|
                                0 <= t < kept_pre.len() && kept_pre[t] == orig_spawns[j];
                            assert(kept@[t] == orig_spawns[j]);
                        } else {
                            assert(!inside);
                            assert(kept@[kept@.len() - 1] == orig_spawns[j]);
                        }
                    }
                }
                k += 1;
            }
            let mut new_spawns = kept;
            // stamp the pattern
            let ghost pre = map.tiles@;
            let mut ty: usize = 0;
            while ty < self.text.len()
                invariant
                    self.wf(),
                    map.wf(),
                    rect == map.world_rect,
                    map.revealed@ == old(map).revealed@,
                    pre.len() == rect.spec_count(),
                    map.tiles@.len() == rect.spec_count(),
                    ty <= self.text@.len(),
                    w == self.spec_width(),
                    h == self.spec_height(),
                    1 <= anchor.x,
                    anchor.x + w < rect.x2,
                    1 <= anchor.y,
                    anchor.y + h < rect.y2,
                    forall|i: int|
                        0 <= i < rect.spec_count() ==> (#[trigger] map.tiles@[i]) == (
                        if stamp_covered(*self, anchor, rect.spec_index_to_point(i), ty as int, 0)
                        {
                            char_to_tile(
                                self.text@[rect.spec_index_to_point(i).y - anchor.y]@[
                                    rect.spec_index_to_point(i).x - anchor.x],
                            )
                        } else {
                            pre[i]
                        }),
                    forall|t: int|
                        0 <= t < new_spawns@.len() ==> (orig_spawns.contains(
                            #[trigger] new_spawns@[t],
                        ) && !footprint(anchor, w as int, h as int, new_spawns@[t])) || is_m_cell(
                            *self,
                            anchor,
                            new_spawns@[t],
                        ),
                    forall|j: int|
                        0 <= j < orig_spawns.len() && !footprint(
                            anchor,
                            w as int,
                            h as int,
                            #[trigger] orig_spawns[j],
                        ) ==> new_spawns@.contains(orig_spawns[j]),
                    forall|p: Point|
                        #[trigger] is_m_cell(*self, anchor, p) && stamp_covered(
                            *self,
                            anchor,
                            p,
                            ty as int,
                            0,
                        ) ==> new_spawns@.contains(p),
                decreases self.text@.len() - ty,
            {
                let row_len = self.text[ty].unicode_len();
                proof {
                    lemma_max_row_len(self.text@.map_values(|s: String| s@), ty as int);
                    assert(self.text@.map_values(|s: String| s@)[ty as int] == self.text@[
                        ty as int]@);
                }
                let mut tx: usize = 0;
                while tx < row_len
                    invariant
                        self.wf(),
                        map.wf(),
                        rect == map.world_rect,
                        map.revealed@ == old(map).revealed@,
                        pre.len() == rect.spec_count(),
                        map.tiles@.len() == rect.spec_count(),
                        ty < self.text@.len(),
                        row_len == self.text@[ty as int]@.len(),
                        row_len <= w,
                        tx <= row_len,
                        w == self.spec_width(),
                        h == self.spec_height(),
                        1 <= anchor.x,
                        anchor.x + w < rect.x2,
                        1 <= anchor.y,
                        anchor.y + h < rect.y2,
                        forall|i: int|
                            0 <= i < rect.spec_count() ==> (#[trigger] map.tiles@[i]) == (
                            if stamp_covered(
                                *self,
                                anchor,
                                rect.spec_index_to_point(i),
                                ty as int,
                                tx as int,
                            ) {
                                char_to_tile(
                                    self.text@[rect.spec_index_to_point(i).y - anchor.y]@[
                                        rect.spec_index_to_point(i).x - anchor.x],
                                )
                            } else {
                                pre[i]
                            }),
                        forall|t: int|
                            0 <= t < new_spawns@.len() ==> (orig_spawns.contains(
                                #[trigger] new_spawns@[t],
                            ) && !footprint(anchor, w as int, h as int, new_spawns@[t]))
                                || is_m_cell(*self, anchor, new_spawns@[t]),
                        forall|j: int|
                            0 <= j < orig_spawns.len() && !footprint(
                                anchor,
                                w as int,
                                h as int,
                                #[trigger] orig_spawns[j],
                            ) ==> new_spawns@.contains(orig_spawns[j]),
                        forall|p: Point|
                            #[trigger] is_m_cell(*self, anchor, p) && stamp_covered(
                                *self,
                                anchor,
                                p,
                                ty as int,
                                tx as int,
                            ) ==> new_spawns@.contains(p),
                    decreases row_len - tx,
                {
                    let c = self.text[ty].as_str().get_char(tx);
                    let pt = Point { x: anchor.x + tx as i32, y: anchor.y + ty as i32 };
                    proof {
                        assert(ty < self.spec_height());
                        assert(rect.spec_in_bounds(pt));
                        lemma_point_to_index_bounds(rect, pt);
                        lemma_point_index_round_trip(rect, pt);
                    }
                    let ghost before = map.tiles@;
                    let ghost spawns_before = new_spawns@;
                    if c == 'M' {
                        map.set_tile(pt, TileType::Floor);
                        new_spawns.push(pt);
                        proof {
                            assert(is_m_cell(*self, anchor, pt));
                            assert forall|t: int|
                                0 <= t < new_spawns@.len() implies (orig_spawns.contains(
                                #[trigger] new_spawns@[t],
                            ) && !footprint(anchor, w as int, h as int, new_spawns@[t]))
                                || is_m_cell(*self, anchor, new_spawns@[t]) by {
                                if t < new_spawns@.len() - 1 {
                                    assert(new_spawns@[t] == spawns_before[t]);
                                }
                            }
                            assert forall|j: int|
                                0 <= j < orig_spawns.len() && !footprint(
                                    anchor,
                                    w as int,
                                    h as int,
                                    #[trigger] orig_spawns[j],
                                ) implies new_spawns@.contains(orig_spawns[j]) by {
                                let t = choose|t: int|
                                    0 <= t < spawns_before.len() && spawns_before[t]
                                        == orig_spawns[j];
                                assert(new_spawns@[t] == orig_spawns[j]);
                            }
                            assert(new_spawns@[new_spawns@.len() - 1] == pt);
                            assert forall|p: Point|
                                #[trigger] is_m_cell(*self, anchor, p) && stamp_covered(
                                    *self,
                                    anchor,
                                    p,
                                    ty as int,
                                    tx as int + 1,
                                ) implies new_spawns@.contains(p) by {
                                if p == pt {
                                    assert(new_spawns@[new_spawns@.len() - 1] == p);
                                } else {
                                    assert(stamp_covered(*self, anchor, p, ty as int, tx as int));
                                    let t = choose|t: int|
                                        0 <= t < spawns_before.len() && spawns_before[t] == p;
                                    assert(new_spawns@[t] == p);
                                }
                            }
                        }
                    } else if c == '.' {
                        map.set_tile(pt, TileType::Floor);
                    } else {
                        proof {
                            assert(c == '#');
                        }
                        map.set_tile(pt, TileType::Wall);
                    }
                    proof {
                        assert(map.tiles@ == before.update(
                            rect.spec_point_to_index(pt),
                            char_to_tile(c),
                        ));
                        assert forall|i: int| 0 <= i < rect.spec_count() implies (
                        #[trigger] map.tiles@[i]) == (if stamp_covered(
                            *self,
                            anchor,
                            rect.spec_index_to_point(i),
                            ty as int,
                            tx as int + 1,
                        ) {
                            char_to_tile(
                                self.text@[rect.spec_index_to_point(i).y - anchor.y]@[
                                    rect.spec_index_to_point(i).x - anchor.x],
                            )
                        } else {
                            pre[i]
                        }) by {
                            crate::rect::lemma_index_to_point_bounds(rect, i);
                            crate::rect::lemma_index_point_round_trip(rect, i);
                            if i == rect.spec_point_to_index(pt) {
                                assert(rect.spec_index_to_point(i) == pt);
                            } else {
                                assert(rect.spec_index_to_point(i) != pt);
                            }
                        }
                    }
                    tx += 1;
                }
                proof {
                    assert forall|i: int| 0 <= i < rect.spec_count() implies (
                    #[trigger] map.tiles@[i]) == (if stamp_covered(
                        *self,
                        anchor,
                        rect.spec_index_to_point(i),
                        ty as int + 1,
                        0,
                    ) {
                        char_to_tile(
                            self.text@[rect.spec_index_to_point(i).y - anchor.y]@[
                                rect.spec_index_to_point(i).x - anchor.x],
                        )
                    } else {
                        pre[i]
                    }) by {
                        crate::rect::lemma_index_to_point_bounds(rect, i);
                    }
                }
                ty += 1;
            }
            *entity_spawns = new_spawns;
            proof {
                assert(stamped(*self, anchor, rect, pre, map.tiles@)) by {
                    assert forall|i: int| 0 <= i < rect.spec_count() implies {
                        let p = rect.spec_index_to_point(i);
                        let oy = p.y - anchor.y;
                        let ox = p.x - anchor.x;
                        (#[trigger] map.tiles@[i]) == if 0 <= oy < self.text@.len() && 0 <= ox
                            < self.text@[oy]@.len() {
                            char_to_tile(self.text@[oy]@[ox])
                        } else {
                            pre[i]
                        }
                    } by {
                        crate::rect::lemma_index_to_point_bounds(rect, i);
                    }
                }
                assert(placed(
                    *self,
                    anchor,
                    rect,
                    amulet_start,
                    orig_tiles,
                    map.tiles@,
                    orig_spawns,
                    entity_spawns@,
                ));
            }
        } else {
            proof {
                // no placement was drawn, so some drawable anchor fails
                // the acceptance test: total acceptability is refuted
                if exists|f: Seq<usize>|
                    #[trigger] crate::dijkstra::is_distance_field(
                        orig_tiles,
                        rect,
                        seq![rect.spec_point_to_index(player_start)],
                        PREFAB_MAX_DISTANCE as int,
                        f,
                    ) && forall|ax: int, ay: int|
                        1 <= ax < rect.x2 - self.spec_width() - 1 && 1 <= ay < rect.y2
                            - self.spec_height() - 1 ==> #[trigger] anchor_acceptable(
                            self.spec_width(),
                            self.spec_height(),
                            rect,
                            amulet_start,
                            f,
                            ax,
                            ay,
                        ) {
                    let f = choose|f: Seq<usize>|
                        #[trigger] crate::dijkstra::is_distance_field(
                            orig_tiles,
                            rect,
                            seq![rect.spec_point_to_index(player_start)],
                            PREFAB_MAX_DISTANCE as int,
                            f,
                        ) && forall|ax: int, ay: int|
                            1 <= ax < rect.x2 - self.spec_width() - 1 && 1 <= ay < rect.y2
                                - self.spec_height() - 1 ==> #[trigger] anchor_acceptable(
                                self.spec_width(),
                                self.spec_height(),
                                rect,
                                amulet_start,
                                f,
                                ax,
                                ay,
                            );
                    crate::reach::lemma_field_unique(
                        orig_tiles,
                        rect,
                        seq![rect.spec_point_to_index(player_start)],
                        PREFAB_MAX_DISTANCE as int,
                        f,
                        dm.values@,
                    );
                }
            }
        }
    }
}

} // verus!
