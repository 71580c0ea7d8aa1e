//! A workspace: a fixed outer rectangle tiled by an append-only sequence of
//! regions, with splitting, edge-adjacency queries, cascading resize, and
//! geometry swap.

use vstd::prelude::*;

use crate::geometry::Direction;
use crate::geometry::ErrorKind;
use crate::geometry::Position;
use crate::geometry::Rectangle;
use crate::geometry::Resize;
use crate::region::Region;
use crate::tiling::covered_by_some;
use crate::tiling::region_covers;
use crate::tiling::tiles_workspace;
use crate::tiling::workspace_covers;

verus! {

/// A rectangular area subdivided into regions.  A region's index in
/// `regions` is its stable handle: regions are appended, never removed or
/// reordered.
#[derive(Clone, Debug, PartialEq)]
pub struct Workspace {
    pub size: Rectangle,
    pub regions: Vec<Region>,
}

/// One physical display's geometry, immutable once created.
#[derive(Copy, Clone, Debug, PartialEq)]
pub struct Monitor {
    pub size: Rectangle,
    pub pos: Position,
}

/// Storage for workspaces and monitors.  The binding layer that associates
/// the two is reserved for a future extension and carries no logic here.
#[derive(Clone, Debug, PartialEq)]
pub struct Manager {
    pub workspaces: Vec<Workspace>,
    pub monitors: Vec<Monitor>,
}

impl Default for Manager {
    fn default() -> (m: Manager)
        ensures
            m.workspaces@.len() == 0,
            m.monitors@.len() == 0,
    {
        Manager { workspaces: Vec::new(), monitors: Vec::new() }
    }
}

/// `s` touches `r`'s edge in `d`: `r`'s near edge coincides with `s`'s far
/// edge.  Read with inclusive integer coordinates, where the far edge's last
/// covered unit is one before the stored (exclusive) edge, the two edges are
/// exactly one unit apart — so regions of an exact tiling count as touching,
/// and the relation is symmetric between opposite directions.
pub open spec fn shares_edge(r: Region, s: Region, d: Direction) -> bool {
    match d {
        Direction::Up => r.spec_top() == s.spec_bottom(),
        Direction::Down => r.spec_bottom() == s.spec_top(),
        Direction::Left => r.spec_left() == s.spec_right(),
        Direction::Right => r.spec_right() == s.spec_left(),
    }
}

/// `s`'s span along the axis crossing `d` overlaps `r`'s span, inclusive at
/// both endpoints: the larger of the two span starts does not pass the
/// smaller of the two span ends.
pub open spec fn cross_axis_overlaps(r: Region, s: Region, d: Direction) -> bool {
    match d {
        Direction::Up | Direction::Down => {
            let lo = if s.spec_left() >= r.spec_left() {
                s.spec_left()
            } else {
                r.spec_left()
            };
            let hi = if s.spec_right() <= r.spec_right() {
                s.spec_right()
            } else {
                r.spec_right()
            };
            lo <= hi
        },
        Direction::Left | Direction::Right => {
            let lo = if s.spec_top() >= r.spec_top() {
                s.spec_top()
            } else {
                r.spec_top()
            };
            let hi = if s.spec_bottom() <= r.spec_bottom() {
                s.spec_bottom()
            } else {
                r.spec_bottom()
            };
            lo <= hi
        },
    }
}

/// `s` touches `r`'s edge in `d` and their cross-axis spans overlap.
pub open spec fn is_adjacent(r: Region, s: Region, d: Direction) -> bool {
    shares_edge(r, s, d) && cross_axis_overlaps(r, s, d)
}

/// Some region of `regions` is adjacent to `r` in `d`.
pub open spec fn has_adjacent(regions: Seq<Region>, r: Region, d: Direction) -> bool {
    exists|i: int| 0 <= i < regions.len() && is_adjacent(r, #[trigger] regions[i], d)
}

/// The cross-axis overlap length used to rank neighbors: the absolute
/// difference between the larger of the two span starts and the smaller of
/// the two span ends.
pub open spec fn overlap_len(r: Region, s: Region, d: Direction) -> int {
    match d {
        Direction::Up | Direction::Down => {
            let lo = if s.spec_left() >= r.spec_left() {
                s.spec_left()
            } else {
                r.spec_left()
            };
            let hi = if s.spec_right() <= r.spec_right() {
                s.spec_right()
            } else {
                r.spec_right()
            };
            if lo - hi >= 0 {
                lo - hi
            } else {
                hi - lo
            }
        },
        Direction::Left | Direction::Right => {
            let lo = if s.spec_top() >= r.spec_top() {
                s.spec_top()
            } else {
                r.spec_top()
            };
            let hi = if s.spec_bottom() <= r.spec_bottom() {
                s.spec_bottom()
            } else {
                r.spec_bottom()
            };
            if lo - hi >= 0 {
                lo - hi
            } else {
                hi - lo
            }
        },
    }
}

/// `k` is the neighbor a swap targets: adjacent in `d`, of maximal overlap
/// length, and of the highest index among neighbors of that overlap (the
/// deterministic tie-break).
pub open spec fn is_major_adjacent(regions: Seq<Region>, r: Region, d: Direction, k: int) -> bool {
    &&& 0 <= k < regions.len()
    &&& is_adjacent(r, regions[k], d)
    &&& forall|i: int| 0 <= i < regions.len() && is_adjacent(r, #[trigger] regions[i], d)
        ==> overlap_len(r, regions[i], d) <= overlap_len(r, regions[k], d) && (overlap_len(
        r,
        regions[i],
        d,
    ) == overlap_len(r, regions[k], d) ==> i <= k)
}

/// The region appended by a split of `r` in `d`: it takes the floor half of
/// the halved dimension and the vacated side.
pub open spec fn split_child(r: Region, d: Direction) -> Region {
    match d {
        Direction::Up => Region {
            size: Rectangle { w: r.size.w, h: r.size.h / 2 },
            pos: r.pos,
            float: r.float,
        },
        Direction::Down => Region {
            size: Rectangle { w: r.size.w, h: r.size.h / 2 },
            pos: Position {
                x: r.pos.x,
                y: (r.pos.y + (r.size.h / 2 + r.size.h % 2)) as i64,
            },
            float: r.float,
        },
        Direction::Left => Region {
            size: Rectangle { w: r.size.w / 2, h: r.size.h },
            pos: r.pos,
            float: r.float,
        },
        Direction::Right => Region {
            size: Rectangle { w: r.size.w / 2, h: r.size.h },
            pos: Position {
                x: (r.pos.x + (r.size.w / 2 + r.size.w % 2)) as i64,
                y: r.pos.y,
            },
            float: r.float,
        },
    }
}

/// What remains of the split sibling: the ceiling half (the larger half on an
/// odd split) on the side away from `d`.
pub open spec fn split_parent(r: Region, d: Direction) -> Region {
    match d {
        Direction::Up => Region {
            size: Rectangle { w: r.size.w, h: (r.size.h / 2 + r.size.h % 2) as u64 },
            pos: Position { x: r.pos.x, y: (r.pos.y + r.size.h / 2) as i64 },
            float: r.float,
        },
        Direction::Down => Region {
            size: Rectangle { w: r.size.w, h: (r.size.h / 2 + r.size.h % 2) as u64 },
            pos: r.pos,
            float: r.float,
        },
        Direction::Left => Region {
            size: Rectangle { w: (r.size.w / 2 + r.size.w % 2) as u64, h: r.size.h },
            pos: Position { x: (r.pos.x + r.size.w / 2) as i64, y: r.pos.y },
            float: r.float,
        },
        Direction::Right => Region {
            size: Rectangle { w: (r.size.w / 2 + r.size.w % 2) as u64, h: r.size.h },
            pos: r.pos,
            float: r.float,
        },
    }
}

/// `v` is representable as an `i64`.
pub open spec fn fits_i64(v: int) -> bool {
    i64::MIN <= v <= i64::MAX
}

/// Moving `r`'s own edge in `d` by `delta` keeps the minimum size.
pub open spec fn own_can_move(r: Region, d: Direction, delta: int) -> bool {
    match d {
        Direction::Up => r.can_set_top(r.spec_top() + delta),
        Direction::Down => r.can_set_bottom(r.spec_bottom() + delta),
        Direction::Left => r.can_set_left(r.spec_left() + delta),
        Direction::Right => r.can_set_right(r.spec_right() + delta),
    }
}

/// `r` with its own edge in `d` moved by `delta`.
pub open spec fn own_moved(r: Region, d: Direction, delta: int) -> Region {
    match d {
        Direction::Up => r.with_top(r.spec_top() + delta),
        Direction::Down => r.with_bottom(r.spec_bottom() + delta),
        Direction::Left => r.with_left(r.spec_left() + delta),
        Direction::Right => r.with_right(r.spec_right() + delta),
    }
}

/// Moving the neighbor `s`'s opposing edge along with the region's edge, by
/// the same `delta`, keeps the minimum size.
pub open spec fn sib_can_move(s: Region, d: Direction, delta: int) -> bool {
    match d {
        Direction::Up => s.can_set_bottom(s.spec_bottom() + delta),
        Direction::Down => s.can_set_top(s.spec_top() + delta),
        Direction::Left => s.can_set_right(s.spec_right() + delta),
        Direction::Right => s.can_set_left(s.spec_left() + delta),
    }
}

/// The neighbor `s` with its opposing edge moved by the same `delta` as the
/// region's edge, so the neighbor absorbs exactly the vacated or claimed
/// space and the two stay flush.
pub open spec fn sib_moved(s: Region, d: Direction, delta: int) -> Region {
    match d {
        Direction::Up => s.with_bottom(s.spec_bottom() + delta),
        Direction::Down => s.with_top(s.spec_top() + delta),
        Direction::Left => s.with_right(s.spec_right() + delta),
        Direction::Right => s.with_left(s.spec_left() + delta),
    }
}

/// The machine bounds that moving `r`'s own edge in `d` by `delta` needs: the
/// target coordinate is an `i64`, and the recomputed dimension a `u64`.
pub open spec fn own_move_fits(r: Region, d: Direction, delta: int) -> bool {
    match d {
        Direction::Up => fits_i64(r.spec_top() + delta) && (own_can_move(r, d, delta)
            ==> r.spec_bottom() - (r.spec_top() + delta) <= u64::MAX),
        Direction::Down => fits_i64(r.spec_bottom() + delta),
        Direction::Left => fits_i64(r.spec_left() + delta) && (own_can_move(r, d, delta)
            ==> r.spec_right() - (r.spec_left() + delta) <= u64::MAX),
        Direction::Right => fits_i64(r.spec_right() + delta),
    }
}

/// The machine bounds that moving the neighbor `s`'s opposing edge needs.
pub open spec fn sib_move_fits(s: Region, d: Direction, delta: int) -> bool {
    match d {
        Direction::Up => fits_i64(s.spec_bottom() + delta),
        Direction::Down => fits_i64(s.spec_top() + delta) && (sib_can_move(s, d, delta)
            ==> s.spec_bottom() - (s.spec_top() + delta) <= u64::MAX),
        Direction::Left => fits_i64(s.spec_right() + delta),
        Direction::Right => fits_i64(s.spec_left() + delta) && (sib_can_move(s, d, delta)
            ==> s.spec_right() - (s.spec_left() + delta) <= u64::MAX),
    }
}

/// The index, scanning upward from `i`, of the first neighbor of `anchor` in
/// `d` that cannot absorb the negated `delta`; the length when every one can.
pub open spec fn cascade_stop_from(
    regions: Seq<Region>,
    anchor: Region,
    d: Direction,
    delta: int,
    i: int,
) -> int
    decreases regions.len() - i,
{
    if i < 0 || i >= regions.len() {
        regions.len() as int
    } else if is_adjacent(anchor, regions[i], d) && !sib_can_move(regions[i], d, delta) {
        i
    } else {
        cascade_stop_from(regions, anchor, d, delta, i + 1)
    }
}

/// Where a cascade anchored at `anchor` in `d` stops: the first index whose neighbor
/// cannot absorb the change, or the length when the whole cascade goes
/// through.
pub open spec fn cascade_stop(regions: Seq<Region>, anchor: Region, d: Direction, delta: int) -> int {
    cascade_stop_from(regions, anchor, d, delta, 0)
}

/// The region sequence after the cascade: every neighbor of `anchor` in `d`
/// before the stop has its opposing edge moved by the same `delta`; edits
/// before a failed participant are kept, as the cascade does not roll
/// back.
pub open spec fn cascade_regions(
    regions: Seq<Region>,
    anchor: Region,
    d: Direction,
    delta: int,
) -> Seq<Region> {
    Seq::new(
        regions.len(),
        |i: int|
            if is_adjacent(anchor, regions[i], d) && i < cascade_stop(regions, anchor, d, delta) {
                sib_moved(regions[i], d, delta)
            } else {
                regions[i]
            },
    )
}

/// A single-edge resize succeeds: the region itself and every pre-state
/// neighbor on that edge keep the minimum size.
pub open spec fn edge_resize_ok(regions: Seq<Region>, r: Region, d: Direction, delta: int) -> bool {
    own_can_move(r, d, delta) && cascade_stop(regions, r, d, delta) == regions.len()
}

/// The region sequence after a single-edge resize, successful or not.  The
/// cascade reaches exactly the regions adjacent to `r` before its edge moved.
pub open spec fn regions_after_edge_resize(
    regions: Seq<Region>,
    r: Region,
    d: Direction,
    delta: int,
) -> Seq<Region> {
    if own_can_move(r, d, delta) {
        cascade_regions(regions, r, d, delta)
    } else {
        regions
    }
}

/// The resized region itself after a single-edge resize, successful or not.
pub open spec fn region_after_edge_resize(r: Region, d: Direction, delta: int) -> Region {
    if own_can_move(r, d, delta) {
        own_moved(r, d, delta)
    } else {
        r
    }
}

/// The machine bounds a single-edge resize needs, for the region and for
/// every neighbor the cascade reaches.
pub open spec fn edge_resize_fits(
    regions: Seq<Region>,
    r: Region,
    d: Direction,
    delta: int,
) -> bool {
    own_move_fits(r, d, delta) && (own_can_move(r, d, delta) ==> forall|i: int|
        0 <= i < regions.len() && i <= cascade_stop(regions, r, d, delta) && is_adjacent(
            r,
            #[trigger] regions[i],
            d,
        ) ==> sib_move_fits(regions[i], d, delta))
}

/// The machine bounds a compound resize needs: those of its first component,
/// and, when that component goes through, those of its second on the state
/// the first leaves.
pub open spec fn compound_fits(
    regions: Seq<Region>,
    r: Region,
    d1: Direction,
    a: int,
    d2: Direction,
    b: int,
) -> bool {
    edge_resize_fits(regions, r, d1, a) && (edge_resize_ok(regions, r, d1, a) ==> edge_resize_fits(
        regions_after_edge_resize(regions, r, d1, a),
        region_after_edge_resize(r, d1, a),
        d2,
        b,
    ))
}

/// A compound resize succeeds: both sequential components do.
pub open spec fn compound_ok(
    regions: Seq<Region>,
    r: Region,
    d1: Direction,
    a: int,
    d2: Direction,
    b: int,
) -> bool {
    edge_resize_ok(regions, r, d1, a) && edge_resize_ok(
        regions_after_edge_resize(regions, r, d1, a),
        region_after_edge_resize(r, d1, a),
        d2,
        b,
    )
}

/// The region sequence after a compound resize; the second component is
/// attempted only when the first fully succeeded.
pub open spec fn compound_regions_after(
    regions: Seq<Region>,
    r: Region,
    d1: Direction,
    a: int,
    d2: Direction,
    b: int,
) -> Seq<Region> {
    if edge_resize_ok(regions, r, d1, a) {
        regions_after_edge_resize(
            regions_after_edge_resize(regions, r, d1, a),
            region_after_edge_resize(r, d1, a),
            d2,
            b,
        )
    } else {
        regions_after_edge_resize(regions, r, d1, a)
    }
}

/// The resized region itself after a compound resize.
pub open spec fn compound_region_after(
    regions: Seq<Region>,
    r: Region,
    d1: Direction,
    a: int,
    d2: Direction,
    b: int,
) -> Region {
    if edge_resize_ok(regions, r, d1, a) {
        region_after_edge_resize(region_after_edge_resize(r, d1, a), d2, b)
    } else {
        region_after_edge_resize(r, d1, a)
    }
}

/// The machine bounds `resize_region` needs for the request `rz`.
pub open spec fn resize_fits(regions: Seq<Region>, r: Region, rz: Resize) -> bool {
    match rz {
        Resize::Top(v) => edge_resize_fits(regions, r, Direction::Up, v as int),
        Resize::Bottom(v) => edge_resize_fits(regions, r, Direction::Down, v as int),
        Resize::Left(v) => edge_resize_fits(regions, r, Direction::Left, v as int),
        Resize::Right(v) => edge_resize_fits(regions, r, Direction::Right, v as int),
        Resize::TopLeft(a, b) => compound_fits(
            regions,
            r,
            Direction::Up,
            a as int,
            Direction::Left,
            b as int,
        ),
        Resize::TopRight(a, b) => compound_fits(
            regions,
            r,
            Direction::Up,
            a as int,
            Direction::Right,
            b as int,
        ),
        Resize::BottomLeft(a, b) => compound_fits(
            regions,
            r,
            Direction::Down,
            a as int,
            Direction::Left,
            b as int,
        ),
        Resize::BottomRight(a, b) => compound_fits(
            regions,
            r,
            Direction::Down,
            a as int,
            Direction::Right,
            b as int,
        ),
    }
}

/// The request `rz` succeeds: every participant keeps the minimum size.
pub open spec fn resize_ok(regions: Seq<Region>, r: Region, rz: Resize) -> bool {
    match rz {
        Resize::Top(v) => edge_resize_ok(regions, r, Direction::Up, v as int),
        Resize::Bottom(v) => edge_resize_ok(regions, r, Direction::Down, v as int),
        Resize::Left(v) => edge_resize_ok(regions, r, Direction::Left, v as int),
        Resize::Right(v) => edge_resize_ok(regions, r, Direction::Right, v as int),
        Resize::TopLeft(a, b) => compound_ok(
            regions,
            r,
            Direction::Up,
            a as int,
            Direction::Left,
            b as int,
        ),
        Resize::TopRight(a, b) => compound_ok(
            regions,
            r,
            Direction::Up,
            a as int,
            Direction::Right,
            b as int,
        ),
        Resize::BottomLeft(a, b) => compound_ok(
            regions,
            r,
            Direction::Down,
            a as int,
            Direction::Left,
            b as int,
        ),
        Resize::BottomRight(a, b) => compound_ok(
            regions,
            r,
            Direction::Down,
            a as int,
            Direction::Right,
            b as int,
        ),
    }
}

/// The region sequence `resize_region` leaves for the request `rz`.
pub open spec fn regions_after_resize(regions: Seq<Region>, r: Region, rz: Resize) -> Seq<Region> {
    match rz {
        Resize::Top(v) => regions_after_edge_resize(regions, r, Direction::Up, v as int),
        Resize::Bottom(v) => regions_after_edge_resize(regions, r, Direction::Down, v as int),
        Resize::Left(v) => regions_after_edge_resize(regions, r, Direction::Left, v as int),
        Resize::Right(v) => regions_after_edge_resize(regions, r, Direction::Right, v as int),
        Resize::TopLeft(a, b) => compound_regions_after(
            regions,
            r,
            Direction::Up,
            a as int,
            Direction::Left,
            b as int,
        ),
        Resize::TopRight(a, b) => compound_regions_after(
            regions,
            r,
            Direction::Up,
            a as int,
            Direction::Right,
            b as int,
        ),
        Resize::BottomLeft(a, b) => compound_regions_after(
            regions,
            r,
            Direction::Down,
            a as int,
            Direction::Left,
            b as int,
        ),
        Resize::BottomRight(a, b) => compound_regions_after(
            regions,
            r,
            Direction::Down,
            a as int,
            Direction::Right,
            b as int,
        ),
    }
}

/// The resized region `resize_region` leaves for the request `rz`.
pub open spec fn region_after_resize(regions: Seq<Region>, r: Region, rz: Resize) -> Region {
    match rz {
        Resize::Top(v) => region_after_edge_resize(r, Direction::Up, v as int),
        Resize::Bottom(v) => region_after_edge_resize(r, Direction::Down, v as int),
        Resize::Left(v) => region_after_edge_resize(r, Direction::Left, v as int),
        Resize::Right(v) => region_after_edge_resize(r, Direction::Right, v as int),
        Resize::TopLeft(a, b) => compound_region_after(
            regions,
            r,
            Direction::Up,
            a as int,
            Direction::Left,
            b as int,
        ),
        Resize::TopRight(a, b) => compound_region_after(
            regions,
            r,
            Direction::Up,
            a as int,
            Direction::Right,
            b as int,
        ),
        Resize::BottomLeft(a, b) => compound_region_after(
            regions,
            r,
            Direction::Down,
            a as int,
            Direction::Left,
            b as int,
        ),
        Resize::BottomRight(a, b) => compound_region_after(
            regions,
            r,
            Direction::Down,
            a as int,
            Direction::Right,
            b as int,
        ),
    }
}

/// The region sequence after `r`'s geometry is written into slot `k`; the
/// slot keeps its own float flag.
pub open spec fn swapped_regions(regions: Seq<Region>, r: Region, k: int) -> Seq<Region> {
    regions.update(k, Region { size: r.size, pos: r.pos, float: regions[k].float })
}

/// `r` after taking slot `k`'s geometry; it keeps its own float flag.
pub open spec fn swapped_region(regions: Seq<Region>, r: Region, k: int) -> Region {
    Region { size: regions[k].size, pos: regions[k].pos, float: r.float }
}

/// The cascade scan never stops before an index whose earlier neighbors all
/// absorb the change.
proof fn lemma_cascade_stop_skips(
    regions: Seq<Region>,
    anchor: Region,
    d: Direction,
    delta: int,
    m: int,
    i: int,
)
    requires
        0 <= m <= i <= regions.len(),
        forall|j: int|
            m <= j < i && is_adjacent(anchor, #[trigger] regions[j], d) ==> sib_can_move(
                regions[j],
                d,
                delta,
            ),
    ensures
        cascade_stop_from(regions, anchor, d, delta, m) == cascade_stop_from(
            regions,
            anchor,
            d,
            delta,
            i,
        ),
    decreases i - m,
{
    if m < i {
        assert(!(is_adjacent(anchor, regions[m], d) && !sib_can_move(regions[m], d, delta)));
        lemma_cascade_stop_skips(regions, anchor, d, delta, m + 1, i);
    }
}

/// The cascade scan starting at `m` never reports an index below `m`.
proof fn lemma_cascade_stop_from_ge(
    regions: Seq<Region>,
    anchor: Region,
    d: Direction,
    delta: int,
    m: int,
)
    requires
        0 <= m <= regions.len(),
    ensures
        cascade_stop_from(regions, anchor, d, delta, m) >= m,
    decreases regions.len() - m,
{
    if m < regions.len() {
        if !(is_adjacent(anchor, regions[m], d) && !sib_can_move(regions[m], d, delta)) {
            lemma_cascade_stop_from_ge(regions, anchor, d, delta, m + 1);
        }
    }
}

/// When every neighbor before `i` absorbs the change, the cascade stop is at
/// least `i`.
proof fn lemma_cascade_stop_at_least(
    regions: Seq<Region>,
    anchor: Region,
    d: Direction,
    delta: int,
    i: int,
)
    requires
        0 <= i <= regions.len(),
        forall|j: int|
            0 <= j < i && is_adjacent(anchor, #[trigger] regions[j], d) ==> sib_can_move(
                regions[j],
                d,
                delta,
            ),
    ensures
        cascade_stop(regions, anchor, d, delta) >= i,
{
    lemma_cascade_stop_skips(regions, anchor, d, delta, 0, i);
    lemma_cascade_stop_from_ge(regions, anchor, d, delta, i);
}

/// When every neighbor before `i` absorbs the change and `i` is either the
/// length or a neighbor that does not, the cascade stops exactly at `i`.
proof fn lemma_cascade_stop_exact(
    regions: Seq<Region>,
    anchor: Region,
    d: Direction,
    delta: int,
    i: int,
)
    requires
        0 <= i <= regions.len(),
        forall|j: int|
            0 <= j < i && is_adjacent(anchor, #[trigger] regions[j], d) ==> sib_can_move(
                regions[j],
                d,
                delta,
            ),
        i < regions.len() ==> is_adjacent(anchor, regions[i], d) && !sib_can_move(
            regions[i],
            d,
            delta,
        ),
    ensures
        cascade_stop(regions, anchor, d, delta) == i,
{
    lemma_cascade_stop_skips(regions, anchor, d, delta, 0, i);
}

/// A cascade that stops only at the length found no neighbor that cannot
/// absorb the change.
pub proof fn lemma_cascade_stop_all_can(regions: Seq<Region>, anchor: Region, d: Direction, delta: int)
    requires
        cascade_stop(regions, anchor, d, delta) == regions.len(),
    ensures
        forall|j: int|
            0 <= j < regions.len() && is_adjacent(anchor, #[trigger] regions[j], d)
                ==> sib_can_move(regions[j], d, delta),
{
    assert forall|j: int|
        0 <= j < regions.len() && is_adjacent(anchor, #[trigger] regions[j], d) implies sib_can_move(
        regions[j],
        d,
        delta,
    ) by {
        if !sib_can_move(regions[j], d, delta) {
            lemma_cascade_stop_le_bad(regions, anchor, d, delta, 0, j);
        }
    }
}

/// A cascade scan never passes an index whose neighbor cannot absorb the
/// change.
proof fn lemma_cascade_stop_le_bad(
    regions: Seq<Region>,
    anchor: Region,
    d: Direction,
    delta: int,
    m: int,
    j: int,
)
    requires
        0 <= m <= j < regions.len(),
        is_adjacent(anchor, regions[j], d),
        !sib_can_move(regions[j], d, delta),
    ensures
        cascade_stop_from(regions, anchor, d, delta, m) <= j,
    decreases j - m,
{
    if m < j {
        if !(is_adjacent(anchor, regions[m], d) && !sib_can_move(regions[m], d, delta)) {
            lemma_cascade_stop_le_bad(regions, anchor, d, delta, m + 1, j);
        }
    }
}

/// Adjacency is symmetric between opposite directions: `s` is adjacent to
/// `r` looking right exactly when `r` is adjacent to `s` looking left, and
/// the same for the down/up pair.
pub proof fn lemma_adjacent_symmetric(r: Region, s: Region)
    ensures
        is_adjacent(r, s, Direction::Right) == is_adjacent(s, r, Direction::Left),
        is_adjacent(r, s, Direction::Left) == is_adjacent(s, r, Direction::Right),
        is_adjacent(r, s, Direction::Down) == is_adjacent(s, r, Direction::Up),
        is_adjacent(r, s, Direction::Up) == is_adjacent(s, r, Direction::Down),
{
}

/// Resize cascade with a sole right-hand neighbor that can absorb the
/// change: the resize succeeds, the region's width grows by the delta and
/// its position stays, and the neighbor's left edge moves right by the
/// delta while its right edge stays fixed, so its width shrinks by the
/// delta.  No other region changes.
pub proof fn lemma_resize_right_sole_neighbor(
    regions: Seq<Region>,
    r: Region,
    k: int,
    delta: int,
)
    requires
        0 <= k < regions.len(),
        own_can_move(r, Direction::Right, delta),
        own_move_fits(r, Direction::Right, delta),
        sib_move_fits(regions[k], Direction::Right, delta),
        is_adjacent(r, regions[k], Direction::Right),
        forall|i: int|
            0 <= i < regions.len() && i != k ==> !is_adjacent(
                r,
                #[trigger] regions[i],
                Direction::Right,
            ),
        sib_can_move(regions[k], Direction::Right, delta),
    ensures
        edge_resize_ok(regions, r, Direction::Right, delta),
        region_after_edge_resize(r, Direction::Right, delta).size.w == r.size.w + delta,
        region_after_edge_resize(r, Direction::Right, delta).pos == r.pos,
        regions_after_edge_resize(regions, r, Direction::Right, delta)[k].spec_left()
            == regions[k].spec_left() + delta,
        regions_after_edge_resize(regions, r, Direction::Right, delta)[k].size.w == regions[k].size.w
            - delta,
        regions_after_edge_resize(regions, r, Direction::Right, delta)[k].spec_right()
            == regions[k].spec_right(),
        forall|i: int|
            0 <= i < regions.len() && i != k ==> regions_after_edge_resize(
                regions,
                r,
                Direction::Right,
                delta,
            )[i] == regions[i],
{
    lemma_cascade_stop_exact(regions, r, Direction::Right, delta, regions.len() as int);
}

/// Reports whether `s` touches `r`'s edge in `d`.
fn shares_edge_exec(r: &Region, s: &Region, d: &Direction) -> (b: bool)
    ensures
        b == shares_edge(*r, *s, *d),
{
    match *d {
        Direction::Up => (r.pos.y as i128) == (s.pos.y as i128) + (s.size.h as i128),
        Direction::Down => (r.pos.y as i128) + (r.size.h as i128) == (s.pos.y as i128),
        Direction::Left => (r.pos.x as i128) == (s.pos.x as i128) + (s.size.w as i128),
        Direction::Right => (r.pos.x as i128) + (r.size.w as i128) == (s.pos.x as i128),
    }
}

/// Reports whether `s`'s cross-axis span overlaps `r`'s.
fn cross_axis_overlaps_exec(r: &Region, s: &Region, d: &Direction) -> (b: bool)
    ensures
        b == cross_axis_overlaps(*r, *s, *d),
{
    match *d {
        Direction::Up | Direction::Down => {
            let r_left: i128 = r.pos.x as i128;
            let r_right: i128 = (r.pos.x as i128) + (r.size.w as i128);
            let s_left: i128 = s.pos.x as i128;
            let s_right: i128 = (s.pos.x as i128) + (s.size.w as i128);
            let lo: i128 = if s_left >= r_left {
                s_left
            } else {
                r_left
            };
            let hi: i128 = if s_right <= r_right {
                s_right
            } else {
                r_right
            };
            lo <= hi
        },
        Direction::Left | Direction::Right => {
            let r_top: i128 = r.pos.y as i128;
            let r_bottom: i128 = (r.pos.y as i128) + (r.size.h as i128);
            let s_top: i128 = s.pos.y as i128;
            let s_bottom: i128 = (s.pos.y as i128) + (s.size.h as i128);
            let lo: i128 = if s_top >= r_top {
                s_top
            } else {
                r_top
            };
            let hi: i128 = if s_bottom <= r_bottom {
                s_bottom
            } else {
                r_bottom
            };
            lo <= hi
        },
    }
}

/// Reports whether `s` is adjacent to `r` in `d`.
fn is_adjacent_exec(r: &Region, s: &Region, d: &Direction) -> (b: bool)
    ensures
        b == is_adjacent(*r, *s, *d),
{
    shares_edge_exec(r, s, d) && cross_axis_overlaps_exec(r, s, d)
}

/// Computes the cross-axis overlap length of `r` and `s`.
fn overlap_len_exec(r: &Region, s: &Region, d: &Direction) -> (o: i128)
    ensures
        o == overlap_len(*r, *s, *d),
{
    match *d {
        Direction::Up | Direction::Down => {
            let r_left: i128 = r.pos.x as i128;
            let r_right: i128 = (r.pos.x as i128) + (r.size.w as i128);
            let s_left: i128 = s.pos.x as i128;
            let s_right: i128 = (s.pos.x as i128) + (s.size.w as i128);
            let lo: i128 = if s_left >= r_left {
                s_left
            } else {
                r_left
            };
            let hi: i128 = if s_right <= r_right {
                s_right
            } else {
                r_right
            };
            if lo - hi >= 0 {
                lo - hi
            } else {
                hi - lo
            }
        },
        Direction::Left | Direction::Right => {
            let r_top: i128 = r.pos.y as i128;
            let r_bottom: i128 = (r.pos.y as i128) + (r.size.h as i128);
            let s_top: i128 = s.pos.y as i128;
            let s_bottom: i128 = (s.pos.y as i128) + (s.size.h as i128);
            let lo: i128 = if s_top >= r_top {
                s_top
            } else {
                r_top
            };
            let hi: i128 = if s_bottom <= r_bottom {
                s_bottom
            } else {
                r_bottom
            };
            if lo - hi >= 0 {
                lo - hi
            } else {
                hi - lo
            }
        },
    }
}

impl Workspace {
    /// A new workspace holds one region covering its full rectangle, so the
    /// tiling invariant holds from the start.
    pub fn new(size: Rectangle) -> (ws: Workspace)
        ensures
            ws.size == size,
            ws.regions@.len() == 1,
            ws.regions@[0] == (Region {
                size,
                pos: Position { x: 0, y: 0 },
                float: false,
            }),
            tiles_workspace(size, ws.regions@),
    {
        let mut regions: Vec<Region> = Vec::new();
        regions.push(Region::new(size, Position::new(0, 0), false));
        let ws = Workspace { size, regions };
        proof {
            assert forall|x: int, y: int| workspace_covers(size, x, y) implies covered_by_some(
                ws.regions@,
                x,
                y,
            ) by {
                assert(region_covers(ws.regions@[0], x, y));
            }
            assert forall|x: int, y: int| covered_by_some(ws.regions@, x, y) implies
                workspace_covers(size, x, y) by {
                let i = choose|i: int|
                    0 <= i < ws.regions@.len() && region_covers(ws.regions@[i], x, y);
                assert(region_covers(ws.regions@[0], x, y));
            }
        }
        ws
    }

    /// Halve `sibling` along the axis implied by `direction` and append a new
    /// region occupying the vacated half; the new region's index is returned.
    /// On an odd dimension the sibling keeps the larger half.  The new region
    /// inherits the sibling's float flag.
    pub fn create_region(&mut self, sibling: &mut Region, direction: &Direction) -> (idx: usize)
        requires
            match *direction {
                Direction::Up | Direction::Down => old(sibling).spec_bottom() <= i64::MAX,
                Direction::Left | Direction::Right => old(sibling).spec_right() <= i64::MAX,
            },
        ensures
            *final(sibling) == split_parent(*old(sibling), *direction),
            final(self).regions@ == old(self).regions@.push(
                split_child(*old(sibling), *direction),
            ),
            final(self).size == old(self).size,
            idx == old(self).regions@.len(),
            // The halves partition the split axis: the floor half for the new
            // region, the rest for the sibling, the other axis untouched.
            match *direction {
                Direction::Up | Direction::Down => split_child(*old(sibling), *direction).size.h
                    == old(sibling).size.h / 2 && split_parent(
                    *old(sibling),
                    *direction,
                ).size.h + split_child(*old(sibling), *direction).size.h == old(sibling).size.h
                    && split_child(*old(sibling), *direction).size.w == old(sibling).size.w
                    && split_parent(*old(sibling), *direction).size.w == old(sibling).size.w,
                Direction::Left | Direction::Right => split_child(*old(sibling), *direction).size.w
                    == old(sibling).size.w / 2 && split_parent(
                    *old(sibling),
                    *direction,
                ).size.w + split_child(*old(sibling), *direction).size.w == old(sibling).size.w
                    && split_child(*old(sibling), *direction).size.h == old(sibling).size.h
                    && split_parent(*old(sibling), *direction).size.h == old(sibling).size.h,
            },
            // Where each half sits: for `Up` the new region takes the original
            // top edge and the sibling's top edge moves down by the new
            // region's height; the other directions are the symmetric cases.
            match *direction {
                Direction::Up => split_child(*old(sibling), *direction).pos == old(sibling).pos
                    && split_parent(*old(sibling), *direction).spec_top() == old(
                    sibling,
                ).spec_top() + split_child(*old(sibling), *direction).size.h && split_parent(
                    *old(sibling),
                    *direction,
                ).spec_bottom() == old(sibling).spec_bottom(),
                Direction::Down => split_parent(*old(sibling), *direction).pos == old(sibling).pos
                    && split_child(*old(sibling), *direction).spec_top() == old(
                    sibling,
                ).spec_top() + split_parent(*old(sibling), *direction).size.h && split_child(
                    *old(sibling),
                    *direction,
                ).spec_bottom() == old(sibling).spec_bottom(),
                Direction::Left => split_child(*old(sibling), *direction).pos == old(sibling).pos
                    && split_parent(*old(sibling), *direction).spec_left() == old(
                    sibling,
                ).spec_left() + split_child(*old(sibling), *direction).size.w && split_parent(
                    *old(sibling),
                    *direction,
                ).spec_right() == old(sibling).spec_right(),
                Direction::Right => split_parent(*old(sibling), *direction).pos == old(sibling).pos
                    && split_child(*old(sibling), *direction).spec_left() == old(
                    sibling,
                ).spec_left() + split_parent(*old(sibling), *direction).size.w && split_child(
                    *old(sibling),
                    *direction,
                ).spec_right() == old(sibling).spec_right(),
            },
    {
        let mut region: Region = *sibling;
        match *direction {
            Direction::Up => {
                region.size.h = region.size.h / 2;
                sibling.size.h = sibling.size.h / 2 + sibling.size.h % 2;
                sibling.pos.y = ((sibling.pos.y as i128) + (region.size.h as i128)) as i64;
            },
            Direction::Down => {
                region.size.h = region.size.h / 2;
                sibling.size.h = sibling.size.h / 2 + sibling.size.h % 2;
                region.pos.y = ((region.pos.y as i128) + (sibling.size.h as i128)) as i64;
            },
            Direction::Left => {
                region.size.w = region.size.w / 2;
                sibling.size.w = sibling.size.w / 2 + sibling.size.w % 2;
                sibling.pos.x = ((sibling.pos.x as i128) + (region.size.w as i128)) as i64;
            },
            Direction::Right => {
                region.size.w = region.size.w / 2;
                sibling.size.w = sibling.size.w / 2 + sibling.size.w % 2;
                region.pos.x = ((region.pos.x as i128) + (sibling.size.w as i128)) as i64;
            },
        }
        self.regions.push(region);
        self.regions.len() - 1
    }

    /// All indices of regions lying exactly one unit beyond `region`'s edge
    /// in `direction`, in increasing order.
    pub fn shared_edge_regions(&self, region: &Region, direction: &Direction) -> (found: Vec<
        usize,
    >)
        ensures
            forall|a: int, b: int| 0 <= a < b < found@.len() ==> found@[a] < found@[b],
            forall|a: int|
                0 <= a < found@.len() ==> #[trigger] found@[a] < self.regions@.len()
                    && shares_edge(*region, self.regions@[found@[a] as int], *direction),
            forall|i: int|
                0 <= i < self.regions@.len() && shares_edge(
                    *region,
                    #[trigger] self.regions@[i],
                    *direction,
                ) ==> found@.contains(i as usize),
    {
        let mut found: Vec<usize> = Vec::new();
        let n: usize = self.regions.len();
        let mut i: usize = 0;
        while i < n
            invariant
                n == self.regions@.len(),
                i <= n,
                forall|a: int, b: int| 0 <= a < b < found@.len() ==> found@[a] < found@[b],
                forall|a: int|
                    0 <= a < found@.len() ==> #[trigger] found@[a] < i && shares_edge(
                        *region,
                        self.regions@[found@[a] as int],
                        *direction,
                    ),
                forall|j: int|
                    0 <= j < i && shares_edge(*region, #[trigger] self.regions@[j], *direction)
                        ==> found@.contains(j as usize),
            decreases n - i,
        {
            if shares_edge_exec(region, &self.regions[i], direction) {
                let ghost prev = found@;
                found.push(i);
                proof {
                    assert forall|j: int|
                        0 <= j < i + 1 && shares_edge(
                            *region,
                            #[trigger] self.regions@[j],
                            *direction,
                        ) implies found@.contains(j as usize) by {
                        if j < i {
                            let k = choose|k: int|
                                0 <= k < prev.len() && prev[k] == j as usize;
                            assert(found@[k] == j as usize);
                        } else {
                            assert(found@[found@.len() - 1] == i as usize);
                        }
                    }
                }
            }
            i += 1;
        }
        found
    }

    /// The indices of `shared_edge_regions` whose cross-axis span overlaps
    /// `region`'s, in increasing order.
    pub fn adjacent_regions(&self, region: &Region, direction: &Direction) -> (found: Vec<usize>)
        ensures
            forall|a: int, b: int| 0 <= a < b < found@.len() ==> found@[a] < found@[b],
            forall|a: int|
                0 <= a < found@.len() ==> #[trigger] found@[a] < self.regions@.len()
                    && is_adjacent(*region, self.regions@[found@[a] as int], *direction),
            forall|i: int|
                0 <= i < self.regions@.len() && is_adjacent(
                    *region,
                    #[trigger] self.regions@[i],
                    *direction,
                ) ==> found@.contains(i as usize),
    {
        let mut found: Vec<usize> = Vec::new();
        let n: usize = self.regions.len();
        let mut i: usize = 0;
        while i < n
            invariant
                n == self.regions@.len(),
                i <= n,
                forall|a: int, b: int| 0 <= a < b < found@.len() ==> found@[a] < found@[b],
                forall|a: int|
                    0 <= a < found@.len() ==> #[trigger] found@[a] < i && is_adjacent(
                        *region,
                        self.regions@[found@[a] as int],
                        *direction,
                    ),
                forall|j: int|
                    0 <= j < i && is_adjacent(*region, #[trigger] self.regions@[j], *direction)
                        ==> found@.contains(j as usize),
            decreases n - i,
        {
            if is_adjacent_exec(region, &self.regions[i], direction) {
                let ghost prev = found@;
                found.push(i);
                proof {
                    assert forall|j: int|
                        0 <= j < i + 1 && is_adjacent(
                            *region,
                            #[trigger] self.regions@[j],
                            *direction,
                        ) implies found@.contains(j as usize) by {
                        if j < i {
                            let k = choose|k: int|
                                0 <= k < prev.len() && prev[k] == j as usize;
                            assert(found@[k] == j as usize);
                        } else {
                            assert(found@[found@.len() - 1] == i as usize);
                        }
                    }
                }
            }
            i += 1;
        }
        found
    }

    /// The adjacent region with the largest cross-axis overlap in
    /// `direction`, or nothing when no region is adjacent.  Among neighbors
    /// of equal overlap the highest index wins.
    pub fn major_adjacent_region(&self, region: &Region, direction: &Direction) -> (found: Option<
        usize,
    >)
        ensures
            found is None <==> !has_adjacent(self.regions@, *region, *direction),
            found matches Some(k) ==> is_major_adjacent(
                self.regions@,
                *region,
                *direction,
                k as int,
            ),
    {
        let n: usize = self.regions.len();
        let mut have: bool = false;
        let mut best: usize = 0;
        let mut best_ov: i128 = 0;
        let mut i: usize = 0;
        while i < n
            invariant
                n == self.regions@.len(),
                i <= n,
                !have ==> forall|j: int|
                    0 <= j < i ==> !is_adjacent(*region, #[trigger] self.regions@[j], *direction),
                have ==> best < i && is_adjacent(*region, self.regions@[best as int], *direction)
                    && best_ov == overlap_len(*region, self.regions@[best as int], *direction),
                have ==> forall|j: int|
                    0 <= j < i && is_adjacent(*region, #[trigger] self.regions@[j], *direction)
                        ==> overlap_len(*region, self.regions@[j], *direction) <= best_ov
                        && (overlap_len(*region, self.regions@[j], *direction) == best_ov
                        ==> j <= best),
            decreases n - i,
        {
            if is_adjacent_exec(region, &self.regions[i], direction) {
                let ov: i128 = overlap_len_exec(region, &self.regions[i], direction);
                if !have || ov >= best_ov {
                    have = true;
                    best = i;
                    best_ov = ov;
                }
            }
            i += 1;
        }
        if have {
            Some(best)
        } else {
            None
        }
    }

    /// Move `region`'s edge in `direction` by `delta`, then move the opposing
    /// edge of every pre-state neighbor on that edge by the same `delta`, so
    /// the neighbors absorb the vacated or claimed space.  Stops at the first
    /// participant that would fall below the minimum size; edits already
    /// applied are kept.
    fn resize_edge(&mut self, region: &mut Region, direction: Direction, delta: i64) -> (res:
        Result<(), ErrorKind>)
        requires
            edge_resize_fits(old(self).regions@, *old(region), direction, delta as int),
        ensures
            final(self).size == old(self).size,
            final(self).regions@ == regions_after_edge_resize(
                old(self).regions@,
                *old(region),
                direction,
                delta as int,
            ),
            *final(region) == region_after_edge_resize(*old(region), direction, delta as int),
            res == (if edge_resize_ok(old(self).regions@, *old(region), direction, delta as int) {
                Ok::<(), ErrorKind>(())
            } else {
                Err::<(), ErrorKind>(ErrorKind::InvalidRegion)
            }),
    {
        let before: Region = *region;
        let own_res: Result<(), ErrorKind> = match direction {
            Direction::Up => {
                let target: i64 = ((region.pos.y as i128) + (delta as i128)) as i64;
                region.set_top(target)
            },
            Direction::Down => {
                let target: i64 = ((region.pos.y as i128) + (region.size.h as i128) + (
                delta as i128)) as i64;
                region.set_bottom(target)
            },
            Direction::Left => {
                let target: i64 = ((region.pos.x as i128) + (delta as i128)) as i64;
                region.set_left(target)
            },
            Direction::Right => {
                let target: i64 = ((region.pos.x as i128) + (region.size.w as i128) + (
                delta as i128)) as i64;
                region.set_right(target)
            },
        };
        match own_res {
            Err(e) => {
                return Err(e);
            },
            Ok(()) => {},
        }
        let n: usize = self.regions.len();
        let mut i: usize = 0;
        while i < n
            invariant
                n == self.regions@.len(),
                self.regions@.len() == old(self).regions@.len(),
                self.size == old(self).size,
                i <= n,
                own_can_move(*old(region), direction, delta as int),
                before == *old(region),
                *region == own_moved(*old(region), direction, delta as int),
                edge_resize_fits(old(self).regions@, *old(region), direction, delta as int),
                forall|j: int|
                    0 <= j < i && is_adjacent(before, #[trigger] old(self).regions@[j], direction)
                        ==> sib_can_move(old(self).regions@[j], direction, delta as int),
                forall|j: int|
                    0 <= j < n ==> self.regions@[j] == (if j < i && is_adjacent(
                        before,
                        #[trigger] old(self).regions@[j],
                        direction,
                    ) {
                        sib_moved(old(self).regions@[j], direction, delta as int)
                    } else {
                        old(self).regions@[j]
                    }),
            decreases n - i,
        {
            if is_adjacent_exec(&before, &self.regions[i], &direction) {
                let mut sib: Region = self.regions[i];
                proof {
                    lemma_cascade_stop_at_least(
                        old(self).regions@,
                        before,
                        direction,
                        delta as int,
                        i as int,
                    );
                    assert(sib == old(self).regions@[i as int]);
                    assert(is_adjacent(before, old(self).regions@[i as int], direction));
                    assert(sib_move_fits(old(self).regions@[i as int], direction, delta as int));
                }
                let sib_res: Result<(), ErrorKind> = match direction {
                    Direction::Up => {
                        let target: i64 = ((sib.pos.y as i128) + (sib.size.h as i128) + (
                        delta as i128)) as i64;
                        sib.set_bottom(target)
                    },
                    Direction::Down => {
                        let target: i64 = ((sib.pos.y as i128) + (delta as i128)) as i64;
                        sib.set_top(target)
                    },
                    Direction::Left => {
                        let target: i64 = ((sib.pos.x as i128) + (sib.size.w as i128) + (
                        delta as i128)) as i64;
                        sib.set_right(target)
                    },
                    Direction::Right => {
                        let target: i64 = ((sib.pos.x as i128) + (delta as i128)) as i64;
                        sib.set_left(target)
                    },
                };
                self.regions[i] = sib;
                match sib_res {
                    Err(e) => {
                        proof {
                            lemma_cascade_stop_exact(
                                old(self).regions@,
                                before,
                                direction,
                                delta as int,
                                i as int,
                            );
                            assert(self.regions@ =~= cascade_regions(
                                old(self).regions@,
                                before,
                                direction,
                                delta as int,
                            ));
                        }
                        return Err(e);
                    },
                    Ok(()) => {},
                }
            }
            i += 1;
        }
        proof {
            lemma_cascade_stop_exact(old(self).regions@, before, direction, delta as int, n as int);
            assert(self.regions@ =~= cascade_regions(
                old(self).regions@,
                before,
                direction,
                delta as int,
            ));
        }
        Ok(())
    }

    /// Apply the resize request `resize` to `region`: a single-edge request
    /// moves that edge and moves the opposing edge of every pre-state
    /// neighbor on it by the same delta, so the neighbors absorb the vacated
    /// or claimed space; a compound request applies its two single-edge
    /// components in sequence.
    /// Fails with `InvalidRegion` when any participant would fall below the
    /// minimum size; edits already applied are not rolled back.
    pub fn resize_region(&mut self, region: &mut Region, resize: &Resize) -> (res: Result<
        (),
        ErrorKind,
    >)
        requires
            resize_fits(old(self).regions@, *old(region), *resize),
        ensures
            final(self).size == old(self).size,
            final(self).regions@ == regions_after_resize(
                old(self).regions@,
                *old(region),
                *resize,
            ),
            *final(region) == region_after_resize(old(self).regions@, *old(region), *resize),
            res == (if resize_ok(old(self).regions@, *old(region), *resize) {
                Ok::<(), ErrorKind>(())
            } else {
                Err::<(), ErrorKind>(ErrorKind::InvalidRegion)
            }),
    {
        match *resize {
            Resize::Top(v) => self.resize_edge(region, Direction::Up, v),
            Resize::Bottom(v) => self.resize_edge(region, Direction::Down, v),
            Resize::Left(v) => self.resize_edge(region, Direction::Left, v),
            Resize::Right(v) => self.resize_edge(region, Direction::Right, v),
            Resize::TopLeft(a, b) => {
                match self.resize_edge(region, Direction::Up, a) {
                    Err(e) => Err(e),
                    Ok(()) => self.resize_edge(region, Direction::Left, b),
                }
            },
            Resize::TopRight(a, b) => {
                match self.resize_edge(region, Direction::Up, a) {
                    Err(e) => Err(e),
                    Ok(()) => self.resize_edge(region, Direction::Right, b),
                }
            },
            Resize::BottomLeft(a, b) => {
                match self.resize_edge(region, Direction::Down, a) {
                    Err(e) => Err(e),
                    Ok(()) => self.resize_edge(region, Direction::Left, b),
                }
            },
            Resize::BottomRight(a, b) => {
                match self.resize_edge(region, Direction::Down, a) {
                    Err(e) => Err(e),
                    Ok(()) => self.resize_edge(region, Direction::Right, b),
                }
            },
        }
    }

    /// Exchange `region`'s size and position with those of its major adjacent
    /// region in `direction`.  Indices do not move: only the geometry is
    /// exchanged.  Fails with `NoAdjacentRegions`, changing nothing, exactly
    /// when no region is adjacent in that direction.
    pub fn swap_region(&mut self, region: &mut Region, direction: &Direction) -> (res: Result<
        (),
        ErrorKind,
    >)
        ensures
            final(self).size == old(self).size,
            !has_adjacent(old(self).regions@, *old(region), *direction) ==> res == Err::<
                (),
                ErrorKind,
            >(ErrorKind::NoAdjacentRegions) && final(self).regions@ == old(self).regions@
                && *final(region) == *old(region),
            has_adjacent(old(self).regions@, *old(region), *direction) ==> res == Ok::<
                (),
                ErrorKind,
            >(()) && exists|k: int|
                #[trigger] is_major_adjacent(old(self).regions@, *old(region), *direction, k)
                    && final(self).regions@ == swapped_regions(
                    old(self).regions@,
                    *old(region),
                    k,
                ) && *final(region) == swapped_region(old(self).regions@, *old(region), k),
    {
        let found: Option<usize> = self.major_adjacent_region(region, direction);
        match found {
            None => Err(ErrorKind::NoAdjacentRegions),
            Some(idx) => {
                let sib: Region = self.regions[idx];
                self.regions[idx] = Region {
                    size: region.size,
                    pos: region.pos,
                    float: sib.float,
                };
                region.size = sib.size;
                region.pos = sib.pos;
                proof {
                    assert(self.regions@ =~= swapped_regions(
                        old(self).regions@,
                        *old(region),
                        idx as int,
                    ));
                }
                Ok(())
            },
        }
    }
}

} // verus!
