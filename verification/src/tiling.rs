//! The tiling invariant: what it means for a sequence of regions to cover a
//! workspace rectangle exactly, and the operations that preserve it.

use vstd::prelude::*;

use crate::geometry::Direction;
use crate::geometry::Rectangle;
use crate::region::Region;
use crate::workspace::edge_resize_ok;
use crate::workspace::is_adjacent;
use crate::workspace::is_major_adjacent;
use crate::workspace::lemma_cascade_stop_all_can;
use crate::workspace::own_moved;
use crate::workspace::own_move_fits;
use crate::workspace::regions_after_edge_resize;
use crate::workspace::sib_moved;
use crate::workspace::sib_move_fits;
use crate::workspace::split_child;
use crate::workspace::split_parent;
use crate::workspace::swapped_region;
use crate::workspace::swapped_regions;

verus! {

/// The unit square at `(x, y)` lies inside `r`.
pub open spec fn region_covers(r: Region, x: int, y: int) -> bool {
    r.spec_left() <= x < r.spec_right() && r.spec_top() <= y < r.spec_bottom()
}

/// The unit square at `(x, y)` lies inside the workspace rectangle.
pub open spec fn workspace_covers(size: Rectangle, x: int, y: int) -> bool {
    0 <= x < size.w && 0 <= y < size.h
}

/// Some region of `regions` covers `(x, y)`.
pub open spec fn covered_by_some(regions: Seq<Region>, x: int, y: int) -> bool {
    exists|i: int| 0 <= i < regions.len() && region_covers(#[trigger] regions[i], x, y)
}

/// No unit square lies inside two distinct regions.
pub open spec fn pairwise_disjoint(regions: Seq<Region>) -> bool {
    forall|i: int, j: int, x: int, y: int|
        #![trigger region_covers(regions[i], x, y), region_covers(regions[j], x, y)]
        0 <= i < j < regions.len() ==> !(region_covers(regions[i], x, y) && region_covers(
            regions[j],
            x,
            y,
        ))
}

/// The tiling invariant: the union of the region rectangles equals the
/// workspace rectangle, and no two regions overlap.
pub open spec fn tiles_workspace(size: Rectangle, regions: Seq<Region>) -> bool {
    &&& forall|x: int, y: int|
        #![trigger workspace_covers(size, x, y)]
        #![trigger covered_by_some(regions, x, y)]
        workspace_covers(size, x, y) <==> covered_by_some(regions, x, y)
    &&& pairwise_disjoint(regions)
}

/// The two halves of a split cover exactly what the split region covered,
/// and cover no unit square both.
pub proof fn lemma_split_covers(r: Region, d: Direction)
    requires
        match d {
            Direction::Up | Direction::Down => r.spec_bottom() <= i64::MAX,
            Direction::Left | Direction::Right => r.spec_right() <= i64::MAX,
        },
    ensures
        forall|x: int, y: int|
            #![trigger region_covers(r, x, y)]
            #![trigger region_covers(split_parent(r, d), x, y)]
            #![trigger region_covers(split_child(r, d), x, y)]
            region_covers(r, x, y) <==> (region_covers(split_parent(r, d), x, y) || region_covers(
                split_child(r, d),
                x,
                y,
            )),
        forall|x: int, y: int|
            #![trigger region_covers(split_parent(r, d), x, y)]
            #![trigger region_covers(split_child(r, d), x, y)]
            !(region_covers(split_parent(r, d), x, y) && region_covers(split_child(r, d), x, y)),
{
    let parent = split_parent(r, d);
    let child = split_child(r, d);
    match d {
        Direction::Up => {
            assert(r.size.h / 2 + (r.size.h / 2 + r.size.h % 2) == r.size.h);
            assert(child.spec_top() == r.spec_top());
            assert(child.spec_bottom() == r.spec_top() + r.size.h / 2);
            assert(parent.spec_top() == r.spec_top() + r.size.h / 2);
            assert(parent.spec_bottom() == r.spec_bottom());
        },
        Direction::Down => {
            assert(r.size.h / 2 + (r.size.h / 2 + r.size.h % 2) == r.size.h);
            assert(parent.spec_top() == r.spec_top());
            assert(parent.spec_bottom() == r.spec_top() + (r.size.h / 2 + r.size.h % 2));
            assert(child.spec_top() == r.spec_top() + (r.size.h / 2 + r.size.h % 2));
            assert(child.spec_bottom() == r.spec_bottom());
        },
        Direction::Left => {
            assert(r.size.w / 2 + (r.size.w / 2 + r.size.w % 2) == r.size.w);
            assert(child.spec_left() == r.spec_left());
            assert(child.spec_right() == r.spec_left() + r.size.w / 2);
            assert(parent.spec_left() == r.spec_left() + r.size.w / 2);
            assert(parent.spec_right() == r.spec_right());
        },
        Direction::Right => {
            assert(r.size.w / 2 + (r.size.w / 2 + r.size.w % 2) == r.size.w);
            assert(parent.spec_left() == r.spec_left());
            assert(parent.spec_right() == r.spec_left() + (r.size.w / 2 + r.size.w % 2));
            assert(child.spec_left() == r.spec_left() + (r.size.w / 2 + r.size.w % 2));
            assert(child.spec_right() == r.spec_right());
        },
    }
}

/// Tiling invariant under splitting: replacing a region by the kept half and
/// appending the vacated half, as a split does, leaves the workspace exactly
/// covered and overlap-free.
pub proof fn lemma_split_preserves_tiling(
    size: Rectangle,
    regions: Seq<Region>,
    idx: int,
    d: Direction,
)
    requires
        tiles_workspace(size, regions),
        0 <= idx < regions.len(),
        match d {
            Direction::Up | Direction::Down => regions[idx].spec_bottom() <= i64::MAX,
            Direction::Left | Direction::Right => regions[idx].spec_right() <= i64::MAX,
        },
    ensures
        tiles_workspace(
            size,
            regions.update(idx, split_parent(regions[idx], d)).push(split_child(regions[idx], d)),
        ),
{
    let r = regions[idx];
    let parent = split_parent(r, d);
    let child = split_child(r, d);
    let out = regions.update(idx, parent).push(child);
    let n = regions.len() as int;
    lemma_split_covers(r, d);
    assert forall|x: int, y: int| workspace_covers(size, x, y) implies covered_by_some(
        out,
        x,
        y,
    ) by {
        assert(covered_by_some(regions, x, y));
        let i = choose|i: int| 0 <= i < regions.len() && region_covers(regions[i], x, y);
        if i == idx {
            if region_covers(parent, x, y) {
                assert(region_covers(out[idx], x, y));
            } else {
                assert(region_covers(child, x, y));
                assert(region_covers(out[n], x, y));
            }
        } else {
            assert(region_covers(out[i], x, y));
        }
    }
    assert forall|x: int, y: int| covered_by_some(out, x, y) implies workspace_covers(
        size,
        x,
        y,
    ) by {
        let i = choose|i: int| 0 <= i < out.len() && region_covers(out[i], x, y);
        if i == idx {
            assert(region_covers(r, x, y));
            assert(covered_by_some(regions, x, y));
        } else if i == n {
            assert(region_covers(r, x, y));
            assert(covered_by_some(regions, x, y));
        } else {
            assert(region_covers(regions[i], x, y));
            assert(covered_by_some(regions, x, y));
        }
    }
    assert forall|i: int, j: int, x: int, y: int|
        0 <= i < j < out.len() implies !(region_covers(out[i], x, y) && region_covers(
        out[j],
        x,
        y,
    )) by {
        if region_covers(out[i], x, y) && region_covers(out[j], x, y) {
            if j < n {
                // two slots of the original sequence, one of them possibly the
                // kept half, which lies inside the split region
                let oi = if i == idx {
                    r
                } else {
                    regions[i]
                };
                let oj = if j == idx {
                    r
                } else {
                    regions[j]
                };
                assert(region_covers(oi, x, y));
                assert(region_covers(oj, x, y));
                assert(region_covers(regions[i], x, y) && region_covers(regions[j], x, y));
                assert(false);
            } else {
                // the appended half against a slot of the original sequence
                assert(j == n);
                assert(region_covers(child, x, y));
                assert(region_covers(r, x, y));
                if i == idx {
                    assert(region_covers(parent, x, y));
                    assert(false);
                } else {
                    assert(region_covers(regions[i], x, y));
                    assert(region_covers(regions[idx], x, y));
                    assert(false);
                }
            }
        }
    }
}

/// Tiling invariant under a swap: exchanging the geometry of the regions in
/// two slots, the float flags staying put, leaves the workspace exactly
/// covered and overlap-free.
pub proof fn lemma_swap_preserves_tiling(size: Rectangle, regions: Seq<Region>, idx: int, k: int)
    requires
        tiles_workspace(size, regions),
        0 <= idx < regions.len(),
        0 <= k < regions.len(),
        idx != k,
    ensures
        tiles_workspace(
            size,
            swapped_regions(regions, regions[idx], k).update(
                idx,
                swapped_region(regions, regions[idx], k),
            ),
        ),
{
    let out = swapped_regions(regions, regions[idx], k).update(
        idx,
        swapped_region(regions, regions[idx], k),
    );
    // `out` holds the original geometries under a transposition of idx and k
    assert forall|x: int, y: int|
        #![trigger region_covers(out[k], x, y)]
        true implies region_covers(out[k], x, y) == region_covers(regions[idx], x, y) by {}
    assert forall|x: int, y: int|
        #![trigger region_covers(out[idx], x, y)]
        true implies region_covers(out[idx], x, y) == region_covers(regions[k], x, y) by {}
    assert forall|x: int, y: int| workspace_covers(size, x, y) implies covered_by_some(
        out,
        x,
        y,
    ) by {
        assert(covered_by_some(regions, x, y));
        let i = choose|i: int| 0 <= i < regions.len() && region_covers(regions[i], x, y);
        if i == idx {
            assert(region_covers(out[k], x, y));
        } else if i == k {
            assert(region_covers(out[idx], x, y));
        } else {
            assert(region_covers(out[i], x, y));
        }
    }
    assert forall|x: int, y: int| covered_by_some(out, x, y) implies workspace_covers(
        size,
        x,
        y,
    ) by {
        let i = choose|i: int| 0 <= i < out.len() && region_covers(out[i], x, y);
        if i == idx {
            assert(region_covers(regions[k], x, y));
        } else if i == k {
            assert(region_covers(regions[idx], x, y));
        } else {
            assert(region_covers(regions[i], x, y));
        }
        assert(covered_by_some(regions, x, y));
    }
    assert forall|i: int, j: int, x: int, y: int|
        0 <= i < j < out.len() implies !(region_covers(out[i], x, y) && region_covers(
        out[j],
        x,
        y,
    )) by {
        if region_covers(out[i], x, y) && region_covers(out[j], x, y) {
            // map each slot back to the one holding that geometry originally
            let oi = if i == idx {
                k
            } else if i == k {
                idx
            } else {
                i
            };
            let oj = if j == idx {
                k
            } else if j == k {
                idx
            } else {
                j
            };
            assert(region_covers(regions[oi], x, y));
            assert(region_covers(regions[oj], x, y));
            assert(oi != oj);
            if oi < oj {
                assert(!(region_covers(regions[oi], x, y) && region_covers(regions[oj], x, y)));
            } else {
                assert(!(region_covers(regions[oj], x, y) && region_covers(regions[oi], x, y)));
            }
            assert(false);
        }
    }
}

/// The row `y` lies within `r`'s vertical span.
pub open spec fn row_within(r: Region, y: int) -> bool {
    r.spec_top() <= y < r.spec_bottom()
}

/// The column `x` lies within `r`'s horizontal span.
pub open spec fn col_within(r: Region, x: int) -> bool {
    r.spec_left() <= x < r.spec_right()
}

/// One region covers a point; a second, different one does not.
proof fn lemma_disjoint_at(regions: Seq<Region>, a: int, b: int, x: int, y: int)
    requires
        pairwise_disjoint(regions),
        0 <= a < regions.len(),
        0 <= b < regions.len(),
        a != b,
        region_covers(regions[a], x, y),
    ensures
        !region_covers(regions[b], x, y),
{
    if a < b {
        assert(!(region_covers(regions[a], x, y) && region_covers(regions[b], x, y)));
    } else {
        assert(!(region_covers(regions[b], x, y) && region_covers(regions[a], x, y)));
    }
}

/// Tiling invariant under a right-edge resize: when the resize succeeds,
/// every touched neighbor's span lies within the region's span, and the
/// region's whole right-edge segment is backed by neighbors, moving the
/// region's right edge and the neighbors' left edges by the same delta
/// leaves the workspace exactly covered and overlap-free (after the resized
/// region is written back to its slot).
pub proof fn lemma_resize_right_preserves_tiling(
    size: Rectangle,
    regions: Seq<Region>,
    i: int,
    delta: int,
)
    requires
        tiles_workspace(size, regions),
        0 <= i < regions.len(),
        regions[i].size.w > 0,
        own_move_fits(regions[i], Direction::Right, delta),
        edge_resize_ok(regions, regions[i], Direction::Right, delta),
        forall|j: int|
            0 <= j < regions.len() && is_adjacent(regions[i], #[trigger] regions[j], Direction::Right)
                ==> sib_move_fits(regions[j], Direction::Right, delta) && regions[j].size.w > 0
                && regions[i].spec_top() <= regions[j].spec_top() && regions[j].spec_bottom()
                <= regions[i].spec_bottom(),
        forall|y: int| #[trigger]
            row_within(regions[i], y) ==> exists|j: int|
                0 <= j < regions.len() && #[trigger] is_adjacent(
                    regions[i],
                    regions[j],
                    Direction::Right,
                ) && row_within(regions[j], y),
    ensures
        tiles_workspace(
            size,
            regions_after_edge_resize(regions, regions[i], Direction::Right, delta).update(
                i,
                own_moved(regions[i], Direction::Right, delta),
            ),
        ),
{
    let a = regions[i];
    let t = a.spec_top();
    let b = a.spec_bottom();
    let le = a.spec_left();
    let re = a.spec_right();
    let a2 = own_moved(a, Direction::Right, delta);
    let out = regions_after_edge_resize(regions, a, Direction::Right, delta).update(i, a2);
    let n = regions.len() as int;
    lemma_cascade_stop_all_can(regions, a, Direction::Right, delta);
    // geometry of the moved region: same left edge and span, right edge at
    // `re + delta`, still at least the minimum width
    assert(a2.spec_left() == le && a2.spec_right() == re + delta && a2.spec_top() == t
        && a2.spec_bottom() == b);
    assert(re + delta - le >= 20);
    // the region is not flush with itself, so its own slot is not cascaded
    assert(!is_adjacent(a, a, Direction::Right));
    assert(out.len() == n && out[i] == a2);
    // geometry of each moved neighbor: left edge follows to `re + delta`,
    // right edge and span unchanged, still at least the minimum width
    assert forall|j: int|
        0 <= j < n && j != i && is_adjacent(a, #[trigger] regions[j], Direction::Right) implies (
    out[j] == sib_moved(regions[j], Direction::Right, delta) && out[j].spec_left() == re + delta
        && out[j].spec_right() == regions[j].spec_right() && out[j].spec_top()
        == regions[j].spec_top() && out[j].spec_bottom() == regions[j].spec_bottom()
        && regions[j].spec_right() - (re + delta) >= 20) by {
        assert(sib_move_fits(regions[j], Direction::Right, delta));
    }
    assert forall|j: int|
        0 <= j < n && j != i && !is_adjacent(a, #[trigger] regions[j], Direction::Right) implies out[j]
        == regions[j] by {}
    // every point of the original tiling is still covered
    assert forall|x: int, y: int| workspace_covers(size, x, y) implies covered_by_some(
        out,
        x,
        y,
    ) by {
        assert(covered_by_some(regions, x, y));
        let j = choose|j: int| 0 <= j < regions.len() && region_covers(regions[j], x, y);
        if j == i {
            if x < re + delta {
                assert(region_covers(out[i], x, y));
            } else {
                // the region shrank past this column: the backing neighbor
                // has grown over it
                assert(row_within(regions[i], y));
                let k = choose|k: int|
                    0 <= k < regions.len() && #[trigger] is_adjacent(
                        regions[i],
                        regions[k],
                        Direction::Right,
                    ) && row_within(regions[k], y);
                assert(k != i);
                assert(region_covers(out[k], x, y));
            }
        } else if is_adjacent(a, regions[j], Direction::Right) {
            if x >= re + delta {
                assert(region_covers(out[j], x, y));
            } else {
                // the neighbor gave this column up to the growing region
                assert(region_covers(out[i], x, y));
            }
        } else {
            assert(region_covers(out[j], x, y));
        }
    }
    // and nothing outside the workspace became covered
    assert forall|x: int, y: int| covered_by_some(out, x, y) implies workspace_covers(
        size,
        x,
        y,
    ) by {
        let j = choose|j: int| 0 <= j < out.len() && region_covers(out[j], x, y);
        if j == i {
            if x < re {
                assert(region_covers(regions[i], x, y));
            } else {
                // the region grew over a column a backing neighbor held
                assert(row_within(regions[i], y));
                let k = choose|k: int|
                    0 <= k < regions.len() && #[trigger] is_adjacent(
                        regions[i],
                        regions[k],
                        Direction::Right,
                    ) && row_within(regions[k], y);
                assert(region_covers(regions[k], x, y));
            }
        } else if is_adjacent(a, regions[j], Direction::Right) {
            if x >= re {
                assert(region_covers(regions[j], x, y));
            } else {
                // the neighbor grew over a column the region held
                assert(region_covers(regions[i], x, y));
            }
        } else {
            assert(region_covers(regions[j], x, y));
        }
        assert(covered_by_some(regions, x, y));
    }
    // no two regions overlap afterwards
    assert forall|p: int, q: int, x: int, y: int|
        0 <= p < q < out.len() implies !(region_covers(out[p], x, y) && region_covers(
        out[q],
        x,
        y,
    )) by {
        if region_covers(out[p], x, y) && region_covers(out[q], x, y) {
            if p == i || q == i {
                let z = if p == i {
                    q
                } else {
                    p
                };
                // the moved region against any other slot
                if is_adjacent(a, regions[z], Direction::Right) {
                    // columns split exactly at `re + delta`
                    assert(false);
                } else {
                    if x < re {
                        assert(region_covers(regions[i], x, y));
                        lemma_disjoint_at(regions, i, z, x, y);
                        assert(false);
                    } else {
                        assert(row_within(regions[i], y));
                        let k = choose|k: int|
                            0 <= k < regions.len() && #[trigger] is_adjacent(
                                regions[i],
                                regions[k],
                                Direction::Right,
                            ) && row_within(regions[k], y);
                        assert(region_covers(regions[k], x, y));
                        assert(k != z);
                        lemma_disjoint_at(regions, k, z, x, y);
                        assert(false);
                    }
                }
            } else {
                let p_adj = is_adjacent(a, regions[p], Direction::Right);
                let q_adj = is_adjacent(a, regions[q], Direction::Right);
                if p_adj && q_adj {
                    // both neighbors still cover the old flush column over
                    // their unchanged spans, which therefore cannot meet
                    assert(region_covers(regions[p], re, y));
                    lemma_disjoint_at(regions, p, q, re, y);
                    assert(region_covers(regions[q], re, y));
                    assert(false);
                } else if p_adj || q_adj {
                    let z = if p_adj {
                        q
                    } else {
                        p
                    };
                    let w = if p_adj {
                        p
                    } else {
                        q
                    };
                    // a moved neighbor against an untouched slot
                    if x >= re {
                        assert(region_covers(regions[w], x, y));
                        lemma_disjoint_at(regions, w, z, x, y);
                        assert(false);
                    } else {
                        assert(region_covers(regions[i], x, y));
                        lemma_disjoint_at(regions, i, z, x, y);
                        assert(false);
                    }
                } else {
                    lemma_disjoint_at(regions, p, q, x, y);
                    assert(false);
                }
            }
        }
    }
}

/// Tiling invariant under a left-edge resize: the mirror image of the
/// right-edge case, with the neighbors' right edges following the region's
/// left edge.
pub proof fn lemma_resize_left_preserves_tiling(
    size: Rectangle,
    regions: Seq<Region>,
    i: int,
    delta: int,
)
    requires
        tiles_workspace(size, regions),
        0 <= i < regions.len(),
        regions[i].size.w > 0,
        own_move_fits(regions[i], Direction::Left, delta),
        edge_resize_ok(regions, regions[i], Direction::Left, delta),
        forall|j: int|
            0 <= j < regions.len() && is_adjacent(regions[i], #[trigger] regions[j], Direction::Left)
                ==> sib_move_fits(regions[j], Direction::Left, delta) && regions[j].size.w > 0
                && regions[i].spec_top() <= regions[j].spec_top() && regions[j].spec_bottom()
                <= regions[i].spec_bottom(),
        forall|y: int| #[trigger]
            row_within(regions[i], y) ==> exists|j: int|
                0 <= j < regions.len() && #[trigger] is_adjacent(
                    regions[i],
                    regions[j],
                    Direction::Left,
                ) && row_within(regions[j], y),
    ensures
        tiles_workspace(
            size,
            regions_after_edge_resize(regions, regions[i], Direction::Left, delta).update(
                i,
                own_moved(regions[i], Direction::Left, delta),
            ),
        ),
{
    let a = regions[i];
    let t = a.spec_top();
    let b = a.spec_bottom();
    let le = a.spec_left();
    let re = a.spec_right();
    let a2 = own_moved(a, Direction::Left, delta);
    let out = regions_after_edge_resize(regions, a, Direction::Left, delta).update(i, a2);
    let n = regions.len() as int;
    lemma_cascade_stop_all_can(regions, a, Direction::Left, delta);
    assert(a2.spec_left() == le + delta && a2.spec_right() == re && a2.spec_top() == t
        && a2.spec_bottom() == b);
    assert(re - (le + delta) >= 20);
    assert(!is_adjacent(a, a, Direction::Left));
    assert(out.len() == n && out[i] == a2);
    assert forall|j: int|
        0 <= j < n && j != i && is_adjacent(a, #[trigger] regions[j], Direction::Left) implies (out[j]
        == sib_moved(regions[j], Direction::Left, delta) && out[j].spec_right() == le + delta
        && out[j].spec_left() == regions[j].spec_left() && out[j].spec_top()
        == regions[j].spec_top() && out[j].spec_bottom() == regions[j].spec_bottom() && (le + delta)
        - regions[j].spec_left() >= 20) by {
        assert(sib_move_fits(regions[j], Direction::Left, delta));
    }
    assert forall|j: int|
        0 <= j < n && j != i && !is_adjacent(a, #[trigger] regions[j], Direction::Left) implies out[j]
        == regions[j] by {}
    assert forall|x: int, y: int| workspace_covers(size, x, y) implies covered_by_some(
        out,
        x,
        y,
    ) by {
        assert(covered_by_some(regions, x, y));
        let j = choose|j: int| 0 <= j < regions.len() && region_covers(regions[j], x, y);
        if j == i {
            if x >= le + delta {
                assert(region_covers(out[i], x, y));
            } else {
                assert(row_within(regions[i], y));
                let k = choose|k: int|
                    0 <= k < regions.len() && #[trigger] is_adjacent(
                        regions[i],
                        regions[k],
                        Direction::Left,
                    ) && row_within(regions[k], y);
                assert(k != i);
                assert(region_covers(out[k], x, y));
            }
        } else if is_adjacent(a, regions[j], Direction::Left) {
            if x < le + delta {
                assert(region_covers(out[j], x, y));
            } else {
                assert(region_covers(out[i], x, y));
            }
        } else {
            assert(region_covers(out[j], x, y));
        }
    }
    assert forall|x: int, y: int| covered_by_some(out, x, y) implies workspace_covers(
        size,
        x,
        y,
    ) by {
        let j = choose|j: int| 0 <= j < out.len() && region_covers(out[j], x, y);
        if j == i {
            if x >= le {
                assert(region_covers(regions[i], x, y));
            } else {
                assert(row_within(regions[i], y));
                let k = choose|k: int|
                    0 <= k < regions.len() && #[trigger] is_adjacent(
                        regions[i],
                        regions[k],
                        Direction::Left,
                    ) && row_within(regions[k], y);
                assert(region_covers(regions[k], x, y));
            }
        } else if is_adjacent(a, regions[j], Direction::Left) {
            if x < le {
                assert(region_covers(regions[j], x, y));
            } else {
                assert(region_covers(regions[i], x, y));
            }
        } else {
            assert(region_covers(regions[j], x, y));
        }
        assert(covered_by_some(regions, x, y));
    }
    assert forall|p: int, q: int, x: int, y: int|
        0 <= p < q < out.len() implies !(region_covers(out[p], x, y) && region_covers(
        out[q],
        x,
        y,
    )) by {
        if region_covers(out[p], x, y) && region_covers(out[q], x, y) {
            if p == i || q == i {
                let z = if p == i {
                    q
                } else {
                    p
                };
                if is_adjacent(a, regions[z], Direction::Left) {
                    assert(false);
                } else {
                    if x >= le {
                        assert(region_covers(regions[i], x, y));
                        lemma_disjoint_at(regions, i, z, x, y);
                        assert(false);
                    } else {
                        assert(row_within(regions[i], y));
                        let k = choose|k: int|
                            0 <= k < regions.len() && #[trigger] is_adjacent(
                                regions[i],
                                regions[k],
                                Direction::Left,
                            ) && row_within(regions[k], y);
                        assert(region_covers(regions[k], x, y));
                        assert(k != z);
                        lemma_disjoint_at(regions, k, z, x, y);
                        assert(false);
                    }
                }
            } else {
                let p_adj = is_adjacent(a, regions[p], Direction::Left);
                let q_adj = is_adjacent(a, regions[q], Direction::Left);
                if p_adj && q_adj {
                    assert(region_covers(regions[p], le - 1, y));
                    lemma_disjoint_at(regions, p, q, le - 1, y);
                    assert(region_covers(regions[q], le - 1, y));
                    assert(false);
                } else if p_adj || q_adj {
                    let z = if p_adj {
                        q
                    } else {
                        p
                    };
                    let w = if p_adj {
                        p
                    } else {
                        q
                    };
                    if x < le {
                        assert(region_covers(regions[w], x, y));
                        lemma_disjoint_at(regions, w, z, x, y);
                        assert(false);
                    } else {
                        assert(region_covers(regions[i], x, y));
                        lemma_disjoint_at(regions, i, z, x, y);
                        assert(false);
                    }
                } else {
                    lemma_disjoint_at(regions, p, q, x, y);
                    assert(false);
                }
            }
        }
    }
}

/// Tiling invariant under a top-edge resize: the vertical counterpart of
/// the left-edge case, with the neighbors' bottom edges following the
/// region's top edge.
pub proof fn lemma_resize_up_preserves_tiling(
    size: Rectangle,
    regions: Seq<Region>,
    i: int,
    delta: int,
)
    requires
        tiles_workspace(size, regions),
        0 <= i < regions.len(),
        regions[i].size.h > 0,
        own_move_fits(regions[i], Direction::Up, delta),
        edge_resize_ok(regions, regions[i], Direction::Up, delta),
        forall|j: int|
            0 <= j < regions.len() && is_adjacent(regions[i], #[trigger] regions[j], Direction::Up)
                ==> sib_move_fits(regions[j], Direction::Up, delta) && regions[j].size.h > 0
                && regions[i].spec_left() <= regions[j].spec_left() && regions[j].spec_right()
                <= regions[i].spec_right(),
        forall|x: int| #[trigger]
            col_within(regions[i], x) ==> exists|j: int|
                0 <= j < regions.len() && #[trigger] is_adjacent(
                    regions[i],
                    regions[j],
                    Direction::Up,
                ) && col_within(regions[j], x),
    ensures
        tiles_workspace(
            size,
            regions_after_edge_resize(regions, regions[i], Direction::Up, delta).update(
                i,
                own_moved(regions[i], Direction::Up, delta),
            ),
        ),
{
    let a = regions[i];
    let t = a.spec_top();
    let b = a.spec_bottom();
    let le = a.spec_left();
    let re = a.spec_right();
    let a2 = own_moved(a, Direction::Up, delta);
    let out = regions_after_edge_resize(regions, a, Direction::Up, delta).update(i, a2);
    let n = regions.len() as int;
    lemma_cascade_stop_all_can(regions, a, Direction::Up, delta);
    assert(a2.spec_top() == t + delta && a2.spec_bottom() == b && a2.spec_left() == le
        && a2.spec_right() == re);
    assert(b - (t + delta) >= 20);
    assert(!is_adjacent(a, a, Direction::Up));
    assert(out.len() == n && out[i] == a2);
    assert forall|j: int|
        0 <= j < n && j != i && is_adjacent(a, #[trigger] regions[j], Direction::Up) implies (out[j]
        == sib_moved(regions[j], Direction::Up, delta) && out[j].spec_bottom() == t + delta
        && out[j].spec_top() == regions[j].spec_top() && out[j].spec_left()
        == regions[j].spec_left() && out[j].spec_right() == regions[j].spec_right() && (t + delta)
        - regions[j].spec_top() >= 20) by {
        assert(sib_move_fits(regions[j], Direction::Up, delta));
    }
    assert forall|j: int|
        0 <= j < n && j != i && !is_adjacent(a, #[trigger] regions[j], Direction::Up) implies out[j]
        == regions[j] by {}
    assert forall|x: int, y: int| workspace_covers(size, x, y) implies covered_by_some(
        out,
        x,
        y,
    ) by {
        assert(covered_by_some(regions, x, y));
        let j = choose|j: int| 0 <= j < regions.len() && region_covers(regions[j], x, y);
        if j == i {
            if y >= t + delta {
                assert(region_covers(out[i], x, y));
            } else {
                assert(col_within(regions[i], x));
                let k = choose|k: int|
                    0 <= k < regions.len() && #[trigger] is_adjacent(
                        regions[i],
                        regions[k],
                        Direction::Up,
                    ) && col_within(regions[k], x);
                assert(k != i);
                assert(region_covers(out[k], x, y));
            }
        } else if is_adjacent(a, regions[j], Direction::Up) {
            if y < t + delta {
                assert(region_covers(out[j], x, y));
            } else {
                assert(region_covers(out[i], x, y));
            }
        } else {
            assert(region_covers(out[j], x, y));
        }
    }
    assert forall|x: int, y: int| covered_by_some(out, x, y) implies workspace_covers(
        size,
        x,
        y,
    ) by {
        let j = choose|j: int| 0 <= j < out.len() && region_covers(out[j], x, y);
        if j == i {
            if y >= t {
                assert(region_covers(regions[i], x, y));
            } else {
                assert(col_within(regions[i], x));
                let k = choose|k: int|
                    0 <= k < regions.len() && #[trigger] is_adjacent(
                        regions[i],
                        regions[k],
                        Direction::Up,
                    ) && col_within(regions[k], x);
                assert(region_covers(regions[k], x, y));
            }
        } else if is_adjacent(a, regions[j], Direction::Up) {
            if y < t {
                assert(region_covers(regions[j], x, y));
            } else {
                assert(region_covers(regions[i], x, y));
            }
        } else {
            assert(region_covers(regions[j], x, y));
        }
        assert(covered_by_some(regions, x, y));
    }
    assert forall|p: int, q: int, x: int, y: int|
        0 <= p < q < out.len() implies !(region_covers(out[p], x, y) && region_covers(
        out[q],
        x,
        y,
    )) by {
        if region_covers(out[p], x, y) && region_covers(out[q], x, y) {
            if p == i || q == i {
                let z = if p == i {
                    q
                } else {
                    p
                };
                if is_adjacent(a, regions[z], Direction::Up) {
                    assert(false);
                } else {
                    if y >= t {
                        assert(region_covers(regions[i], x, y));
                        lemma_disjoint_at(regions, i, z, x, y);
                        assert(false);
                    } else {
                        assert(col_within(regions[i], x));
                        let k = choose|k: int|
                            0 <= k < regions.len() && #[trigger] is_adjacent(
                                regions[i],
                                regions[k],
                                Direction::Up,
                            ) && col_within(regions[k], x);
                        assert(region_covers(regions[k], x, y));
                        assert(k != z);
                        lemma_disjoint_at(regions, k, z, x, y);
                        assert(false);
                    }
                }
            } else {
                let p_adj = is_adjacent(a, regions[p], Direction::Up);
                let q_adj = is_adjacent(a, regions[q], Direction::Up);
                if p_adj && q_adj {
                    assert(region_covers(regions[p], x, t - 1));
                    lemma_disjoint_at(regions, p, q, x, t - 1);
                    assert(region_covers(regions[q], x, t - 1));
                    assert(false);
                } else if p_adj || q_adj {
                    let z = if p_adj {
                        q
                    } else {
                        p
                    };
                    let w = if p_adj {
                        p
                    } else {
                        q
                    };
                    if y < t {
                        assert(region_covers(regions[w], x, y));
                        lemma_disjoint_at(regions, w, z, x, y);
                        assert(false);
                    } else {
                        assert(region_covers(regions[i], x, y));
                        lemma_disjoint_at(regions, i, z, x, y);
                        assert(false);
                    }
                } else {
                    lemma_disjoint_at(regions, p, q, x, y);
                    assert(false);
                }
            }
        }
    }
}

/// Tiling invariant under a bottom-edge resize: the vertical counterpart of
/// the right-edge case, with the neighbors' top edges following the
/// region's bottom edge.
pub proof fn lemma_resize_down_preserves_tiling(
    size: Rectangle,
    regions: Seq<Region>,
    i: int,
    delta: int,
)
    requires
        tiles_workspace(size, regions),
        0 <= i < regions.len(),
        regions[i].size.h > 0,
        own_move_fits(regions[i], Direction::Down, delta),
        edge_resize_ok(regions, regions[i], Direction::Down, delta),
        forall|j: int|
            0 <= j < regions.len() && is_adjacent(regions[i], #[trigger] regions[j], Direction::Down)
                ==> sib_move_fits(regions[j], Direction::Down, delta) && regions[j].size.h > 0
                && regions[i].spec_left() <= regions[j].spec_left() && regions[j].spec_right()
                <= regions[i].spec_right(),
        forall|x: int| #[trigger]
            col_within(regions[i], x) ==> exists|j: int|
                0 <= j < regions.len() && #[trigger] is_adjacent(
                    regions[i],
                    regions[j],
                    Direction::Down,
                ) && col_within(regions[j], x),
    ensures
        tiles_workspace(
            size,
            regions_after_edge_resize(regions, regions[i], Direction::Down, delta).update(
                i,
                own_moved(regions[i], Direction::Down, delta),
            ),
        ),
{
    let a = regions[i];
    let t = a.spec_top();
    let b = a.spec_bottom();
    let le = a.spec_left();
    let re = a.spec_right();
    let a2 = own_moved(a, Direction::Down, delta);
    let out = regions_after_edge_resize(regions, a, Direction::Down, delta).update(i, a2);
    let n = regions.len() as int;
    lemma_cascade_stop_all_can(regions, a, Direction::Down, delta);
    assert(a2.spec_top() == t && a2.spec_bottom() == b + delta && a2.spec_left() == le
        && a2.spec_right() == re);
    assert(b + delta - t >= 20);
    assert(!is_adjacent(a, a, Direction::Down));
    assert(out.len() == n && out[i] == a2);
    assert forall|j: int|
        0 <= j < n && j != i && is_adjacent(a, #[trigger] regions[j], Direction::Down) implies (out[j]
        == sib_moved(regions[j], Direction::Down, delta) && out[j].spec_top() == b + delta
        && out[j].spec_bottom() == regions[j].spec_bottom() && out[j].spec_left()
        == regions[j].spec_left() && out[j].spec_right() == regions[j].spec_right()
        && regions[j].spec_bottom() - (b + delta) >= 20) by {
        assert(sib_move_fits(regions[j], Direction::Down, delta));
    }
    assert forall|j: int|
        0 <= j < n && j != i && !is_adjacent(a, #[trigger] regions[j], Direction::Down) implies out[j]
        == regions[j] by {}
    assert forall|x: int, y: int| workspace_covers(size, x, y) implies covered_by_some(
        out,
        x,
        y,
    ) by {
        assert(covered_by_some(regions, x, y));
        let j = choose|j: int| 0 <= j < regions.len() && region_covers(regions[j], x, y);
        if j == i {
            if y < b + delta {
                assert(region_covers(out[i], x, y));
            } else {
                assert(col_within(regions[i], x));
                let k = choose|k: int|
                    0 <= k < regions.len() && #[trigger] is_adjacent(
                        regions[i],
                        regions[k],
                        Direction::Down,
                    ) && col_within(regions[k], x);
                assert(k != i);
                assert(region_covers(out[k], x, y));
            }
        } else if is_adjacent(a, regions[j], Direction::Down) {
            if y >= b + delta {
                assert(region_covers(out[j], x, y));
            } else {
                assert(region_covers(out[i], x, y));
            }
        } else {
            assert(region_covers(out[j], x, y));
        }
    }
    assert forall|x: int, y: int| covered_by_some(out, x, y) implies workspace_covers(
        size,
        x,
        y,
    ) by {
        let j = choose|j: int| 0 <= j < out.len() && region_covers(out[j], x, y);
        if j == i {
            if y < b {
                assert(region_covers(regions[i], x, y));
            } else {
                assert(col_within(regions[i], x));
                let k = choose|k: int|
                    0 <= k < regions.len() && #[trigger] is_adjacent(
                        regions[i],
                        regions[k],
                        Direction::Down,
                    ) && col_within(regions[k], x);
                assert(region_covers(regions[k], x, y));
            }
        } else if is_adjacent(a, regions[j], Direction::Down) {
            if y >= b {
                assert(region_covers(regions[j], x, y));
            } else {
                assert(region_covers(regions[i], x, y));
            }
        } else {
            assert(region_covers(regions[j], x, y));
        }
        assert(covered_by_some(regions, x, y));
    }
    assert forall|p: int, q: int, x: int, y: int|
        0 <= p < q < out.len() implies !(region_covers(out[p], x, y) && region_covers(
        out[q],
        x,
        y,
    )) by {
        if region_covers(out[p], x, y) && region_covers(out[q], x, y) {
            if p == i || q == i {
                let z = if p == i {
                    q
                } else {
                    p
                };
                if is_adjacent(a, regions[z], Direction::Down) {
                    assert(false);
                } else {
                    if y < b {
                        assert(region_covers(regions[i], x, y));
                        lemma_disjoint_at(regions, i, z, x, y);
                        assert(false);
                    } else {
                        assert(col_within(regions[i], x));
                        let k = choose|k: int|
                            0 <= k < regions.len() && #[trigger] is_adjacent(
                                regions[i],
                                regions[k],
                                Direction::Down,
                            ) && col_within(regions[k], x);
                        assert(region_covers(regions[k], x, y));
                        assert(k != z);
                        lemma_disjoint_at(regions, k, z, x, y);
                        assert(false);
                    }
                }
            } else {
                let p_adj = is_adjacent(a, regions[p], Direction::Down);
                let q_adj = is_adjacent(a, regions[q], Direction::Down);
                if p_adj && q_adj {
                    assert(region_covers(regions[p], x, b));
                    lemma_disjoint_at(regions, p, q, x, b);
                    assert(region_covers(regions[q], x, b));
                    assert(false);
                } else if p_adj || q_adj {
                    let z = if p_adj {
                        q
                    } else {
                        p
                    };
                    let w = if p_adj {
                        p
                    } else {
                        q
                    };
                    if y >= b {
                        assert(region_covers(regions[w], x, y));
                        lemma_disjoint_at(regions, w, z, x, y);
                        assert(false);
                    } else {
                        assert(region_covers(regions[i], x, y));
                        lemma_disjoint_at(regions, i, z, x, y);
                        assert(false);
                    }
                } else {
                    lemma_disjoint_at(regions, p, q, x, y);
                    assert(false);
                }
            }
        }
    }
}

/// Swap round-trip: a second swap against the same neighbor restores both
/// the region and the neighbor's slot to their pre-swap geometry exactly.
pub proof fn lemma_swap_round_trip(regions: Seq<Region>, r: Region, d: Direction, k: int)
    requires
        is_major_adjacent(regions, r, d, k),
        is_major_adjacent(swapped_regions(regions, r, k), swapped_region(regions, r, k), d, k),
    ensures
        swapped_regions(swapped_regions(regions, r, k), swapped_region(regions, r, k), k)
            == regions,
        swapped_region(swapped_regions(regions, r, k), swapped_region(regions, r, k), k) == r,
{
    assert(swapped_regions(swapped_regions(regions, r, k), swapped_region(regions, r, k), k)
        =~= regions);
}

} // verus!
