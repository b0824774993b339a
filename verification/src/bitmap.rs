//! The tile-relevance bitmap.
//!
//! The extractor collects the tile ids a bounding box touches in a 64-bit
//! roaring bitmap. The bitmap type comes from an outside crate and is
//! opaque here; its contents are modelled as the set of ids it holds, and
//! each operation the planning logic uses states what it does to that
//! set.

use vstd::prelude::*;

verus! {

#[verifier::external_type_specification]
#[verifier::external_body]
pub struct ExRoaringTreemap(roaring::RoaringTreemap);

/// The set of tile ids a bitmap holds.
pub uninterp spec fn rt_set(b: roaring::RoaringTreemap) -> Set<u64>;

/// The ids of the half-open range `[lo, hi)`.
pub open spec fn spec_id_range(lo: u64, hi: u64) -> Set<u64> {
    Set::new(|x: u64| lo <= x < hi)
}

/// Relies on roaring's RoaringTreemap::new: a new bitmap holds nothing.
#[verifier::external_body]
pub(crate) fn rt_new() -> (r: roaring::RoaringTreemap)
    ensures
        rt_set(r) == Set::<u64>::empty(),
{
    roaring::RoaringTreemap::new()
}

/// Relies on RoaringTreemap::insert: afterwards the bitmap holds the
/// value, and everything it held before.
#[verifier::external_body]
pub(crate) fn rt_insert(b: &mut roaring::RoaringTreemap, v: u64)
    ensures
        rt_set(*final(b)) == rt_set(*old(b)).insert(v),
{
    b.insert(v);
}

/// Relies on RoaringTreemap::insert_range: afterwards the bitmap holds
/// every value of the half-open range, and everything it held before.
#[verifier::external_body]
pub(crate) fn rt_insert_range(b: &mut roaring::RoaringTreemap, lo: u64, hi: u64)
    ensures
        rt_set(*final(b)) == rt_set(*old(b)).union(spec_id_range(lo, hi)),
{
    b.insert_range(lo..hi);
}

/// Relies on RoaringTreemap::contains.
#[verifier::external_body]
pub(crate) fn rt_contains(b: &roaring::RoaringTreemap, v: u64) -> (r: bool)
    ensures
        r == rt_set(*b).contains(v),
{
    b.contains(v)
}

/// Relies on RoaringTreemap::is_disjoint: true exactly when the two
/// bitmaps hold no id in common.
#[verifier::external_body]
pub(crate) fn rt_is_disjoint(a: &roaring::RoaringTreemap, b: &roaring::RoaringTreemap) -> (r: bool)
    ensures
        r == rt_set(*a).disjoint(rt_set(*b)),
{
    a.is_disjoint(b)
}

/// The ids of the tiles of the rectangle `[x0, x1] × [y0, y1]` at zoom
/// `z`.
pub open spec fn spec_rect_ids(z: u8, x0: u32, x1: u32, y0: u32, y1: u32) -> Set<u64> {
    Set::new(
        |id: u64|
            exists|x: u32, y: u32|
                #![trigger crate::tile::spec_coord_to_id(z, x, y)]
                x0 <= x <= x1 && y0 <= y <= y1 && id == crate::tile::spec_coord_to_id(z, x, y),
    )
}

/// The ids of the rectangle at zoom `z` and of every ancestor rectangle
/// above it, down to `min_zoom`: one zoom up, each corner halves, since a
/// tile's parent is the tile at half its grid position.
pub open spec fn spec_rect_pyramid(
    z: int,
    min_zoom: u8,
    x0: u32,
    x1: u32,
    y0: u32,
    y1: u32,
) -> Set<u64>
    decreases z + 1 - min_zoom,
{
    if z < min_zoom {
        Set::<u64>::empty()
    } else {
        spec_rect_ids(z as u8, x0, x1, y0, y1).union(
            spec_rect_pyramid(z - 1, min_zoom, x0 / 2, x1 / 2, y0 / 2, y1 / 2),
        )
    }
}

/// The ids of the rectangle's cells before `(cx, cy)` in column-major
/// order: the full columns left of `cx`, and column `cx` up to row `cy`.
pub open spec fn spec_rect_prefix(
    z: u8,
    x0: u32,
    x1: u32,
    y0: u32,
    y1: u32,
    cx: int,
    cy: int,
) -> Set<u64> {
    Set::new(
        |id: u64|
            exists|x: u32, y: u32|
                #![trigger crate::tile::spec_coord_to_id(z, x, y)]
                x0 <= x <= x1 && y0 <= y <= y1 && id == crate::tile::spec_coord_to_id(z, x, y) && (
                x < cx || (x == cx && y < cy)),
    )
}

/// Insert every tile id of the rectangle `[x0, x1] × [y0, y1]` at zoom
/// `z`.
#[verifier::loop_isolation(false)]
#[verifier::rlimit(100)]
fn insert_rect(bm: &mut roaring::RoaringTreemap, z: u8, x0: u32, x1: u32, y0: u32, y1: u32)
    requires
        z <= 31,
        x0 <= x1,
        y0 <= y1,
        (x1 as nat) < vstd::arithmetic::power2::pow2(z as nat),
        (y1 as nat) < vstd::arithmetic::power2::pow2(z as nat),
    ensures
        rt_set(*final(bm)) == rt_set(*old(bm)).union(spec_rect_ids(z, x0, x1, y0, y1)),
{
    let ghost orig = rt_set(*old(bm));
    proof {
        vstd::arithmetic::power2::lemma_pow2_strictly_increases(z as nat, 32);
        vstd::arithmetic::power2::lemma2_to64();
        assert(rt_set(*bm).union(spec_rect_prefix(z, x0, x1, y0, y1, x0 as int, y0 as int))
            =~= rt_set(*bm));
    }
    let mut x = x0;
    while x <= x1
        invariant
            x0 <= x <= x1 + 1,
            x1 < 0x1_0000_0000u64,
            rt_set(*bm).union(Set::<u64>::empty()) == orig.union(
                spec_rect_prefix(z, x0, x1, y0, y1, x as int, y0 as int),
            ),
        decreases x1 + 1 - x,
    {
        let mut y = y0;
        while y <= y1
            invariant
                y0 <= y <= y1 + 1,
                x0 <= x <= x1,
                y1 < 0x1_0000_0000u64,
                rt_set(*bm).union(Set::<u64>::empty()) == orig.union(
                    spec_rect_prefix(z, x0, x1, y0, y1, x as int, y as int),
                ),
            decreases y1 + 1 - y,
        {
            let coord = match crate::tile::TileCoord::new(z, x, y) {
                Some(c) => c,
                None => {
                    proof {
                        assert(crate::tile::TileCoord::valid_coord(z, x, y));
                        assert(false);
                    }
                    return ;
                },
            };
            let id = crate::tile::TileId::from_coord(coord).value();
            let ghost before = rt_set(*bm);
            rt_insert(bm, id);
            proof {
                let pnew = spec_rect_prefix(z, x0, x1, y0, y1, x as int, y as int + 1);
                let pold = spec_rect_prefix(z, x0, x1, y0, y1, x as int, y as int);
                assert(pnew =~= pold.insert(id)) by {
                    assert forall|v: u64| #[trigger] pnew.contains(v) implies pold.insert(id).contains(v) by {
                        let (xx, yy) = choose|xx: u32, yy: u32|
                            #![trigger crate::tile::spec_coord_to_id(z, xx, yy)]
                            x0 <= xx <= x1 && y0 <= yy <= y1 && v == crate::tile::spec_coord_to_id(
                                z,
                                xx,
                                yy,
                            ) && (xx < x || (xx == x && yy < y + 1));
                        if xx == x && yy == y {
                            assert(v == id);
                        } else {
                            assert(pold.contains(v));
                        }
                    }
                    assert forall|v: u64| #[trigger] pold.insert(id).contains(v) implies pnew.contains(v) by {
                        if v == id {
                            assert(x0 <= x <= x1 && y0 <= y <= y1 && v
                                == crate::tile::spec_coord_to_id(z, x, y) && (x < x || (x == x && y
                                < y + 1)));
                        } else {
                            let (xx, yy) = choose|xx: u32, yy: u32|
                                #![trigger crate::tile::spec_coord_to_id(z, xx, yy)]
                                x0 <= xx <= x1 && y0 <= yy <= y1 && v
                                    == crate::tile::spec_coord_to_id(z, xx, yy) && (xx < x || (xx
                                    == x && yy < y));
                            assert(pnew.contains(v));
                        }
                    }
                }
                assert(rt_set(*bm).union(Set::<u64>::empty()) =~= before.insert(id));
                assert(before.insert(id) =~= orig.union(pnew)) by {
                    assert(before =~= orig.union(pold));
                }
                assert(rt_set(*bm).union(Set::<u64>::empty()) =~= orig.union(pnew));
            }
            y = y + 1;
        }
        proof {
            assert(spec_rect_prefix(z, x0, x1, y0, y1, x as int, y1 as int + 1)
                =~= spec_rect_prefix(z, x0, x1, y0, y1, x as int + 1, y0 as int)) by {
                assert forall|v: u64|
                    #[trigger] spec_rect_prefix(z, x0, x1, y0, y1, x as int, y1 as int + 1).contains(v)
                        implies spec_rect_prefix(z, x0, x1, y0, y1, x as int + 1, y0 as int).contains(
                    v,
                ) by {
                    let (xx, yy) = choose|xx: u32, yy: u32|
                        #![trigger crate::tile::spec_coord_to_id(z, xx, yy)]
                        x0 <= xx <= x1 && y0 <= yy <= y1 && v == crate::tile::spec_coord_to_id(
                            z,
                            xx,
                            yy,
                        ) && (xx < x || (xx == x && yy < y1 + 1));
                    assert(xx < x + 1);
                }
                assert forall|v: u64|
                    #[trigger] spec_rect_prefix(z, x0, x1, y0, y1, x as int + 1, y0 as int).contains(v)
                        implies spec_rect_prefix(z, x0, x1, y0, y1, x as int, y1 as int + 1).contains(
                    v,
                ) by {
                    let (xx, yy) = choose|xx: u32, yy: u32|
                        #![trigger crate::tile::spec_coord_to_id(z, xx, yy)]
                        x0 <= xx <= x1 && y0 <= yy <= y1 && v == crate::tile::spec_coord_to_id(
                            z,
                            xx,
                            yy,
                        ) && (xx < x + 1 || (xx == x + 1 && yy < y0));
                    assert(xx < x || (xx == x && yy < y1 + 1));
                }
            }
        }
        x = x + 1;
    }
    proof {
        assert(spec_rect_prefix(z, x0, x1, y0, y1, x1 as int + 1, y0 as int) =~= spec_rect_ids(
            z,
            x0,
            x1,
            y0,
            y1,
        )) by {
            assert forall|v: u64|
                #[trigger] spec_rect_prefix(z, x0, x1, y0, y1, x1 as int + 1, y0 as int).contains(v)
                    implies spec_rect_ids(z, x0, x1, y0, y1).contains(v) by {
                let (xx, yy) = choose|xx: u32, yy: u32|
                    #![trigger crate::tile::spec_coord_to_id(z, xx, yy)]
                    x0 <= xx <= x1 && y0 <= yy <= y1 && v == crate::tile::spec_coord_to_id(
                        z,
                        xx,
                        yy,
                    ) && (xx < x1 + 1 || (xx == x1 + 1 && yy < y0));
            }
            assert forall|v: u64|
                #[trigger] spec_rect_ids(z, x0, x1, y0, y1).contains(v) implies spec_rect_prefix(
                z,
                x0,
                x1,
                y0,
                y1,
                x1 as int + 1,
                y0 as int,
            ).contains(v) by {
                let (xx, yy) = choose|xx: u32, yy: u32|
                    #![trigger crate::tile::spec_coord_to_id(z, xx, yy)]
                    x0 <= xx <= x1 && y0 <= yy <= y1 && v == crate::tile::spec_coord_to_id(
                        z,
                        xx,
                        yy,
                    );
                assert(xx < x1 + 1);
            }
        }
        assert(rt_set(*bm) =~= rt_set(*bm).union(Set::<u64>::empty()));
        assert(rt_set(*bm) =~= orig.union(spec_rect_ids(z, x0, x1, y0, y1)));
    }
}

/// The relevance bitmap of a tile rectangle: the ids of the rectangle
/// `[min_x, max_x] × [min_y, max_y]` at `max_zoom`, and of every ancestor
/// rectangle down to `min_zoom`.
///
/// The caller converts a geographic bounding box to the rectangle's
/// corner tiles at `max_zoom`; this function fills the bitmap the
/// extractor prunes directories with.
#[verifier::loop_isolation(false)]
#[verifier::rlimit(100)]
pub fn tile_rect_bitmap(
    min_x: u32,
    max_x: u32,
    min_y: u32,
    max_y: u32,
    min_zoom: u8,
    max_zoom: u8,
) -> (r: roaring::RoaringTreemap)
    requires
        min_zoom <= max_zoom <= 31,
        min_x <= max_x,
        min_y <= max_y,
        (max_x as nat) < vstd::arithmetic::power2::pow2(max_zoom as nat),
        (max_y as nat) < vstd::arithmetic::power2::pow2(max_zoom as nat),
    ensures
        rt_set(r) == spec_rect_pyramid(max_zoom as int, min_zoom, min_x, max_x, min_y, max_y),
{
    let mut bm = rt_new();
    let mut x0 = min_x;
    let mut x1 = max_x;
    let mut y0 = min_y;
    let mut y1 = max_y;
    let steps: u8 = max_zoom - min_zoom;
    let mut k: u8 = 0;
    proof {
        assert(rt_set(bm).union(
            spec_rect_pyramid(max_zoom as int, min_zoom, min_x, max_x, min_y, max_y),
        ) =~= spec_rect_pyramid(max_zoom as int, min_zoom, min_x, max_x, min_y, max_y));
    }
    while k <= steps
        invariant
            k <= steps + 1,
            x0 <= x1,
            y0 <= y1,
            (x1 as nat) < vstd::arithmetic::power2::pow2((max_zoom - k) as nat) || k > steps,
            (y1 as nat) < vstd::arithmetic::power2::pow2((max_zoom - k) as nat) || k > steps,
            spec_rect_pyramid(max_zoom as int, min_zoom, min_x, max_x, min_y, max_y) == rt_set(
                bm,
            ).union(spec_rect_pyramid(max_zoom as int - k, min_zoom, x0, x1, y0, y1)),
        decreases steps + 1 - k,
    {
        let z: u8 = max_zoom - k;
        let ghost before = rt_set(bm);
        insert_rect(&mut bm, z, x0, x1, y0, y1);
        proof {
            let tail = spec_rect_pyramid(z as int - 1, min_zoom, x0 / 2, x1 / 2, y0 / 2, y1 / 2);
            assert(spec_rect_pyramid(z as int, min_zoom, x0, x1, y0, y1) =~= spec_rect_ids(
                z,
                x0,
                x1,
                y0,
                y1,
            ).union(tail));
            assert(before.union(spec_rect_ids(z, x0, x1, y0, y1).union(tail)) =~= rt_set(
                bm,
            ).union(tail));
            if k < steps {
                vstd::arithmetic::power2::lemma_pow2_unfold((z) as nat);
            }
        }
        x0 = x0 / 2;
        x1 = x1 / 2;
        y0 = y0 / 2;
        y1 = y1 / 2;
        k = k + 1;
    }
    proof {
        assert(spec_rect_pyramid(max_zoom as int - k, min_zoom, x0, x1, y0, y1) =~= Set::<
            u64,
        >::empty());
        assert(rt_set(bm).union(Set::<u64>::empty()) =~= rt_set(bm));
    }
    bm
}

} // verus!
