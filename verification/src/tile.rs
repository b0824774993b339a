//! Tile coordinates and tile ids.
//!
//! A tile is addressed either by `(z, x, y)` — zoom level and grid position —
//! or by a single 64-bit id. The id is `pyramid_base(z) + h`, where
//! `pyramid_base(z)` counts all tiles of zooms below `z` and `h` is the
//! position of `(x, y)` on the Hilbert curve over the `2^z` by `2^z` grid.

use vstd::arithmetic::power2::pow2;
use vstd::prelude::*;

verus! {

/// Maximum valid tile zoom level in the PMTiles format.
pub const MAX_ZOOM: u8 = 31;

/// Maximum valid tile id in the PMTiles format:
/// `pyramid_base(31) + 4^31 - 1`.
pub const MAX_TILE_ID: u64 = 6148914691236517204;

/// `4^z`: the number of tiles at zoom level `z`.
pub open spec fn pow4(z: nat) -> nat
    decreases z,
{
    if z == 0 {
        1
    } else {
        4 * pow4((z - 1) as nat)
    }
}

/// The number of tiles on all zoom levels below `z`:
/// `pyramid_base(z) == 4^0 + 4^1 + ... + 4^(z-1)`.
///
/// The id of the tile `(z, 0, 0)` equals `pyramid_base(z)`.
pub open spec fn pyramid_base(z: nat) -> nat
    decreases z,
{
    if z == 0 {
        0
    } else {
        4 * pyramid_base((z - 1) as nat) + 1
    }
}

/// The closed form that ties the pyramid base to the powers of four:
/// `3 * pyramid_base(z) + 1 == 4^z`.
pub proof fn lemma_pyramid_base_closed_form(z: nat)
    ensures
        3 * pyramid_base(z) + 1 == pow4(z),
    decreases z,
{
    if z > 0 {
        lemma_pyramid_base_closed_form((z - 1) as nat);
    }
}

/// The pyramid base table is strictly increasing, and consecutive values
/// differ by exactly the number of tiles of the zoom level between them:
/// `pyramid_base(z + 1) - pyramid_base(z) == 4^z`.
pub proof fn lemma_pyramid_base_step(z: nat)
    ensures
        pyramid_base(z + 1) - pyramid_base(z) == pow4(z),
        pyramid_base(z) < pyramid_base(z + 1),
{
    lemma_pyramid_base_closed_form(z);
}

/// The pyramid base is monotone in the zoom level.
pub proof fn lemma_pyramid_base_le(a: nat, b: nat)
    requires
        a <= b,
    ensures
        pyramid_base(a) <= pyramid_base(b),
    decreases b,
{
    if a < b {
        lemma_pyramid_base_le(a, (b - 1) as nat);
        lemma_pyramid_base_step((b - 1) as nat);
    }
}

/// The largest id, `MAX_TILE_ID`, is the last tile of the deepest zoom:
/// one less than the total count of tiles of zooms `0` through `31`.
pub proof fn lemma_max_tile_id()
    ensures
        MAX_TILE_ID == pyramid_base(32) - 1,
        MAX_TILE_ID == pyramid_base(31) + pow4(31) - 1,
{
    reveal_with_fuel(pyramid_base, 33);
    reveal_with_fuel(pow4, 32);
    lemma_pyramid_base_step(31);
}

/// The tile count of all zooms up to 31 fits comfortably in a `u64`.
pub proof fn lemma_pyramid_base_fits(z: nat)
    requires
        z <= 32,
    ensures
        pyramid_base(z) <= MAX_TILE_ID + 1,
{
    lemma_pyramid_base_le(z, 32);
    lemma_max_tile_id();
}

/// The number of tiles of zooms below `z`, as a machine value.
///
/// This is the table of 32 per-zoom constants of the PMTiles format,
/// computed instead of spelled out.
pub fn pyramid_size_by_zoom(z: u8) -> (r: u64)
    requires
        z <= 32,
    ensures
        r == pyramid_base(z as nat),
{
    let mut acc: u64 = 0;
    let mut i: u8 = 0;
    while i < z
        invariant
            i <= z <= 32,
            acc == pyramid_base(i as nat),
        decreases z - i,
    {
        proof {
            lemma_pyramid_base_le((i + 1) as nat, 32);
            lemma_max_tile_id();
        }
        acc = 4 * acc + 1;
        i = i + 1;
    }
    acc
}

/// A tile coordinate: zoom level `z` and grid position `(x, y)` with
/// `z <= 31`, `x < 2^z`, `y < 2^z`.
#[derive(Debug, Clone, Copy, PartialEq, Eq, Hash, Structural)]
pub struct TileCoord {
    z: u8,
    x: u32,
    y: u32,
}

impl TileCoord {
    /// Validity of a coordinate triple.
    pub open spec fn valid_coord(z: u8, x: u32, y: u32) -> bool {
        z <= 31 && (x as nat) < pow2(z as nat) && (y as nat) < pow2(z as nat)
    }

    #[verifier::type_invariant]
    pub closed spec fn inv(self) -> bool {
        Self::valid_coord(self.z, self.x, self.y)
    }

    pub closed spec fn spec_z(self) -> u8 {
        self.z
    }

    pub closed spec fn spec_x(self) -> u32 {
        self.x
    }

    pub closed spec fn spec_y(self) -> u32 {
        self.y
    }

    /// Create a new coordinate with the given zoom level and tile position,
    /// or return `None` if the values are out of range.
    pub fn new(z: u8, x: u32, y: u32) -> (r: Option<TileCoord>)
        ensures
            match r {
                Some(c) => Self::valid_coord(z, x, y) && c.spec_z() == z && c.spec_x() == x
                    && c.spec_y() == y,
                None => !Self::valid_coord(z, x, y),
            },
    {
        if z > MAX_ZOOM {
            return None;
        }
        proof {
            vstd::arithmetic::power2::lemma2_to64();
            if (z as nat) < 32 {
                vstd::arithmetic::power2::lemma_pow2_strictly_increases(z as nat, 32);
            }
            vstd::bits::lemma_u32_shl_is_mul(1u32, z as u32);
        }
        if x >= (1u32 << z) || y >= (1u32 << z) {
            return None;
        }
        Some(TileCoord { z, x, y })
    }

    /// The zoom level of this coordinate.
    pub fn z(&self) -> (r: u8)
        ensures
            r == self.spec_z(),
    {
        self.z
    }

    /// The x position of this tile.
    pub fn x(&self) -> (r: u32)
        ensures
            r == self.spec_x(),
    {
        self.x
    }

    /// The y position of this tile.
    pub fn y(&self) -> (r: u32)
        ensures
            r == self.spec_y(),
    {
        self.y
    }
}

/// A unique identifier for a tile: a value in `[0, MAX_TILE_ID]`.
#[derive(Debug, Clone, Copy, PartialEq, Eq, Hash, Structural)]
pub struct TileId(u64);

impl TileId {
    #[verifier::type_invariant]
    pub closed spec fn inv(self) -> bool {
        self.0 <= MAX_TILE_ID
    }

    pub closed spec fn spec_value(self) -> u64 {
        self.0
    }

    /// Create a new `TileId` from the `u64` value, or return `None` if the
    /// value is beyond `MAX_TILE_ID`.
    pub fn new(id: u64) -> (r: Option<TileId>)
        ensures
            match r {
                Some(t) => id <= MAX_TILE_ID && t.spec_value() == id,
                None => id > MAX_TILE_ID,
            },
    {
        if id <= MAX_TILE_ID {
            Some(TileId(id))
        } else {
            None
        }
    }

    /// The underlying `u64` value of this id.
    pub fn value(self) -> (r: u64)
        ensures
            r == self.spec_value(),
    {
        self.0
    }
}

/// The position of the grid point `(x, y)` on the Hilbert curve of order
/// `z`.
pub uninterp spec fn hilbert_index_of(z: u8, x: u32, y: u32) -> u64;

/// The grid point at position `h` of the Hilbert curve of order `z`.
pub uninterp spec fn hilbert_point_of(h: u64, z: u8) -> (u32, u32);

/// Relies on fast_hilbert::xy2h: the position of a grid point on the
/// Hilbert curve of order `z`, a bijection from the `2^z` by `2^z` grid
/// onto `[0, 4^z)` that fast_hilbert::h2xy inverts.
#[verifier::external_body]
fn hilbert_xy_to_index(z: u8, x: u32, y: u32) -> (r: u64)
    requires
        1 <= z <= 31,
        (x as nat) < pow2(z as nat),
        (y as nat) < pow2(z as nat),
    ensures
        r == hilbert_index_of(z, x, y),
        (r as nat) < pow4(z as nat),
        hilbert_point_of(r, z) == (x, y),
{
    fast_hilbert::xy2h(x, y, z)
}

/// Relies on fast_hilbert::h2xy: the grid point at a position of the
/// Hilbert curve of order `z`, the inverse of fast_hilbert::xy2h.
#[verifier::external_body]
fn hilbert_index_to_xy(h: u64, z: u8) -> (r: (u32, u32))
    requires
        1 <= z <= 31,
        (h as nat) < pow4(z as nat),
    ensures
        r == hilbert_point_of(h, z),
        (r.0 as nat) < pow2(z as nat),
        (r.1 as nat) < pow2(z as nat),
        hilbert_index_of(z, r.0, r.1) == h,
{
    fast_hilbert::h2xy(h, z)
}

/// The tile id of the coordinate `(z, x, y)`: the tile count of the zooms
/// below `z`, plus the coordinate's position on the Hilbert curve of order
/// `z`.
pub open spec fn spec_coord_to_id(z: u8, x: u32, y: u32) -> int {
    if z == 0 {
        0
    } else {
        pyramid_base(z as nat) + hilbert_index_of(z, x, y)
    }
}

/// The zoom level of the id `id`: the greatest `z` at most `bound` whose
/// pyramid base is at or below `id`.
pub open spec fn spec_zoom_of(id: u64, bound: nat) -> nat
    decreases bound,
{
    if bound == 0 {
        0
    } else if pyramid_base(bound) <= id {
        bound
    } else {
        spec_zoom_of(id, (bound - 1) as nat)
    }
}

/// The coordinate of the tile id `id`: its zoom level, and the grid point
/// at its position on that zoom's Hilbert curve.
pub open spec fn spec_id_to_coord(id: u64) -> (u8, u32, u32) {
    let z = spec_zoom_of(id, 31);
    if z == 0 {
        (0u8, 0u32, 0u32)
    } else {
        let p = hilbert_point_of((id - pyramid_base(z)) as u64, z as u8);
        (z as u8, p.0, p.1)
    }
}

/// The zoom of an id bracketed by consecutive pyramid bases is that
/// bracket's zoom.
proof fn lemma_zoom_of_bracket(id: u64, z: nat, bound: nat)
    requires
        z <= bound,
        pyramid_base(z) <= id < pyramid_base(z + 1),
    ensures
        spec_zoom_of(id, bound) == z,
    decreases bound,
{
    if bound > z {
        lemma_pyramid_base_le(z + 1, bound);
        lemma_zoom_of_bracket(id, z, (bound - 1) as nat);
    }
}

impl TileId {
    /// The tile id addressing the coordinate `coord`.
    ///
    /// Converting the result back to a coordinate yields `coord` again:
    /// the round trip from coordinate to id to coordinate is the identity
    /// on every valid coordinate.
    pub fn from_coord(coord: TileCoord) -> (r: TileId)
        ensures
            r.spec_value() == spec_coord_to_id(coord.spec_z(), coord.spec_x(), coord.spec_y()),
            spec_id_to_coord(r.spec_value()) == (coord.spec_z(), coord.spec_x(), coord.spec_y()),
    {
        proof {
            use_type_invariant(coord);
        }
        let z = coord.z();
        let x = coord.x();
        let y = coord.y();
        if z == 0 {
            proof {
                lemma_zoom_of_bracket(0, 0, 31);
                vstd::arithmetic::power2::lemma2_to64();
            }
            TileId(0)
        } else {
            let h = hilbert_xy_to_index(z, x, y);
            let base = pyramid_size_by_zoom(z);
            proof {
                lemma_pyramid_base_step(z as nat);
                lemma_pyramid_base_fits((z + 1) as nat);
            }
            let id = base + h;
            proof {
                lemma_zoom_of_bracket(id, z as nat, 31);
            }
            TileId(id)
        }
    }

    /// The id of the tile one zoom level up, which covers this tile, or
    /// `None` at zoom 0.
    pub fn parent_id(self) -> (r: Option<TileId>)
        ensures
            match r {
                Some(p) => {
                    let c = spec_id_to_coord(self.spec_value());
                    c.0 > 0 && p.spec_value() == spec_coord_to_id(
                        (c.0 - 1) as u8,
                        c.1 / 2,
                        c.2 / 2,
                    )
                },
                None => spec_id_to_coord(self.spec_value()).0 == 0,
            },
    {
        let c = TileCoord::from_id(self);
        let z = c.z();
        if z == 0 {
            None
        } else {
            proof {
                use_type_invariant(c);
                vstd::arithmetic::power2::lemma_pow2_adds(1, (z - 1) as nat);
                vstd::arithmetic::power2::lemma2_to64();
            }
            let parent = TileCoord { z: z - 1, x: c.x() / 2, y: c.y() / 2 };
            Some(TileId::from_coord(parent))
        }
    }
}

impl TileCoord {
    /// The coordinate addressed by the tile id `id`.
    ///
    /// Converting the result back to an id yields `id` again: the round
    /// trip from id to coordinate to id is the identity on every valid
    /// id.
    pub fn from_id(id: TileId) -> (r: TileCoord)
        ensures
            (r.spec_z(), r.spec_x(), r.spec_y()) == spec_id_to_coord(id.spec_value()),
            spec_coord_to_id(r.spec_z(), r.spec_x(), r.spec_y()) == id.spec_value(),
    {
        proof {
            use_type_invariant(id);
        }
        let v = id.value();
        let mut z: u8 = 0;
        let mut base_z: u64 = 0;
        let mut zz: u8 = 1;
        while zz <= 31
            invariant
                1 <= zz <= 32,
                z < zz,
                base_z == pyramid_base(z as nat),
                pyramid_base(z as nat) <= v,
                forall|k: nat| z < k < zz ==> pyramid_base(k) > v,
            decreases 32 - zz,
        {
            let b = pyramid_size_by_zoom(zz);
            if b <= v {
                z = zz;
                base_z = b;
            } else {
                proof {
                    assert forall|k: nat| z < k < zz + 1 implies pyramid_base(k) > v by {
                        if k < zz {
                            assert(pyramid_base(k) > v);
                        }
                    }
                }
            }
            zz = zz + 1;
        }
        proof {
            if z < 31 {
                assert(pyramid_base(z as nat + 1) > v);
            } else {
                lemma_max_tile_id();
            }
            lemma_zoom_of_bracket(v, z as nat, 31);
            lemma_pyramid_base_step(z as nat);
        }
        if z == 0 {
            proof {
                vstd::arithmetic::power2::lemma2_to64();
            }
            TileCoord { z: 0, x: 0, y: 0 }
        } else {
            let h = v - base_z;
            let (x, y) = hilbert_index_to_xy(h, z);
            TileCoord { z, x, y }
        }
    }
}

} // verus!
