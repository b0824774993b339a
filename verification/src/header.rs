//! The fixed 127-byte archive header.
//!
//! The header opens with the 7 ASCII bytes `PMTiles` and a version byte,
//! then holds the byte ranges of the four regions of the archive (root
//! directory, metadata, leaf directories, tile data), three tile counts,
//! a clustered flag, compression and tile-type codes, the zoom range, and
//! the bounding box and center in units of 10^-7 degrees. All multi-byte
//! fields are little-endian.

use vstd::prelude::*;

use crate::error::{PmtError, PmtResult};

verus! {

/// Size of the header in bytes.
pub const HEADER_SIZE: usize = 127;

/// Number of bytes a reader fetches up front: the header and the root
/// directory must fit within this prefix.
pub const MAX_INITIAL_BYTES: usize = 16384;

/// A compression scheme, for tile data or for the internal regions
/// (directories and metadata).
#[derive(Debug, Clone, Copy, PartialEq, Eq, Structural)]
pub enum Compression {
    /// Unknown or unspecified.
    Unknown,
    /// No compression.
    NoCompression,
    /// Gzip (RFC 1952).
    Gzip,
    /// Brotli.
    Brotli,
    /// Zstandard.
    Zstd,
}

impl Compression {
    /// The wire code of this compression scheme.
    pub open spec fn spec_code(self) -> u8 {
        match self {
            Compression::Unknown => 0,
            Compression::NoCompression => 1,
            Compression::Gzip => 2,
            Compression::Brotli => 3,
            Compression::Zstd => 4,
        }
    }

    /// The compression scheme of a wire code.
    pub open spec fn spec_from_code(v: u8) -> PmtResult<Compression> {
        match v {
            0u8 => Ok(Compression::Unknown),
            1u8 => Ok(Compression::NoCompression),
            2u8 => Ok(Compression::Gzip),
            3u8 => Ok(Compression::Brotli),
            4u8 => Ok(Compression::Zstd),
            _ => Err(PmtError::InvalidCompression),
        }
    }

    /// The wire code of this compression scheme.
    pub fn code(self) -> (r: u8)
        ensures
            r == self.spec_code(),
    {
        match self {
            Compression::Unknown => 0,
            Compression::NoCompression => 1,
            Compression::Gzip => 2,
            Compression::Brotli => 3,
            Compression::Zstd => 4,
        }
    }

    /// Decode a wire code into a compression scheme; all codes above 4 are
    /// invalid.
    pub fn from_code(v: u8) -> (r: PmtResult<Compression>)
        ensures
            r == Self::spec_from_code(v),
    {
        match v {
            0 => Ok(Compression::Unknown),
            1 => Ok(Compression::NoCompression),
            2 => Ok(Compression::Gzip),
            3 => Ok(Compression::Brotli),
            4 => Ok(Compression::Zstd),
            _ => Err(PmtError::InvalidCompression),
        }
    }

    /// The HTTP `Content-Encoding` value for this compression, if one
    /// exists.
    pub fn content_encoding(self) -> (r: Option<&'static str>)
        ensures
            match self {
                Compression::Gzip => r matches Some(s) && s@ == "gzip"@,
                Compression::Brotli => r matches Some(s) && s@ == "br"@,
                _ => r is None,
            },
    {
        match self {
            Compression::Gzip => Some("gzip"),
            Compression::Brotli => Some("br"),
            _ => None,
        }
    }
}

/// The payload format of the tiles of an archive.
#[derive(Debug, Clone, Copy, PartialEq, Eq, Structural)]
pub enum TileType {
    /// Unknown or unspecified.
    Unknown,
    /// Mapbox vector tile.
    Mvt,
    /// PNG image.
    Png,
    /// JPEG image.
    Jpeg,
    /// WebP image.
    Webp,
    /// AVIF image.
    Avif,
}

impl TileType {
    /// The wire code of this tile type.
    pub open spec fn spec_code(self) -> u8 {
        match self {
            TileType::Unknown => 0,
            TileType::Mvt => 1,
            TileType::Png => 2,
            TileType::Jpeg => 3,
            TileType::Webp => 4,
            TileType::Avif => 5,
        }
    }

    /// The tile type of a wire code.
    pub open spec fn spec_from_code(v: u8) -> PmtResult<TileType> {
        match v {
            0u8 => Ok(TileType::Unknown),
            1u8 => Ok(TileType::Mvt),
            2u8 => Ok(TileType::Png),
            3u8 => Ok(TileType::Jpeg),
            4u8 => Ok(TileType::Webp),
            5u8 => Ok(TileType::Avif),
            _ => Err(PmtError::InvalidTileType),
        }
    }

    /// The wire code of this tile type.
    pub fn code(self) -> (r: u8)
        ensures
            r == self.spec_code(),
    {
        match self {
            TileType::Unknown => 0,
            TileType::Mvt => 1,
            TileType::Png => 2,
            TileType::Jpeg => 3,
            TileType::Webp => 4,
            TileType::Avif => 5,
        }
    }

    /// Decode a wire code into a tile type; all codes above 5 are invalid.
    pub fn from_code(v: u8) -> (r: PmtResult<TileType>)
        ensures
            r == Self::spec_from_code(v),
    {
        match v {
            0 => Ok(TileType::Unknown),
            1 => Ok(TileType::Mvt),
            2 => Ok(TileType::Png),
            3 => Ok(TileType::Jpeg),
            4 => Ok(TileType::Webp),
            5 => Ok(TileType::Avif),
            _ => Err(PmtError::InvalidTileType),
        }
    }

    /// The HTTP `Content-Type` value for this tile type.
    pub fn content_type(self) -> (r: &'static str)
        ensures
            match self {
                TileType::Mvt => r@ == "application/vnd.mapbox-vector-tile"@,
                TileType::Png => r@ == "image/png"@,
                TileType::Jpeg => r@ == "image/jpeg"@,
                TileType::Webp => r@ == "image/webp"@,
                TileType::Avif => r@ == "image/avif"@,
                TileType::Unknown => r@ == "application/octet-stream"@,
            },
    {
        match self {
            TileType::Mvt => "application/vnd.mapbox-vector-tile",
            TileType::Png => "image/png",
            TileType::Jpeg => "image/jpeg",
            TileType::Webp => "image/webp",
            TileType::Avif => "image/avif",
            TileType::Unknown => "application/octet-stream",
        }
    }
}

/// The eight little-endian bytes of a `u64`.
pub open spec fn u64_le_bytes(v: u64) -> Seq<u8> {
    seq![
        (v & 0xff) as u8,
        ((v >> 8) & 0xff) as u8,
        ((v >> 16) & 0xff) as u8,
        ((v >> 24) & 0xff) as u8,
        ((v >> 32) & 0xff) as u8,
        ((v >> 40) & 0xff) as u8,
        ((v >> 48) & 0xff) as u8,
        ((v >> 56) & 0xff) as u8,
    ]
}

/// The `u64` read from eight little-endian bytes.
pub open spec fn u64_from_le(b: Seq<u8>) -> u64
    recommends
        b.len() == 8,
{
    (b[0] as u64) | ((b[1] as u64) << 8) | ((b[2] as u64) << 16) | ((b[3] as u64) << 24) | ((
    b[4] as u64) << 32) | ((b[5] as u64) << 40) | ((b[6] as u64) << 48) | ((b[7] as u64) << 56)
}

/// Reading back the eight little-endian bytes of a value yields the value.
pub proof fn lemma_u64_le_round_trip(v: u64)
    ensures
        u64_from_le(u64_le_bytes(v)) == v,
{
    assert(((v & 0xff) as u8 as u64) | ((((v >> 8) & 0xff) as u8 as u64) << 8) | ((((v >> 16)
        & 0xff) as u8 as u64) << 16) | ((((v >> 24) & 0xff) as u8 as u64) << 24) | ((((v >> 32)
        & 0xff) as u8 as u64) << 32) | ((((v >> 40) & 0xff) as u8 as u64) << 40) | ((((v >> 48)
        & 0xff) as u8 as u64) << 48) | ((((v >> 56) & 0xff) as u8 as u64) << 56) == v)
        by (bit_vector);
}

/// The four little-endian bytes of an `i32`, through its `u32` bit pattern.
pub open spec fn i32_le_bytes(v: i32) -> Seq<u8> {
    let u = v as u32;
    seq![(u & 0xff) as u8, ((u >> 8) & 0xff) as u8, ((u >> 16) & 0xff) as u8, ((u >> 24)
        & 0xff) as u8]
}

/// The `i32` read from four little-endian bytes.
pub open spec fn i32_from_le(b: Seq<u8>) -> i32
    recommends
        b.len() == 4,
{
    ((b[0] as u32) | ((b[1] as u32) << 8) | ((b[2] as u32) << 16) | ((b[3] as u32) << 24)) as i32
}

/// Reading back the four little-endian bytes of a value yields the value.
/// Reading back the four little-endian bytes of a `u32` bit pattern yields
/// the pattern.
pub proof fn lemma_u32_le_round_trip(u: u32)
    ensures
        ((u & 0xff) as u8 as u32) | ((((u >> 8) & 0xff) as u8 as u32) << 8) | ((((u >> 16)
            & 0xff) as u8 as u32) << 16) | ((((u >> 24) & 0xff) as u8 as u32) << 24) == u,
{
    assert(((u & 0xff) as u8 as u32) | ((((u >> 8) & 0xff) as u8 as u32) << 8) | ((((u >> 16)
        & 0xff) as u8 as u32) << 16) | ((((u >> 24) & 0xff) as u8 as u32) << 24) == u)
        by (bit_vector);
}

/// Reading back the four little-endian bytes of a value yields the value.
pub proof fn lemma_i32_le_round_trip(v: i32)
    ensures
        i32_from_le(i32_le_bytes(v)) == v,
{
    let u = v as u32;
    lemma_u32_le_round_trip(u);
    assert((v as u32) as i32 == v) by (bit_vector);
}

/// The parsed form of the fixed 127-byte archive header.
///
/// The three tile counts use `0` to mean "unknown". The coordinate fields
/// hold degrees in units of 10^-7, exactly as stored on the wire.
#[derive(Debug, Clone, Copy, PartialEq, Eq, Structural)]
pub struct Header {
    /// Format version; this library writes version 3.
    pub version: u8,
    /// Byte offset of the root directory.
    pub root_offset: u64,
    /// Byte length of the root directory.
    pub root_length: u64,
    /// Byte offset of the metadata region.
    pub metadata_offset: u64,
    /// Byte length of the metadata region.
    pub metadata_length: u64,
    /// Byte offset of the leaf-directory region.
    pub leaf_offset: u64,
    /// Byte length of the leaf-directory region.
    pub leaf_length: u64,
    /// Byte offset of the tile-data region.
    pub data_offset: u64,
    /// Byte length of the tile-data region.
    pub data_length: u64,
    /// Number of addressable tiles; 0 means unknown.
    pub n_addressed_tiles: u64,
    /// Number of tile entries in all directories; 0 means unknown.
    pub n_tile_entries: u64,
    /// Number of distinct tile payloads; 0 means unknown.
    pub n_tile_contents: u64,
    /// True iff tiles were written in increasing tile-id order.
    pub clustered: bool,
    /// Compression of directories and metadata.
    pub internal_compression: Compression,
    /// Compression of tile payloads.
    pub tile_compression: Compression,
    /// Payload format of the tiles.
    pub tile_type: TileType,
    /// Lowest zoom level present.
    pub min_zoom: u8,
    /// Highest zoom level present.
    pub max_zoom: u8,
    /// Western bound, in 10^-7 degrees of longitude.
    pub min_longitude_e7: i32,
    /// Southern bound, in 10^-7 degrees of latitude.
    pub min_latitude_e7: i32,
    /// Eastern bound, in 10^-7 degrees of longitude.
    pub max_longitude_e7: i32,
    /// Northern bound, in 10^-7 degrees of latitude.
    pub max_latitude_e7: i32,
    /// Suggested zoom of the center view.
    pub center_zoom: u8,
    /// Longitude of the center view, in 10^-7 degrees.
    pub center_longitude_e7: i32,
    /// Latitude of the center view, in 10^-7 degrees.
    pub center_latitude_e7: i32,
}

/// The 7 ASCII bytes `PMTiles`.
pub open spec fn spec_magic() -> Seq<u8> {
    seq![0x50u8, 0x4du8, 0x54u8, 0x69u8, 0x6cu8, 0x65u8, 0x73u8]
}

/// The exact 127 bytes of a header.
/// Bytes 8 to 72 of a header: the offset and length of the root directory,
/// metadata, leaf-directory, and tile-data regions.
pub open spec fn header_regions_bytes(h: Header) -> Seq<u8> {
    u64_le_bytes(h.root_offset) + u64_le_bytes(h.root_length) + u64_le_bytes(h.metadata_offset)
        + u64_le_bytes(h.metadata_length) + u64_le_bytes(h.leaf_offset) + u64_le_bytes(
        h.leaf_length,
    ) + u64_le_bytes(h.data_offset) + u64_le_bytes(h.data_length)
}

/// Bytes 72 to 96 of a header: the three tile counts.
pub open spec fn header_counts_bytes(h: Header) -> Seq<u8> {
    u64_le_bytes(h.n_addressed_tiles) + u64_le_bytes(h.n_tile_entries) + u64_le_bytes(
        h.n_tile_contents,
    )
}

/// Bytes 96 to 102 of a header: the clustered flag, the two compression
/// codes, the tile-type code, and the zoom range.
pub open spec fn header_flags_bytes(h: Header) -> Seq<u8> {
    seq![
        if h.clustered {
            1u8
        } else {
            0u8
        },
        h.internal_compression.spec_code(),
        h.tile_compression.spec_code(),
        h.tile_type.spec_code(),
        h.min_zoom,
        h.max_zoom,
    ]
}

/// Bytes 102 to 127 of a header: the bounding box, the center zoom, and the
/// center position.
pub open spec fn header_coords_bytes(h: Header) -> Seq<u8> {
    i32_le_bytes(h.min_longitude_e7) + i32_le_bytes(h.min_latitude_e7) + i32_le_bytes(
        h.max_longitude_e7,
    ) + i32_le_bytes(h.max_latitude_e7) + seq![h.center_zoom] + i32_le_bytes(h.center_longitude_e7)
        + i32_le_bytes(h.center_latitude_e7)
}

/// The exact 127 bytes of a header.
#[verifier::opaque]
pub open spec fn spec_serialize_header(h: Header) -> Seq<u8> {
    spec_magic() + seq![h.version] + header_regions_bytes(h) + header_counts_bytes(h)
        + header_flags_bytes(h) + header_coords_bytes(h)
}

/// What parsing a byte sequence as a header yields.
///
/// A buffer under 127 bytes is an invalid header. A wrong magic that still
/// opens with `PM` names an earlier PMTiles version; any other wrong magic
/// is an invalid magic number. Bad compression or tile-type codes fail with
/// their own errors.
pub open spec fn spec_parse_header(s: Seq<u8>) -> PmtResult<Header> {
    if s.len() < 127 {
        Err(PmtError::InvalidHeader)
    } else if s.subrange(0, 7) != spec_magic() {
        if s[0] == 0x50u8 && s[1] == 0x4du8 {
            Err(PmtError::UnsupportedPmTilesVersion)
        } else {
            Err(PmtError::InvalidMagicNumber)
        }
    } else {
        match (Compression::spec_from_code(s[97]), Compression::spec_from_code(s[98]),
        TileType::spec_from_code(s[99])) {
            (Ok(internal_compression), Ok(tile_compression), Ok(tile_type)) => Ok(
                Header {
                    version: s[7],
                    root_offset: u64_from_le(s.subrange(8, 16)),
                    root_length: u64_from_le(s.subrange(16, 24)),
                    metadata_offset: u64_from_le(s.subrange(24, 32)),
                    metadata_length: u64_from_le(s.subrange(32, 40)),
                    leaf_offset: u64_from_le(s.subrange(40, 48)),
                    leaf_length: u64_from_le(s.subrange(48, 56)),
                    data_offset: u64_from_le(s.subrange(56, 64)),
                    data_length: u64_from_le(s.subrange(64, 72)),
                    n_addressed_tiles: u64_from_le(s.subrange(72, 80)),
                    n_tile_entries: u64_from_le(s.subrange(80, 88)),
                    n_tile_contents: u64_from_le(s.subrange(88, 96)),
                    clustered: s[96] == 1u8,
                    internal_compression,
                    tile_compression,
                    tile_type,
                    min_zoom: s[100],
                    max_zoom: s[101],
                    min_longitude_e7: i32_from_le(s.subrange(102, 106)),
                    min_latitude_e7: i32_from_le(s.subrange(106, 110)),
                    max_longitude_e7: i32_from_le(s.subrange(110, 114)),
                    max_latitude_e7: i32_from_le(s.subrange(114, 118)),
                    center_zoom: s[118],
                    center_longitude_e7: i32_from_le(s.subrange(119, 123)),
                    center_latitude_e7: i32_from_le(s.subrange(123, 127)),
                },
            ),
            (Err(e), _, _) => Err(e),
            (_, Err(e), _) => Err(e),
            (_, _, Err(e)) => Err(e),
        }
    }
}

/// Read the little-endian `u64` at byte offset `off`.
fn read_u64_at(s: &[u8], off: usize) -> (r: u64)
    requires
        off + 8 <= s@.len(),
    ensures
        r == u64_from_le(s@.subrange(off as int, off as int + 8)),
{
    let r = (s[off] as u64) | ((s[off + 1] as u64) << 8) | ((s[off + 2] as u64) << 16) | ((s[off
        + 3] as u64) << 24) | ((s[off + 4] as u64) << 32) | ((s[off + 5] as u64) << 40) | ((s[off
        + 6] as u64) << 48) | ((s[off + 7] as u64) << 56);
    proof {
        let b = s@.subrange(off as int, off as int + 8);
        assert(b[0] == s@[off as int] && b[1] == s@[off as int + 1] && b[2] == s@[off as int + 2]
            && b[3] == s@[off as int + 3] && b[4] == s@[off as int + 4] && b[5] == s@[off as int
            + 5] && b[6] == s@[off as int + 6] && b[7] == s@[off as int + 7]);
    }
    r
}

/// Read the little-endian `i32` at byte offset `off`.
fn read_i32_at(s: &[u8], off: usize) -> (r: i32)
    requires
        off + 4 <= s@.len(),
    ensures
        r == i32_from_le(s@.subrange(off as int, off as int + 4)),
{
    let u = (s[off] as u32) | ((s[off + 1] as u32) << 8) | ((s[off + 2] as u32) << 16) | ((s[off
        + 3] as u32) << 24);
    proof {
        let b = s@.subrange(off as int, off as int + 4);
        assert(b[0] == s@[off as int] && b[1] == s@[off as int + 1] && b[2] == s@[off as int + 2]
            && b[3] == s@[off as int + 3]);
    }
    #[verifier::truncate] (u as i32)
}

/// Append the eight little-endian bytes of `v`.
fn push_u64_le(out: &mut Vec<u8>, v: u64)
    ensures
        final(out)@ == old(out)@ + u64_le_bytes(v),
{
    out.push((v & 0xff) as u8);
    out.push(((v >> 8) & 0xff) as u8);
    out.push(((v >> 16) & 0xff) as u8);
    out.push(((v >> 24) & 0xff) as u8);
    out.push(((v >> 32) & 0xff) as u8);
    out.push(((v >> 40) & 0xff) as u8);
    out.push(((v >> 48) & 0xff) as u8);
    out.push(((v >> 56) & 0xff) as u8);
    proof {
        assert(out@ =~= old(out)@ + u64_le_bytes(v));
    }
}

/// Append the four little-endian bytes of `v`.
fn push_i32_le(out: &mut Vec<u8>, v: i32)
    ensures
        final(out)@ == old(out)@ + i32_le_bytes(v),
{
    let u = #[verifier::truncate] (v as u32);
    out.push((u & 0xff) as u8);
    out.push(((u >> 8) & 0xff) as u8);
    out.push(((u >> 16) & 0xff) as u8);
    out.push(((u >> 24) & 0xff) as u8);
    proof {
        assert(out@ =~= old(out)@ + i32_le_bytes(v));
    }
}

impl Header {
    /// Parse a header from the first 127 bytes of `bytes`.
    ///
    /// A buffer shorter than 127 bytes is an invalid header; the magic and
    /// the compression and tile-type codes are checked as
    /// [`spec_parse_header`] states.
    pub fn try_from_bytes(bytes: &[u8]) -> (r: PmtResult<Header>)
        ensures
            r == spec_parse_header(bytes@),
    {
        if bytes.len() < HEADER_SIZE {
            return Err(PmtError::InvalidHeader);
        }
        let magic_ok = bytes[0] == 0x50 && bytes[1] == 0x4d && bytes[2] == 0x54 && bytes[3] == 0x69
            && bytes[4] == 0x6c && bytes[5] == 0x65 && bytes[6] == 0x73;
        proof {
            if magic_ok {
                assert(bytes@.subrange(0, 7) =~= spec_magic());
            } else {
                if bytes@.subrange(0, 7) == spec_magic() {
                    assert(bytes@[0] == 0x50u8 && bytes@[1] == 0x4du8 && bytes@[2] == 0x54u8
                        && bytes@[3] == 0x69u8 && bytes@[4] == 0x6cu8 && bytes@[5] == 0x65u8
                        && bytes@[6] == 0x73u8) by {
                        assert(spec_magic()[0] == 0x50u8 && spec_magic()[1] == 0x4du8
                            && spec_magic()[2] == 0x54u8 && spec_magic()[3] == 0x69u8
                            && spec_magic()[4] == 0x6cu8 && spec_magic()[5] == 0x65u8
                            && spec_magic()[6] == 0x73u8);
                    }
                }
            }
        }
        if !magic_ok {
            return if bytes[0] == 0x50 && bytes[1] == 0x4d {
                Err(PmtError::UnsupportedPmTilesVersion)
            } else {
                Err(PmtError::InvalidMagicNumber)
            };
        }
        let internal_compression = Compression::from_code(bytes[97])?;
        let tile_compression = Compression::from_code(bytes[98])?;
        let tile_type = TileType::from_code(bytes[99])?;
        Ok(
            Header {
                version: bytes[7],
                root_offset: read_u64_at(bytes, 8),
                root_length: read_u64_at(bytes, 16),
                metadata_offset: read_u64_at(bytes, 24),
                metadata_length: read_u64_at(bytes, 32),
                leaf_offset: read_u64_at(bytes, 40),
                leaf_length: read_u64_at(bytes, 48),
                data_offset: read_u64_at(bytes, 56),
                data_length: read_u64_at(bytes, 64),
                n_addressed_tiles: read_u64_at(bytes, 72),
                n_tile_entries: read_u64_at(bytes, 80),
                n_tile_contents: read_u64_at(bytes, 88),
                clustered: bytes[96] == 1,
                internal_compression,
                tile_compression,
                tile_type,
                min_zoom: bytes[100],
                max_zoom: bytes[101],
                min_longitude_e7: read_i32_at(bytes, 102),
                min_latitude_e7: read_i32_at(bytes, 106),
                max_longitude_e7: read_i32_at(bytes, 110),
                max_latitude_e7: read_i32_at(bytes, 114),
                center_zoom: bytes[118],
                center_longitude_e7: read_i32_at(bytes, 119),
                center_latitude_e7: read_i32_at(bytes, 123),
            },
        )
    }

    /// Append the exact 127 bytes of this header.
    pub fn write_to(&self, out: &mut Vec<u8>)
        ensures
            final(out)@ == old(out)@ + spec_serialize_header(*self),
    {
        out.push(0x50);
        out.push(0x4d);
        out.push(0x54);
        out.push(0x69);
        out.push(0x6c);
        out.push(0x65);
        out.push(0x73);
        out.push(self.version);
        proof {
            assert(out@ =~= old(out)@ + spec_magic() + seq![self.version]);
        }
        push_regions(out, self);
        push_counts(out, self);
        push_flags(out, self);
        push_coords(out, self);
        proof {
            reveal(spec_serialize_header);
        }
    }
}

/// Append bytes 8 to 72 of the header: the four region ranges.
fn push_regions(out: &mut Vec<u8>, h: &Header)
    ensures
        final(out)@ == old(out)@ + header_regions_bytes(*h),
{
    push_u64_le(out, h.root_offset);
    push_u64_le(out, h.root_length);
    push_u64_le(out, h.metadata_offset);
    push_u64_le(out, h.metadata_length);
    push_u64_le(out, h.leaf_offset);
    push_u64_le(out, h.leaf_length);
    push_u64_le(out, h.data_offset);
    push_u64_le(out, h.data_length);
    proof {
        assert(out@ =~= old(out)@ + header_regions_bytes(*h));
    }
}

/// Append bytes 72 to 96 of the header: the three tile counts.
fn push_counts(out: &mut Vec<u8>, h: &Header)
    ensures
        final(out)@ == old(out)@ + header_counts_bytes(*h),
{
    push_u64_le(out, h.n_addressed_tiles);
    push_u64_le(out, h.n_tile_entries);
    push_u64_le(out, h.n_tile_contents);
    proof {
        assert(out@ =~= old(out)@ + header_counts_bytes(*h));
    }
}

/// Append bytes 96 to 102 of the header: the flag, code, and zoom bytes.
fn push_flags(out: &mut Vec<u8>, h: &Header)
    ensures
        final(out)@ == old(out)@ + header_flags_bytes(*h),
{
    out.push(if h.clustered { 1 } else { 0 });
    out.push(h.internal_compression.code());
    out.push(h.tile_compression.code());
    out.push(h.tile_type.code());
    out.push(h.min_zoom);
    out.push(h.max_zoom);
    proof {
        assert(out@ =~= old(out)@ + header_flags_bytes(*h));
    }
}

/// Append bytes 102 to 127 of the header: the bounds and the center.
fn push_coords(out: &mut Vec<u8>, h: &Header)
    ensures
        final(out)@ == old(out)@ + header_coords_bytes(*h),
{
    push_i32_le(out, h.min_longitude_e7);
    push_i32_le(out, h.min_latitude_e7);
    push_i32_le(out, h.max_longitude_e7);
    push_i32_le(out, h.max_latitude_e7);
    out.push(h.center_zoom);
    push_i32_le(out, h.center_longitude_e7);
    push_i32_le(out, h.center_latitude_e7);
    proof {
        assert(out@ =~= old(out)@ + header_coords_bytes(*h));
    }
}

/// The region-range fields read back from their own bytes.
proof fn lemma_regions_subranges(h: Header)
    ensures
        spec_serialize_header(h).subrange(8, 72) =~= header_regions_bytes(h),
        header_regions_bytes(h).subrange(0, 8) =~= u64_le_bytes(h.root_offset),
        header_regions_bytes(h).subrange(8, 16) =~= u64_le_bytes(h.root_length),
        header_regions_bytes(h).subrange(16, 24) =~= u64_le_bytes(h.metadata_offset),
        header_regions_bytes(h).subrange(24, 32) =~= u64_le_bytes(h.metadata_length),
        header_regions_bytes(h).subrange(32, 40) =~= u64_le_bytes(h.leaf_offset),
        header_regions_bytes(h).subrange(40, 48) =~= u64_le_bytes(h.leaf_length),
        header_regions_bytes(h).subrange(48, 56) =~= u64_le_bytes(h.data_offset),
        header_regions_bytes(h).subrange(56, 64) =~= u64_le_bytes(h.data_length),
{
    reveal(spec_serialize_header);
}

/// The count fields read back from their own bytes.
proof fn lemma_counts_subranges(h: Header)
    ensures
        spec_serialize_header(h).subrange(72, 96) =~= header_counts_bytes(h),
        header_counts_bytes(h).subrange(0, 8) =~= u64_le_bytes(h.n_addressed_tiles),
        header_counts_bytes(h).subrange(8, 16) =~= u64_le_bytes(h.n_tile_entries),
        header_counts_bytes(h).subrange(16, 24) =~= u64_le_bytes(h.n_tile_contents),
{
    reveal(spec_serialize_header);
}

/// The coordinate fields read back from their own bytes.
proof fn lemma_coords_subranges(h: Header)
    ensures
        spec_serialize_header(h).subrange(102, 127) =~= header_coords_bytes(h),
        header_coords_bytes(h).subrange(0, 4) =~= i32_le_bytes(h.min_longitude_e7),
        header_coords_bytes(h).subrange(4, 8) =~= i32_le_bytes(h.min_latitude_e7),
        header_coords_bytes(h).subrange(8, 12) =~= i32_le_bytes(h.max_longitude_e7),
        header_coords_bytes(h).subrange(12, 16) =~= i32_le_bytes(h.max_latitude_e7),
        header_coords_bytes(h).subrange(17, 21) =~= i32_le_bytes(h.center_longitude_e7),
        header_coords_bytes(h).subrange(21, 25) =~= i32_le_bytes(h.center_latitude_e7),
{
    reveal(spec_serialize_header);
}

/// Subrange of a subrange: reading a window of a window of `s`.
proof fn lemma_subrange_of_subrange(s: Seq<u8>, a: int, b: int, c: int, d: int)
    requires
        0 <= a <= c <= d <= b <= s.len(),
    ensures
        s.subrange(c, d) =~= s.subrange(a, b).subrange(c - a, d - a),
{
}

/// The region-range bytes of the serialized header, located in the whole.
#[verifier::rlimit(100)]
#[verifier::spinoff_prover]
proof fn lemma_s_regions(h: Header)
    ensures
        spec_serialize_header(h).subrange(8, 16) =~= u64_le_bytes(h.root_offset),
        spec_serialize_header(h).subrange(16, 24) =~= u64_le_bytes(h.root_length),
        spec_serialize_header(h).subrange(24, 32) =~= u64_le_bytes(h.metadata_offset),
        spec_serialize_header(h).subrange(32, 40) =~= u64_le_bytes(h.metadata_length),
        spec_serialize_header(h).subrange(40, 48) =~= u64_le_bytes(h.leaf_offset),
        spec_serialize_header(h).subrange(48, 56) =~= u64_le_bytes(h.leaf_length),
        spec_serialize_header(h).subrange(56, 64) =~= u64_le_bytes(h.data_offset),
        spec_serialize_header(h).subrange(64, 72) =~= u64_le_bytes(h.data_length),
{
    reveal(spec_serialize_header);
    let s = spec_serialize_header(h);
    lemma_regions_subranges(h);
    lemma_subrange_of_subrange(s, 8, 72, 8, 16);
    lemma_subrange_of_subrange(s, 8, 72, 16, 24);
    lemma_subrange_of_subrange(s, 8, 72, 24, 32);
    lemma_subrange_of_subrange(s, 8, 72, 32, 40);
    lemma_subrange_of_subrange(s, 8, 72, 40, 48);
    lemma_subrange_of_subrange(s, 8, 72, 48, 56);
    lemma_subrange_of_subrange(s, 8, 72, 56, 64);
    lemma_subrange_of_subrange(s, 8, 72, 64, 72);
}

/// The count bytes of the serialized header, located in the whole.
#[verifier::rlimit(100)]
#[verifier::spinoff_prover]
proof fn lemma_s_counts(h: Header)
    ensures
        spec_serialize_header(h).subrange(72, 80) =~= u64_le_bytes(h.n_addressed_tiles),
        spec_serialize_header(h).subrange(80, 88) =~= u64_le_bytes(h.n_tile_entries),
        spec_serialize_header(h).subrange(88, 96) =~= u64_le_bytes(h.n_tile_contents),
{
    reveal(spec_serialize_header);
    let s = spec_serialize_header(h);
    lemma_counts_subranges(h);
    lemma_subrange_of_subrange(s, 72, 96, 72, 80);
    lemma_subrange_of_subrange(s, 72, 96, 80, 88);
    lemma_subrange_of_subrange(s, 72, 96, 88, 96);
}

/// The coordinate bytes of the serialized header, located in the whole.
#[verifier::rlimit(100)]
#[verifier::spinoff_prover]
proof fn lemma_s_coords(h: Header)
    ensures
        spec_serialize_header(h).subrange(102, 106) =~= i32_le_bytes(h.min_longitude_e7),
        spec_serialize_header(h).subrange(106, 110) =~= i32_le_bytes(h.min_latitude_e7),
        spec_serialize_header(h).subrange(110, 114) =~= i32_le_bytes(h.max_longitude_e7),
        spec_serialize_header(h).subrange(114, 118) =~= i32_le_bytes(h.max_latitude_e7),
        spec_serialize_header(h).subrange(119, 123) =~= i32_le_bytes(h.center_longitude_e7),
        spec_serialize_header(h).subrange(123, 127) =~= i32_le_bytes(h.center_latitude_e7),
{
    reveal(spec_serialize_header);
    let s = spec_serialize_header(h);
    lemma_coords_subranges(h);
    lemma_subrange_of_subrange(s, 102, 127, 102, 106);
    lemma_subrange_of_subrange(s, 102, 127, 106, 110);
    lemma_subrange_of_subrange(s, 102, 127, 110, 114);
    lemma_subrange_of_subrange(s, 102, 127, 114, 118);
    lemma_subrange_of_subrange(s, 102, 127, 119, 123);
    lemma_subrange_of_subrange(s, 102, 127, 123, 127);
}

/// The single-byte fields of the serialized header, located in the whole.
#[verifier::rlimit(100)]
#[verifier::spinoff_prover]
proof fn lemma_s_scalars(h: Header)
    ensures
        spec_serialize_header(h).len() == 127,
        spec_serialize_header(h).subrange(0, 7) =~= spec_magic(),
        spec_serialize_header(h)[7] == h.version,
        spec_serialize_header(h)[96] == if h.clustered { 1u8 } else { 0u8 },
        spec_serialize_header(h)[97] == h.internal_compression.spec_code(),
        spec_serialize_header(h)[98] == h.tile_compression.spec_code(),
        spec_serialize_header(h)[99] == h.tile_type.spec_code(),
        spec_serialize_header(h)[100] == h.min_zoom,
        spec_serialize_header(h)[101] == h.max_zoom,
        spec_serialize_header(h)[118] == h.center_zoom,
{
    reveal(spec_serialize_header);
    let s = spec_serialize_header(h);
    assert(s[96] == header_flags_bytes(h)[0] && s[97] == header_flags_bytes(h)[1] && s[98]
        == header_flags_bytes(h)[2] && s[99] == header_flags_bytes(h)[3] && s[100]
        == header_flags_bytes(h)[4] && s[101] == header_flags_bytes(h)[5]);
    assert(s[118] == header_coords_bytes(h)[16]);
}

/// A serialized header is exactly 127 bytes.
pub proof fn lemma_serialize_header_len(h: Header)
    ensures
        spec_serialize_header(h).len() == 127,
{
    reveal(spec_serialize_header);
}

/// Parsing reads only the first 127 bytes: sequences that agree there
/// parse alike.
pub proof fn lemma_parse_header_prefix(s: Seq<u8>, t: Seq<u8>)
    requires
        s.len() >= 127,
        t.len() >= 127,
        s.subrange(0, 127) == t.subrange(0, 127),
    ensures
        spec_parse_header(s) == spec_parse_header(t),
{
    assert forall|i: int| 0 <= i < 127 implies s[i] == t[i] by {
        assert(s[i] == s.subrange(0, 127)[i]);
        assert(t[i] == t.subrange(0, 127)[i]);
    }
    assert(s.subrange(0, 7) =~= t.subrange(0, 7));
    assert(s.subrange(8, 16) =~= t.subrange(8, 16));
    assert(s.subrange(16, 24) =~= t.subrange(16, 24));
    assert(s.subrange(24, 32) =~= t.subrange(24, 32));
    assert(s.subrange(32, 40) =~= t.subrange(32, 40));
    assert(s.subrange(40, 48) =~= t.subrange(40, 48));
    assert(s.subrange(48, 56) =~= t.subrange(48, 56));
    assert(s.subrange(56, 64) =~= t.subrange(56, 64));
    assert(s.subrange(64, 72) =~= t.subrange(64, 72));
    assert(s.subrange(72, 80) =~= t.subrange(72, 80));
    assert(s.subrange(80, 88) =~= t.subrange(80, 88));
    assert(s.subrange(88, 96) =~= t.subrange(88, 96));
    assert(s.subrange(102, 106) =~= t.subrange(102, 106));
    assert(s.subrange(106, 110) =~= t.subrange(106, 110));
    assert(s.subrange(110, 114) =~= t.subrange(110, 114));
    assert(s.subrange(114, 118) =~= t.subrange(114, 118));
    assert(s.subrange(119, 123) =~= t.subrange(119, 123));
    assert(s.subrange(123, 127) =~= t.subrange(123, 127));
}

/// Serializing a header and parsing the bytes back yields the header:
/// writing is the exact inverse of parsing, for every header value.
#[verifier::rlimit(100)]
pub proof fn lemma_header_round_trip(h: Header)
    ensures
        spec_parse_header(spec_serialize_header(h)) == Ok::<Header, PmtError>(h),
{
    reveal(spec_serialize_header);
    let s = spec_serialize_header(h);
    lemma_s_scalars(h);
    lemma_s_regions(h);
    lemma_s_counts(h);
    lemma_s_coords(h);
    lemma_u64_le_round_trip(h.root_offset);
    lemma_u64_le_round_trip(h.root_length);
    lemma_u64_le_round_trip(h.metadata_offset);
    lemma_u64_le_round_trip(h.metadata_length);
    lemma_u64_le_round_trip(h.leaf_offset);
    lemma_u64_le_round_trip(h.leaf_length);
    lemma_u64_le_round_trip(h.data_offset);
    lemma_u64_le_round_trip(h.data_length);
    lemma_u64_le_round_trip(h.n_addressed_tiles);
    lemma_u64_le_round_trip(h.n_tile_entries);
    lemma_u64_le_round_trip(h.n_tile_contents);
    lemma_i32_le_round_trip(h.min_longitude_e7);
    lemma_i32_le_round_trip(h.min_latitude_e7);
    lemma_i32_le_round_trip(h.max_longitude_e7);
    lemma_i32_le_round_trip(h.max_latitude_e7);
    lemma_i32_le_round_trip(h.center_longitude_e7);
    lemma_i32_le_round_trip(h.center_latitude_e7);
    assert(Compression::spec_from_code(s[97]) == Ok::<Compression, PmtError>(
        h.internal_compression,
    ));
    assert(Compression::spec_from_code(s[98]) == Ok::<Compression, PmtError>(h.tile_compression));
    assert(TileType::spec_from_code(s[99]) == Ok::<TileType, PmtError>(h.tile_type));
    assert(u64_from_le(s.subrange(8, 16)) == h.root_offset);
    assert(u64_from_le(s.subrange(16, 24)) == h.root_length);
    assert(u64_from_le(s.subrange(24, 32)) == h.metadata_offset);
    assert(u64_from_le(s.subrange(32, 40)) == h.metadata_length);
    assert(u64_from_le(s.subrange(40, 48)) == h.leaf_offset);
    assert(u64_from_le(s.subrange(48, 56)) == h.leaf_length);
    assert(u64_from_le(s.subrange(56, 64)) == h.data_offset);
    assert(u64_from_le(s.subrange(64, 72)) == h.data_length);
    assert(u64_from_le(s.subrange(72, 80)) == h.n_addressed_tiles);
    assert(u64_from_le(s.subrange(80, 88)) == h.n_tile_entries);
    assert(u64_from_le(s.subrange(88, 96)) == h.n_tile_contents);
    assert(i32_from_le(s.subrange(102, 106)) == h.min_longitude_e7);
    assert(i32_from_le(s.subrange(106, 110)) == h.min_latitude_e7);
    assert(i32_from_le(s.subrange(110, 114)) == h.max_longitude_e7);
    assert(i32_from_le(s.subrange(114, 118)) == h.max_latitude_e7);
    assert(i32_from_le(s.subrange(119, 123)) == h.center_longitude_e7);
    assert(i32_from_le(s.subrange(123, 127)) == h.center_latitude_e7);
    assert((s[96] == 1u8) == h.clustered);
    assert(spec_parse_header(s) is Ok);
}

} // verus!
