//! The pure core of the archive reader.
//!
//! A reader bootstraps an archive from one prefix read of
//! `MAX_INITIAL_BYTES` bytes: the header is parsed from the first 127, and
//! the root directory is cut out of the prefix, decompressed, and parsed.
//! Resolving a tile id then walks the root and, through leaf entries, the
//! leaf directories. This module holds the computations of that path; the
//! byte-range reads between them belong to the caller.

use vstd::prelude::*;
use vstd::slice::slice_subrange;

use crate::compression::{decompress, spec_compression_supported, spec_decompress};
use crate::directory::{sorted_by_tile_id, spec_parse_directory, DirEntry, Directory};
use crate::error::{PmtError, PmtResult};
use crate::header::{spec_parse_header, Header, HEADER_SIZE};

verus! {

/// Whether the header places the root directory inside a prefix of
/// `prefix_len` bytes, directly after itself.
pub open spec fn spec_root_dir_region_ok(h: Header, prefix_len: int) -> bool {
    HEADER_SIZE <= h.root_offset && h.root_offset + h.root_length <= prefix_len
}

/// What bootstrapping from the initial bytes of an archive yields: the
/// parsed header, and the root directory cut from the prefix at the
/// header's root region, decompressed with the header's internal
/// compression and parsed.
pub open spec fn spec_parse_initial(prefix: Seq<u8>) -> PmtResult<(Header, Seq<DirEntry>)> {
    match spec_parse_header(prefix) {
        Err(e) => Err(e),
        Ok(h) => if !spec_root_dir_region_ok(h, prefix.len() as int) {
            Err(PmtError::InvalidHeader)
        } else if !spec_compression_supported(h.internal_compression) {
            Err(PmtError::UnsupportedCompression(h.internal_compression))
        } else {
            match spec_decompress(
                h.internal_compression,
                prefix.subrange(h.root_offset as int, h.root_offset + h.root_length),
            ) {
                None => Err(PmtError::Reading),
                Some(raw) => match spec_parse_directory(raw) {
                    None => Err(PmtError::InvalidEntry),
                    Some(es) => Ok((h, es)),
                },
            }
        },
    }
}

/// Bootstrap an archive from its initial bytes: parse the header and the
/// root directory.
///
/// The caller hands in the first `MAX_INITIAL_BYTES` bytes of the archive
/// (or the whole archive, if shorter); the header and root directory must
/// lie within them.
pub fn parse_initial_bytes(prefix: &[u8]) -> (r: PmtResult<(Header, Directory)>)
    ensures
        match r {
            Ok((h, d)) => spec_parse_initial(prefix@) == Ok::<_, PmtError>((h, d.entries@))
                && sorted_by_tile_id(d.entries@),
            Err(e) => spec_parse_initial(prefix@) == Err::<(Header, Seq<DirEntry>), _>(e),
        },
{
    let h = Header::try_from_bytes(prefix)?;
    if h.root_offset < HEADER_SIZE as u64 || h.root_offset > prefix.len() as u64
        || h.root_length > prefix.len() as u64 - h.root_offset {
        return Err(PmtError::InvalidHeader);
    }
    let ic = h.internal_compression;
    match ic {
        crate::header::Compression::NoCompression => (),
        crate::header::Compression::Gzip => (),
        _ => {
            return Err(PmtError::UnsupportedCompression(ic));
        },
    }
    let region = slice_subrange(
        prefix,
        h.root_offset as usize,
        (h.root_offset + h.root_length) as usize,
    );
    let raw = decompress(ic, region)?;
    let d = Directory::try_from_bytes(raw.as_slice())?;
    Ok((h, d))
}

/// The absolute byte range of a tile entry's payload within the archive:
/// the tile-data region's offset plus the entry's, or `None` if the sum
/// leaves `u64`.
pub fn tile_range(h: &Header, entry: &DirEntry) -> (r: Option<(u64, u64)>)
    ensures
        match r {
            Some((off, len)) => off == h.data_offset + entry.offset && len == entry.length,
            None => h.data_offset + entry.offset > u64::MAX,
        },
{
    if entry.offset <= u64::MAX - h.data_offset {
        Some((h.data_offset + entry.offset, entry.length as u64))
    } else {
        None
    }
}

/// The absolute byte range of a leaf entry's directory within the archive:
/// the leaf region's offset plus the entry's, or `None` if the sum leaves
/// `u64`.
pub fn leaf_range(h: &Header, entry: &DirEntry) -> (r: Option<(u64, u64)>)
    ensures
        match r {
            Some((off, len)) => off == h.leaf_offset + entry.offset && len == entry.length,
            None => h.leaf_offset + entry.offset > u64::MAX,
        },
{
    if entry.offset <= u64::MAX - h.leaf_offset {
        Some((h.leaf_offset + entry.offset, entry.length as u64))
    } else {
        None
    }
}

/// What decompressing and parsing a fetched leaf directory yields.
pub open spec fn spec_parse_leaf(c: crate::header::Compression, data: Seq<u8>) -> PmtResult<
    Seq<DirEntry>,
> {
    if !spec_compression_supported(c) {
        Err(PmtError::UnsupportedCompression(c))
    } else {
        match spec_decompress(c, data) {
            None => Err(PmtError::Reading),
            Some(raw) => match spec_parse_directory(raw) {
                None => Err(PmtError::InvalidEntry),
                Some(es) => Ok(es),
            },
        }
    }
}

/// Relies on String::from_utf8 (vstd gives it no specification): it
/// succeeds exactly on valid UTF-8 and returns the string holding those
/// bytes.
#[verifier::external_body]
fn utf8_to_string(data: Vec<u8>) -> (r: Option<String>)
    ensures
        match r {
            Some(s) => vstd::utf8::encode_utf8(s@) == data@,
            None => !(exists|cs: Seq<char>| #[trigger] vstd::utf8::encode_utf8(cs) == data@),
        },
{
    String::from_utf8(data).ok()
}

/// Decode the fetched metadata region: decompress it with the header's
/// internal compression and read it as UTF-8 text.
///
/// Succeeds exactly when the compression is one this library applies, the
/// bytes decompress, and the result is UTF-8; each failure names its
/// reason.
pub fn decode_metadata(
    internal_compression: crate::header::Compression,
    data: &[u8],
) -> (r: PmtResult<String>)
    ensures
        match r {
            Ok(s) => spec_compression_supported(internal_compression) && spec_decompress(
                internal_compression,
                data@,
            ) == Some(vstd::utf8::encode_utf8(s@)),
            Err(e) => (!spec_compression_supported(internal_compression) && e
                == PmtError::UnsupportedCompression(internal_compression)) || (
            internal_compression == crate::header::Compression::Gzip && spec_decompress(
                internal_compression,
                data@,
            ) is None && e == PmtError::Reading) || (spec_decompress(
                internal_compression,
                data@,
            ) is Some && !(exists|cs: Seq<char>| #[trigger] vstd::utf8::encode_utf8(cs)
                == spec_decompress(internal_compression, data@).unwrap()) && e
                == PmtError::InvalidMetadataUtf8),
        },
{
    let raw = decompress(internal_compression, data)?;
    match utf8_to_string(raw) {
        Some(s) => Ok(s),
        None => Err(PmtError::InvalidMetadataUtf8),
    }
}

/// What one resolution step against a directory asks for next.
pub enum ResolveAction {
    /// The tile's payload: its absolute byte offset and length.
    Payload(u64, u64),
    /// A leaf directory to descend into: its absolute byte offset and
    /// length.
    Descend(u64, u64),
    /// No entry covers the tile id.
    Absent,
}

/// One step of resolving a tile id, as the reader's walk from the root
/// through leaf directories performs it: look the id up in the directory
/// at hand, and either report the payload's absolute range, name the leaf
/// directory to fetch and look in next, or report the tile absent.
///
/// The walk is bounded: the caller descends through at most three leaf
/// directories before treating the tile as absent.
pub fn resolve_step(h: &Header, d: &Directory, tile_id: crate::tile::TileId) -> (r: PmtResult<
    ResolveAction,
>)
    requires
        sorted_by_tile_id(d.entries@),
    ensures
        match crate::directory::spec_find_tile_id(d.entries@, tile_id.spec_value()) {
            None => r == Ok::<ResolveAction, PmtError>(ResolveAction::Absent),
            Some(e) => if e.run_length == 0 {
                if h.leaf_offset + e.offset <= u64::MAX {
                    r == Ok::<ResolveAction, PmtError>(
                        ResolveAction::Descend((h.leaf_offset + e.offset) as u64, e.length as u64),
                    )
                } else {
                    r == Err::<ResolveAction, PmtError>(PmtError::IoRangeOverflow)
                }
            } else {
                if h.data_offset + e.offset <= u64::MAX {
                    r == Ok::<ResolveAction, PmtError>(
                        ResolveAction::Payload((h.data_offset + e.offset) as u64, e.length as u64),
                    )
                } else {
                    r == Err::<ResolveAction, PmtError>(PmtError::IoRangeOverflow)
                }
            },
        },
{
    match d.find_tile_id(tile_id) {
        None => Ok(ResolveAction::Absent),
        Some(e) => {
            if e.run_length == 0 {
                match leaf_range(h, &e) {
                    Some((off, len)) => Ok(ResolveAction::Descend(off, len)),
                    None => Err(PmtError::IoRangeOverflow),
                }
            } else {
                match tile_range(h, &e) {
                    Some((off, len)) => Ok(ResolveAction::Payload(off, len)),
                    None => Err(PmtError::IoRangeOverflow),
                }
            }
        },
    }
}

/// Decompress and parse a leaf directory fetched from the archive.
pub fn parse_leaf_directory(
    internal_compression: crate::header::Compression,
    data: &[u8],
) -> (r: PmtResult<Directory>)
    ensures
        match r {
            Ok(d) => spec_parse_leaf(internal_compression, data@) == Ok::<_, PmtError>(d.entries@)
                && sorted_by_tile_id(d.entries@),
            Err(e) => spec_parse_leaf(internal_compression, data@) == Err::<Seq<DirEntry>, _>(e),
        },
{
    let raw = decompress(internal_compression, data)?;
    Directory::try_from_bytes(raw.as_slice())
}

} // verus!
