//! Compression of the framed byte ranges of an archive.
//!
//! Directories, metadata, and tile payloads are stored compressed according
//! to the codes of the header. This library applies gzip itself and passes
//! uncompressed data through; Brotli and Zstandard are recognized codes it
//! does not apply.

use vstd::prelude::*;
use vstd::slice::slice_to_vec;

use crate::error::{PmtError, PmtResult};
use crate::header::Compression;

verus! {

/// The gzip stream that compressing `s` produces.
pub uninterp spec fn gzip_of(s: Seq<u8>) -> Seq<u8>;

/// What decompressing `s` as a gzip stream yields, or nothing when `s` is
/// not a well-formed gzip stream.
pub uninterp spec fn gunzip_of(s: Seq<u8>) -> Option<Seq<u8>>;

/// Relies on flate2's write::GzEncoder at the default level: the output
/// depends on the input bytes alone (flate2 fixes the stream header's
/// modification time and operating-system byte to keep its streams
/// reproducible across platforms), and flate2's read::GzDecoder
/// decompresses the produced stream back to the input. The encoder
/// reports an error only if the underlying writer does, and a `Vec` sink
/// never does, so encoding always succeeds.
#[verifier::external_body]
fn gzip_compress(data: &[u8]) -> (r: Vec<u8>)
    ensures
        r@ == gzip_of(data@),
        gunzip_of(r@) == Some(data@),
{
    let mut encoder = flate2::write::GzEncoder::new(Vec::new(), flate2::Compression::default());
    std::io::Write::write_all(&mut encoder, data).and_then(|_| encoder.finish()).expect(
        "writing into a Vec cannot fail",
    )
}

/// Relies on flate2's read::GzDecoder: whether the bytes decode as a gzip
/// stream, and to what, depends on the bytes alone.
#[verifier::external_body]
fn gzip_decompress(data: &[u8]) -> (r: PmtResult<Vec<u8>>)
    ensures
        match r {
            Ok(v) => gunzip_of(data@) == Some(v@),
            Err(e) => gunzip_of(data@) is None && e == PmtError::Reading,
        },
{
    let mut out = Vec::new();
    let mut decoder = flate2::read::GzDecoder::new(data);
    match std::io::Read::read_to_end(&mut decoder, &mut out) {
        Ok(_) => Ok(out),
        Err(_) => Err(PmtError::Reading),
    }
}

/// Which compression schemes this library applies itself.
pub open spec fn spec_compression_supported(c: Compression) -> bool {
    c == Compression::NoCompression || c == Compression::Gzip
}

/// The bytes of `data` compressed with `c`: the gzip stream for gzip, the
/// data unchanged for no compression.
pub open spec fn spec_compress(c: Compression, data: Seq<u8>) -> Seq<u8>
    recommends
        spec_compression_supported(c),
{
    if c == Compression::Gzip {
        gzip_of(data)
    } else {
        data
    }
}

/// What decompressing `data` with `c` yields.
pub open spec fn spec_decompress(c: Compression, data: Seq<u8>) -> Option<Seq<u8>>
    recommends
        spec_compression_supported(c),
{
    if c == Compression::Gzip {
        gunzip_of(data)
    } else {
        Some(data)
    }
}

/// Compress `data` with the scheme `c`.
///
/// Succeeds on every input under no compression and under gzip; a Brotli,
/// Zstandard, or unknown scheme is unsupported, exactly then an error is
/// returned. Decompressing the result with the same scheme yields `data`
/// again.
pub fn compress(c: Compression, data: &[u8]) -> (r: PmtResult<Vec<u8>>)
    ensures
        match r {
            Ok(v) => spec_compression_supported(c) && v@ == spec_compress(c, data@)
                && spec_decompress(c, v@) == Some(data@),
            Err(e) => !spec_compression_supported(c) && e == PmtError::UnsupportedCompression(c),
        },
{
    match c {
        Compression::NoCompression => Ok(slice_to_vec(data)),
        Compression::Gzip => Ok(gzip_compress(data)),
        _ => Err(PmtError::UnsupportedCompression(c)),
    }
}

/// Decompress `data` with the scheme `c`.
///
/// Succeeds on every input under no compression; under gzip it succeeds
/// exactly on well-formed gzip streams. A Brotli, Zstandard, or unknown
/// scheme is unsupported.
pub fn decompress(c: Compression, data: &[u8]) -> (r: PmtResult<Vec<u8>>)
    ensures
        match r {
            Ok(v) => spec_compression_supported(c) && spec_decompress(c, data@) == Some(v@),
            Err(e) => (!spec_compression_supported(c) && e == PmtError::UnsupportedCompression(c))
                || (c == Compression::Gzip && spec_decompress(c, data@) is None && e
                == PmtError::Reading),
        },
{
    match c {
        Compression::NoCompression => Ok(slice_to_vec(data)),
        Compression::Gzip => gzip_decompress(data),
        _ => Err(PmtError::UnsupportedCompression(c)),
    }
}

} // verus!
