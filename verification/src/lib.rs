//! A verified library for reading, writing, and extracting subsets of
//! PMTiles v3 archives: single-file containers of map tiles addressed by
//! `(z, x, y)` coordinates, laid out so that any tile can be located with a
//! handful of byte-range reads.
//!
//! The library covers the pure core of the format: the tile-id codec over the
//! Hilbert curve, the varint-packed directory codec, the 127-byte header
//! codec, the streaming writer with deduplication and run-length encoding,
//! and the bounding-box extractor's planning logic. Byte-range I/O against
//! files, HTTP, or object stores is left to callers, which hand byte slices
//! in and take byte vectors out.

pub mod bitmap;
pub mod cache;
pub mod compression;
pub mod directory;
pub mod error;
pub mod extract;
pub mod header;
pub mod reader;
pub mod tile;
pub mod varint;
pub mod writer;
