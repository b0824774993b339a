//! The streaming archive writer.
//!
//! Tiles are added in tile-id order (out-of-order additions are accepted
//! but mark the archive unclustered). Consecutive identical payloads
//! extend the previous entry's run length; payloads seen before, at any
//! earlier id, are deduplicated against a digest map and share one copy in
//! the data region. Finalizing lays the regions out as
//! `[header][root directory][metadata][tile data][leaf directories]`, with
//! the header and root directory inside the first `MAX_INITIAL_BYTES`
//! bytes.

use std::collections::HashMap;

use vstd::multiset::Multiset;
use vstd::prelude::*;

use crate::compression::{compress, spec_compress, spec_compression_supported, spec_decompress};
use crate::directory::{sorted_by_tile_id, spec_serializable, spec_serialize_directory, DirEntry,
    Directory};
use crate::error::{PmtError, PmtResult};
use crate::header::{Compression, Header, HEADER_SIZE, MAX_INITIAL_BYTES};
use crate::tile::{TileCoord, TileId};

verus! {

/// The 64-bit digest of a byte sequence used to deduplicate tile
/// payloads.
pub uninterp spec fn xxh3_of(s: Seq<u8>) -> u64;

/// Relies on twox_hash's XxHash3_64::oneshot: a 64-bit digest that
/// depends on the input bytes alone.
#[verifier::external_body]
fn xxh3_64(data: &[u8]) -> (r: u64)
    ensures
        r == xxh3_of(data@),
{
    twox_hash::XxHash3_64::oneshot(data)
}

/// Where one tile payload lives in the tile-data region.
#[derive(Debug, Clone, Copy, PartialEq, Eq, Structural)]
pub struct TileContentLocation {
    /// Byte offset within the data region.
    pub offset: u64,
    /// Byte length of the stored (compressed) payload.
    pub length: u32,
}

/// The abstract state of a streaming writer: what has been added so far.
pub ghost struct WriterModel {
    /// The directory entries accumulated so far.
    pub entries: Seq<DirEntry>,
    /// The bytes of the tile-data region so far.
    pub data: Seq<u8>,
    /// The payload locations by digest.
    pub contents: Map<u64, TileContentLocation>,
    /// The digest of the most recently added payload.
    pub prev_hash: Option<u64>,
    /// Number of addressable tiles added.
    pub n_addressed: u64,
    /// Number of tile entries created.
    pub n_entries: u64,
    /// Whether every id so far arrived in increasing order.
    pub clustered: bool,
}

/// One counter step; the counters saturate at `u64::MAX` rather than wrap.
pub open spec fn spec_count_up(v: u64) -> u64 {
    if v < u64::MAX {
        (v + 1) as u64
    } else {
        v
    }
}

/// How adding one nonempty tile transforms the writer state.
///
/// If the new id continues the previous entry's run and the payload is the
/// same as the previous one, the run is extended and nothing else changes.
/// Otherwise a new entry is pushed: at the stored location of an already
/// seen payload, or at fresh bytes appended to the data region. An id
/// below the end of the previous entry's run marks the state unclustered.
pub open spec fn spec_add_step(
    s: WriterModel,
    id: u64,
    data: Seq<u8>,
    tc: Compression,
) -> WriterModel
    recommends
        data.len() > 0,
        spec_compression_supported(tc),
{
    let h = xxh3_of(data);
    let last = s.entries.last();
    if s.entries.len() > 0 && s.prev_hash == Some(h) && id == last.tile_id + last.run_length
        && last.run_length < u32::MAX {
        WriterModel {
            entries: s.entries.update(
                s.entries.len() - 1,
                DirEntry { run_length: (last.run_length + 1) as u32, ..last },
            ),
            n_addressed: spec_count_up(s.n_addressed),
            ..s
        }
    } else {
        let clustered = s.clustered && !(s.entries.len() > 0 && id < last.tile_id
            + last.run_length);
        if s.contents.contains_key(h) {
            WriterModel {
                entries: s.entries.push(
                    DirEntry {
                        tile_id: id,
                        offset: s.contents[h].offset,
                        length: s.contents[h].length,
                        run_length: 1,
                    },
                ),
                n_addressed: spec_count_up(s.n_addressed),
                n_entries: spec_count_up(s.n_entries),
                prev_hash: Some(h),
                clustered,
                ..s
            }
        } else {
            let comp = spec_compress(tc, data);
            let loc = TileContentLocation {
                offset: s.data.len() as u64,
                length: comp.len() as u32,
            };
            WriterModel {
                entries: s.entries.push(
                    DirEntry { tile_id: id, offset: loc.offset, length: loc.length, run_length: 1 },
                ),
                data: s.data + comp,
                contents: s.contents.insert(h, loc),
                n_addressed: spec_count_up(s.n_addressed),
                n_entries: spec_count_up(s.n_entries),
                prev_hash: Some(h),
                clustered,
            }
        }
    }
}


/// The writer state after adding `n` tiles with the same payload at the
/// consecutive ids `id`, `id + 1`, ..., `id + n - 1`.
pub open spec fn spec_add_run(
    s: WriterModel,
    id: u64,
    data: Seq<u8>,
    tc: Compression,
    n: nat,
) -> WriterModel
    decreases n,
{
    if n == 0 {
        s
    } else {
        spec_add_step(spec_add_run(s, id, data, tc, (n - 1) as nat), (id + n - 1) as u64, data, tc)
    }
}

/// Run-length encoding: adding `n` tiles with one identical payload at
/// consecutive ids, starting past the end of the previous entry's run,
/// produces exactly one new directory entry, whose run length is `n`.
pub proof fn lemma_writer_run_length(
    s: WriterModel,
    id: u64,
    data: Seq<u8>,
    tc: Compression,
    n: nat,
)
    requires
        data.len() > 0,
        1 <= n <= u32::MAX,
        id + n - 1 <= u64::MAX,
        s.entries.len() == 0 || id > s.entries.last().tile_id + s.entries.last().run_length,
    ensures
        ({
            let r = spec_add_run(s, id, data, tc, n);
            r.entries.len() == s.entries.len() + 1 && r.entries.drop_last() == s.entries
                && r.entries.last().tile_id == id && r.entries.last().run_length == n
        }),
    decreases n,
{
    if n == 1 {
        let r = spec_add_run(s, id, data, tc, 1);
        assert(r == spec_add_step(s, id, data, tc));
        assert(r.entries.drop_last() =~= s.entries);
    } else {
        lemma_writer_run_length(s, id, data, tc, (n - 1) as nat);
        let prev = spec_add_run(s, id, data, tc, (n - 1) as nat);
        let r = spec_add_step(prev, (id + n - 1) as u64, data, tc);
        assert(prev.prev_hash == Some(xxh3_of(data))) by {
            lemma_run_keeps_prev_hash(s, id, data, tc, (n - 1) as nat);
        }
        assert(prev.entries.last().tile_id + prev.entries.last().run_length == id + n - 1);
        assert(r.entries.drop_last() =~= prev.entries.drop_last());
        assert(r.entries.drop_last() == s.entries);
    }
}

/// Every add of the run records the payload's digest as the most recent
/// one.
proof fn lemma_run_keeps_prev_hash(s: WriterModel, id: u64, data: Seq<u8>, tc: Compression, n: nat)
    requires
        data.len() > 0,
        n >= 1,
    ensures
        spec_add_run(s, id, data, tc, n).prev_hash == Some(xxh3_of(data)),
    decreases n,
{
    if n > 1 {
        lemma_run_keeps_prev_hash(s, id, data, tc, (n - 1) as nat);
    }
}

/// Deduplication: adding the same payload twice at ids that are in order
/// but not consecutive stores its bytes once. The second add appends no
/// data and its entry points at the first copy's offset and length.
pub proof fn lemma_writer_dedup(s: WriterModel, id1: u64, id2: u64, data: Seq<u8>, tc: Compression)
    requires
        data.len() > 0,
        !s.contents.contains_key(xxh3_of(data)),
        s.entries.len() == 0 || id1 > s.entries.last().tile_id + s.entries.last().run_length,
        id1 + 1 < id2 <= u64::MAX,
    ensures
        ({
            let s1 = spec_add_step(s, id1, data, tc);
            let s2 = spec_add_step(s1, id2, data, tc);
            s2.data == s1.data && s1.data == s.data + spec_compress(tc, data)
                && s2.entries.len() == s1.entries.len() + 1 && s2.entries.last().offset
                == s1.entries.last().offset && s2.entries.last().length
                == s1.entries.last().length && s2.entries.last().run_length == 1
        }),
{
    let h = xxh3_of(data);
    let s1 = spec_add_step(s, id1, data, tc);
    assert(s1.contents.contains_key(h));
    assert(s1.entries.last().tile_id == id1 && s1.entries.last().run_length == 1);
    let s2 = spec_add_step(s1, id2, data, tc);
    assert(s2.data == s1.data);
}

/// A streaming archive writer assembling the regions in memory.
pub struct PmTilesStreamWriter {
    header: Header,
    metadata: Vec<u8>,
    entries: Vec<DirEntry>,
    n_addressed_tiles: u64,
    n_tile_entries: u64,
    tile_content_map: HashMap<u64, TileContentLocation>,
    prev_tile_hash: Option<u64>,
    data: Vec<u8>,
}

impl PmTilesStreamWriter {
    /// The abstract state of this writer.
    pub closed spec fn model(self) -> WriterModel {
        WriterModel {
            entries: self.entries@,
            data: self.data@,
            contents: self.tile_content_map@,
            prev_hash: self.prev_tile_hash,
            n_addressed: self.n_addressed_tiles,
            n_entries: self.n_tile_entries,
            clustered: self.header.clustered,
        }
    }

    /// The header being built.
    pub closed spec fn spec_header(self) -> Header {
        self.header
    }

    /// The compressed metadata bytes recorded at creation.
    pub closed spec fn spec_metadata(self) -> Seq<u8> {
        self.metadata@
    }

    /// Well-formedness: a clustered writer's entries are ordered; every
    /// entry and every recorded location points into the data region; runs
    /// are nonempty; directories and metadata use a compression this
    /// library applies.
    pub closed spec fn wf(self) -> bool {
        &&& (self.header.clustered ==> sorted_by_tile_id(self.entries@))
        &&& forall|i: int|
            0 <= i < self.entries@.len() ==> (#[trigger] self.entries@[i]).offset
                + self.entries@[i].length <= self.data@.len() && self.entries@[i].run_length >= 1
                && self.entries@[i].length >= 1
        &&& forall|h: u64|
            self.tile_content_map@.contains_key(h) ==> (#[trigger] self.tile_content_map@[h]).offset
                + self.tile_content_map@[h].length <= self.data@.len()
                && self.tile_content_map@[h].length >= 1
        &&& spec_compression_supported(self.header.internal_compression)
    }

    /// Add a tile at the given coordinate.
    ///
    /// The payload is compressed with the header's tile compression,
    /// deduplicated, and run-length merged as [`spec_add_step`] states. An
    /// empty payload is ignored (the format does not store empty tiles).
    pub fn add_tile(&mut self, coord: TileCoord, data: &[u8]) -> (r: PmtResult<()>)
        requires
            old(self).wf(),
            spec_compression_supported(old(self).spec_header().tile_compression),
        ensures
            final(self).wf(),
            final(self).spec_metadata() == old(self).spec_metadata(),
            final(self).spec_header() == (Header {
                clustered: final(self).model().clustered,
                ..old(self).spec_header()
            }),
            match r {
                Ok(()) => if data@.len() == 0 {
                    final(self).model() == old(self).model()
                } else {
                    final(self).model() == spec_add_step(
                        old(self).model(),
                        crate::tile::spec_coord_to_id(
                            coord.spec_z(),
                            coord.spec_x(),
                            coord.spec_y(),
                        ) as u64,
                        data@,
                        old(self).spec_header().tile_compression,
                    )
                },
                Err(e) => final(self).model() == old(self).model() && data@.len() > 0 && e
                    == PmtError::IndexEntryOverflow && (spec_compress(
                    old(self).spec_header().tile_compression,
                    data@,
                ).len() > u32::MAX || spec_compress(
                    old(self).spec_header().tile_compression,
                    data@,
                ).len() == 0),
            },
    {
        let tc = self.header.tile_compression;
        let id = TileId::from_coord(coord);
        self.add_tile_by_id(id, data, tc)
    }

    /// Add a tile whose payload is already compressed (or deliberately
    /// raw): the bytes are stored as given, without recompression.
    pub fn add_raw_tile(&mut self, coord: TileCoord, data: &[u8]) -> (r: PmtResult<()>)
        requires
            old(self).wf(),
        ensures
            final(self).wf(),
            final(self).spec_metadata() == old(self).spec_metadata(),
            final(self).spec_header() == (Header {
                clustered: final(self).model().clustered,
                ..old(self).spec_header()
            }),
            match r {
                Ok(()) => if data@.len() == 0 {
                    final(self).model() == old(self).model()
                } else {
                    final(self).model() == spec_add_step(
                        old(self).model(),
                        crate::tile::spec_coord_to_id(
                            coord.spec_z(),
                            coord.spec_x(),
                            coord.spec_y(),
                        ) as u64,
                        data@,
                        Compression::NoCompression,
                    )
                },
                Err(e) => final(self).model() == old(self).model() && e
                    == PmtError::IndexEntryOverflow && data@.len() > u32::MAX,
            },
    {
        let id = TileId::from_coord(coord);
        self.add_tile_by_id(id, data, Compression::NoCompression)
    }

    /// Add a tile by id, compressing the payload with `tile_compression`.
    fn add_tile_by_id(&mut self, tile_id: TileId, data: &[u8], tile_compression: Compression) -> (r:
        PmtResult<()>)
        requires
            old(self).wf(),
            spec_compression_supported(tile_compression),
        ensures
            final(self).wf(),
            final(self).spec_metadata() == old(self).spec_metadata(),
            final(self).spec_header() == (Header {
                clustered: final(self).model().clustered,
                ..old(self).spec_header()
            }),
            match r {
                Ok(()) => if data@.len() == 0 {
                    final(self).model() == old(self).model()
                } else {
                    final(self).model() == spec_add_step(
                        old(self).model(),
                        tile_id.spec_value(),
                        data@,
                        tile_compression,
                    )
                },
                Err(e) => final(self).model() == old(self).model() && data@.len() > 0 && e
                    == PmtError::IndexEntryOverflow && (spec_compress(
                    tile_compression,
                    data@,
                ).len() > u32::MAX || spec_compress(tile_compression, data@).len() == 0),
            },
    {
        if data.len() == 0 {
            return Ok(());
        }
        let id = tile_id.value();
        let tile_hash = xxh3_64(data);
        let mut out_of_order = false;
        let n = self.entries.len();
        if n > 0 {
            let last = self.entries[n - 1];
            let run_end_opt = last.tile_id.checked_add(last.run_length as u64);
            let prev_matches = match self.prev_tile_hash {
                Some(ph) => ph == tile_hash,
                None => false,
            };
            if prev_matches && run_end_opt == Some(id) && last.run_length < u32::MAX {
                let updated = DirEntry { run_length: last.run_length + 1, ..last };
                self.entries.set(n - 1, updated);
                if self.n_addressed_tiles < u64::MAX {
                    self.n_addressed_tiles = self.n_addressed_tiles + 1;
                }
                proof {
                    if old(self).header.clustered {
                        assert(sorted_by_tile_id(self.entries@));
                    }
                    assert(final(self).model() == spec_add_step(
                        old(self).model(),
                        id,
                        data@,
                        tile_compression,
                    ));
                }
                return Ok(());
            }
            out_of_order = match run_end_opt {
                Some(end) => id < end,
                None => true,
            };
        }
        let loc: TileContentLocation = match self.tile_content_map.get(&tile_hash) {
            Some(l) => *l,
            None => {
                let comp = compress(tile_compression, data)?;
                if comp.len() == 0 || comp.len() > 0xffff_ffffusize {
                    return Err(PmtError::IndexEntryOverflow);
                }
                let offset = self.data.len() as u64;
                let length = comp.len() as u32;
                append_entry_bytes(&mut self.data, comp.as_slice());
                let l = TileContentLocation { offset, length };
                self.tile_content_map.insert(tile_hash, l);
                l
            },
        };
        if out_of_order {
            self.header.clustered = false;
        }
        self.prev_tile_hash = Some(tile_hash);
        if self.n_tile_entries < u64::MAX {
            self.n_tile_entries = self.n_tile_entries + 1;
        }
        if self.n_addressed_tiles < u64::MAX {
            self.n_addressed_tiles = self.n_addressed_tiles + 1;
        }
        let entry = DirEntry { tile_id: id, offset: loc.offset, length: loc.length, run_length: 1 };
        proof {
            if self.header.clustered {
                let es = self.entries@;
                assert forall|i: int, j: int|
                    0 <= i < j < es.push(entry).len() implies es.push(entry)[i].tile_id <= es.push(
                    entry,
                )[j].tile_id by {
                    if j < es.len() {
                        assert(es[i].tile_id <= es[j].tile_id);
                    } else if es.len() > 0 && i < es.len() {
                        assert(es[i].tile_id <= es[es.len() - 1].tile_id);
                    }
                }
            }
        }
        self.entries.push(entry);
        proof {
            assert(final(self).model() == spec_add_step(
                old(self).model(),
                id,
                data@,
                tile_compression,
            ));
        }
        Ok(())
    }
}

/// Append all of `src` to `dst`.
pub(crate) fn append_entry_bytes(dst: &mut Vec<u8>, src: &[u8])
    ensures
        final(dst)@ == old(dst)@ + src@,
{
    let mut i: usize = 0;
    while i < src.len()
        invariant
            i <= src@.len(),
            dst@ == old(dst)@ + src@.subrange(0, i as int),
        decreases src@.len() - i,
    {
        let b = src[i];
        proof {
            assert(src@.subrange(0, i as int + 1) =~= src@.subrange(0, i as int).push(b));
        }
        dst.push(b);
        proof {
            assert(dst@ =~= old(dst)@ + src@.subrange(0, i as int + 1));
        }
        i = i + 1;
    }
    proof {
        assert(src@.subrange(0, src@.len() as int) =~= src@);
    }
}

/// The space left for the root directory inside the initial bytes.
pub const MAX_ROOT_DIR_BYTES: usize = MAX_INITIAL_BYTES - HEADER_SIZE;

/// The entries of a sequence of directories, in order.
pub open spec fn spec_concat_entry_seqs(ls: Seq<Seq<DirEntry>>) -> Seq<DirEntry>
    decreases ls.len(),
{
    if ls.len() == 0 {
        Seq::<DirEntry>::empty()
    } else {
        spec_concat_entry_seqs(ls.drop_last()) + ls.last()
    }
}

/// Appending one directory appends its entries.
proof fn lemma_concat_entry_seqs_push(ls: Seq<Seq<DirEntry>>, l: Seq<DirEntry>)
    ensures
        spec_concat_entry_seqs(ls.push(l)) == spec_concat_entry_seqs(ls) + l,
{
    assert(ls.push(l).drop_last() =~= ls);
    assert(ls.push(l).last() == l);
}

/// The entries of `src` from `start` up to `end`.
fn copy_entry_range(src: &Vec<DirEntry>, start: usize, end: usize) -> (r: Vec<DirEntry>)
    requires
        start <= end <= src@.len(),
    ensures
        r@ == src@.subrange(start as int, end as int),
{
    let mut out: Vec<DirEntry> = Vec::new();
    let mut i = start;
    while i < end
        invariant
            start <= i <= end <= src@.len(),
            out@ == src@.subrange(start as int, i as int),
        decreases end - i,
    {
        let e = src[i];
        proof {
            assert(src@.subrange(start as int, i as int + 1) =~= src@.subrange(
                start as int,
                i as int,
            ).push(e));
        }
        out.push(e);
        i = i + 1;
    }
    out
}

/// Order entries by tile id, keeping exactly the same entries.
pub(crate) fn sort_entries(entries: Vec<DirEntry>) -> (r: Vec<DirEntry>)
    ensures
        sorted_by_tile_id(r@),
        r@.to_multiset() == entries@.to_multiset(),
        r@.len() == entries@.len(),
{
    broadcast use vstd::seq_lib::group_to_multiset_ensures;

    let mut src = entries;
    let ghost orig = src@;
    let mut out: Vec<DirEntry> = Vec::new();
    while src.len() > 0
        invariant
            out@.to_multiset().add(src@.to_multiset()) =~= orig.to_multiset(),
            sorted_by_tile_id(out@),
            forall|i: int, j: int|
                0 <= i < out@.len() && 0 <= j < src@.len() ==> (#[trigger] out@[i]).tile_id <= (
                #[trigger] src@[j]).tile_id,
            out@.len() + src@.len() == orig.len(),
        decreases src@.len(),
    {
        let mut mi: usize = 0;
        let mut k: usize = 1;
        while k < src.len()
            invariant
                mi < k <= src@.len(),
                src@.len() > 0,
                forall|j: int| 0 <= j < k ==> src@[mi as int].tile_id <= (#[trigger] src@[j]).tile_id,
            decreases src@.len() - k,
        {
            if src[k].tile_id < src[mi].tile_id {
                mi = k;
            }
            k = k + 1;
        }
        let ghost src0 = src@;
        let e = src.remove(mi);
        proof {
            broadcast use vstd::seq_lib::group_to_multiset_ensures;

            assert(src@ == src0.remove(mi as int));
            assert(src0.contains(e));
            assert(src0.to_multiset().count(e) > 0);
            assert(src@.to_multiset() =~= src0.to_multiset().remove(e));
            assert(out@.push(e).to_multiset() =~= out@.to_multiset().insert(e));
            let new_out = out@.push(e);
            assert(sorted_by_tile_id(new_out)) by {
                assert forall|i: int, j: int| 0 <= i < j < new_out.len() implies new_out[i].tile_id
                    <= new_out[j].tile_id by {
                    if j < out@.len() {
                        assert(out@[i].tile_id <= out@[j].tile_id);
                    }
                }
            }
            assert(out@.push(e).to_multiset().add(src@.to_multiset()) =~= orig.to_multiset())
                by {
                assert forall|x: DirEntry|
                    out@.push(e).to_multiset().add(src@.to_multiset()).count(x)
                        == orig.to_multiset().count(x) by {
                    assert(out@.to_multiset().add(src0.to_multiset()).count(x)
                        == orig.to_multiset().count(x));
                }
            }
        }
        out.push(e);
    }
    proof {
        broadcast use vstd::seq_lib::group_to_multiset_ensures;

        assert(src@.to_multiset() =~= Multiset::<DirEntry>::empty());
        assert(out@.to_multiset() =~= orig.to_multiset());
    }
    out
}

/// The serialized, compressed bytes of a directory.
fn dir_bytes(d: &Directory, ic: Compression) -> (r: PmtResult<Vec<u8>>)
    requires
        spec_serializable(d.entries@),
        spec_compression_supported(ic),
    ensures
        match r {
            Ok(v) => v@ == spec_compress(ic, spec_serialize_directory(d.entries@))
                && spec_decompress(ic, v@) == Some(spec_serialize_directory(d.entries@)),
            Err(_) => false,
        },
{
    let mut buf: Vec<u8> = Vec::new();
    d.write_to(&mut buf);
    compress(ic, buf.as_slice())
}

/// Build leaf directories of `leaf_size` entries each, and the root
/// entries that point at them: one leaf-pointer entry per chunk, holding
/// the chunk's first tile id, its cumulative byte offset among the leaves,
/// and its compressed byte length.
#[verifier::loop_isolation(false)]
fn build_roots_leaves(entries: &Vec<DirEntry>, leaf_size: usize, ic: Compression) -> (r: PmtResult<
    (Vec<DirEntry>, Vec<Vec<u8>>, Ghost<Seq<Seq<DirEntry>>>),
>)
    requires
        leaf_size >= 1,
        sorted_by_tile_id(entries@),
        spec_serializable(entries@),
        spec_compression_supported(ic),
    ensures
        match r {
            Ok((root, blobs, gl)) => {
                &&& blobs@.len() == gl@.len() && root@.len() == gl@.len()
                &&& spec_concat_entry_seqs(gl@) == entries@
                &&& sorted_by_tile_id(root@) && spec_serializable(root@)
                &&& entries@.len() > 0 ==> gl@.len() >= 1
                &&& forall|k: int|
                    0 <= k < gl@.len() ==> {
                        &&& (#[trigger] gl@[k]).len() > 0
                        &&& gl@[k].len() <= u64::MAX
                        &&& sorted_by_tile_id(gl@[k]) && spec_serializable(gl@[k])
                        &&& blobs@[k]@ == spec_compress(ic, spec_serialize_directory(gl@[k]))
                        &&& spec_decompress(ic, blobs@[k]@) == Some(
                            spec_serialize_directory(gl@[k]),
                        )
                        &&& root@[k].tile_id == gl@[k][0].tile_id
                        &&& root@[k].run_length == 0
                        &&& root@[k].length == blobs@[k]@.len()
                        &&& (k == 0 ==> root@[k].offset == 0)
                        &&& (k > 0 ==> root@[k].offset == root@[k - 1].offset + root@[k
                            - 1].length)
                    }
            },
            Err(e) => e == PmtError::IndexEntryOverflow,
        },
{
    let n = entries.len();
    let mut root: Vec<DirEntry> = Vec::new();
    let mut blobs: Vec<Vec<u8>> = Vec::new();
    let ghost mut ls: Seq<Seq<DirEntry>> = Seq::empty();
    let mut lo: usize = 0;
    let mut offset: u64 = 0;
    proof {
        assert(spec_concat_entry_seqs(ls) =~= entries@.subrange(0, 0));
    }
    while lo < n
        invariant
            lo <= n,
            lo < n ==> offset < u64::MAX,
            blobs@.len() == ls.len() && root@.len() == ls.len(),
            spec_concat_entry_seqs(ls) == entries@.subrange(0, lo as int),
            lo > 0 ==> ls.len() >= 1,
            sorted_by_tile_id(root@) && spec_serializable(root@),
            root@.len() > 0 && lo < n ==> root@.last().tile_id <= entries@[lo as int].tile_id,
            root@.len() == 0 ==> offset == 0,
            root@.len() > 0 ==> offset == root@.last().offset + root@.last().length,
            forall|k: int|
                0 <= k < ls.len() ==> {
                    &&& (#[trigger] ls[k]).len() > 0
                    &&& ls[k].len() <= u64::MAX
                    &&& sorted_by_tile_id(ls[k]) && spec_serializable(ls[k])
                    &&& blobs@[k]@ == spec_compress(ic, spec_serialize_directory(ls[k]))
                    &&& spec_decompress(ic, blobs@[k]@) == Some(spec_serialize_directory(ls[k]))
                    &&& root@[k].tile_id == ls[k][0].tile_id
                    &&& root@[k].run_length == 0
                    &&& root@[k].length == blobs@[k]@.len()
                    &&& (k == 0 ==> root@[k].offset == 0)
                    &&& (k > 0 ==> root@[k].offset == root@[k - 1].offset + root@[k - 1].length)
                },
        decreases n - lo,
    {
        let hi = if n - lo > leaf_size {
            lo + leaf_size
        } else {
            n
        };
        let chunk = copy_entry_range(entries, lo, hi);
        proof {
            assert forall|i: int, j: int| 0 <= i < j < chunk@.len() implies chunk@[i].tile_id
                <= chunk@[j].tile_id by {
                assert(entries@[lo + i].tile_id <= entries@[lo + j].tile_id);
            }
            assert forall|i: int| 0 <= i < chunk@.len() implies (#[trigger] chunk@[i]).offset
                < u64::MAX by {
                assert(entries@[lo + i].offset < u64::MAX);
            }
        }
        let d = Directory::from_entries(chunk);
        let blob = dir_bytes(&d, ic)?;
        if blob.len() > 0xffff_ffffusize {
            return Err(PmtError::IndexEntryOverflow);
        }
        let length = blob.len() as u32;
        let first_tid = d.entries[0].tile_id;
        let new_entry = DirEntry { tile_id: first_tid, offset, length, run_length: 0 };
        proof {
            let newroot = root@.push(new_entry);
            assert forall|i: int, j: int| 0 <= i < j < newroot.len() implies newroot[i].tile_id
                <= newroot[j].tile_id by {
                if j < root@.len() {
                    assert(root@[i].tile_id <= root@[j].tile_id);
                } else if i < root@.len() {
                    assert(root@[i].tile_id <= root@[root@.len() - 1].tile_id);
                }
            }
            assert forall|i: int| 0 <= i < newroot.len() implies (#[trigger] newroot[i]).offset
                < u64::MAX by {
                if i < root@.len() {
                    assert(root@[i].offset < u64::MAX);
                }
            }
            lemma_concat_entry_seqs_push(ls, d.entries@);
            assert(entries@.subrange(0, lo as int) + entries@.subrange(lo as int, hi as int)
                =~= entries@.subrange(0, hi as int));
        }
        root.push(new_entry);
        blobs.push(blob);
        proof {
            let nls = ls.push(d.entries@);
            assert forall|k: int|
                0 <= k < nls.len() implies {
                    &&& (#[trigger] nls[k]).len() > 0
                    &&& nls[k].len() <= u64::MAX
                    &&& sorted_by_tile_id(nls[k]) && spec_serializable(nls[k])
                    &&& blobs@[k]@ == spec_compress(ic, spec_serialize_directory(nls[k]))
                    &&& spec_decompress(ic, blobs@[k]@) == Some(spec_serialize_directory(nls[k]))
                    &&& root@[k].tile_id == nls[k][0].tile_id
                    &&& root@[k].run_length == 0
                    &&& root@[k].length == blobs@[k]@.len()
                    &&& (k == 0 ==> root@[k].offset == 0)
                    &&& (k > 0 ==> root@[k].offset == root@[k - 1].offset + root@[k - 1].length)
                } by {
                if k < ls.len() {
                    assert(ls[k].len() > 0);
                }
            }
            ls = ls.push(d.entries@);
        }
        match offset.checked_add(length as u64) {
            Some(o) => {
                if o == u64::MAX && hi < n {
                    return Err(PmtError::IndexEntryOverflow);
                }
                offset = o;
            },
            None => {
                return Err(PmtError::IndexEntryOverflow);
            },
        }
        lo = hi;
    }
    proof {
        assert(entries@.subrange(0, n as int) =~= entries@);
    }
    Ok((root, blobs, Ghost(ls)))
}

/// Split the entries into a root directory and leaf directories whose
/// compressed root fits the initial-bytes budget.
///
/// If one directory over all entries compresses small enough, it becomes
/// the root and there are no leaves. Otherwise the entries are cut into
/// chunks, the root holds one leaf-pointer entry per chunk, and the chunk
/// size grows until the root fits.
#[verifier::loop_isolation(false)]
fn optimize_directories(entries: Vec<DirEntry>, ic: Compression) -> (r: PmtResult<
    (Vec<DirEntry>, Vec<u8>, Vec<Vec<u8>>, Ghost<Seq<Seq<DirEntry>>>),
>)
    requires
        sorted_by_tile_id(entries@),
        spec_serializable(entries@),
        spec_compression_supported(ic),
    ensures
        entries@.len() < 16384 && spec_compress(ic, spec_serialize_directory(entries@)).len()
            <= MAX_ROOT_DIR_BYTES ==> match r {
            Ok((_, _, _, gl)) => gl@.len() == 0,
            Err(_) => false,
        },
        match r {
            Ok((root, root_blob, blobs, gl)) => {
                &&& sorted_by_tile_id(root@) && spec_serializable(root@)
                &&& root_blob@ == spec_compress(ic, spec_serialize_directory(root@))
                &&& spec_decompress(ic, root_blob@) == Some(spec_serialize_directory(root@))
                &&& root_blob@.len() <= MAX_ROOT_DIR_BYTES
                &&& blobs@.len() == gl@.len()
                &&& (gl@.len() == 0 ==> root@ == entries@)
                &&& (gl@.len() > 0 ==> {
                    &&& spec_concat_entry_seqs(gl@) == entries@
                    &&& root@.len() == gl@.len()
                    &&& forall|k: int|
                        0 <= k < gl@.len() ==> {
                            &&& (#[trigger] gl@[k]).len() > 0
                            &&& gl@[k].len() <= u64::MAX
                            &&& sorted_by_tile_id(gl@[k]) && spec_serializable(gl@[k])
                            &&& blobs@[k]@ == spec_compress(
                                ic,
                                spec_serialize_directory(gl@[k]),
                            )
                            &&& spec_decompress(ic, blobs@[k]@) == Some(
                                spec_serialize_directory(gl@[k]),
                            )
                            &&& root@[k].tile_id == gl@[k][0].tile_id
                            &&& root@[k].run_length == 0
                            &&& root@[k].length == blobs@[k]@.len()
                            &&& (k == 0 ==> root@[k].offset == 0)
                            &&& (k > 0 ==> root@[k].offset == root@[k - 1].offset + root@[k
                                - 1].length)
                        }
                })
            },
            Err(e) => e == PmtError::IndexEntryOverflow && !(entries@.len() < 16384
                && spec_compress(ic, spec_serialize_directory(entries@)).len()
                <= MAX_ROOT_DIR_BYTES),
        },
{
    let ghost entries0 = entries@;
    let mut entries = entries;
    if entries.len() < 16384 {
        let d = Directory::from_entries(entries);
        let blob = dir_bytes(&d, ic)?;
        if blob.len() <= MAX_ROOT_DIR_BYTES {
            return Ok((d.entries, blob, Vec::new(), Ghost(Seq::empty())));
        }
        entries = d.entries;
    }
    let n = entries.len();
    let mut leaf_size = n / 3500;
    if leaf_size < 4096 {
        leaf_size = 4096;
    }
    while leaf_size < n
        invariant
            leaf_size >= 4096,
            n == entries@.len(),
            entries@ == entries0,
            sorted_by_tile_id(entries@),
            spec_serializable(entries@),
            spec_compression_supported(ic),
        decreases vstd::math::max(n - leaf_size, 0),
    {
        let (root, blobs, gl) = build_roots_leaves(&entries, leaf_size, ic)?;
        let rd = Directory::from_entries(root);
        let root_blob = dir_bytes(&rd, ic)?;
        if root_blob.len() <= MAX_ROOT_DIR_BYTES {
            return Ok((rd.entries, root_blob, blobs, gl));
        }
        match leaf_size.checked_add(leaf_size / 5) {
            Some(next) => {
                proof {
                    assert(leaf_size / 5 >= 1) by (nonlinear_arith)
                        requires leaf_size >= 4096;
                }
                leaf_size = next;
            },
            None => {
                return Err(PmtError::IndexEntryOverflow);
            },
        }
    }
    let (root, blobs, gl) = build_roots_leaves(&entries, leaf_size, ic)?;
    let rd = Directory::from_entries(root);
    let root_blob = dir_bytes(&rd, ic)?;
    if root_blob.len() <= MAX_ROOT_DIR_BYTES {
        Ok((rd.entries, root_blob, blobs, gl))
    } else {
        Err(PmtError::IndexEntryOverflow)
    }
}

/// Builder that configures the header and metadata before streaming
/// begins.
pub struct PmTilesWriter {
    header: Header,
    metadata: String,
}

impl PmTilesWriter {
    /// The header the builder has configured so far.
    pub closed spec fn spec_header(self) -> Header {
        self.header
    }

    /// The metadata text the builder has configured so far.
    pub closed spec fn spec_metadata_text(self) -> Seq<char> {
        self.metadata@
    }

    /// A writer for tiles of the given type, with default settings:
    /// version 3, gzip directories and metadata, gzip tile payloads for
    /// vector tiles and raw payloads otherwise, the whole-world bounds,
    /// zooms 0 through 22, and an empty metadata object.
    pub fn new(tile_type: crate::header::TileType) -> (r: PmTilesWriter)
        ensures
            r.spec_header() == (Header {
                version: 3,
                root_offset: 127,
                root_length: 0,
                metadata_offset: 16384,
                metadata_length: 0,
                leaf_offset: 0,
                leaf_length: 0,
                data_offset: 0,
                data_length: 0,
                n_addressed_tiles: 0,
                n_tile_entries: 0,
                n_tile_contents: 0,
                clustered: true,
                internal_compression: Compression::Gzip,
                tile_compression: if tile_type == crate::header::TileType::Mvt {
                    Compression::Gzip
                } else {
                    Compression::NoCompression
                },
                tile_type,
                min_zoom: 0,
                max_zoom: 22,
                min_longitude_e7: -1800000000i32,
                min_latitude_e7: -850511290i32,
                max_longitude_e7: 1800000000i32,
                max_latitude_e7: 850511290i32,
                center_zoom: 0,
                center_longitude_e7: 0i32,
                center_latitude_e7: 0i32,
            }),
            r.spec_metadata_text() == "{}"@,
    {
        let tile_compression = match tile_type {
            crate::header::TileType::Mvt => Compression::Gzip,
            _ => Compression::NoCompression,
        };
        let header = Header {
            version: 3,
            root_offset: 127,
            root_length: 0,
            metadata_offset: 16384,
            metadata_length: 0,
            leaf_offset: 0,
            leaf_length: 0,
            data_offset: 0,
            data_length: 0,
            n_addressed_tiles: 0,
            n_tile_entries: 0,
            n_tile_contents: 0,
            clustered: true,
            internal_compression: Compression::Gzip,
            tile_compression,
            tile_type,
            min_zoom: 0,
            max_zoom: 22,
            min_longitude_e7: -1800000000i32,
            min_latitude_e7: -850511290i32,
            max_longitude_e7: 1800000000i32,
            max_latitude_e7: 850511290i32,
            center_zoom: 0,
            center_longitude_e7: 0i32,
            center_latitude_e7: 0i32,
        };
        PmTilesWriter { header, metadata: "{}".to_owned() }
    }

    /// Set the compression of directories and metadata.
    pub fn internal_compression(self, compression: Compression) -> (r: PmTilesWriter)
        ensures
            r.spec_header() == (Header { internal_compression: compression, ..self.spec_header() }),
            r.spec_metadata_text() == self.spec_metadata_text(),
    {
        PmTilesWriter {
            header: Header { internal_compression: compression, ..self.header },
            metadata: self.metadata,
        }
    }

    /// Set the compression of tile payloads.
    pub fn tile_compression(self, compression: Compression) -> (r: PmTilesWriter)
        ensures
            r.spec_header() == (Header { tile_compression: compression, ..self.spec_header() }),
            r.spec_metadata_text() == self.spec_metadata_text(),
    {
        PmTilesWriter {
            header: Header { tile_compression: compression, ..self.header },
            metadata: self.metadata,
        }
    }

    /// Set the minimum zoom level of the tiles.
    pub fn min_zoom(self, level: u8) -> (r: PmTilesWriter)
        ensures
            r.spec_header() == (Header { min_zoom: level, ..self.spec_header() }),
            r.spec_metadata_text() == self.spec_metadata_text(),
    {
        PmTilesWriter { header: Header { min_zoom: level, ..self.header }, metadata: self.metadata }
    }

    /// Set the maximum zoom level of the tiles.
    pub fn max_zoom(self, level: u8) -> (r: PmTilesWriter)
        ensures
            r.spec_header() == (Header { max_zoom: level, ..self.spec_header() }),
            r.spec_metadata_text() == self.spec_metadata_text(),
    {
        PmTilesWriter { header: Header { max_zoom: level, ..self.header }, metadata: self.metadata }
    }

    /// Set the bounds of the tiles, in 10^-7 degrees.
    pub fn bounds(self, min_lon_e7: i32, min_lat_e7: i32, max_lon_e7: i32, max_lat_e7: i32) -> (r:
        PmTilesWriter)
        ensures
            r.spec_header() == (Header {
                min_longitude_e7: min_lon_e7,
                min_latitude_e7: min_lat_e7,
                max_longitude_e7: max_lon_e7,
                max_latitude_e7: max_lat_e7,
                ..self.spec_header()
            }),
            r.spec_metadata_text() == self.spec_metadata_text(),
    {
        PmTilesWriter {
            header: Header {
                min_longitude_e7: min_lon_e7,
                min_latitude_e7: min_lat_e7,
                max_longitude_e7: max_lon_e7,
                max_latitude_e7: max_lat_e7,
                ..self.header
            },
            metadata: self.metadata,
        }
    }

    /// Set the center zoom level.
    pub fn center_zoom(self, level: u8) -> (r: PmTilesWriter)
        ensures
            r.spec_header() == (Header { center_zoom: level, ..self.spec_header() }),
            r.spec_metadata_text() == self.spec_metadata_text(),
    {
        PmTilesWriter {
            header: Header { center_zoom: level, ..self.header },
            metadata: self.metadata,
        }
    }

    /// Set the center position, in 10^-7 degrees.
    pub fn center(self, lon_e7: i32, lat_e7: i32) -> (r: PmTilesWriter)
        ensures
            r.spec_header() == (Header {
                center_longitude_e7: lon_e7,
                center_latitude_e7: lat_e7,
                ..self.spec_header()
            }),
            r.spec_metadata_text() == self.spec_metadata_text(),
    {
        PmTilesWriter {
            header: Header {
                center_longitude_e7: lon_e7,
                center_latitude_e7: lat_e7,
                ..self.header
            },
            metadata: self.metadata,
        }
    }

    /// Set the metadata, which should hold a JSON object.
    pub fn metadata(self, metadata: &str) -> (r: PmTilesWriter)
        ensures
            r.spec_header() == self.spec_header(),
            r.spec_metadata_text() == metadata@,
    {
        PmTilesWriter { header: self.header, metadata: metadata.to_owned() }
    }

    /// Start streaming: compress the metadata and hand over an empty
    /// writer.
    ///
    /// Fails exactly when the configured internal compression is one this
    /// library does not apply.
    pub fn create(self) -> (r: PmtResult<PmTilesStreamWriter>)
        ensures
            match r {
                Ok(w) => {
                    &&& w.wf()
                    &&& w.spec_header() == self.spec_header()
                    &&& spec_compression_supported(self.spec_header().internal_compression)
                    &&& w.spec_metadata() == spec_compress(
                        self.spec_header().internal_compression,
                        vstd::utf8::encode_utf8(self.spec_metadata_text()),
                    )
                    &&& spec_decompress(
                        self.spec_header().internal_compression,
                        w.spec_metadata(),
                    ) == Some(vstd::utf8::encode_utf8(self.spec_metadata_text()))
                    &&& w.model() == (WriterModel {
                        entries: Seq::<DirEntry>::empty(),
                        data: Seq::<u8>::empty(),
                        contents: Map::<u64, TileContentLocation>::empty(),
                        prev_hash: None::<u64>,
                        n_addressed: 0,
                        n_entries: 0,
                        clustered: self.spec_header().clustered,
                    })
                },
                Err(e) => !spec_compression_supported(self.spec_header().internal_compression)
                    && e == PmtError::UnsupportedCompression(
                    self.spec_header().internal_compression,
                ),
            },
    {
        let meta = compress(self.header.internal_compression, self.metadata.as_str().as_bytes())?;
        let w = PmTilesStreamWriter {
            header: self.header,
            metadata: meta,
            entries: Vec::new(),
            n_addressed_tiles: 0,
            n_tile_entries: 0,
            tile_content_map: HashMap::new(),
            prev_tile_hash: None,
            data: Vec::new(),
        };
        proof {
            assert(w.model().contents =~= Map::<u64, TileContentLocation>::empty());
        }
        Ok(w)
    }
}

/// What a finalized archive guarantees, in terms of the writer's header
/// configuration `base`, its compressed metadata `meta`, its abstract
/// state `m`, and the witnesses: the final header `hd`, the root entries,
/// the entry sequence `se` actually written (the added entries, ordered),
/// and the entry sequences of the leaf directories.
#[verifier::opaque]
pub open spec fn spec_writer_output_parts(
    v: Seq<u8>,
    base: Header,
    meta: Seq<u8>,
    m: WriterModel,
    hd: Header,
    root_entries: Seq<DirEntry>,
    se: Seq<DirEntry>,
    leaf_seqs: Seq<Seq<DirEntry>>,
) -> bool {
    &&& crate::reader::spec_parse_initial(v.subrange(0, MAX_INITIAL_BYTES as int)) == Ok::<
        _,
        PmtError,
    >((hd, root_entries))
    &&& v.len() == MAX_INITIAL_BYTES + meta.len() + m.data.len() + hd.leaf_length
    &&& hd == (Header {
        root_offset: HEADER_SIZE as u64,
        root_length: hd.root_length,
        metadata_offset: MAX_INITIAL_BYTES as u64,
        metadata_length: meta.len() as u64,
        leaf_offset: hd.leaf_offset,
        leaf_length: hd.leaf_length,
        data_offset: (MAX_INITIAL_BYTES + meta.len()) as u64,
        data_length: m.data.len() as u64,
        n_addressed_tiles: m.n_addressed,
        n_tile_entries: m.n_entries,
        n_tile_contents: m.contents.dom().len() as u64,
        clustered: m.clustered,
        ..base
    })
    &&& v.subrange(MAX_INITIAL_BYTES as int, MAX_INITIAL_BYTES + meta.len()) == meta
    &&& v.subrange(hd.data_offset as int, hd.data_offset + m.data.len()) == m.data
    &&& sorted_by_tile_id(se)
    &&& se.to_multiset() == m.entries.to_multiset()
    &&& (m.clustered ==> se == m.entries)
    &&& if leaf_seqs.len() == 0 {
        root_entries == se && hd.leaf_length == 0 && hd.leaf_offset == 0
    } else {
        &&& spec_concat_entry_seqs(leaf_seqs) == se
        &&& root_entries.len() == leaf_seqs.len()
        &&& hd.leaf_offset == hd.data_offset + m.data.len()
        &&& forall|k: int|
            0 <= k < root_entries.len() ==> {
                &&& (#[trigger] root_entries[k]).run_length == 0
                &&& leaf_seqs[k].len() > 0
                &&& root_entries[k].tile_id == leaf_seqs[k][0].tile_id
                &&& hd.leaf_offset + root_entries[k].offset + root_entries[k].length <= v.len()
                &&& crate::reader::spec_parse_leaf(
                    base.internal_compression,
                    v.subrange(
                        hd.leaf_offset + root_entries[k].offset,
                        hd.leaf_offset + root_entries[k].offset + root_entries[k].length,
                    ),
                ) == Ok::<_, PmtError>(leaf_seqs[k])
            }
    }
}

/// What a finalized archive guarantees, with the final header, root
/// entries, written entry sequence, and leaf entry sequences left
/// unnamed.
pub open spec fn spec_finalize_ok(v: Seq<u8>, base: Header, meta: Seq<u8>, m: WriterModel) -> bool {
    exists|hd: Header, root_entries: Seq<DirEntry>, se: Seq<DirEntry>, leaf_seqs: Seq<Seq<DirEntry>>|
        #[trigger] spec_writer_output_parts(v, base, meta, m, hd, root_entries, se, leaf_seqs)
}

impl PmTilesStreamWriter {
    /// Finish the archive: lay the regions out and return the complete
    /// file bytes.
    ///
    /// The first `MAX_INITIAL_BYTES` bytes parse back to the final header
    /// and the root directory; the metadata and tile-data regions hold
    /// exactly the recorded bytes; and the entries written — the added
    /// entries, ordered by tile id — stand in the root directly or are
    /// split across leaf directories that the root's leaf entries locate,
    /// as [`spec_writer_output_parts`] states.
    ///
    /// Success is owed whenever the archive is small: a clustered writer
    /// whose entries fit a single compressed root directory inside the
    /// initial-bytes budget, and whose regions fit `u64`, always
    /// finalizes. The only error is an index-entry overflow outside that
    /// case.
    #[verifier::rlimit(100)]
    #[verifier::spinoff_prover]
    pub fn finalize(self) -> (r: PmtResult<Vec<u8>>)
        requires
            self.wf(),
        ensures
            self.model().clustered && self.model().entries.len() < 16384 && spec_compress(
                self.spec_header().internal_compression,
                spec_serialize_directory(self.model().entries),
            ).len() <= MAX_ROOT_DIR_BYTES && MAX_INITIAL_BYTES + self.spec_metadata().len()
                + self.model().data.len() <= u64::MAX ==> r is Ok,
            match r {
                Ok(v) => spec_finalize_ok(
                    v@,
                    self.spec_header(),
                    self.spec_metadata(),
                    self.model(),
                ),
                Err(e) => e == PmtError::IndexEntryOverflow,
            },
    {
        let ghost m = self.model();
        let ghost base = self.header;
        let PmTilesStreamWriter {
            header,
            metadata,
            entries,
            n_addressed_tiles,
            n_tile_entries,
            tile_content_map,
            prev_tile_hash: _,
            data,
        } = self;
        let data_len_bound = data.len();
        let sorted = if header.clustered {
            entries
        } else {
            sort_entries(entries)
        };
        let ghost se = sorted@;
        proof {
            assert(m.data.len() == data_len_bound);
            lemma_entries_carry_bounds(se, m.entries, m.data.len() as int);
        }
        let (root, root_blob, leaf_blobs, gl) = optimize_directories(
            sorted,
            header.internal_compression,
        )?;
        proof {
            if gl@.len() > 0 {
                assert forall|k2: int|
                    0 <= k2 < root@.len() implies ((k2 == 0 ==> (#[trigger] root@[k2]).offset == 0)
                    && (k2 > 0 ==> root@[k2].offset == root@[k2 - 1].offset + root@[k2
                    - 1].length)) by {
                    assert(gl@[k2].len() > 0);
                    if k2 > 0 {
                        assert(gl@[k2 - 1].len() > 0);
                    }
                }
            }
        }
        let metadata_length = metadata.len() as u64;
        let data_length = data.len() as u64;
        let data_offset = match (MAX_INITIAL_BYTES as u64).checked_add(metadata_length) {
            Some(v) => v,
            None => {
                return Err(PmtError::IndexEntryOverflow);
            },
        };
        let after_data = match data_offset.checked_add(data_length) {
            Some(v) => v,
            None => {
                return Err(PmtError::IndexEntryOverflow);
            },
        };
        proof {
            if gl@.len() > 0 {
                assert forall|k2: int|
                    0 <= k2 < root@.len() implies ((k2 == 0 ==> (#[trigger] root@[k2]).offset == 0)
                    && (k2 > 0 ==> root@[k2].offset == root@[k2 - 1].offset + root@[k2
                    - 1].length)) by {
                    assert(gl@[k2].len() > 0);
                    if k2 > 0 {
                        assert(gl@[k2 - 1].len() > 0);
                    }
                }
            }
        }
        let leaf_length: u64 = leaf_region_length(&root, leaf_blobs.len())?;
        let leaf_offset: u64 = if leaf_blobs.len() == 0 {
            0
        } else {
            after_data
        };
        if leaf_length > u64::MAX - after_data {
            return Err(PmtError::IndexEntryOverflow);
        }
        let n_tile_contents = tile_content_map.len() as u64;
        let hd = Header {
            root_offset: HEADER_SIZE as u64,
            root_length: root_blob.len() as u64,
            metadata_offset: MAX_INITIAL_BYTES as u64,
            metadata_length,
            leaf_offset,
            leaf_length,
            data_offset,
            data_length,
            n_addressed_tiles,
            n_tile_entries,
            n_tile_contents,
            ..header
        };
        let ghost lroot: Seq<DirEntry> = if gl@.len() == 0 {
            Seq::<DirEntry>::empty()
        } else {
            root@
        };
        proof {
            if gl@.len() > 0 {
                assert forall|k: int|
                    0 <= k < lroot.len() implies (#[trigger] lroot[k]).length
                    == leaf_blobs@[k]@.len() && (k == 0 ==> lroot[k].offset == 0) && (k > 0
                    ==> lroot[k].offset == lroot[k - 1].offset + lroot[k - 1].length)
                    && lroot[k].offset + lroot[k].length <= u64::MAX by {
                    assert(gl@[k].len() > 0);
                    if k > 0 {
                        assert(gl@[k - 1].len() > 0);
                    }
                    lemma_gl_end_mono(root@, k + 1, root@.len() as int);
                }
                assert(gl_offset_end(lroot, lroot.len() as int) == leaf_length);
            }
        }
        let root_len_check = root.len();
        proof {
            assert(root@.len() == root_len_check);
        }
        let prefix_bytes = assemble_prefix(&hd, &root_blob, &metadata, &data);
        let ghost prefv = prefix_bytes@;
        let out = assemble_leaves(prefix_bytes, &leaf_blobs, Ghost(lroot));
        proof {
            lemma_finalize_tail(
                out@,
                prefv,
                base,
                metadata@,
                m,
                hd,
                root@,
                root_blob@,
                se,
                gl@,
                leaf_blobs@,
                lroot,
            );
            assert(spec_writer_output_parts(
                out@,
                self.spec_header(),
                self.spec_metadata(),
                self.model(),
                hd,
                root@,
                se,
                gl@,
            ));
            assert(spec_finalize_ok(
                out@,
                self.spec_header(),
                self.spec_metadata(),
                self.model(),
            ));
        }
        Ok(out)
    }
}

/// A window of a known prefix of `v` reads the same through `v`.
proof fn lemma_sub_of_concat_prefix(v: Seq<u8>, pre: Seq<u8>, a: int, b: int, x: Seq<u8>)
    requires
        pre.len() <= v.len(),
        v.subrange(0, pre.len() as int) == pre,
        0 <= a <= b <= pre.len(),
        pre.subrange(a, b) == x,
    ensures
        v.subrange(a, b) == x,
{
    assert(v.subrange(a, b) =~= x) by {
        assert forall|i: int| 0 <= i < b - a implies v.subrange(a, b)[i] == x[i] by {
            assert(v.subrange(0, pre.len() as int)[a + i] == pre[a + i]);
            assert(pre.subrange(a, b)[i] == x[i]);
        }
    }
}

/// A window of `s` holding `x + y` splits into a window holding `x` and a
/// window holding `y`.
proof fn lemma_split_concat(s: Seq<u8>, a: int, x: Seq<u8>, y: Seq<u8>)
    requires
        0 <= a,
        a + x.len() + y.len() <= s.len(),
        s.subrange(a, a + x.len() + y.len()) == x + y,
    ensures
        s.subrange(a, a + x.len()) == x,
        s.subrange(a + x.len(), a + x.len() + y.len()) == y,
{
    assert(s.subrange(a, a + x.len()) =~= x) by {
        assert forall|i: int| 0 <= i < x.len() implies s.subrange(a, a + x.len())[i] == x[i] by {
            assert(s.subrange(a, a + x.len() + y.len())[i] == (x + y)[i]);
        }
    }
    assert(s.subrange(a + x.len(), a + x.len() + y.len()) =~= y) by {
        assert forall|i: int|
            0 <= i < y.len() implies s.subrange(a + x.len(), a + x.len() + y.len())[i] == y[i] by {
            assert(s.subrange(a, a + x.len() + y.len())[x.len() + i] == (x + y)[x.len() + i]);
            assert((x + y)[x.len() + i] == y[i]);
            assert(s.subrange(a + x.len(), a + x.len() + y.len())[i] == s[a + x.len() + i]);
            assert(s.subrange(a, a + x.len() + y.len())[x.len() + i] == s[a + x.len() + i]);
        }
    }
}

/// A reordering of entries that point into the data region still points
/// into the data region, with room below `u64::MAX` for every offset.
proof fn lemma_entries_carry_bounds(se: Seq<DirEntry>, es: Seq<DirEntry>, data_len: int)
    requires
        se.to_multiset() == es.to_multiset(),
        0 <= data_len <= usize::MAX,
        forall|i: int|
            0 <= i < es.len() ==> (#[trigger] es[i]).offset + es[i].length <= data_len
                && es[i].length >= 1,
    ensures
        forall|i: int|
            0 <= i < se.len() ==> (#[trigger] se[i]).offset + se[i].length <= data_len
                && se[i].length >= 1 && se[i].offset < u64::MAX,
{
    broadcast use vstd::seq_lib::group_to_multiset_ensures;

    assert forall|i: int|
        0 <= i < se.len() implies (#[trigger] se[i]).offset + se[i].length <= data_len
        && se[i].length >= 1 && se[i].offset < u64::MAX by {
        assert(se.to_multiset().contains(se[i]));
        assert(es.to_multiset().count(se[i]) > 0);
        assert(es.contains(se[i]));
        let j = choose|j: int| 0 <= j < es.len() && es[j] == se[i];
        assert(es[j].offset + es[j].length <= data_len);
    }
}

/// Windows of `v` within a known prefix read the same from either.
proof fn lemma_window_agree(prefix: Seq<u8>, v: Seq<u8>, a: int, b: int)
    requires
        prefix.len() <= v.len(),
        prefix == v.subrange(0, prefix.len() as int),
        0 <= a <= b <= prefix.len(),
    ensures
        prefix.subrange(a, b) == v.subrange(a, b),
{
    assert(prefix.subrange(a, b) =~= v.subrange(a, b)) by {
        assert forall|i: int| 0 <= i < b - a implies #[trigger] prefix.subrange(a, b)[i]
            == v.subrange(a, b)[i] by {
            assert(prefix[a + i] == v.subrange(0, prefix.len() as int)[a + i]);
        }
    }
}

/// The cumulative leaf offsets never go backward.
proof fn lemma_gl_end_mono(root: Seq<DirEntry>, a: int, b: int)
    requires
        0 <= a <= b <= root.len(),
        forall|k: int|
            0 <= k < root.len() ==> ((k == 0 ==> (#[trigger] root[k]).offset == 0) && (k > 0
                ==> root[k].offset == root[k - 1].offset + root[k - 1].length)),
    ensures
        gl_offset_end(root, a) <= gl_offset_end(root, b),
    decreases b - a,
{
    if a < b {
        lemma_gl_end_mono(root, a + 1, b);
        if a > 0 {
            assert(root[a].offset == root[a - 1].offset + root[a - 1].length);
        }
    }
}


/// A 16384-byte prefix whose header names a root region holding a blob
/// that decompresses and parses to `root` bootstraps to that header and
/// those entries.
#[verifier::rlimit(100)]
#[verifier::spinoff_prover]
proof fn lemma_parse_initial_of_prefix(
    prefix: Seq<u8>,
    hd: Header,
    root: Seq<DirEntry>,
    root_blob: Seq<u8>,
    ic: Compression,
)
    requires
        prefix.len() == MAX_INITIAL_BYTES,
        crate::header::spec_parse_header(prefix) == Ok::<_, PmtError>(hd),
        hd.root_offset == HEADER_SIZE as u64,
        hd.root_length == root_blob.len() as u64,
        root_blob.len() <= MAX_ROOT_DIR_BYTES,
        hd.internal_compression == ic,
        spec_compression_supported(ic),
        prefix.subrange(127, 127 + root_blob.len() as int) == root_blob,
        spec_decompress(ic, root_blob) == Some(spec_serialize_directory(root)),
        sorted_by_tile_id(root) && spec_serializable(root),
        root.len() <= u64::MAX,
    ensures
        crate::reader::spec_parse_initial(prefix) == Ok::<_, PmtError>((hd, root)),
{
    crate::directory::lemma_directory_round_trip(root);
}

/// Lay out the regions before the leaves: the serialized header, the root
/// blob, zero padding up to the initial-bytes boundary, the metadata, and
/// the tile data.
#[verifier::loop_isolation(false)]
#[verifier::rlimit(100)]
#[verifier::spinoff_prover]
fn assemble_prefix(hd: &Header, root_blob: &Vec<u8>, metadata: &Vec<u8>, data: &Vec<u8>) -> (out:
    Vec<u8>)
    requires
        127 + root_blob@.len() <= MAX_INITIAL_BYTES,
    ensures
        out@.len() == MAX_INITIAL_BYTES + metadata@.len() + data@.len(),
        out@.subrange(0, 127 + root_blob@.len() as int) == crate::header::spec_serialize_header(
            *hd,
        ) + root_blob@,
        out@.subrange(MAX_INITIAL_BYTES as int, MAX_INITIAL_BYTES + metadata@.len()) == metadata@,
        out@.subrange(
            MAX_INITIAL_BYTES + metadata@.len(),
            MAX_INITIAL_BYTES + metadata@.len() + data@.len(),
        ) == data@,
{
    proof {
        crate::header::lemma_serialize_header_len(*hd);
    }
    let mut out: Vec<u8> = Vec::new();
    hd.write_to(&mut out);
    append_entry_bytes(&mut out, root_blob.as_slice());
    while out.len() < MAX_INITIAL_BYTES
        invariant
            out@.len() >= 127 + root_blob@.len(),
            out@.len() <= MAX_INITIAL_BYTES,
            out@.subrange(0, 127 + root_blob@.len() as int) == crate::header::spec_serialize_header(
                *hd,
            ) + root_blob@,
        decreases MAX_INITIAL_BYTES - out@.len(),
    {
        let ghost before = out@;
        out.push(0);
        proof {
            assert(out@.subrange(0, 127 + root_blob@.len() as int) =~= before.subrange(
                0,
                127 + root_blob@.len() as int,
            ));
        }
    }
    let ghost padded = out@;
    append_entry_bytes(&mut out, metadata.as_slice());
    append_entry_bytes(&mut out, data.as_slice());
    proof {
        let pre = out@;
        assert(pre.subrange(0, pre.len() as int) =~= pre);
        lemma_split_concat(pre, 0, padded + metadata@, data@);
        lemma_split_concat(pre, 0, padded, metadata@);
        lemma_sub_of_concat_prefix(
            pre,
            padded,
            0,
            127 + root_blob@.len() as int,
            crate::header::spec_serialize_header(*hd) + root_blob@,
        );
    }
    out
}

/// Append the leaf blobs after the prefix, each at its cumulative offset.
#[verifier::rlimit(100)]
#[verifier::spinoff_prover]
fn assemble_leaves(prefix: Vec<u8>, leaf_blobs: &Vec<Vec<u8>>, root: Ghost<Seq<DirEntry>>) -> (out:
    Vec<u8>)
    requires
        root@.len() == leaf_blobs@.len(),
        forall|k: int|
            0 <= k < root@.len() ==> (#[trigger] root@[k]).length == leaf_blobs@[k]@.len() && (k
                == 0 ==> root@[k].offset == 0) && (k > 0 ==> root@[k].offset == root@[k - 1].offset
                + root@[k - 1].length) && root@[k].offset + root@[k].length <= u64::MAX,
    ensures
        out@.len() == prefix@.len() + gl_offset_end(root@, root@.len() as int),
        out@.subrange(0, prefix@.len() as int) == prefix@,
        forall|j: int|
            0 <= j < root@.len() ==> out@.subrange(
                prefix@.len() + root@[j].offset,
                prefix@.len() + root@[j].offset + root@[j].length,
            ) == (#[trigger] leaf_blobs@[j])@,
{
    let ghost pre_leaves = prefix@;
    let mut out = prefix;
    proof {
        assert(out@.subrange(0, pre_leaves.len() as int) =~= pre_leaves);
    }
    let mut k: usize = 0;
    while k < leaf_blobs.len()
        invariant
            k <= leaf_blobs@.len(),
            root@.len() == leaf_blobs@.len(),
            forall|k2: int|
                0 <= k2 < root@.len() ==> (#[trigger] root@[k2]).length == leaf_blobs@[k2]@.len()
                    && (k2 == 0 ==> root@[k2].offset == 0) && (k2 > 0 ==> root@[k2].offset
                    == root@[k2 - 1].offset + root@[k2 - 1].length) && root@[k2].offset
                    + root@[k2].length <= u64::MAX,
            out@.subrange(0, pre_leaves.len() as int) == pre_leaves,
            out@.len() == pre_leaves.len() + gl_offset_end(root@, k as int),
            forall|j: int|
                0 <= j < k ==> out@.subrange(
                    pre_leaves.len() + root@[j].offset,
                    pre_leaves.len() + root@[j].offset + root@[j].length,
                ) == (#[trigger] leaf_blobs@[j])@,
        decreases leaf_blobs@.len() - k,
    {
        let ghost before = out@;
        let blob = leaf_at(&leaf_blobs, k);
        append_entry_bytes(&mut out, blob.as_slice());
        proof {
            assert(out@.subrange(0, pre_leaves.len() as int) =~= pre_leaves);
            assert(out@.subrange(before.len() as int, out@.len() as int) =~= leaf_blobs@[k as int]@);
            assert forall|j: int|
                0 <= j < k + 1 implies out@.subrange(
                    pre_leaves.len() + root@[j].offset,
                    pre_leaves.len() + root@[j].offset + root@[j].length,
                ) == (#[trigger] leaf_blobs@[j])@ by {
                if j < k {
                    lemma_gl_end_mono(root@, j + 1, k as int);
                    assert(out@.subrange(
                        pre_leaves.len() + root@[j].offset,
                        pre_leaves.len() + root@[j].offset + root@[j].length,
                    ) =~= before.subrange(
                        pre_leaves.len() + root@[j].offset,
                        pre_leaves.len() + root@[j].offset + root@[j].length,
                    ));
                } else {
                    assert(out@.subrange(
                        pre_leaves.len() + root@[j].offset,
                        pre_leaves.len() + root@[j].offset + root@[j].length,
                    ) =~= out@.subrange(before.len() as int, out@.len() as int));
                }
            }
        }
        k = k + 1;
    }
    out
}

/// The output's regions read back what was placed in them, and the
/// initial bytes bootstrap to the final header and root entries.
#[verifier::rlimit(100)]
#[verifier::spinoff_prover]
proof fn lemma_finalize_regions(
    v: Seq<u8>,
    hd: Header,
    root: Seq<DirEntry>,
    root_blob: Seq<u8>,
    meta: Seq<u8>,
    mdata: Seq<u8>,
    ic: Compression,
)
    requires
        MAX_INITIAL_BYTES + meta.len() + mdata.len() <= v.len(),
        v.subrange(0, 127 + root_blob.len() as int) == crate::header::spec_serialize_header(hd)
            + root_blob,
        v.subrange(MAX_INITIAL_BYTES as int, MAX_INITIAL_BYTES + meta.len()) == meta,
        v.subrange(MAX_INITIAL_BYTES + meta.len(), MAX_INITIAL_BYTES + meta.len() + mdata.len())
            == mdata,
        root_blob.len() <= MAX_ROOT_DIR_BYTES,
        spec_decompress(ic, root_blob) == Some(spec_serialize_directory(root)),
        sorted_by_tile_id(root) && spec_serializable(root),
        spec_compression_supported(ic),
        root.len() <= u64::MAX,
        hd.root_offset == HEADER_SIZE as u64,
        hd.root_length == root_blob.len() as u64,
        hd.internal_compression == ic,
    ensures
        crate::reader::spec_parse_initial(v.subrange(0, MAX_INITIAL_BYTES as int)) == Ok::<
            _,
            PmtError,
        >((hd, root)),
{
    let prefix = v.subrange(0, MAX_INITIAL_BYTES as int);
    let hb = crate::header::spec_serialize_header(hd);
    crate::header::lemma_header_round_trip(hd);
    crate::header::lemma_serialize_header_len(hd);
    lemma_split_concat(v, 0, hb, root_blob);
    lemma_window_agree(prefix, v, 0, 127);
    assert(hb.subrange(0, 127) =~= hb);
    crate::header::lemma_parse_header_prefix(prefix, hb);
    lemma_window_agree(prefix, v, 127, 127 + root_blob.len() as int);
    lemma_parse_initial_of_prefix(prefix, hd, root, root_blob, ic);
}


/// The finalize guarantee, concluded from the facts that assembly and
/// directory optimization establish.
#[verifier::rlimit(100)]
#[verifier::spinoff_prover]
proof fn lemma_finalize_tail(
    v: Seq<u8>,
    prefv: Seq<u8>,
    base: Header,
    meta: Seq<u8>,
    m: WriterModel,
    hd: Header,
    root: Seq<DirEntry>,
    root_blob: Seq<u8>,
    se: Seq<DirEntry>,
    gl: Seq<Seq<DirEntry>>,
    blobs: Seq<Vec<u8>>,
    lroot: Seq<DirEntry>,
)
    requires
        prefv.len() == MAX_INITIAL_BYTES + meta.len() + m.data.len(),
        prefv.subrange(0, 127 + root_blob.len() as int) == crate::header::spec_serialize_header(hd)
            + root_blob,
        prefv.subrange(MAX_INITIAL_BYTES as int, MAX_INITIAL_BYTES + meta.len()) == meta,
        prefv.subrange(MAX_INITIAL_BYTES + meta.len(), MAX_INITIAL_BYTES + meta.len()
            + m.data.len()) == m.data,
        v.len() == prefv.len() + gl_offset_end(lroot, lroot.len() as int),
        v.subrange(0, prefv.len() as int) == prefv,
        forall|j: int|
            0 <= j < lroot.len() ==> v.subrange(
                prefv.len() + lroot[j].offset,
                prefv.len() + lroot[j].offset + lroot[j].length,
            ) == (#[trigger] blobs[j])@,
        lroot == if gl.len() == 0 {
            Seq::<DirEntry>::empty()
        } else {
            root
        },
        sorted_by_tile_id(root) && spec_serializable(root),
        root_blob == spec_compress(base.internal_compression, spec_serialize_directory(root)),
        spec_decompress(base.internal_compression, root_blob) == Some(
            spec_serialize_directory(root),
        ),
        root_blob.len() <= MAX_ROOT_DIR_BYTES,
        spec_compression_supported(base.internal_compression),
        root.len() <= u64::MAX,
        blobs.len() == gl.len(),
        gl.len() == 0 ==> root == se,
        gl.len() > 0 ==> spec_concat_entry_seqs(gl) == se && root.len() == gl.len(),
        forall|k: int|
            0 <= k < gl.len() ==> {
                &&& (#[trigger] gl[k]).len() > 0
                &&& gl[k].len() <= u64::MAX
                &&& sorted_by_tile_id(gl[k]) && spec_serializable(gl[k])
                &&& blobs[k]@ == spec_compress(
                    base.internal_compression,
                    spec_serialize_directory(gl[k]),
                )
                &&& spec_decompress(base.internal_compression, blobs[k]@) == Some(
                    spec_serialize_directory(gl[k]),
                )
                &&& root[k].tile_id == gl[k][0].tile_id
                &&& root[k].run_length == 0
                &&& root[k].length == blobs[k]@.len()
                &&& (k == 0 ==> root[k].offset == 0)
                &&& (k > 0 ==> root[k].offset == root[k - 1].offset + root[k - 1].length)
            },
        sorted_by_tile_id(se),
        se.to_multiset() == m.entries.to_multiset(),
        m.clustered ==> se == m.entries,
        hd == (Header {
            root_offset: HEADER_SIZE as u64,
            root_length: root_blob.len() as u64,
            metadata_offset: MAX_INITIAL_BYTES as u64,
            metadata_length: meta.len() as u64,
            leaf_offset: if gl.len() == 0 {
                0u64
            } else {
                (MAX_INITIAL_BYTES + meta.len() + m.data.len()) as u64
            },
            leaf_length: gl_offset_end(lroot, lroot.len() as int) as u64,
            data_offset: (MAX_INITIAL_BYTES + meta.len()) as u64,
            data_length: m.data.len() as u64,
            n_addressed_tiles: m.n_addressed,
            n_tile_entries: m.n_entries,
            n_tile_contents: m.contents.dom().len() as u64,
            clustered: m.clustered,
            ..base
        }),
        gl_offset_end(lroot, lroot.len() as int) <= u64::MAX,
        MAX_INITIAL_BYTES + meta.len() + m.data.len() <= u64::MAX,
    ensures
        spec_writer_output_parts(v, base, meta, m, hd, root, se, gl),
{
    lemma_sub_of_concat_prefix(
        v,
        prefv,
        0,
        127 + root_blob.len() as int,
        crate::header::spec_serialize_header(hd) + root_blob,
    );
    lemma_sub_of_concat_prefix(
        v,
        prefv,
        MAX_INITIAL_BYTES as int,
        MAX_INITIAL_BYTES + meta.len(),
        meta,
    );
    lemma_sub_of_concat_prefix(
        v,
        prefv,
        MAX_INITIAL_BYTES + meta.len(),
        MAX_INITIAL_BYTES + meta.len() + m.data.len(),
        m.data,
    );
    lemma_finalize_regions(v, hd, root, root_blob, meta, m.data, base.internal_compression);
    assert(hd.data_offset == MAX_INITIAL_BYTES + meta.len());
    if gl.len() > 0 {
        assert(hd.leaf_offset == prefv.len());
        lemma_finalize_leaves(v, base, hd, root, gl, blobs, prefv.len() as int);
    }
    lemma_parts_assemble(v, base, meta, m, hd, root, se, gl);
    assert(spec_writer_output_parts(v, base, meta, m, hd, root, se, gl));
}

/// The finalize guarantee, assembled from its clauses.
#[verifier::rlimit(100)]
#[verifier::spinoff_prover]
proof fn lemma_parts_assemble(
    v: Seq<u8>,
    base: Header,
    meta: Seq<u8>,
    m: WriterModel,
    hd: Header,
    root: Seq<DirEntry>,
    se: Seq<DirEntry>,
    gl: Seq<Seq<DirEntry>>,
)
    requires
        crate::reader::spec_parse_initial(v.subrange(0, MAX_INITIAL_BYTES as int)) == Ok::<
            _,
            PmtError,
        >((hd, root)),
        v.len() == MAX_INITIAL_BYTES + meta.len() + m.data.len() + hd.leaf_length,
        hd == (Header {
            root_offset: HEADER_SIZE as u64,
            root_length: hd.root_length,
            metadata_offset: MAX_INITIAL_BYTES as u64,
            metadata_length: meta.len() as u64,
            leaf_offset: hd.leaf_offset,
            leaf_length: hd.leaf_length,
            data_offset: (MAX_INITIAL_BYTES + meta.len()) as u64,
            data_length: m.data.len() as u64,
            n_addressed_tiles: m.n_addressed,
            n_tile_entries: m.n_entries,
            n_tile_contents: m.contents.dom().len() as u64,
            clustered: m.clustered,
            ..base
        }),
        v.subrange(MAX_INITIAL_BYTES as int, MAX_INITIAL_BYTES + meta.len()) == meta,
        v.subrange(hd.data_offset as int, hd.data_offset + m.data.len()) == m.data,
        sorted_by_tile_id(se),
        se.to_multiset() == m.entries.to_multiset(),
        m.clustered ==> se == m.entries,
        gl.len() == 0 ==> root == se && hd.leaf_length == 0 && hd.leaf_offset == 0,
        gl.len() > 0 ==> {
            &&& spec_concat_entry_seqs(gl) == se
            &&& root.len() == gl.len()
            &&& hd.leaf_offset == hd.data_offset + m.data.len()
            &&& forall|k: int|
                0 <= k < root.len() ==> {
                    &&& (#[trigger] root[k]).run_length == 0
                    &&& gl[k].len() > 0
                    &&& root[k].tile_id == gl[k][0].tile_id
                    &&& hd.leaf_offset + root[k].offset + root[k].length <= v.len()
                    &&& crate::reader::spec_parse_leaf(
                        base.internal_compression,
                        v.subrange(
                            hd.leaf_offset + root[k].offset,
                            hd.leaf_offset + root[k].offset + root[k].length,
                        ),
                    ) == Ok::<_, PmtError>(gl[k])
                }
        },
    ensures
        spec_writer_output_parts(v, base, meta, m, hd, root, se, gl),
{
    reveal(spec_writer_output_parts);
}

/// Each leaf region of the output decompresses and parses back to its
/// chunk of entries, and lies within the output.
#[verifier::rlimit(100)]
proof fn lemma_finalize_leaves(
    v: Seq<u8>,
    base: Header,
    hd: Header,
    root: Seq<DirEntry>,
    gl: Seq<Seq<DirEntry>>,
    blobs: Seq<Vec<u8>>,
    pre_len: int,
)
    requires
        gl.len() > 0,
        root.len() == gl.len() && blobs.len() == gl.len(),
        spec_compression_supported(base.internal_compression),
        hd.leaf_offset == pre_len,
        0 <= pre_len,
        v.len() == pre_len + gl_offset_end(root, gl.len() as int),
        forall|j: int|
            0 <= j < gl.len() ==> v.subrange(
                pre_len + root[j].offset,
                pre_len + root[j].offset + root[j].length,
            ) == (#[trigger] blobs[j])@,
        forall|k: int|
            0 <= k < gl.len() ==> {
                &&& (#[trigger] gl[k]).len() > 0
                &&& gl[k].len() <= u64::MAX
                &&& sorted_by_tile_id(gl[k]) && spec_serializable(gl[k])
                &&& blobs[k]@ == spec_compress(
                    base.internal_compression,
                    spec_serialize_directory(gl[k]),
                )
                &&& spec_decompress(base.internal_compression, blobs[k]@) == Some(
                    spec_serialize_directory(gl[k]),
                )
                &&& root[k].tile_id == gl[k][0].tile_id
                &&& root[k].run_length == 0
                &&& root[k].length == blobs[k]@.len()
                &&& (k == 0 ==> root[k].offset == 0)
                &&& (k > 0 ==> root[k].offset == root[k - 1].offset + root[k - 1].length)
            },
    ensures
        forall|k: int|
            0 <= k < root.len() ==> {
                &&& (#[trigger] root[k]).run_length == 0
                &&& gl[k].len() > 0
                &&& root[k].tile_id == gl[k][0].tile_id
                &&& hd.leaf_offset + root[k].offset + root[k].length <= v.len()
                &&& crate::reader::spec_parse_leaf(
                    base.internal_compression,
                    v.subrange(
                        hd.leaf_offset + root[k].offset,
                        hd.leaf_offset + root[k].offset + root[k].length,
                    ),
                ) == Ok::<_, PmtError>(gl[k])
            },
{
    assert forall|k2: int|
        0 <= k2 < root.len() implies ((k2 == 0 ==> (#[trigger] root[k2]).offset == 0) && (k2 > 0
        ==> root[k2].offset == root[k2 - 1].offset + root[k2 - 1].length)) by {
        assert(gl[k2].len() > 0);
        if k2 > 0 {
            assert(gl[k2 - 1].len() > 0);
        }
    }
    assert forall|k: int| 0 <= k < root.len() implies {
        &&& (#[trigger] root[k]).run_length == 0
        &&& gl[k].len() > 0
        &&& root[k].tile_id == gl[k][0].tile_id
        &&& hd.leaf_offset + root[k].offset + root[k].length <= v.len()
        &&& crate::reader::spec_parse_leaf(
            base.internal_compression,
            v.subrange(
                hd.leaf_offset + root[k].offset,
                hd.leaf_offset + root[k].offset + root[k].length,
            ),
        ) == Ok::<_, PmtError>(gl[k])
    } by {
        assert(gl[k].len() > 0);
        lemma_gl_end_mono(root, k + 1, root.len() as int);
        assert(root[k].offset == gl_offset_end(root, k));
        assert(v.subrange(
            hd.leaf_offset + root[k].offset,
            hd.leaf_offset + root[k].offset + root[k].length,
        ) == blobs[k]@);
        crate::directory::lemma_directory_round_trip(gl[k]);
    }
}

/// The byte offset just past leaf `k - 1` among the leaf blobs: `0` for
/// `k == 0`, else the `k - 1`-th root entry's offset plus its length.
pub open spec fn gl_offset_end(root: Seq<DirEntry>, k: int) -> int {
    if k == 0 {
        0
    } else {
        root[k - 1].offset + root[k - 1].length
    }
}

/// The total byte length of the leaf region pointed at by the first
/// `n_blobs` root entries: the end of the last one, or an overflow error
/// if an entry's end leaves `u64`.
fn leaf_region_length(root: &Vec<DirEntry>, n_blobs: usize) -> (r: PmtResult<u64>)
    requires
        n_blobs <= root@.len(),
        spec_serializable(root@),
        n_blobs > 0 ==> forall|k2: int|
            0 <= k2 < root@.len() ==> ((k2 == 0 ==> (#[trigger] root@[k2]).offset == 0) && (k2 > 0
                ==> root@[k2].offset == root@[k2 - 1].offset + root@[k2 - 1].length)),
    ensures
        match r {
            Ok(v) => v == gl_offset_end(root@, n_blobs as int),
            Err(e) => e == PmtError::IndexEntryOverflow,
        },
        n_blobs == 0 ==> r == Ok::<u64, PmtError>(0u64),
{
    let mut leaf_length: u64 = 0;
    let mut k: usize = 0;
    while k < n_blobs
        invariant
            k <= n_blobs <= root@.len(),
            spec_serializable(root@),
            n_blobs > 0 ==> forall|k2: int|
                0 <= k2 < root@.len() ==> ((k2 == 0 ==> (#[trigger] root@[k2]).offset == 0) && (k2
                    > 0 ==> root@[k2].offset == root@[k2 - 1].offset + root@[k2 - 1].length)),
            k == 0 ==> leaf_length == 0,
            k > 0 ==> leaf_length == gl_offset_end(root@, k as int),
            leaf_length <= u64::MAX,
        decreases n_blobs - k,
    {
        proof {
            if k > 0 {
                assert(root@[k as int].offset == root@[k as int - 1].offset + root@[k as int
                    - 1].length);
            }
            assert(root@[k as int].offset < u64::MAX);
        }
        let e = root_at(root, k);
        match e.offset.checked_add(e.length as u64) {
            Some(end) => {
                leaf_length = end;
            },
            None => {
                return Err(PmtError::IndexEntryOverflow);
            },
        }
        k = k + 1;
    }
    Ok(leaf_length)
}

/// Entry `k` of the root, by value.
fn root_at(root: &Vec<DirEntry>, k: usize) -> (r: DirEntry)
    requires
        k < root@.len(),
    ensures
        r == root@[k as int],
{
    root[k]
}

/// Blob `k` of the leaf blobs, by reference.
fn leaf_at(blobs: &Vec<Vec<u8>>, k: usize) -> (r: &Vec<u8>)
    requires
        k < blobs@.len(),
    ensures
        r == blobs@[k as int],
{
    &blobs[k]
}

} // verus!
