//! Directories: the sorted index from tile id to byte range.
//!
//! A directory is an ordered list of entries. A tile entry
//! (`run_length > 0`) covers the `run_length` consecutive tile ids starting
//! at `tile_id`, all sharing one payload at `(offset, length)` within the
//! tile-data region. A leaf entry (`run_length == 0`) delegates the ids from
//! `tile_id` up to the next entry to a leaf directory at `(offset, length)`
//! within the leaf region.
//!
//! On the wire a directory is a varint entry count followed by four varint
//! arrays: tile-id deltas, run lengths, lengths, and offsets, where a stored
//! offset of `0` means "contiguous with the previous entry" and any other
//! stored value is the offset plus one.

use vstd::prelude::*;

use crate::error::{PmtError, PmtResult};
use crate::tile::{MAX_TILE_ID, TileId};
use crate::varint::{
    lemma_varint_round_trip, read_varint, spec_parse_varint, spec_varint, write_varint,
};

verus! {

/// One directory entry.
#[derive(Debug, Clone, Copy, PartialEq, Eq, Default, Structural)]
pub struct DirEntry {
    /// First tile id covered by this entry.
    pub tile_id: u64,
    /// Byte offset of the payload: within the tile-data region for tile
    /// entries, within the leaf region for leaf entries.
    pub offset: u64,
    /// Byte length of the payload.
    pub length: u32,
    /// Number of consecutive tile ids sharing the payload; `0` marks a leaf
    /// entry.
    pub run_length: u32,
}

impl DirEntry {
    /// A leaf entry points at a leaf directory rather than at tile data.
    pub open spec fn spec_is_leaf(self) -> bool {
        self.run_length == 0
    }

    /// Whether this entry points at a leaf directory.
    pub fn is_leaf(&self) -> (r: bool)
        ensures
            r == self.spec_is_leaf(),
    {
        self.run_length == 0
    }

    /// Walk the tile ids this entry covers, from `tile_id` up.
    pub fn iter_coords(&self) -> (it: DirEntryCoordsIter)
        ensures
            it.tile_id == self.tile_id,
            it.run_length == self.run_length,
            it.current == 0,
    {
        DirEntryCoordsIter { tile_id: self.tile_id, run_length: self.run_length, current: 0 }
    }
}

/// A cursor over the tile ids covered by one tile entry.
#[derive(Debug, Clone, Copy)]
pub struct DirEntryCoordsIter {
    /// First tile id of the run.
    pub tile_id: u64,
    /// Number of ids in the run.
    pub run_length: u32,
    /// Ids already handed out.
    pub current: u32,
}

impl DirEntryCoordsIter {
    /// The next tile id of the run, or `None` once the run is exhausted or
    /// the next id would lie beyond `MAX_TILE_ID`.
    pub fn next(&mut self) -> (r: Option<TileId>)
        ensures
            match r {
                Some(t) => old(self).current < old(self).run_length && t.spec_value()
                    == old(self).tile_id + old(self).current && *final(self) == DirEntryCoordsIter {
                    current: (old(self).current + 1) as u32,
                    ..*old(self)
                },
                None => (old(self).current >= old(self).run_length || old(self).tile_id + old(
                    self,
                ).current > MAX_TILE_ID) && *final(self) == *old(self),
            },
    {
        if self.current < self.run_length {
            if let Some(id) = self.tile_id.checked_add(self.current as u64) {
                if let Some(t) = TileId::new(id) {
                    self.current = self.current + 1;
                    return Some(t);
                }
            }
            None
        } else {
            None
        }
    }
}

/// Entries ordered by tile id.
pub open spec fn sorted_by_tile_id(entries: Seq<DirEntry>) -> bool {
    forall|i: int, j: int|
        0 <= i < j < entries.len() ==> entries[i].tile_id <= entries[j].tile_id
}

/// Whether `e` covers the query id `q`: `q` is at or past the entry's first
/// id, and the entry is a leaf (whose range is open-ended here) or `q` falls
/// within the entry's run.
pub open spec fn entry_covers(e: DirEntry, q: u64) -> bool {
    e.tile_id <= q && (e.spec_is_leaf() || q - e.tile_id < e.run_length)
}

/// Whether `i` is the index of the predecessor of `q`: the last entry whose
/// tile id is at or before `q`.
pub open spec fn is_predecessor_index(entries: Seq<DirEntry>, q: u64, i: int) -> bool {
    0 <= i < entries.len() && entries[i].tile_id <= q && (i == entries.len() - 1 || entries[i
        + 1].tile_id > q)
}

/// What looking up `q` yields: the predecessor entry if it covers `q`,
/// nothing otherwise.
pub open spec fn spec_find_tile_id(entries: Seq<DirEntry>, q: u64) -> Option<DirEntry> {
    if exists|i: int| is_predecessor_index(entries, q, i) {
        let i = choose|i: int| is_predecessor_index(entries, q, i);
        if entry_covers(entries[i], q) {
            Some(entries[i])
        } else {
            None
        }
    } else {
        None
    }
}

/// In a sorted directory the predecessor index is unique.
proof fn lemma_predecessor_unique(entries: Seq<DirEntry>, q: u64, i: int, j: int)
    requires
        sorted_by_tile_id(entries),
        is_predecessor_index(entries, q, i),
        is_predecessor_index(entries, q, j),
    ensures
        i == j,
{
    if i < j {
        assert(entries[i + 1].tile_id <= entries[j].tile_id);
    }
    if j < i {
        assert(entries[j + 1].tile_id <= entries[i].tile_id);
    }
}

/// An ordered sequence of directory entries.
#[derive(Debug, Clone, Default)]
pub struct Directory {
    /// The entries, sorted by tile id.
    pub entries: Vec<DirEntry>,
}

impl Directory {
    /// An empty directory with room for `capacity` entries.
    pub fn with_capacity(capacity: usize) -> (r: Directory)
        ensures
            r.entries@.len() == 0,
    {
        Directory { entries: Vec::with_capacity(capacity) }
    }

    /// A directory over the given entries.
    pub fn from_entries(entries: Vec<DirEntry>) -> (r: Directory)
        ensures
            r.entries == entries,
    {
        Directory { entries }
    }

    /// Append an entry.
    pub fn push(&mut self, entry: DirEntry)
        ensures
            final(self).entries@ == old(self).entries@.push(entry),
    {
        self.entries.push(entry);
    }

    /// An estimate of this directory's memory footprint, for cache
    /// eviction: 24 bytes per entry.
    pub fn get_approx_byte_size(&self) -> (r: usize)
        ensures
            if 24 * self.entries@.len() <= usize::MAX {
                r == 24 * self.entries@.len()
            } else {
                r == usize::MAX
            },
    {
        match self.entries.len().checked_mul(24) {
            Some(v) => v,
            None => usize::MAX,
        }
    }

    /// Find the entry covering `tile_id`, if any.
    ///
    /// This is the lookup rule of the format: the entry returned, if any,
    /// is the last one whose first id is at or before the query, and it is
    /// returned exactly when it is a leaf or the query falls within its
    /// run.
    pub fn find_tile_id(&self, tile_id: TileId) -> (r: Option<DirEntry>)
        requires
            sorted_by_tile_id(self.entries@),
        ensures
            r == spec_find_tile_id(self.entries@, tile_id.spec_value()),
    {
        let q = tile_id.value();
        let ghost entries = self.entries@;
        let n = self.entries.len();
        let mut lo: usize = 0;
        let mut hi: usize = n;
        while lo < hi
            invariant
                lo <= hi <= n,
                n == entries.len(),
                self.entries@ == entries,
                sorted_by_tile_id(entries),
                forall|k: int| 0 <= k < lo ==> entries[k].tile_id <= q,
                forall|k: int| hi <= k < n ==> entries[k].tile_id > q,
            decreases hi - lo,
        {
            let mid = lo + (hi - lo) / 2;
            if self.entries[mid].tile_id <= q {
                lo = mid + 1;
            } else {
                hi = mid;
            }
        }
        proof {
            assert(forall|k: int| 0 <= k < lo ==> entries[k].tile_id <= q);
            assert(forall|k: int| lo <= k < n ==> entries[k].tile_id > q);
        }
        if lo == 0 {
            proof {
                if exists|i: int| is_predecessor_index(entries, q, i) {
                    let i = choose|i: int| is_predecessor_index(entries, q, i);
                    assert(entries[i].tile_id > q);
                }
            }
            return None;
        }
        let i = lo - 1;
        let e = self.entries[i];
        proof {
            assert(is_predecessor_index(entries, q, i as int));
            let c = choose|j: int| is_predecessor_index(entries, q, j);
            lemma_predecessor_unique(entries, q, i as int, c);
        }
        if e.run_length == 0 || (q - e.tile_id) < (e.run_length as u64) {
            Some(e)
        } else {
            None
        }
    }
}

/// Parse `n` consecutive varints starting at `pos`.
pub open spec fn spec_parse_varints(s: Seq<u8>, pos: int, n: nat) -> Option<(Seq<u64>, int)>
    decreases n,
{
    if n == 0 {
        Some((Seq::<u64>::empty(), pos))
    } else {
        match spec_parse_varint(s, pos) {
            None => None,
            Some((v, p)) => match spec_parse_varints(s, p, (n - 1) as nat) {
                None => None,
                Some((vs, end)) => Some((seq![v] + vs, end)),
            },
        }
    }
}

/// The tile id of entry `i`: the running sum of the deltas through `i`.
pub open spec fn spec_tile_id_at(deltas: Seq<u64>, i: int) -> int
    decreases i,
{
    if i <= 0 {
        deltas[0] as int
    } else {
        spec_tile_id_at(deltas, i - 1) + deltas[i]
    }
}

/// The decoded offset of entry `i`: a stored `0` continues the previous
/// entry (offset plus length), any other stored value is the offset plus
/// one. A stored `0` on the first entry has no previous entry to continue.
pub open spec fn spec_offset_at(offs: Seq<u64>, lens: Seq<u64>, i: int) -> Option<int>
    decreases i,
{
    if i < 0 || i >= offs.len() {
        None
    } else if offs[i] != 0 {
        Some(offs[i] - 1)
    } else if i == 0 {
        None
    } else {
        match spec_offset_at(offs, lens, i - 1) {
            None => None,
            Some(p) => Some(p + lens[i - 1]),
        }
    }
}

/// Whether entry `i` of the parsed arrays fits its machine types: tile id
/// and decoded offset within `u64`, run length and length within `u32`.
pub open spec fn spec_entry_fits(
    deltas: Seq<u64>,
    rls: Seq<u64>,
    lens: Seq<u64>,
    offs: Seq<u64>,
    i: int,
) -> bool {
    spec_tile_id_at(deltas, i) <= u64::MAX && rls[i] <= u32::MAX && lens[i] <= u32::MAX
        && spec_offset_at(offs, lens, i) is Some && spec_offset_at(offs, lens, i)->Some_0
        <= u64::MAX
}

/// Whether the first `n` entries of the parsed arrays all fit.
pub open spec fn spec_arrays_valid_upto(
    deltas: Seq<u64>,
    rls: Seq<u64>,
    lens: Seq<u64>,
    offs: Seq<u64>,
    n: int,
) -> bool {
    forall|i: int| 0 <= i < n ==> #[trigger] spec_entry_fits(deltas, rls, lens, offs, i)
}

/// Whether the four parsed arrays describe entries whose fields all fit
/// their machine types: tile ids and decoded offsets within `u64`, run
/// lengths and lengths within `u32`, and no first-entry continuation.
pub open spec fn spec_arrays_valid(
    deltas: Seq<u64>,
    rls: Seq<u64>,
    lens: Seq<u64>,
    offs: Seq<u64>,
) -> bool {
    spec_arrays_valid_upto(deltas, rls, lens, offs, deltas.len() as int)
}

/// The entries described by the four parsed arrays.
pub open spec fn spec_assemble_entries(
    deltas: Seq<u64>,
    rls: Seq<u64>,
    lens: Seq<u64>,
    offs: Seq<u64>,
) -> Seq<DirEntry> {
    Seq::new(
        deltas.len(),
        |i: int|
            DirEntry {
                tile_id: spec_tile_id_at(deltas, i) as u64,
                offset: spec_offset_at(offs, lens, i)->Some_0 as u64,
                length: lens[i] as u32,
                run_length: rls[i] as u32,
            },
    )
}

/// What parsing a directory byte stream yields: a varint entry count, then
/// the four varint arrays, then the assembly of the entries. Bytes after
/// the fourth array are ignored. Truncated varints and out-of-range values
/// yield nothing.
pub open spec fn spec_parse_directory(s: Seq<u8>) -> Option<Seq<DirEntry>> {
    match spec_parse_varint(s, 0) {
        None => None,
        Some((n, p1)) => match spec_parse_varints(s, p1, n as nat) {
            None => None,
            Some((deltas, p2)) => match spec_parse_varints(s, p2, n as nat) {
                None => None,
                Some((rls, p3)) => match spec_parse_varints(s, p3, n as nat) {
                    None => None,
                    Some((lens, p4)) => match spec_parse_varints(s, p4, n as nat) {
                        None => None,
                        Some((offs, _)) => if spec_arrays_valid(deltas, rls, lens, offs) {
                            Some(spec_assemble_entries(deltas, rls, lens, offs))
                        } else {
                            None
                        },
                    },
                },
            },
        },
    }
}

/// A running sum of unsigned deltas never goes negative.
proof fn lemma_tile_id_at_nonneg(deltas: Seq<u64>, i: int)
    requires
        0 <= i < deltas.len(),
    ensures
        spec_tile_id_at(deltas, i) >= 0,
    decreases i,
{
    if i > 0 {
        lemma_tile_id_at_nonneg(deltas, i - 1);
    }
}

/// A decoded offset never goes negative.
proof fn lemma_offset_at_nonneg(offs: Seq<u64>, lens: Seq<u64>, i: int)
    requires
        spec_offset_at(offs, lens, i) is Some,
    ensures
        spec_offset_at(offs, lens, i)->Some_0 >= 0,
    decreases i,
{
    if 0 <= i < offs.len() && offs[i] == 0 && i > 0 {
        lemma_offset_at_nonneg(offs, lens, i - 1);
    }
}

/// Read `n` consecutive varints starting at `pos`.
fn read_varint_array(s: &[u8], pos: usize, n: u64) -> (r: PmtResult<(Vec<u64>, usize)>)
    requires
        pos <= s@.len(),
    ensures
        match r {
            Ok((vs, next)) => spec_parse_varints(s@, pos as int, n as nat) == Some(
                (vs@, next as int),
            ) && vs@.len() == n && next <= s@.len(),
            Err(e) => spec_parse_varints(s@, pos as int, n as nat) is None && e
                == PmtError::InvalidEntry,
        },
{
    let mut values: Vec<u64> = Vec::new();
    let mut cur = pos;
    let mut i: u64 = 0;
    proof {
        let sp = spec_parse_varints(s@, pos as int, n as nat);
        if sp is Some {
            assert(values@ + sp->Some_0.0 =~= sp->Some_0.0);
        }
    }
    while i < n
        invariant
            i <= n,
            values@.len() == i,
            cur <= s@.len(),
            spec_parse_varints(s@, pos as int, n as nat) == (match spec_parse_varints(
                s@,
                cur as int,
                (n - i) as nat,
            ) {
                None => None::<(Seq<u64>, int)>,
                Some((vs, end)) => Some((values@ + vs, end)),
            }),
        decreases n - i,
    {
        match read_varint(s, cur) {
            Err(_) => {
                return Err(PmtError::InvalidEntry);
            },
            Ok((v, next)) => {
                proof {
                    let sp = spec_parse_varints(s@, next as int, (n - i - 1) as nat);
                    if sp is Some {
                        let vs2 = sp->Some_0.0;
                        assert(values@.push(v) + vs2 =~= values@ + (seq![v] + vs2));
                    }
                }
                values.push(v);
                cur = next;
                i = i + 1;
            },
        }
    }
    proof {
        assert(values@ + Seq::<u64>::empty() =~= values@);
    }
    Ok((values, cur))
}

impl Directory {
    /// Parse a directory from its byte stream.
    ///
    /// A parsed directory is always ordered by tile id, because the stored
    /// deltas cannot be negative. Truncated bytes, a field out of range, an
    /// overflowing running sum, and a continuation offset on the first
    /// entry all fail with `InvalidEntry`.
    #[verifier::loop_isolation(false)]
    pub fn try_from_bytes(bytes: &[u8]) -> (r: PmtResult<Directory>)
        ensures
            match r {
                Ok(d) => spec_parse_directory(bytes@) == Some(d.entries@) && sorted_by_tile_id(
                    d.entries@,
                ),
                Err(e) => spec_parse_directory(bytes@) is None && e == PmtError::InvalidEntry,
            },
    {
        let (n, pos1) = match read_varint(bytes, 0) {
            Ok(v) => v,
            Err(e) => {
                return Err(e);
            },
        };
        let (deltas, pos2) = read_varint_array(bytes, pos1, n)?;
        let (rls, pos3) = read_varint_array(bytes, pos2, n)?;
        let (lens, pos4) = read_varint_array(bytes, pos3, n)?;
        let (offs, _pos5) = read_varint_array(bytes, pos4, n)?;
        let len = deltas.len();
        let mut entries: Vec<DirEntry> = Vec::with_capacity(len);
        let mut i: usize = 0;
        while i < len
            invariant
                i <= len,
                len == deltas@.len(),
                rls@.len() == len && lens@.len() == len && offs@.len() == len,
                entries@.len() == i,
                spec_arrays_valid_upto(deltas@, rls@, lens@, offs@, i as int),
                forall|j: int|
                    0 <= j < i ==> #[trigger] entries@[j] == (DirEntry {
                        tile_id: spec_tile_id_at(deltas@, j) as u64,
                        offset: spec_offset_at(offs@, lens@, j)->Some_0 as u64,
                        length: lens@[j] as u32,
                        run_length: rls@[j] as u32,
                    }),
                sorted_by_tile_id(entries@),
            decreases len - i,
        {
            let tid: u64 = if i == 0 {
                deltas[0]
            } else {
                let prev = entries[i - 1].tile_id;
                if deltas[i] > u64::MAX - prev {
                    proof {
                        if spec_arrays_valid(deltas@, rls@, lens@, offs@) {
                            lemma_tile_id_at_nonneg(deltas@, i as int - 1);
                            assert(spec_entry_fits(deltas@, rls@, lens@, offs@, i as int));
                            assert(spec_entry_fits(deltas@, rls@, lens@, offs@, i as int - 1));
                        }
                    }
                    return Err(PmtError::InvalidEntry);
                }
                prev + deltas[i]
            };
            let rl = rls[i];
            if rl > 0xffff_ffff {
                proof {
                    if spec_arrays_valid(deltas@, rls@, lens@, offs@) {
                        assert(spec_entry_fits(deltas@, rls@, lens@, offs@, i as int));
                    }
                }
                return Err(PmtError::InvalidEntry);
            }
            let ln = lens[i];
            if ln > 0xffff_ffff {
                proof {
                    if spec_arrays_valid(deltas@, rls@, lens@, offs@) {
                        assert(spec_entry_fits(deltas@, rls@, lens@, offs@, i as int));
                    }
                }
                return Err(PmtError::InvalidEntry);
            }
            let off_enc = offs[i];
            let offset: u64 = if off_enc != 0 {
                off_enc - 1
            } else {
                if i == 0 {
                    proof {
                        if spec_arrays_valid(deltas@, rls@, lens@, offs@) {
                            assert(spec_entry_fits(deltas@, rls@, lens@, offs@, i as int));
                        }
                    }
                    return Err(PmtError::InvalidEntry);
                }
                let prev = entries[i - 1];
                if (prev.length as u64) > u64::MAX - prev.offset {
                    proof {
                        if spec_arrays_valid(deltas@, rls@, lens@, offs@) {
                            assert(spec_entry_fits(deltas@, rls@, lens@, offs@, i as int));
                            assert(spec_entry_fits(deltas@, rls@, lens@, offs@, i as int - 1));
                            lemma_offset_at_nonneg(offs@, lens@, i as int - 1);
                        }
                    }
                    return Err(PmtError::InvalidEntry);
                }
                proof {
                    assert(spec_entry_fits(deltas@, rls@, lens@, offs@, i as int - 1));
                    lemma_offset_at_nonneg(offs@, lens@, i as int - 1);
                }
                prev.offset + (prev.length as u64)
            };
            let entry = DirEntry { tile_id: tid, offset, length: ln as u32, run_length: rl as u32 };
            proof {
                if i > 0 {
                    lemma_tile_id_at_nonneg(deltas@, i as int - 1);
                    assert(spec_entry_fits(deltas@, rls@, lens@, offs@, i as int - 1));
                }
                assert(spec_tile_id_at(deltas@, i as int) == tid);
                assert(spec_offset_at(offs@, lens@, i as int) == Some(offset as int));
                assert(spec_entry_fits(deltas@, rls@, lens@, offs@, i as int));
                assert forall|j: int| 0 <= j < i + 1 implies #[trigger] spec_entry_fits(
                    deltas@,
                    rls@,
                    lens@,
                    offs@,
                    j,
                ) by {
                    if j < i {
                        assert(spec_entry_fits(deltas@, rls@, lens@, offs@, j));
                    }
                }
                assert(spec_arrays_valid_upto(deltas@, rls@, lens@, offs@, i as int + 1));
                assert forall|j: int, k: int|
                    0 <= j < k < entries@.push(entry).len() implies entries@.push(entry)[j].tile_id
                    <= entries@.push(entry)[k].tile_id by {
                    if k < i {
                        assert(entries@[j].tile_id <= entries@[k].tile_id);
                    } else if j < i {
                        assert(entries@[j].tile_id <= entries@[(i - 1) as int].tile_id);
                    }
                }
            }
            entries.push(entry);
            i = i + 1;
        }
        proof {
            assert(spec_arrays_valid(deltas@, rls@, lens@, offs@));
            assert(entries@ =~= spec_assemble_entries(deltas@, rls@, lens@, offs@));
        }
        Ok(Directory { entries })
    }
}

/// Entries that the directory codec can write: ordered by tile id, with
/// every offset leaving room for the reserved sentinel (`offset + 1` must
/// fit a `u64`).
pub open spec fn spec_serializable(entries: Seq<DirEntry>) -> bool {
    sorted_by_tile_id(entries) && forall|i: int|
        0 <= i < entries.len() ==> #[trigger] entries[i].offset < u64::MAX
}

/// The stored tile-id deltas of the entries.
pub open spec fn spec_deltas(entries: Seq<DirEntry>) -> Seq<u64> {
    Seq::new(
        entries.len(),
        |i: int|
            if i == 0 {
                entries[0].tile_id
            } else {
                (entries[i].tile_id - entries[i - 1].tile_id) as u64
            },
    )
}

/// The stored run lengths of the entries.
pub open spec fn spec_run_lengths(entries: Seq<DirEntry>) -> Seq<u64> {
    Seq::new(entries.len(), |i: int| entries[i].run_length as u64)
}

/// The stored lengths of the entries.
pub open spec fn spec_lengths(entries: Seq<DirEntry>) -> Seq<u64> {
    Seq::new(entries.len(), |i: int| entries[i].length as u64)
}

/// The stored offsets of the entries: `0` when contiguous with the
/// previous entry, the offset plus one otherwise.
pub open spec fn spec_offsets_encoded(entries: Seq<DirEntry>) -> Seq<u64> {
    Seq::new(
        entries.len(),
        |i: int|
            if i > 0 && entries[i].offset == entries[i - 1].offset + entries[i - 1].length {
                0u64
            } else {
                (entries[i].offset + 1) as u64
            },
    )
}

/// The concatenated encodings of a sequence of values.
pub open spec fn spec_varints(vs: Seq<u64>) -> Seq<u8>
    decreases vs.len(),
{
    if vs.len() == 0 {
        Seq::<u8>::empty()
    } else {
        spec_varint(vs[0]) + spec_varints(vs.drop_first())
    }
}

/// Appending one value appends its encoding.
proof fn lemma_spec_varints_push(vs: Seq<u64>, v: u64)
    ensures
        spec_varints(vs.push(v)) == spec_varints(vs) + spec_varint(v),
    decreases vs.len(),
{
    if vs.len() == 0 {
        assert(vs.push(v)[0] == v);
        assert(vs.push(v).drop_first() =~= Seq::<u64>::empty());
        assert(spec_varints(vs.push(v)) == spec_varint(v) + spec_varints(Seq::<u64>::empty()));
        assert(spec_varints(vs.push(v)) =~= spec_varints(vs) + spec_varint(v));
    } else {
        assert(vs.push(v).drop_first() =~= vs.drop_first().push(v));
        lemma_spec_varints_push(vs.drop_first(), v);
        assert(vs.push(v)[0] == vs[0]);
        assert(spec_varints(vs.push(v)) == spec_varint(vs[0]) + spec_varints(
            vs.drop_first().push(v),
        ));
        assert(spec_varint(vs[0]) + (spec_varints(vs.drop_first()) + spec_varint(v)) =~= (
        spec_varint(vs[0]) + spec_varints(vs.drop_first())) + spec_varint(v));
    }
}

/// The exact bytes of a directory: the entry count, then the four arrays.
#[verifier::opaque]
pub open spec fn spec_serialize_directory(entries: Seq<DirEntry>) -> Seq<u8> {
    spec_varint(entries.len() as u64) + spec_varints(spec_deltas(entries)) + spec_varints(
        spec_run_lengths(entries),
    ) + spec_varints(spec_lengths(entries)) + spec_varints(spec_offsets_encoded(entries))
}

impl Directory {
    /// Append the exact byte encoding of this directory.
    #[verifier::loop_isolation(false)]
    pub fn write_to(&self, out: &mut Vec<u8>)
        requires
            spec_serializable(self.entries@),
        ensures
            final(out)@ == old(out)@ + spec_serialize_directory(self.entries@),
    {
        let ghost entries = self.entries@;
        let n = self.entries.len();
        write_varint(out, n as u64);
        let ghost mark0 = out@;
        let mut i: usize = 0;
        while i < n
            invariant
                i <= n,
                out@ == mark0 + spec_varints(spec_deltas(entries).subrange(0, i as int)),
            decreases n - i,
        {
            let d: u64 = if i == 0 {
                self.entries[0].tile_id
            } else {
                self.entries[i].tile_id - self.entries[i - 1].tile_id
            };
            proof {
                assert(spec_deltas(entries)[i as int] == d);
                assert(spec_deltas(entries).subrange(0, i as int + 1) =~= spec_deltas(
                    entries,
                ).subrange(0, i as int).push(d));
                lemma_spec_varints_push(spec_deltas(entries).subrange(0, i as int), d);
            }
            write_varint(out, d);
            proof {
                assert(out@ =~= mark0 + spec_varints(
                    spec_deltas(entries).subrange(0, i as int + 1),
                ));
            }
            i = i + 1;
        }
        proof {
            assert(spec_deltas(entries).subrange(0, n as int) =~= spec_deltas(entries));
        }
        let ghost mark1 = out@;
        let mut i: usize = 0;
        while i < n
            invariant
                i <= n,
                out@ == mark1 + spec_varints(spec_run_lengths(entries).subrange(0, i as int)),
            decreases n - i,
        {
            let v = self.entries[i].run_length as u64;
            proof {
                assert(spec_run_lengths(entries)[i as int] == v);
                assert(spec_run_lengths(entries).subrange(0, i as int + 1) =~= spec_run_lengths(
                    entries,
                ).subrange(0, i as int).push(v));
                lemma_spec_varints_push(spec_run_lengths(entries).subrange(0, i as int), v);
            }
            write_varint(out, v);
            proof {
                assert(out@ =~= mark1 + spec_varints(
                    spec_run_lengths(entries).subrange(0, i as int + 1),
                ));
            }
            i = i + 1;
        }
        proof {
            assert(spec_run_lengths(entries).subrange(0, n as int) =~= spec_run_lengths(entries));
        }
        let ghost mark2 = out@;
        let mut i: usize = 0;
        while i < n
            invariant
                i <= n,
                out@ == mark2 + spec_varints(spec_lengths(entries).subrange(0, i as int)),
            decreases n - i,
        {
            let v = self.entries[i].length as u64;
            proof {
                assert(spec_lengths(entries)[i as int] == v);
                assert(spec_lengths(entries).subrange(0, i as int + 1) =~= spec_lengths(
                    entries,
                ).subrange(0, i as int).push(v));
                lemma_spec_varints_push(spec_lengths(entries).subrange(0, i as int), v);
            }
            write_varint(out, v);
            proof {
                assert(out@ =~= mark2 + spec_varints(
                    spec_lengths(entries).subrange(0, i as int + 1),
                ));
            }
            i = i + 1;
        }
        proof {
            assert(spec_lengths(entries).subrange(0, n as int) =~= spec_lengths(entries));
        }
        let ghost mark3 = out@;
        let mut i: usize = 0;
        while i < n
            invariant
                i <= n,
                out@ == mark3 + spec_varints(spec_offsets_encoded(entries).subrange(0, i as int)),
            decreases n - i,
        {
            let e = self.entries[i];
            let contiguous: bool = if i == 0 {
                false
            } else {
                let prev = self.entries[i - 1];
                match prev.offset.checked_add(prev.length as u64) {
                    Some(sum) => e.offset == sum,
                    None => false,
                }
            };
            let v: u64 = if contiguous {
                0
            } else {
                e.offset + 1
            };
            proof {
                assert(spec_offsets_encoded(entries)[i as int] == v);
                assert(spec_offsets_encoded(entries).subrange(0, i as int + 1)
                    =~= spec_offsets_encoded(entries).subrange(0, i as int).push(v));
                lemma_spec_varints_push(spec_offsets_encoded(entries).subrange(0, i as int), v);
            }
            write_varint(out, v);
            proof {
                assert(out@ =~= mark3 + spec_varints(
                    spec_offsets_encoded(entries).subrange(0, i as int + 1),
                ));
            }
            i = i + 1;
        }
        proof {
            reveal(spec_serialize_directory);
            assert(spec_offsets_encoded(entries).subrange(0, n as int) =~= spec_offsets_encoded(
                entries,
            ));
            assert(out@ =~= old(out)@ + spec_serialize_directory(entries));
        }
    }
}

/// Parsing the concatenated encodings embedded in a longer sequence yields
/// the encoded values and stops exactly at their end.
proof fn lemma_varints_round_trip(s: Seq<u8>, pos: int, vs: Seq<u64>)
    requires
        0 <= pos,
        pos + spec_varints(vs).len() <= s.len(),
        s.subrange(pos, pos + spec_varints(vs).len()) == spec_varints(vs),
    ensures
        spec_parse_varints(s, pos, vs.len()) == Some((vs, pos + spec_varints(vs).len())),
    decreases vs.len(),
{
    if vs.len() == 0 {
        assert(vs =~= Seq::<u64>::empty());
    } else {
        let e0 = spec_varint(vs[0]);
        let rest = spec_varints(vs.drop_first());
        assert(spec_varints(vs) == e0 + rest);
        assert(s.subrange(pos, pos + e0.len()) =~= e0) by {
            assert forall|i: int| 0 <= i < e0.len() implies s.subrange(pos, pos + e0.len())[i]
                == e0[i] by {
                assert(s.subrange(pos, pos + spec_varints(vs).len())[i] == (e0 + rest)[i]);
            }
        }
        lemma_varint_round_trip(s, pos, vs[0]);
        assert(s.subrange(pos + e0.len(), pos + e0.len() + rest.len()) =~= rest) by {
            assert forall|i: int| 0 <= i < rest.len() implies s.subrange(
                pos + e0.len(),
                pos + e0.len() + rest.len(),
            )[i] == rest[i] by {
                assert(s.subrange(pos, pos + spec_varints(vs).len())[e0.len() + i] == (e0
                    + rest)[e0.len() + i]);
            }
        }
        lemma_varints_round_trip(s, pos + e0.len(), vs.drop_first());
        assert(seq![vs[0]] + vs.drop_first() =~= vs);
    }
}

/// The running sum of the stored deltas of ordered entries recovers each
/// tile id.
proof fn lemma_tile_ids_of_deltas(entries: Seq<DirEntry>, i: int)
    requires
        sorted_by_tile_id(entries),
        0 <= i < entries.len(),
    ensures
        spec_tile_id_at(spec_deltas(entries), i) == entries[i].tile_id,
    decreases i,
{
    if i > 0 {
        lemma_tile_ids_of_deltas(entries, i - 1);
        assert(entries[i - 1].tile_id <= entries[i].tile_id);
    }
}

/// Decoding the stored offsets of serializable entries recovers each
/// offset.
proof fn lemma_offsets_decode(entries: Seq<DirEntry>, i: int)
    requires
        spec_serializable(entries),
        0 <= i < entries.len(),
    ensures
        spec_offset_at(spec_offsets_encoded(entries), spec_lengths(entries), i) == Some(
            entries[i].offset as int,
        ),
    decreases i,
{
    let offs = spec_offsets_encoded(entries);
    let lens = spec_lengths(entries);
    assert(entries[i].offset < u64::MAX);
    if offs[i] == 0 {
        assert(i > 0 && entries[i].offset == entries[i - 1].offset + entries[i - 1].length);
        lemma_offsets_decode(entries, i - 1);
        assert(lens[i - 1] == entries[i - 1].length as u64);
    }
}

/// Serializing a directory and parsing the bytes back yields the same
/// entries: writing is the exact inverse of parsing, for every ordered,
/// serializable entry sequence.
pub proof fn lemma_directory_round_trip(entries: Seq<DirEntry>)
    requires
        spec_serializable(entries),
        entries.len() <= u64::MAX,
    ensures
        spec_parse_directory(spec_serialize_directory(entries)) == Some(entries),
{
    reveal(spec_serialize_directory);
    let s = spec_serialize_directory(entries);
    let n = entries.len() as u64;
    let p0 = spec_varint(n);
    let d = spec_varints(spec_deltas(entries));
    let r = spec_varints(spec_run_lengths(entries));
    let l = spec_varints(spec_lengths(entries));
    let o = spec_varints(spec_offsets_encoded(entries));
    assert(s == p0 + d + r + l + o);
    let b1 = p0.len() as int;
    let b2 = b1 + d.len();
    let b3 = b2 + r.len();
    let b4 = b3 + l.len();
    let b5 = b4 + o.len();
    assert(s.subrange(0, b1) =~= p0);
    lemma_varint_round_trip(s, 0, n);
    assert(s.subrange(b1, b2) =~= d);
    lemma_varints_round_trip(s, b1, spec_deltas(entries));
    assert(s.subrange(b2, b3) =~= r);
    lemma_varints_round_trip(s, b2, spec_run_lengths(entries));
    assert(s.subrange(b3, b4) =~= l);
    lemma_varints_round_trip(s, b3, spec_lengths(entries));
    assert(s.subrange(b4, b5) =~= o);
    lemma_varints_round_trip(s, b4, spec_offsets_encoded(entries));
    assert(spec_deltas(entries).len() == n as nat);
    assert forall|i: int| 0 <= i < entries.len() implies #[trigger] spec_entry_fits(
        spec_deltas(entries),
        spec_run_lengths(entries),
        spec_lengths(entries),
        spec_offsets_encoded(entries),
        i,
    ) by {
        lemma_tile_ids_of_deltas(entries, i);
        lemma_offsets_decode(entries, i);
    }
    assert(spec_assemble_entries(
        spec_deltas(entries),
        spec_run_lengths(entries),
        spec_lengths(entries),
        spec_offsets_encoded(entries),
    ) =~= entries) by {
        assert forall|i: int| 0 <= i < entries.len() implies spec_assemble_entries(
            spec_deltas(entries),
            spec_run_lengths(entries),
            spec_lengths(entries),
            spec_offsets_encoded(entries),
        )[i] == entries[i] by {
            lemma_tile_ids_of_deltas(entries, i);
            lemma_offsets_decode(entries, i);
        }
    }
}

} // verus!
