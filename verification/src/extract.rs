//! Planning logic of the bounding-box extractor.
//!
//! An extraction rewrites a subset of a clustered archive: the chosen tile
//! entries are re-encoded onto a compacted data region, the source byte
//! ranges behind them are merged under an overfetch budget to cut request
//! counts, and copy/discard instructions later split each merged fetch
//! back into the bytes that are kept.

use std::collections::HashMap;

use vstd::prelude::*;

use crate::directory::{sorted_by_tile_id, DirEntry, Directory};
use crate::error::{PmtError, PmtResult};
use crate::header::{Header, HEADER_SIZE};

verus! {

/// A range of bytes to copy from the source archive to the output.
#[derive(Debug, Clone, Copy, PartialEq, Eq, Structural)]
pub struct SrcDstRange {
    /// Byte offset in the source data region.
    pub src_offset: u64,
    /// Byte offset in the output data region.
    pub dst_offset: u64,
    /// Number of bytes to copy.
    pub length: u64,
}

impl SrcDstRange {
    /// The first source byte past this range.
    pub open spec fn spec_src_end(self) -> int {
        self.src_offset + self.length
    }

    /// The first source byte past this range, or `None` if the sum leaves
    /// `u64`.
    pub fn src_end(&self) -> (r: Option<u64>)
        ensures
            match r {
                Some(v) => v == self.spec_src_end(),
                None => self.spec_src_end() > u64::MAX,
            },
    {
        self.src_offset.checked_add(self.length)
    }
}

/// One copy/discard instruction: keep `wanted` bytes, then skip `discard`
/// bytes.
#[derive(Debug, Clone, Copy, PartialEq, Eq, Structural)]
pub struct CopyDiscard {
    /// Number of bytes to keep.
    pub wanted: u64,
    /// Number of bytes to skip.
    pub discard: u64,
}

/// A merged byte range that may fetch more than it keeps; its copy/discard
/// instructions split the fetched bytes back into the kept pieces.
#[derive(Debug, Clone, PartialEq, Eq)]
pub struct OverfetchRange {
    /// The byte range to fetch.
    pub range: SrcDstRange,
    /// The instructions for which fetched bytes to keep and which to skip.
    pub copy_discards: Vec<CopyDiscard>,
}

/// The sum of the run lengths of the entries.
pub open spec fn spec_sum_run_lengths(entries: Seq<DirEntry>) -> int
    decreases entries.len(),
{
    if entries.len() == 0 {
        0
    } else {
        spec_sum_run_lengths(entries.drop_last()) + entries.last().run_length
    }
}

/// One step of re-encoding: the compacted entries, the source ranges to
/// copy, the memo from seen source offset to its new output offset, and
/// the output cursor, after the first `n` entries.
pub open spec fn spec_reencode(entries: Seq<DirEntry>) -> (Seq<DirEntry>, Seq<SrcDstRange>, Map<
    u64,
    u64,
>, int)
    decreases entries.len(),
{
    if entries.len() == 0 {
        (Seq::<DirEntry>::empty(), Seq::<SrcDstRange>::empty(), Map::<u64, u64>::empty(), 0)
    } else {
        let prev = spec_reencode(entries.drop_last());
        let re = prev.0;
        let rs = prev.1;
        let seen = prev.2;
        let cur = prev.3;
        let e = entries.last();
        if seen.contains_key(e.offset) {
            (re.push(DirEntry { offset: seen[e.offset], ..e }), rs, seen, cur)
        } else {
            let rs2 = if rs.len() > 0 && rs.last().src_offset + rs.last().length == e.offset {
                rs.update(
                    rs.len() - 1,
                    SrcDstRange { length: (rs.last().length + e.length) as u64, ..rs.last() },
                )
            } else {
                rs.push(
                    SrcDstRange {
                        src_offset: e.offset,
                        dst_offset: cur as u64,
                        length: e.length as u64,
                    },
                )
            };
            (
                re.push(DirEntry { offset: cur as u64, ..e }),
                rs2,
                seen.insert(e.offset, cur as u64),
                cur + e.length,
            )
        }
    }
}

/// Re-encode the chosen entries onto a compacted output data region.
///
/// Entries whose source offset was already placed reuse its output offset
/// (deduplication is preserved); fresh offsets are laid out back to back,
/// and a fresh range contiguous in the source with the previous one
/// extends it instead of opening a new range. Returns the re-encoded
/// entries, the source ranges to copy, the output data length, the number
/// of addressed tiles (the run lengths summed), and the number of distinct
/// payloads.
pub fn reencode_entries(dir: Vec<DirEntry>) -> (r: (Vec<DirEntry>, Vec<SrcDstRange>, u64, u64, u64))
    requires
        dir@.len() < 0x1_0000_0000,
    ensures
        ({
            let sp = spec_reencode(dir@);
            r.0@ == sp.0 && r.1@ == sp.1 && r.2 == sp.3 && r.3 == spec_sum_run_lengths(dir@) && r.4
                == sp.2.dom().len()
        }),
{
    let n = dir.len();
    let mut reencoded: Vec<DirEntry> = Vec::with_capacity(n);
    let mut ranges: Vec<SrcDstRange> = Vec::new();
    let mut seen_offsets: HashMap<u64, u64> = HashMap::new();
    let mut addressed_tiles: u64 = 0;
    let mut dst_offset: u64 = 0;
    let mut i: usize = 0;
    while i < n
        invariant
            i <= n == dir@.len() < 0x1_0000_0000,
            ({
                let sp = spec_reencode(dir@.subrange(0, i as int));
                reencoded@ == sp.0 && ranges@ == sp.1 && seen_offsets@ == sp.2 && dst_offset
                    == sp.3
            }),
            addressed_tiles == spec_sum_run_lengths(dir@.subrange(0, i as int)),
            dst_offset <= i * 0x1_0000_0000,
            addressed_tiles <= i * 0x1_0000_0000,
            forall|k: int| 0 <= k < ranges@.len() ==> (#[trigger] ranges@[k]).length <= dst_offset,
        decreases n - i,
    {
        let e = dir[i];
        proof {
            assert(dir@.subrange(0, i as int + 1).drop_last() =~= dir@.subrange(0, i as int));
            assert(dir@.subrange(0, i as int + 1).last() == e);
        }
        addressed_tiles = addressed_tiles + (e.run_length as u64);
        match seen_offsets.get(&e.offset) {
            Some(existing) => {
                let existing = *existing;
                reencoded.push(DirEntry { offset: existing, ..e });
            },
            None => {
                let extend = match ranges.last() {
                    Some(last) => match last.src_offset.checked_add(last.length) {
                        Some(end) => end == e.offset,
                        None => false,
                    },
                    None => false,
                };
                if extend {
                    let li = ranges.len() - 1;
                    let last = ranges[li];
                    let updated = SrcDstRange {
                        length: last.length + (e.length as u64),
                        ..last
                    };
                    ranges.set(li, updated);
                } else {
                    ranges.push(
                        SrcDstRange {
                            src_offset: e.offset,
                            dst_offset,
                            length: e.length as u64,
                        },
                    );
                }
                reencoded.push(DirEntry { offset: dst_offset, ..e });
                seen_offsets.insert(e.offset, dst_offset);
                dst_offset = dst_offset + (e.length as u64);
            },
        }
        i = i + 1;
    }
    proof {
        assert(dir@.subrange(0, n as int) =~= dir@);
    }
    let tile_contents = seen_offsets.len() as u64;
    (reencoded, ranges, dst_offset, addressed_tiles, tile_contents)
}

/// The sum of the byte lengths of the ranges.
pub open spec fn spec_sum_range_lengths(rs: Seq<SrcDstRange>) -> int
    decreases rs.len(),
{
    if rs.len() == 0 {
        0
    } else {
        spec_sum_range_lengths(rs.drop_last()) + rs.last().length
    }
}

/// The sum of the fetched byte lengths of the merged ranges.
pub open spec fn spec_sum_fetched(outs: Seq<OverfetchRange>) -> int
    decreases outs.len(),
{
    if outs.len() == 0 {
        0
    } else {
        spec_sum_fetched(outs.drop_last()) + outs.last().range.length
    }
}

/// One merged range against the inputs it stands for: `o` fetches, in one
/// request, the consecutive-in-source inputs `lo` up to `hi`, keeps each
/// input's bytes as a wanted piece, and skips exactly the gap to the next
/// input; the last piece skips nothing, and the fetch ends at the last
/// input's end.
pub open spec fn spec_merge_group(
    inputs: Seq<SrcDstRange>,
    o: OverfetchRange,
    lo: int,
    hi: int,
) -> bool {
    &&& 0 <= lo < hi <= inputs.len()
    &&& o.copy_discards@.len() == hi - lo
    &&& o.range.src_offset == inputs[lo].src_offset
    &&& o.range.dst_offset == inputs[lo].dst_offset
    &&& forall|k: int|
        0 <= k < hi - lo ==> (#[trigger] o.copy_discards@[k]).wanted == inputs[lo + k].length
    &&& forall|k: int|
        0 <= k < hi - lo - 1 ==> inputs[lo + k + 1].src_offset == inputs[lo + k].src_offset
            + inputs[lo + k].length + (#[trigger] o.copy_discards@[k]).discard
    &&& o.copy_discards@[hi - lo - 1].discard == 0
    &&& o.range.src_offset + o.range.length == inputs[hi - 1].src_offset + inputs[hi - 1].length
}

/// The merged ranges partition the inputs: `bounds` cuts the input list
/// into consecutive groups, and output `k` stands for group `k` as
/// [`spec_merge_group`] states. Every input is a wanted piece of exactly
/// one output, in source order.
pub open spec fn spec_merge_partition(
    inputs: Seq<SrcDstRange>,
    outputs: Seq<OverfetchRange>,
    bounds: Seq<int>,
) -> bool {
    &&& bounds.len() == outputs.len() + 1
    &&& bounds[0] == 0
    &&& bounds[outputs.len() as int] == inputs.len()
    &&& forall|k: int|
        0 <= k < outputs.len() ==> spec_merge_group(
            inputs,
            #[trigger] outputs[k],
            bounds[k],
            bounds[k + 1],
        )
}

/// The merged ranges stand for the inputs, with the group boundaries left
/// unnamed.
pub open spec fn spec_merged(inputs: Seq<SrcDstRange>, outputs: Seq<OverfetchRange>) -> bool {
    exists|bounds: Seq<int>| #[trigger] spec_merge_partition(inputs, outputs, bounds)
}

/// The sum of the selected gaps with index in `[lo, hi)`.
pub open spec fn spec_sum_selected_gaps(gaps: Seq<u64>, sel: Seq<bool>, lo: int, hi: int) -> int
    decreases hi - lo,
{
    if lo >= hi {
        0
    } else {
        (if sel[hi - 1] {
            gaps[hi - 1] as int
        } else {
            0
        }) + spec_sum_selected_gaps(gaps, sel, lo, hi - 1)
    }
}

/// The sum of a concatenation of ranges is the sum of the parts.
proof fn lemma_sum_range_lengths_cat(a: Seq<SrcDstRange>, b: Seq<SrcDstRange>)
    ensures
        spec_sum_range_lengths(a + b) == spec_sum_range_lengths(a) + spec_sum_range_lengths(b),
    decreases b.len(),
{
    if b.len() == 0 {
        assert(a + b =~= a);
    } else {
        assert((a + b).drop_last() =~= a + b.drop_last());
        lemma_sum_range_lengths_cat(a, b.drop_last());
    }
}

/// Byte lengths are nonnegative, so the sum is too.
proof fn lemma_sum_range_lengths_nonneg(s: Seq<SrcDstRange>)
    ensures
        spec_sum_range_lengths(s) >= 0,
    decreases s.len(),
{
    if s.len() > 0 {
        lemma_sum_range_lengths_nonneg(s.drop_last());
    }
}

/// Selected gaps are nonnegative, so their sum is too.
proof fn lemma_sum_selected_gaps_nonneg(gaps: Seq<u64>, sel: Seq<bool>, lo: int, hi: int)
    ensures
        spec_sum_selected_gaps(gaps, sel, lo, hi) >= 0,
    decreases hi - lo,
{
    if lo < hi {
        lemma_sum_selected_gaps_nonneg(gaps, sel, lo, hi - 1);
    }
}

/// The selected-gap sum over `[lo, hi)` splits at any `mid` between.
proof fn lemma_sum_selected_gaps_split(gaps: Seq<u64>, sel: Seq<bool>, lo: int, mid: int, hi: int)
    requires
        lo <= mid <= hi,
    ensures
        spec_sum_selected_gaps(gaps, sel, lo, hi) == spec_sum_selected_gaps(gaps, sel, lo, mid)
            + spec_sum_selected_gaps(gaps, sel, mid, hi),
    decreases hi - mid,
{
    if mid < hi {
        lemma_sum_selected_gaps_split(gaps, sel, lo, mid, hi - 1);
    }
}

/// Selecting one more gap adds it to the sum of the window holding it and
/// changes no other window.
proof fn lemma_sum_selected_gaps_update(gaps: Seq<u64>, sel: Seq<bool>, idx: int, lo: int, hi: int)
    requires
        0 <= lo,
        0 <= idx < sel.len(),
        !sel[idx],
        hi <= sel.len(),
    ensures
        spec_sum_selected_gaps(gaps, sel.update(idx, true), lo, hi) == spec_sum_selected_gaps(
            gaps,
            sel,
            lo,
            hi,
        ) + if lo <= idx < hi {
            gaps[idx] as int
        } else {
            0
        },
    decreases hi - lo,
{
    if lo < hi {
        lemma_sum_selected_gaps_update(gaps, sel, idx, lo, hi - 1);
        let selu = sel.update(idx, true);
        if idx == hi - 1 {
            assert(selu[hi - 1]);
            assert(!sel[hi - 1]);
        } else {
            assert(selu[hi - 1] == sel[hi - 1]);
        }
    }
}

/// The bytes kept when the copy/discard instructions walk the fetched
/// bytes: the concatenation of the wanted pieces, each followed by a
/// skipped gap.
pub open spec fn spec_apply_copy_discards(bytes: Seq<u8>, cds: Seq<CopyDiscard>, pos: int) -> Option<
    Seq<u8>,
>
    decreases cds.len(),
{
    if cds.len() == 0 {
        Some(Seq::<u8>::empty())
    } else {
        let cd = cds[0];
        if pos + cd.wanted + cd.discard <= bytes.len() {
            match spec_apply_copy_discards(bytes, cds.drop_first(), pos + cd.wanted + cd.discard) {
                None => None,
                Some(rest) => Some(bytes.subrange(pos, pos + cd.wanted) + rest),
            }
        } else {
            None
        }
    }
}

/// Walk the copy/discard instructions over fetched bytes: keep each
/// wanted piece, skip each gap. Fails when the instructions run past the
/// end of the bytes.
pub fn apply_copy_discards(bytes: &[u8], cds: &Vec<CopyDiscard>) -> (r: PmtResult<Vec<u8>>)
    ensures
        match r {
            Ok(v) => spec_apply_copy_discards(bytes@, cds@, 0) == Some(v@),
            Err(e) => spec_apply_copy_discards(bytes@, cds@, 0) is None && e
                == PmtError::IoRangeOverflow,
        },
{
    proof {
        assert(cds@.subrange(0, cds@.len() as int) =~= cds@);
    }
    apply_copy_discards_from(bytes, cds, 0, 0)
}

/// Walk the instructions from index `k` at byte position `pos`.
fn apply_copy_discards_from(bytes: &[u8], cds: &Vec<CopyDiscard>, k: usize, pos: usize) -> (r:
    PmtResult<Vec<u8>>)
    requires
        k <= cds@.len(),
        pos <= bytes@.len(),
    ensures
        match r {
            Ok(v) => spec_apply_copy_discards(bytes@, cds@.subrange(k as int, cds@.len() as int), pos as int)
                == Some(v@),
            Err(e) => spec_apply_copy_discards(bytes@, cds@.subrange(k as int, cds@.len() as int), pos as int)
                is None && e == PmtError::IoRangeOverflow,
        },
    decreases cds@.len() - k,
{
    let ghost tail = cds@.subrange(k as int, cds@.len() as int);
    if k == cds.len() {
        proof {
            assert(tail =~= Seq::<CopyDiscard>::empty());
        }
        return Ok(Vec::new());
    }
    let cd = cds[k];
    proof {
        assert(tail[0] == cd);
        assert(tail.drop_first() =~= cds@.subrange(k as int + 1, cds@.len() as int));
    }
    if cd.wanted > (bytes.len() - pos) as u64 || cd.discard > (bytes.len() - pos) as u64 - cd.wanted {
        return Err(PmtError::IoRangeOverflow);
    }
    let step = (cd.wanted + cd.discard) as usize;
    let rest = apply_copy_discards_from(bytes, cds, k + 1, pos + step)?;
    let limit = pos + (cd.wanted as usize);
    let mut out: Vec<u8> = Vec::new();
    let mut j: usize = pos;
    while j < limit
        invariant
            pos <= j <= limit <= bytes@.len(),
            limit == pos + cd.wanted,
            out@ == bytes@.subrange(pos as int, j as int),
        decreases limit - j,
    {
        proof {
            assert(bytes@.subrange(pos as int, j as int + 1) =~= bytes@.subrange(
                pos as int,
                j as int,
            ).push(bytes@[j as int]));
        }
        out.push(bytes[j]);
        j = j + 1;
    }
    let mut combined = out;
    crate::writer::append_entry_bytes(&mut combined, rest.as_slice());
    proof {
        assert(combined@ =~= bytes@.subrange(pos as int, pos + cd.wanted) + rest@);
    }
    Ok(combined)
}

/// Merge the byte ranges under an overfetch budget to cut request counts.
///
/// Each pair of consecutive-in-source ranges has a gap: the bytes between
/// the first's end and the second's start. The smallest gaps are bridged
/// first, while the bridged bytes stay within `budget`; a pair that
/// overlaps, touches, or runs backward in the source is never merged. The
/// result partitions the inputs into consecutive groups, one fetch per
/// group, whose copy/discard instructions keep each input's bytes and
/// skip exactly the bridged gaps; the total fetched is the input lengths
/// plus the bridged bytes, at most `budget` over the input lengths.
#[verifier::loop_isolation(false)]
#[verifier::rlimit(100)]
#[verifier::spinoff_prover]
pub fn merge_ranges(ranges: Vec<SrcDstRange>, budget: u64) -> (r: (Vec<OverfetchRange>, u64))
    requires
        forall|i: int|
            0 <= i < ranges@.len() ==> (#[trigger] ranges@[i]).src_offset + ranges@[i].length
                <= u64::MAX,
        spec_sum_range_lengths(ranges@) + budget <= u64::MAX,
    ensures
        spec_merged(ranges@, r.0@),
        r.1 == spec_sum_fetched(r.0@),
        r.1 <= spec_sum_range_lengths(ranges@) + budget,
{
    let n = ranges.len();
    if n == 0 {
        let empty_out: Vec<OverfetchRange> = Vec::new();
        proof {
            let bounds: Seq<int> = seq![0int];
            assert(empty_out@ =~= Seq::<OverfetchRange>::empty());
            assert(spec_merge_partition(ranges@, empty_out@, bounds));
            assert(spec_merged(ranges@, empty_out@));
        }
        return (empty_out, 0);
    }
    // The gap behind each range: the bytes to its successor's start, or
    // `u64::MAX` where no merge is possible.
    let mut gaps: Vec<u64> = Vec::new();
    let mut i: usize = 0;
    while i + 1 < n
        invariant
            gaps@.len() == i <= n - 1,
            forall|j: int|
                0 <= j < i ==> #[trigger] gaps@[j] == u64::MAX || (gaps@[j] < u64::MAX && gaps@[j]
                    > 0 && ranges@[j + 1].src_offset == ranges@[j].src_offset + ranges@[j].length
                    + gaps@[j]),
        decreases n - i,
    {
        let end = ranges[i].src_offset + ranges[i].length;
        let nxt = ranges[i + 1].src_offset;
        let g: u64 = if nxt > end {
            nxt - end
        } else {
            u64::MAX
        };
        gaps.push(g);
        i = i + 1;
    }
    // Order the gaps ascending, remembering where each one stands.
    let mut pairs: Vec<(u64, usize)> = Vec::new();
    let mut t: usize = 0;
    while t < gaps.len()
        invariant
            pairs@.len() == t <= gaps@.len(),
            forall|k: int|
                0 <= k < t ==> (#[trigger] pairs@[k]).1 < gaps@.len() && pairs@[k].0 == gaps@[
                    pairs@[k].1 as int
                ],
        decreases gaps@.len() - t,
    {
        pairs.push((gaps[t], t));
        t = t + 1;
    }
    let m = pairs.len();
    let mut a: usize = 0;
    while a < m
        invariant
            a <= m == pairs@.len(),
            forall|k: int|
                0 <= k < m ==> (#[trigger] pairs@[k]).1 < gaps@.len() && pairs@[k].0 == gaps@[
                    pairs@[k].1 as int
                ],
        decreases m - a,
    {
        let mut mi: usize = a;
        let mut b: usize = a + 1;
        while b < m
            invariant
                a <= mi < m,
                a < b <= m,
            decreases m - b,
        {
            if pairs[b].0 < pairs[mi].0 {
                mi = b;
            }
            b = b + 1;
        }
        let pa = pairs[a];
        let pmi = pairs[mi];
        pairs.set(a, pmi);
        pairs.set(mi, pa);
        a = a + 1;
    }
    // Bridge the smallest gaps first while the budget lasts.
    let mut sel: Vec<bool> = Vec::new();
    while sel.len() + 1 < n
        invariant
            sel@.len() <= n - 1,
            forall|j: int| 0 <= j < sel@.len() ==> !(#[trigger] sel@[j]),
        decreases n - sel@.len(),
    {
        sel.push(false);
    }
    let mut spent: u64 = 0;
    proof {
        lemma_sum_selected_gaps_all_false(gaps@, sel@, 0, (n - 1) as int);
    }
    let mut t2: usize = 0;
    while t2 < m
        invariant
            t2 <= m,
            sel@.len() == n - 1,
            spent <= budget,
            spent == spec_sum_selected_gaps(gaps@, sel@, 0, (n - 1) as int),
            forall|j: int| 0 <= j < n - 1 ==> #[trigger] sel@[j] ==> gaps@[j] < u64::MAX,
        decreases m - t2,
    {
        let p = pairs[t2];
        let g = p.0;
        let idx = p.1;
        if g == u64::MAX || g > budget - spent {
            break ;
        }
        if !sel[idx] {
            proof {
                lemma_sum_selected_gaps_update(gaps@, sel@, idx as int, 0, (n - 1) as int);
            }
            sel.set(idx, true);
            spent = spent + g;
        }
        t2 = t2 + 1;
    }
    // Walk the inputs, closing a group at each unbridged gap.
    let mut out: Vec<OverfetchRange> = Vec::new();
    let mut total: u64 = 0;
    let ghost mut bounds: Seq<int> = seq![0int];
    let mut lo: usize = 0;
    while lo < n
        invariant
            lo <= n,
            sel@.len() == n - 1,
            spent <= budget,
            spent == spec_sum_selected_gaps(gaps@, sel@, 0, (n - 1) as int),
            bounds.len() == out@.len() + 1,
            bounds[0] == 0,
            bounds[out@.len() as int] == lo,
            forall|k: int|
                0 <= k < out@.len() ==> spec_merge_group(
                    ranges@,
                    #[trigger] out@[k],
                    bounds[k],
                    bounds[k + 1],
                ),
            total == spec_sum_fetched(out@),
            total <= spec_sum_range_lengths(ranges@.subrange(0, lo as int))
                + spec_sum_selected_gaps(
                gaps@,
                sel@,
                0,
                if lo < n {
                    lo as int
                } else {
                    n - 1
                },
            ),
        decreases n - lo,
    {
        let mut cds: Vec<CopyDiscard> = Vec::new();
        let mut j: usize = lo;
        proof {
            let s1 = ranges@.subrange(lo as int, lo as int + 1);
            assert(s1.last() == ranges@[lo as int]);
            assert(s1.drop_last() =~= Seq::<SrcDstRange>::empty());
            assert(spec_sum_range_lengths(s1.drop_last()) == 0);
            assert(spec_sum_range_lengths(s1) == ranges@[lo as int].length);
            assert(spec_sum_selected_gaps(gaps@, sel@, lo as int, lo as int) == 0);
        }
        while j + 1 < n && sel[j]
            invariant
                lo <= j < n,
                cds@.len() == j - lo,
                forall|k: int|
                    0 <= k < j - lo ==> (#[trigger] cds@[k]).wanted == ranges@[lo + k].length
                        && cds@[k].discard == gaps@[lo + k] && sel@[lo + k],
                ranges@[lo as int].src_offset + spec_sum_range_lengths(
                    ranges@.subrange(lo as int, j as int + 1),
                ) + spec_sum_selected_gaps(gaps@, sel@, lo as int, j as int) == ranges@[
                    j as int
                ].src_offset + ranges@[j as int].length,
            decreases n - j,
        {
            proof {
                assert(gaps@[j as int] < u64::MAX);
                assert(ranges@.subrange(lo as int, j as int + 2).drop_last() =~= ranges@.subrange(
                    lo as int,
                    j as int + 1,
                ));
            }
            cds.push(CopyDiscard { wanted: ranges[j].length, discard: gaps[j] });
            j = j + 1;
        }
        cds.push(CopyDiscard { wanted: ranges[j].length, discard: 0 });
        let hi = j + 1;
        proof {
            lemma_sum_range_lengths_nonneg(ranges@.subrange(lo as int, hi as int));
            lemma_sum_selected_gaps_nonneg(gaps@, sel@, lo as int, j as int);
        }
        let end = ranges[j].src_offset + ranges[j].length;
        let length = end - ranges[lo].src_offset;
        let o = OverfetchRange {
            range: SrcDstRange {
                src_offset: ranges[lo].src_offset,
                dst_offset: ranges[lo].dst_offset,
                length,
            },
            copy_discards: cds,
        };
        proof {
            assert(spec_merge_group(ranges@, o, lo as int, hi as int));
            assert(out@.push(o).drop_last() =~= out@);
            // the fetched total stays within the prefix lengths plus the
            // bridged gaps
            let glo = lo as int;
            let ghi = if hi < n {
                hi as int
            } else {
                n - 1
            };
            lemma_sum_selected_gaps_split(gaps@, sel@, 0, glo, ghi);
            if hi < n {
                assert(!sel@[hi - 1]);
                assert(spec_sum_selected_gaps(gaps@, sel@, glo, hi as int)
                    == spec_sum_selected_gaps(gaps@, sel@, glo, hi - 1));
            }
            assert(ranges@.subrange(0, lo as int) + ranges@.subrange(lo as int, hi as int)
                =~= ranges@.subrange(0, hi as int));
            lemma_sum_range_lengths_cat(
                ranges@.subrange(0, lo as int),
                ranges@.subrange(lo as int, hi as int),
            );
            // the running total never leaves `u64`
            assert(ranges@.subrange(0, hi as int) + ranges@.subrange(hi as int, n as int)
                =~= ranges@);
            lemma_sum_range_lengths_cat(
                ranges@.subrange(0, hi as int),
                ranges@.subrange(hi as int, n as int),
            );
            lemma_sum_range_lengths_nonneg(ranges@.subrange(hi as int, n as int));
            lemma_sum_selected_gaps_split(gaps@, sel@, 0, ghi, n - 1);
            lemma_sum_selected_gaps_nonneg(gaps@, sel@, ghi, n - 1);
            bounds = bounds.push(hi as int);
        }
        out.push(o);
        total = total + length;
        lo = hi;
    }
    proof {
        assert(ranges@.subrange(0, n as int) =~= ranges@);
        assert(spec_merge_partition(ranges@, out@, bounds));
        assert(spec_merged(ranges@, out@));
    }
    (out, total)
}

/// The selected-gap sum is zero while nothing is selected.
proof fn lemma_sum_selected_gaps_all_false(gaps: Seq<u64>, sel: Seq<bool>, lo: int, hi: int)
    requires
        0 <= lo,
        forall|j: int| 0 <= j < sel.len() ==> !(#[trigger] sel[j]),
        hi <= sel.len(),
    ensures
        spec_sum_selected_gaps(gaps, sel, lo, hi) == 0,
    decreases hi - lo,
{
    if lo < hi {
        assert(!sel[hi - 1]);
        lemma_sum_selected_gaps_all_false(gaps, sel, lo, hi - 1);
    }
}

/// The first tile id past the leaf-entry range of the deepest zoom read:
/// the first id of the next zoom, or the largest id at the deepest zoom
/// the format has.
pub open spec fn spec_leaf_bound(max_zoom: u8) -> u64 {
    if max_zoom < 31 {
        crate::tile::pyramid_base((max_zoom + 1) as nat) as u64
    } else {
        crate::tile::MAX_TILE_ID
    }
}

/// The maximal runs of ids of `set` within entry `e`'s run, walked from
/// position `i` with the currently open run `cur` (its first id and its
/// length so far): each maximal contiguous substring of hit ids becomes
/// one entry with `e`'s offset and length and the substring's first id
/// and length.
pub open spec fn spec_run_split(set: Set<u64>, e: DirEntry, i: int, cur: Option<(u64, u32)>) -> Seq<
    DirEntry,
>
    decreases e.run_length - i,
{
    if i >= e.run_length {
        match cur {
            Some(c) => seq![
                DirEntry { tile_id: c.0, offset: e.offset, length: e.length, run_length: c.1 },
            ],
            None => Seq::<DirEntry>::empty(),
        }
    } else {
        let id = (e.tile_id + i) as u64;
        if set.contains(id) {
            match cur {
                None => spec_run_split(set, e, i + 1, Some((id, 1u32))),
                Some(c) => spec_run_split(set, e, i + 1, Some((c.0, (c.1 + 1) as u32))),
            }
        } else {
            match cur {
                Some(c) => seq![
                    DirEntry { tile_id: c.0, offset: e.offset, length: e.length, run_length: c.1 },
                ] + spec_run_split(set, e, i + 1, None),
                None => spec_run_split(set, e, i + 1, None),
            }
        }
    }
}

/// The tile and leaf entries of `dir` from position `i` on that the set
/// of relevant ids touches: a leaf entry stays when some id of `[its
/// first id, the next entry's first id)` is in the set (the last leaf
/// bounded by `bound`); a tile entry's run is cut to the maximal runs of
/// hit ids, as [`spec_run_split`] states; order is kept.
pub open spec fn spec_relevant_from(set: Set<u64>, bound: u64, dir: Seq<DirEntry>, i: int) -> (Seq<
    DirEntry,
>, Seq<DirEntry>)
    decreases dir.len() - i,
{
    if i < 0 || i >= dir.len() {
        (Seq::<DirEntry>::empty(), Seq::<DirEntry>::empty())
    } else {
        let e = dir[i];
        let rest = spec_relevant_from(set, bound, dir, i + 1);
        if e.run_length == 0 {
            let hi = if i + 1 < dir.len() {
                dir[i + 1].tile_id
            } else {
                bound
            };
            if exists|x: u64| #[trigger] set.contains(x) && e.tile_id <= x < hi {
                (rest.0, seq![e] + rest.1)
            } else {
                rest
            }
        } else {
            (spec_run_split(set, e, 0, None) + rest.0, rest.1)
        }
    }
}

/// Cut a directory down to what the relevance bitmap touches.
///
/// Returns the surviving tile entries and the surviving leaf entries, in
/// directory order. A leaf entry survives when the bitmap holds an id in
/// its range, up to the next entry's first id (the last leaf bounded by
/// the first id past `max_zoom`); a tile entry is cut to the maximal runs
/// of ids the bitmap holds, each keeping the entry's offset and length.
#[verifier::loop_isolation(false)]
#[verifier::rlimit(100)]
pub fn relevant_entries(
    bitmap: &roaring::RoaringTreemap,
    max_zoom: u8,
    dir: &[DirEntry],
) -> (r: (Vec<DirEntry>, Vec<DirEntry>))
    requires
        forall|i: int|
            0 <= i < dir@.len() ==> (#[trigger] dir@[i]).tile_id + dir@[i].run_length <= u64::MAX,
    ensures
        r.0@ == spec_relevant_from(
            crate::bitmap::rt_set(*bitmap),
            spec_leaf_bound(max_zoom),
            dir@,
            0,
        ).0,
        r.1@ == spec_relevant_from(
            crate::bitmap::rt_set(*bitmap),
            spec_leaf_bound(max_zoom),
            dir@,
            0,
        ).1,
{
    let ghost set = crate::bitmap::rt_set(*bitmap);
    let bound: u64 = if max_zoom < 31 {
        crate::tile::pyramid_size_by_zoom(max_zoom + 1)
    } else {
        crate::tile::MAX_TILE_ID
    };
    proof {
        if max_zoom < 31 {
            crate::tile::lemma_pyramid_base_fits((max_zoom + 1) as nat);
        }
        assert(bound == spec_leaf_bound(max_zoom));
    }
    let mut tiles: Vec<DirEntry> = Vec::new();
    let mut leaves: Vec<DirEntry> = Vec::new();
    let n = dir.len();
    let mut i: usize = 0;
    while i < n
        invariant
            i <= n,
            spec_relevant_from(set, bound, dir@, 0).0 == tiles@ + spec_relevant_from(
                set,
                bound,
                dir@,
                i as int,
            ).0,
            spec_relevant_from(set, bound, dir@, 0).1 == leaves@ + spec_relevant_from(
                set,
                bound,
                dir@,
                i as int,
            ).1,
        decreases n - i,
    {
        let e = dir[i];
        let ghost rest = spec_relevant_from(set, bound, dir@, i as int + 1);
        if e.run_length == 0 {
            let hi: u64 = if i + 1 < n {
                dir[i + 1].tile_id
            } else {
                bound
            };
            let mut tmp = crate::bitmap::rt_new();
            crate::bitmap::rt_insert_range(&mut tmp, e.tile_id, hi);
            let ghost rng = crate::bitmap::spec_id_range(e.tile_id, hi);
            proof {
                assert(crate::bitmap::rt_set(tmp) =~= rng);
            }
            let disjoint = crate::bitmap::rt_is_disjoint(bitmap, &tmp);
            if !disjoint {
                proof {
                    let a = choose|a: u64| set.contains(a) && rng.contains(a);
                    assert(set.contains(a) && e.tile_id <= a < hi);
                    assert(leaves@.push(e) =~= leaves@ + seq![e]);
                    assert((leaves@ + seq![e]) + rest.1 =~= leaves@ + (seq![e] + rest.1));
                }
                leaves.push(e);
            } else {
                proof {
                    assert forall|x: u64| !(#[trigger] set.contains(x) && e.tile_id <= x < hi) by {
                        if set.contains(x) && e.tile_id <= x < hi {
                            assert(rng.contains(x));
                        }
                    }
                }
            }
        } else {
            let ghost tiles0 = tiles@;
            let n_run: u32 = e.run_length;
            let mut cur_id: u64 = e.tile_id;
            let mut cur_len: u32 = 0;
            let mut k: u32 = 0;
            proof {
                assert(tiles@.subrange(tiles0.len() as int, tiles@.len() as int) =~= Seq::<
                    DirEntry,
                >::empty());
            }
            while k < n_run
                invariant
                    k <= n_run,
                    cur_len <= k,
                    tiles0.len() <= tiles@.len(),
                    tiles@.subrange(0, tiles0.len() as int) == tiles0,
                    spec_run_split(set, e, 0, None) == tiles@.subrange(
                        tiles0.len() as int,
                        tiles@.len() as int,
                    ) + spec_run_split(
                        set,
                        e,
                        k as int,
                        if cur_len == 0 {
                            None
                        } else {
                            Some((cur_id, cur_len))
                        },
                    ),
                decreases n_run - k,
            {
                let ghost cur: Option<(u64, u32)> = if cur_len == 0 {
                    None
                } else {
                    Some((cur_id, cur_len))
                };
                let id = e.tile_id + (k as u64);
                if crate::bitmap::rt_contains(bitmap, id) {
                    if cur_len == 0 {
                        cur_id = id;
                        cur_len = 1;
                    } else {
                        cur_len = cur_len + 1;
                    }
                } else {
                    if cur_len > 0 {
                        let cut = DirEntry {
                            tile_id: cur_id,
                            offset: e.offset,
                            length: e.length,
                            run_length: cur_len,
                        };
                        proof {
                            assert(tiles@.push(cut).subrange(0, tiles0.len() as int)
                                =~= tiles@.subrange(0, tiles0.len() as int));
                            assert(tiles@.push(cut).subrange(
                                tiles0.len() as int,
                                tiles@.len() as int + 1,
                            ) =~= tiles@.subrange(tiles0.len() as int, tiles@.len() as int)
                                + seq![cut]);
                            assert((tiles@.subrange(tiles0.len() as int, tiles@.len() as int)
                                + seq![cut]) + spec_run_split(set, e, k as int + 1, None)
                                =~= tiles@.subrange(tiles0.len() as int, tiles@.len() as int) + (
                            seq![cut] + spec_run_split(set, e, k as int + 1, None)));
                        }
                        tiles.push(cut);
                        cur_len = 0;
                    }
                }
                k = k + 1;
            }
            if cur_len > 0 {
                let cut = DirEntry {
                    tile_id: cur_id,
                    offset: e.offset,
                    length: e.length,
                    run_length: cur_len,
                };
                proof {
                    assert(tiles@.push(cut).subrange(0, tiles0.len() as int) =~= tiles@.subrange(
                        0,
                        tiles0.len() as int,
                    ));
                    assert(tiles@.push(cut).subrange(tiles0.len() as int, tiles@.len() as int + 1)
                        =~= tiles@.subrange(tiles0.len() as int, tiles@.len() as int) + seq![cut]);
                }
                tiles.push(cut);
            }
            proof {
                assert(tiles@ =~= tiles0 + tiles@.subrange(tiles0.len() as int, tiles@.len() as int));
                assert((tiles0 + tiles@.subrange(tiles0.len() as int, tiles@.len() as int))
                    + rest.0 =~= tiles0 + (tiles@.subrange(
                    tiles0.len() as int,
                    tiles@.len() as int,
                ) + rest.0));
            }
        }
        i = i + 1;
    }
    proof {
        assert(tiles@ + spec_relevant_from(set, bound, dir@, n as int).0 =~= tiles@);
        assert(leaves@ + spec_relevant_from(set, bound, dir@, n as int).1 =~= leaves@);
    }
    (tiles, leaves)
}

/// The bytes of the inputs `lo` up to `hi`, cut from the source and
/// concatenated in source order.
pub open spec fn spec_concat_range_bytes(
    src: Seq<u8>,
    inputs: Seq<SrcDstRange>,
    lo: int,
    hi: int,
) -> Seq<u8>
    decreases hi - lo,
{
    if lo >= hi {
        Seq::<u8>::empty()
    } else {
        src.subrange(inputs[lo].src_offset as int, inputs[lo].src_offset + inputs[lo].length)
            + spec_concat_range_bytes(src, inputs, lo + 1, hi)
    }
}

/// Un-merging is exact: walking a merged range's copy/discard
/// instructions over its fetched bytes yields exactly the bytes of the
/// inputs it stands for, concatenated in source order.
pub proof fn lemma_merge_group_reassembles(
    src: Seq<u8>,
    inputs: Seq<SrcDstRange>,
    o: OverfetchRange,
    lo: int,
    hi: int,
)
    requires
        spec_merge_group(inputs, o, lo, hi),
        o.range.src_offset + o.range.length <= src.len(),
    ensures
        spec_apply_copy_discards(src, o.copy_discards@, o.range.src_offset as int) == Some(
            spec_concat_range_bytes(src, inputs, lo, hi),
        ),
{
    assert(o.copy_discards@.subrange(0, hi - lo) =~= o.copy_discards@);
    lemma_merge_group_tail(src, inputs, o, lo, hi, lo);
}

/// The reassembly claim for the instruction tail from input `j` on.
proof fn lemma_merge_group_tail(
    src: Seq<u8>,
    inputs: Seq<SrcDstRange>,
    o: OverfetchRange,
    lo: int,
    hi: int,
    j: int,
)
    requires
        spec_merge_group(inputs, o, lo, hi),
        o.range.src_offset + o.range.length <= src.len(),
        lo <= j < hi,
    ensures
        inputs[j].src_offset + inputs[j].length <= inputs[hi - 1].src_offset + inputs[hi
            - 1].length,
        spec_apply_copy_discards(src, o.copy_discards@.subrange(j - lo, hi - lo), inputs[
            j
        ].src_offset as int) == Some(spec_concat_range_bytes(src, inputs, j, hi)),
    decreases hi - j,
{
    let tail = o.copy_discards@.subrange(j - lo, hi - lo);
    assert(tail[0] == o.copy_discards@[j - lo]);
    assert(o.copy_discards@[j - lo].wanted == inputs[lo + (j - lo)].length);
    assert(tail[0].wanted == inputs[j].length);
    if j == hi - 1 {
        assert(tail.len() == 1);
        assert(tail[0].discard == 0);
        assert(inputs[j].src_offset + inputs[j].length <= src.len());
        assert(tail.drop_first() =~= Seq::<CopyDiscard>::empty());
        assert(spec_apply_copy_discards(src, tail.drop_first(), inputs[j].src_offset
            + inputs[j].length) == Some(Seq::<u8>::empty()));
        assert(src.subrange(inputs[j].src_offset as int, inputs[j].src_offset + inputs[j].length)
            + Seq::<u8>::empty() =~= src.subrange(
            inputs[j].src_offset as int,
            inputs[j].src_offset + inputs[j].length,
        ));
        assert(spec_concat_range_bytes(src, inputs, j + 1, hi) == Seq::<u8>::empty());
    } else {
        lemma_merge_group_tail(src, inputs, o, lo, hi, j + 1);
        assert(inputs[lo + (j - lo) + 1].src_offset == inputs[lo + (j - lo)].src_offset + inputs[lo
            + (j - lo)].length + o.copy_discards@[j - lo].discard);
        assert(inputs[j + 1].src_offset == inputs[j].src_offset + inputs[j].length
            + tail[0].discard);
        assert(inputs[j + 1].src_offset <= inputs[hi - 1].src_offset + inputs[hi - 1].length);
        assert(inputs[j].src_offset + tail[0].wanted + tail[0].discard <= src.len());
        assert(tail.drop_first() =~= o.copy_discards@.subrange(j + 1 - lo, hi - lo));
        assert(spec_apply_copy_discards(src, tail.drop_first(), inputs[j + 1].src_offset as int)
            == Some(spec_concat_range_bytes(src, inputs, j + 1, hi)));
    }
}

/// The zoom range an extraction reads: the requested bounds, clamped into
/// the archive's own range.
///
/// The archive must be clustered, and the clamped range must be
/// nonempty; exactly otherwise the header is rejected.
pub fn effective_zooms(h: &crate::header::Header, min_zoom: Option<u8>, max_zoom: Option<u8>) -> (r:
    PmtResult<(u8, u8)>)
    ensures
        ({
            let lo = match min_zoom {
                Some(m) => if m > h.min_zoom {
                    m
                } else {
                    h.min_zoom
                },
                None => h.min_zoom,
            };
            let hi = match max_zoom {
                Some(m) => if m < h.max_zoom {
                    m
                } else {
                    h.max_zoom
                },
                None => h.max_zoom,
            };
            if h.clustered && lo <= hi {
                r == Ok::<(u8, u8), PmtError>((lo, hi))
            } else {
                r == Err::<(u8, u8), PmtError>(PmtError::InvalidHeader)
            }
        }),
{
    if !h.clustered {
        return Err(PmtError::InvalidHeader);
    }
    let lo = match min_zoom {
        Some(m) => if m > h.min_zoom {
            m
        } else {
            h.min_zoom
        },
        None => h.min_zoom,
    };
    let hi = match max_zoom {
        Some(m) => if m < h.max_zoom {
            m
        } else {
            h.max_zoom
        },
        None => h.max_zoom,
    };
    if lo > hi {
        return Err(PmtError::InvalidHeader);
    }
    Ok((lo, hi))
}


/// The tile entries the relevance set keeps from the fetched leaf
/// directories, in leaf order.
pub open spec fn spec_leaf_tiles(set: Set<u64>, bound: u64, dirs: Seq<Directory>) -> Seq<DirEntry>
    decreases dirs.len(),
{
    if dirs.len() == 0 {
        Seq::<DirEntry>::empty()
    } else {
        spec_leaf_tiles(set, bound, dirs.drop_last()) + spec_relevant_from(
            set,
            bound,
            dirs.last().entries@,
            0,
        ).0
    }
}

/// What an extraction will copy: the re-encoded entries of the output
/// directories, the merged fetches with their copy/discard instructions,
/// and the plan's counts.
pub struct ExtractionPlan {
    /// The entries of the output archive, on the compacted data region.
    pub reencoded_entries: Vec<DirEntry>,
    /// The merged source ranges to fetch.
    pub overfetch_ranges: Vec<OverfetchRange>,
    /// Byte length of the output tile-data region.
    pub tile_data_length: u64,
    /// Number of addressed tiles (run lengths summed).
    pub addressed_tiles: u64,
    /// Number of distinct tile payloads.
    pub tile_contents: u64,
    /// Total bytes the merged fetches transfer.
    pub total_transfer_bytes: u64,
}

/// The plan `p` is what planning owes for the chosen entries `all` under
/// the overfetch budget: for some tile-id ordering of them, the plan's
/// entries, ranges, and counts are the re-encoding of that ordering, and
/// the fetches are a merge of its ranges within the budget.
pub open spec fn spec_plan_ok(all: Seq<DirEntry>, budget: u64, p: ExtractionPlan) -> bool {
    exists|se: Seq<DirEntry>|
        #![trigger spec_reencode(se)]
        {
            let sp = spec_reencode(se);
            &&& sorted_by_tile_id(se)
            &&& se.to_multiset() == all.to_multiset()
            &&& p.reencoded_entries@ == sp.0
            &&& p.tile_data_length == sp.3
            &&& p.addressed_tiles == spec_sum_run_lengths(se)
            &&& p.tile_contents == sp.2.dom().len()
            &&& spec_merged(sp.1, p.overfetch_ranges@)
            &&& p.total_transfer_bytes == spec_sum_fetched(p.overfetch_ranges@)
            &&& p.total_transfer_bytes <= spec_sum_range_lengths(sp.1) + budget
        }
}

/// Planning fails only on overflow: the chosen entries are too many to
/// re-encode, or, for the tile-id ordering the plan would use, a copied
/// range's end or the merged fetch total would leave `u64`.
pub open spec fn spec_plan_overflows(all: Seq<DirEntry>, budget: u64) -> bool {
    ||| all.len() >= 0x1_0000_0000
    ||| exists|se: Seq<DirEntry>|
        #![trigger spec_reencode(se)]
        {
            let rs = spec_reencode(se).1;
            &&& sorted_by_tile_id(se)
            &&& se.to_multiset() == all.to_multiset()
            &&& ((exists|k: int|
                0 <= k < rs.len() && (#[trigger] rs[k]).src_offset + rs[k].length > u64::MAX)
                || spec_sum_range_lengths(rs) + budget > u64::MAX)
        }
}

/// Append all entries of `src` to `dst`.
fn append_entries(dst: &mut Vec<DirEntry>, src: Vec<DirEntry>)
    ensures
        final(dst)@ == old(dst)@ + src@,
{
    let n = src.len();
    let mut i: usize = 0;
    while i < n
        invariant
            i <= n == src@.len(),
            dst@ == old(dst)@ + src@.subrange(0, i as int),
        decreases n - i,
    {
        let e = src[i];
        proof {
            assert(src@.subrange(0, i as int + 1) =~= src@.subrange(0, i as int).push(e));
        }
        dst.push(e);
        i = i + 1;
    }
    proof {
        assert(src@.subrange(0, n as int) =~= src@);
    }
}

/// Plan an extraction from what was pruned and fetched: the root's
/// surviving tile entries and the fetched leaf directories.
///
/// The leaf directories' surviving tiles are collected, everything is
/// ordered by tile id, re-encoded onto a compacted data region, and the
/// ranges to copy are merged under the overfetch budget, as
/// [`spec_plan_ok`] states. The only error is an overflow, exactly as
/// [`spec_plan_overflows`] states.
#[verifier::loop_isolation(false)]
#[verifier::rlimit(100)]
pub fn plan_extraction(
    bitmap: &roaring::RoaringTreemap,
    max_zoom: u8,
    root_tiles: Vec<DirEntry>,
    leaf_dirs: &Vec<Directory>,
    budget: u64,
) -> (r: PmtResult<ExtractionPlan>)
    requires
        forall|k: int, i: int|
            0 <= k < leaf_dirs@.len() && 0 <= i < leaf_dirs@[k].entries@.len() ==> (
            #[trigger] leaf_dirs@[k].entries@[i]).tile_id + leaf_dirs@[k].entries@[i].run_length
                <= u64::MAX,
    ensures
        ({
            let all = root_tiles@ + spec_leaf_tiles(
                crate::bitmap::rt_set(*bitmap),
                spec_leaf_bound(max_zoom),
                leaf_dirs@,
            );
            match r {
                Ok(p) => spec_plan_ok(all, budget, p),
                Err(e) => e == PmtError::IndexEntryOverflow && spec_plan_overflows(all, budget),
            }
        }),
{
    let ghost set = crate::bitmap::rt_set(*bitmap);
    let ghost bound = spec_leaf_bound(max_zoom);
    let mut tiles = root_tiles;
    let ghost root0 = tiles@;
    let n_leaves = leaf_dirs.len();
    let mut k: usize = 0;
    proof {
        assert(tiles@ =~= root0 + spec_leaf_tiles(set, bound, leaf_dirs@.subrange(0, 0)));
    }
    while k < n_leaves
        invariant
            k <= n_leaves,
            tiles@ == root0 + spec_leaf_tiles(set, bound, leaf_dirs@.subrange(0, k as int)),
        decreases n_leaves - k,
    {
        let d = &leaf_dirs[k];
        let (leaf_tiles, _leaf_leaves) = relevant_entries(bitmap, max_zoom, d.entries.as_slice());
        proof {
            assert(leaf_dirs@.subrange(0, k as int + 1).drop_last() =~= leaf_dirs@.subrange(
                0,
                k as int,
            ));
            assert(leaf_dirs@.subrange(0, k as int + 1).last() == leaf_dirs@[k as int]);
        }
        append_entries(&mut tiles, leaf_tiles);
        proof {
            assert(tiles@ =~= root0 + spec_leaf_tiles(
                set,
                bound,
                leaf_dirs@.subrange(0, k as int + 1),
            ));
        }
        k = k + 1;
    }
    proof {
        assert(leaf_dirs@.subrange(0, n_leaves as int) =~= leaf_dirs@);
    }
    let ghost all = tiles@;
    if tiles.len() as u64 >= 0x1_0000_0000u64 {
        proof {
            assert(spec_plan_overflows(all, budget));
        }
        return Err(PmtError::IndexEntryOverflow);
    }
    let sorted = crate::writer::sort_entries(tiles);
    let ghost se = sorted@;
    let (reencoded, ranges, tile_data_length, addressed_tiles, tile_contents) = reencode_entries(
        sorted,
    );
    let mut sum: u64 = 0;
    let n_ranges = ranges.len();
    let mut i: usize = 0;
    proof {
        assert(spec_sum_range_lengths(ranges@.subrange(0, 0)) == 0);
    }
    while i < n_ranges
        invariant
            i <= n_ranges,
            sum == spec_sum_range_lengths(ranges@.subrange(0, i as int)),
            sum <= u64::MAX - budget,
            forall|k2: int|
                0 <= k2 < i ==> (#[trigger] ranges@[k2]).src_offset + ranges@[k2].length
                    <= u64::MAX,
        decreases n_ranges - i,
    {
        let rg = ranges[i];
        proof {
            assert(ranges@.subrange(0, i as int + 1).drop_last() =~= ranges@.subrange(0, i as int));
            assert(ranges@.subrange(0, i as int + 1).last() == rg);
        }
        if rg.src_offset > u64::MAX - rg.length {
            proof {
                let rs = spec_reencode(se).1;
                assert(rs[i as int].src_offset + rs[i as int].length > u64::MAX);
                assert(spec_plan_overflows(all, budget));
            }
            return Err(PmtError::IndexEntryOverflow);
        }
        if rg.length > u64::MAX - budget - sum {
            proof {
                let rs = spec_reencode(se).1;
                assert(ranges@.subrange(0, i as int + 1) + ranges@.subrange(
                    i as int + 1,
                    n_ranges as int,
                ) =~= ranges@);
                lemma_sum_range_lengths_cat(
                    ranges@.subrange(0, i as int + 1),
                    ranges@.subrange(i as int + 1, n_ranges as int),
                );
                lemma_sum_range_lengths_nonneg(ranges@.subrange(i as int + 1, n_ranges as int));
                assert(spec_sum_range_lengths(rs) + budget > u64::MAX);
                assert(spec_plan_overflows(all, budget));
            }
            return Err(PmtError::IndexEntryOverflow);
        }
        sum = sum + rg.length;
        i = i + 1;
    }
    proof {
        assert(ranges@.subrange(0, n_ranges as int) =~= ranges@);
    }
    let (overfetch_ranges, total_transfer_bytes) = merge_ranges(ranges, budget);
    let p = ExtractionPlan {
        reencoded_entries: reencoded,
        overfetch_ranges,
        tile_data_length,
        addressed_tiles,
        tile_contents,
        total_transfer_bytes,
    };
    proof {
        let sp = spec_reencode(se);
        assert(p.reencoded_entries@ == sp.0);
        assert(spec_merged(sp.1, p.overfetch_ranges@));
        assert(spec_plan_ok(all, budget, p));
    }
    Ok(p)
}

/// The leaf-directory blobs, concatenated.
pub open spec fn spec_concat_blobs(bs: Seq<Vec<u8>>) -> Seq<u8>
    decreases bs.len(),
{
    if bs.len() == 0 {
        Seq::<u8>::empty()
    } else {
        spec_concat_blobs(bs.drop_last()) + bs.last()@
    }
}

/// The midpoint of two positions given in tenths of microdegrees.
pub open spec fn spec_midpoint_e7(lo: i32, hi: i32) -> int
    recommends
        lo <= hi,
{
    lo + (hi - lo) / 2
}

/// The header of an extracted archive, as the extractor rewrites it from
/// the source's: the new zoom range and bounding box, the centers at the
/// box's midpoints, the plan's counts, and the regions laid out back to
/// back as `[header][root][metadata][leaf directories][tile data]`. The
/// metadata is copied verbatim from the source, so its length is kept.
pub fn extract_header(
    source: &Header,
    plan: &ExtractionPlan,
    min_zoom: u8,
    max_zoom: u8,
    min_lon_e7: i32,
    min_lat_e7: i32,
    max_lon_e7: i32,
    max_lat_e7: i32,
    root_length: u64,
    leaf_length: u64,
) -> (r: Header)
    requires
        min_lon_e7 <= max_lon_e7,
        min_lat_e7 <= max_lat_e7,
        HEADER_SIZE + root_length + source.metadata_length + leaf_length + plan.tile_data_length
            <= u64::MAX,
    ensures
        r == (Header {
            min_zoom,
            max_zoom,
            min_longitude_e7: min_lon_e7,
            min_latitude_e7: min_lat_e7,
            max_longitude_e7: max_lon_e7,
            max_latitude_e7: max_lat_e7,
            center_longitude_e7: spec_midpoint_e7(min_lon_e7, max_lon_e7) as i32,
            center_latitude_e7: spec_midpoint_e7(min_lat_e7, max_lat_e7) as i32,
            center_zoom: min_zoom,
            n_addressed_tiles: plan.addressed_tiles,
            n_tile_entries: plan.reencoded_entries@.len() as u64,
            n_tile_contents: plan.tile_contents,
            root_offset: HEADER_SIZE as u64,
            root_length,
            metadata_offset: (HEADER_SIZE + root_length) as u64,
            metadata_length: source.metadata_length,
            leaf_offset: (HEADER_SIZE + root_length + source.metadata_length) as u64,
            leaf_length,
            data_offset: (HEADER_SIZE + root_length + source.metadata_length
                + leaf_length) as u64,
            data_length: plan.tile_data_length,
            ..*source
        }),
{
    let root_offset = HEADER_SIZE as u64;
    let metadata_offset = root_offset + root_length;
    let leaf_offset = metadata_offset + source.metadata_length;
    let data_offset = leaf_offset + leaf_length;
    let center_longitude_e7 = ((min_lon_e7 as i64) + ((max_lon_e7 as i64 - min_lon_e7 as i64)
        / 2)) as i32;
    let center_latitude_e7 = ((min_lat_e7 as i64) + ((max_lat_e7 as i64 - min_lat_e7 as i64) / 2))
        as i32;
    Header {
        min_zoom,
        max_zoom,
        min_longitude_e7: min_lon_e7,
        min_latitude_e7: min_lat_e7,
        max_longitude_e7: max_lon_e7,
        max_latitude_e7: max_lat_e7,
        center_longitude_e7,
        center_latitude_e7,
        center_zoom: min_zoom,
        n_addressed_tiles: plan.addressed_tiles,
        n_tile_entries: plan.reencoded_entries.len() as u64,
        n_tile_contents: plan.tile_contents,
        root_offset,
        root_length,
        metadata_offset,
        metadata_length: source.metadata_length,
        leaf_offset,
        leaf_length,
        data_offset,
        data_length: plan.tile_data_length,
        ..*source
    }
}

/// Everything of an extracted archive that precedes the tile data, laid
/// out back to back: the serialized header, the compressed root
/// directory, the metadata copied from the source, and the compressed
/// leaf directories. The tile data follows, written from the plan's
/// merged fetches.
///
/// The output begins with the header's own serialization, so parsing the
/// output's head yields `hd` back.
#[verifier::loop_isolation(false)]
pub fn extract_output_head(
    hd: &Header,
    root_blob: &Vec<u8>,
    metadata: &Vec<u8>,
    leaf_blobs: &Vec<Vec<u8>>,
) -> (out: Vec<u8>)
    ensures
        out@ == crate::header::spec_serialize_header(*hd) + root_blob@ + metadata@
            + spec_concat_blobs(leaf_blobs@),
        crate::header::spec_parse_header(out@) == Ok::<Header, PmtError>(*hd),
{
    let mut out: Vec<u8> = Vec::new();
    hd.write_to(&mut out);
    crate::writer::append_entry_bytes(&mut out, root_blob.as_slice());
    crate::writer::append_entry_bytes(&mut out, metadata.as_slice());
    let ghost before_leaves = out@;
    proof {
        assert(spec_concat_blobs(leaf_blobs@.subrange(0, 0)) =~= Seq::<u8>::empty());
        assert(out@ =~= before_leaves + spec_concat_blobs(leaf_blobs@.subrange(0, 0)));
    }
    let n = leaf_blobs.len();
    let mut k: usize = 0;
    while k < n
        invariant
            k <= n,
            out@ == before_leaves + spec_concat_blobs(leaf_blobs@.subrange(0, k as int)),
        decreases n - k,
    {
        proof {
            assert(leaf_blobs@.subrange(0, k as int + 1).drop_last() =~= leaf_blobs@.subrange(
                0,
                k as int,
            ));
            assert(leaf_blobs@.subrange(0, k as int + 1).last() == leaf_blobs@[k as int]);
        }
        let blob = &leaf_blobs[k];
        crate::writer::append_entry_bytes(&mut out, blob.as_slice());
        proof {
            assert(out@ =~= before_leaves + spec_concat_blobs(
                leaf_blobs@.subrange(0, k as int + 1),
            ));
        }
        k = k + 1;
    }
    proof {
        assert(leaf_blobs@.subrange(0, n as int) =~= leaf_blobs@);
        let hb = crate::header::spec_serialize_header(*hd);
        crate::header::lemma_serialize_header_len(*hd);
        crate::header::lemma_header_round_trip(*hd);
        assert(out@.subrange(0, 127) =~= hb.subrange(0, 127));
        crate::header::lemma_parse_header_prefix(out@, hb);
    }
    out
}

/// The tile ids a list of entries covers: each entry's run of ids.
pub open spec fn spec_entries_ids(es: Seq<DirEntry>) -> Set<u64> {
    Set::new(
        |id: u64|
            exists|k: int|
                0 <= k < es.len() && (#[trigger] es[k]).tile_id <= id < es[k].tile_id
                    + es[k].run_length,
    )
}

/// Concatenated entries cover the union of what the parts cover.
proof fn lemma_entries_ids_cat(a: Seq<DirEntry>, b: Seq<DirEntry>)
    ensures
        spec_entries_ids(a + b) =~= spec_entries_ids(a).union(spec_entries_ids(b)),
{
    assert forall|id: u64| #[trigger] spec_entries_ids(a + b).contains(id) implies spec_entries_ids(
        a,
    ).union(spec_entries_ids(b)).contains(id) by {
        let k = choose|k: int|
            0 <= k < (a + b).len() && (#[trigger] (a + b)[k]).tile_id <= id < (a + b)[k].tile_id + (
            a + b)[k].run_length;
        if k < a.len() {
            assert(a[k].tile_id <= id < a[k].tile_id + a[k].run_length);
        } else {
            assert(b[k - a.len()].tile_id <= id < b[k - a.len()].tile_id + b[k
                - a.len()].run_length);
        }
    }
    assert forall|id: u64|
        spec_entries_ids(a).union(spec_entries_ids(b)).contains(id) implies #[trigger] spec_entries_ids(
        a + b,
    ).contains(id) by {
        if spec_entries_ids(a).contains(id) {
            let k = choose|k: int|
                0 <= k < a.len() && (#[trigger] a[k]).tile_id <= id < a[k].tile_id
                    + a[k].run_length;
            assert((a + b)[k].tile_id <= id < (a + b)[k].tile_id + (a + b)[k].run_length);
        } else {
            let k = choose|k: int|
                0 <= k < b.len() && (#[trigger] b[k]).tile_id <= id < b[k].tile_id
                    + b[k].run_length;
            assert((a + b)[a.len() + k].tile_id <= id < (a + b)[a.len() + k].tile_id + (a + b)[
                a.len() + k
            ].run_length);
        }
    }
}

/// The run-splitting walk from position `i` with the open run `cur`
/// covers the set's ids in the rest of the entry's run, plus the open
/// run's own ids.
proof fn lemma_run_split_ids(set: Set<u64>, e: DirEntry, i: int, cur: Option<(u64, u32)>)
    requires
        0 <= i <= e.run_length,
        e.tile_id + e.run_length <= u64::MAX,
        match cur {
            Some(c) => c.0 >= e.tile_id && c.0 + c.1 == e.tile_id + i && c.1 >= 1 && (forall|
                id: u64,
            |
                c.0 <= id < c.0 + c.1 ==> set.contains(id)),
            None => true,
        },
    ensures
        spec_entries_ids(spec_run_split(set, e, i, cur)) =~= set.intersect(
            crate::bitmap::spec_id_range(
                (e.tile_id + i) as u64,
                (e.tile_id + e.run_length) as u64,
            ),
        ).union(
            match cur {
                Some(c) => crate::bitmap::spec_id_range(c.0, (c.0 + c.1) as u64),
                None => Set::<u64>::empty(),
            },
        ),
    decreases e.run_length - i,
{
    let rest = crate::bitmap::spec_id_range(
        (e.tile_id + i) as u64,
        (e.tile_id + e.run_length) as u64,
    );
    if i == e.run_length {
        match cur {
            Some(c) => {
                let one = seq![
                    DirEntry { tile_id: c.0, offset: e.offset, length: e.length, run_length: c.1 },
                ];
                assert forall|id: u64| #[trigger] spec_entries_ids(one).contains(id) implies c.0
                    <= id < c.0 + c.1 by {}
                assert forall|id: u64| c.0 <= id < c.0 + c.1 implies #[trigger] spec_entries_ids(
                    one,
                ).contains(id) by {
                    assert(one[0].tile_id <= id < one[0].tile_id + one[0].run_length);
                }
            },
            None => {
                assert(spec_entries_ids(Seq::<DirEntry>::empty()) =~= Set::<u64>::empty());
            },
        }
    } else {
        let id = (e.tile_id + i) as u64;
        let rest1 = crate::bitmap::spec_id_range(
            (e.tile_id + i + 1) as u64,
            (e.tile_id + e.run_length) as u64,
        );
        if set.contains(id) {
            match cur {
                None => {
                    lemma_run_split_ids(set, e, i + 1, Some((id, 1u32)));
                    assert(set.intersect(rest).union(Set::<u64>::empty()) =~= set.intersect(
                        rest1,
                    ).union(crate::bitmap::spec_id_range(id, (id + 1) as u64)));
                },
                Some(c) => {
                    assert(c.1 < e.run_length);
                    lemma_run_split_ids(set, e, i + 1, Some((c.0, (c.1 + 1) as u32)));
                    assert(set.intersect(rest).union(
                        crate::bitmap::spec_id_range(c.0, (c.0 + c.1) as u64),
                    ) =~= set.intersect(rest1).union(
                        crate::bitmap::spec_id_range(c.0, (c.0 + c.1 + 1) as u64),
                    ));
                },
            }
        } else {
            match cur {
                Some(c) => {
                    let one = seq![
                        DirEntry {
                            tile_id: c.0,
                            offset: e.offset,
                            length: e.length,
                            run_length: c.1,
                        },
                    ];
                    lemma_run_split_ids(set, e, i + 1, None);
                    lemma_entries_ids_cat(one, spec_run_split(set, e, i + 1, None));
                    assert forall|v: u64| #[trigger] spec_entries_ids(one).contains(v) implies c.0
                        <= v < c.0 + c.1 by {}
                    assert forall|v: u64| c.0 <= v < c.0 + c.1 implies #[trigger] spec_entries_ids(
                        one,
                    ).contains(v) by {
                        assert(one[0].tile_id <= v < one[0].tile_id + one[0].run_length);
                    }
                    assert(set.intersect(rest) =~= set.intersect(rest1));
                    assert(spec_entries_ids(spec_run_split(set, e, i, cur)) =~= spec_entries_ids(
                        one,
                    ).union(spec_entries_ids(spec_run_split(set, e, i + 1, None))));
                },
                None => {
                    lemma_run_split_ids(set, e, i + 1, None);
                    assert(set.intersect(rest) =~= set.intersect(rest1));
                },
            }
        }
    }
}

/// Relevance pruning is exact on a tile entry: the cut entries cover
/// exactly the ids of the entry's run that the set holds.
pub proof fn lemma_relevant_run_ids(set: Set<u64>, e: DirEntry)
    requires
        e.run_length >= 1,
        e.tile_id + e.run_length <= u64::MAX,
    ensures
        spec_entries_ids(spec_run_split(set, e, 0, None)) == set.intersect(
            crate::bitmap::spec_id_range(e.tile_id, (e.tile_id + e.run_length) as u64),
        ),
{
    lemma_run_split_ids(set, e, 0, None);
    assert(spec_entries_ids(spec_run_split(set, e, 0, None)) =~= set.intersect(
        crate::bitmap::spec_id_range(e.tile_id, (e.tile_id + e.run_length) as u64),
    ));
}

/// One entry covers its own run of ids.
proof fn lemma_entries_ids_one(e: DirEntry)
    requires
        e.tile_id + e.run_length <= u64::MAX,
    ensures
        spec_entries_ids(seq![e]) =~= crate::bitmap::spec_id_range(
            e.tile_id,
            (e.tile_id + e.run_length) as u64,
        ),
{
    assert forall|v: u64| #[trigger] spec_entries_ids(seq![e]).contains(v) implies e.tile_id <= v
        < e.tile_id + e.run_length by {}
    assert forall|v: u64| e.tile_id <= v < e.tile_id + e.run_length implies #[trigger] spec_entries_ids(
        seq![e],
    ).contains(v) by {
        assert(seq![e][0].tile_id <= v < seq![e][0].tile_id + seq![e][0].run_length);
    }
}

/// Relevance pruning of the tile entries from position `i` on is exact.
proof fn lemma_relevant_tiles_ids(set: Set<u64>, bound: u64, dir: Seq<DirEntry>, i: int)
    requires
        0 <= i <= dir.len(),
        forall|k: int|
            i <= k < dir.len() ==> (#[trigger] dir[k]).run_length >= 1 && dir[k].tile_id
                + dir[k].run_length <= u64::MAX,
    ensures
        spec_entries_ids(spec_relevant_from(set, bound, dir, i).0) =~= set.intersect(
            spec_entries_ids(dir.subrange(i, dir.len() as int)),
        ),
    decreases dir.len() - i,
{
    if i == dir.len() {
        assert(spec_entries_ids(Seq::<DirEntry>::empty()) =~= Set::<u64>::empty());
        assert(spec_entries_ids(dir.subrange(i, dir.len() as int)) =~= Set::<u64>::empty());
    } else {
        let e = dir[i];
        lemma_relevant_tiles_ids(set, bound, dir, i + 1);
        lemma_relevant_run_ids(set, e);
        lemma_entries_ids_cat(
            spec_run_split(set, e, 0, None),
            spec_relevant_from(set, bound, dir, i + 1).0,
        );
        assert(dir.subrange(i, dir.len() as int) =~= seq![e] + dir.subrange(
            i + 1,
            dir.len() as int,
        ));
        lemma_entries_ids_cat(seq![e], dir.subrange(i + 1, dir.len() as int));
        lemma_entries_ids_one(e);
        assert(set.intersect(
            crate::bitmap::spec_id_range(e.tile_id, (e.tile_id + e.run_length) as u64).union(
                spec_entries_ids(dir.subrange(i + 1, dir.len() as int)),
            ),
        ) =~= set.intersect(
            crate::bitmap::spec_id_range(e.tile_id, (e.tile_id + e.run_length) as u64),
        ).union(set.intersect(spec_entries_ids(dir.subrange(i + 1, dir.len() as int)))));
    }
}

/// Relevance pruning is exact on a directory of tile entries: the cut
/// entries cover exactly the ids the set holds among those the directory
/// covers. The extractor therefore keeps an id if and only if the
/// relevance bitmap holds it and the source addresses it.
pub proof fn lemma_relevant_entries_ids(set: Set<u64>, bound: u64, dir: Seq<DirEntry>)
    requires
        forall|k: int|
            0 <= k < dir.len() ==> (#[trigger] dir[k]).run_length >= 1 && dir[k].tile_id
                + dir[k].run_length <= u64::MAX,
    ensures
        spec_entries_ids(spec_relevant_from(set, bound, dir, 0).0) == set.intersect(
            spec_entries_ids(dir),
        ),
{
    lemma_relevant_tiles_ids(set, bound, dir, 0);
    assert(dir.subrange(0, dir.len() as int) =~= dir);
    assert(spec_entries_ids(spec_relevant_from(set, bound, dir, 0).0) =~= set.intersect(
        spec_entries_ids(dir),
    ));
}

} // verus!
