//! LEB128 variable-length integers, the scalar encoding of directories.
//!
//! A value is stored little-endian in groups of seven bits; every byte but
//! the last has its high bit set. The directory codec stores entry counts,
//! tile-id deltas, run lengths, lengths, and offsets this way.

use vstd::arithmetic::div_mod::lemma_fundamental_div_mod;
use vstd::prelude::*;

use crate::error::{PmtError, PmtResult};

verus! {

/// The largest value whose seven-bit continuation still fits a `u64`:
/// a parsed remainder above this would push the value past `u64::MAX`.
pub const VARINT_REST_MAX: u64 = 0x1ffffffffffffff;

/// The encoded bytes of `v`.
pub open spec fn spec_varint(v: u64) -> Seq<u8>
    decreases v,
{
    if v < 128 {
        seq![v as u8]
    } else {
        seq![(v % 128 + 128) as u8] + spec_varint(v / 128)
    }
}

/// What parsing a varint at `pos` of `s` yields: the value and the position
/// after it, or nothing when the bytes run out or the value would not fit
/// a `u64`.
pub open spec fn spec_parse_varint(s: Seq<u8>, pos: int) -> Option<(u64, int)>
    decreases s.len() - pos,
{
    if pos < 0 || pos >= s.len() {
        None
    } else {
        let b = s[pos];
        if b < 128 {
            Some((b as u64, pos + 1))
        } else {
            match spec_parse_varint(s, pos + 1) {
                None => None,
                Some((rest, next)) => if rest <= VARINT_REST_MAX {
                    Some(((rest * 128 + (b - 128)) as u64, next))
                } else {
                    None
                },
            }
        }
    }
}

/// Parsing an encoding embedded in a longer sequence yields the encoded
/// value and stops exactly at its end.
pub proof fn lemma_varint_round_trip(s: Seq<u8>, pos: int, v: u64)
    requires
        0 <= pos,
        pos + spec_varint(v).len() <= s.len(),
        s.subrange(pos, pos + spec_varint(v).len()) == spec_varint(v),
    ensures
        spec_parse_varint(s, pos) == Some((v, pos + spec_varint(v).len())),
    decreases v,
{
    let enc = spec_varint(v);
    assert(s[pos] == enc[0]);
    if v < 128 {
        assert(enc[0] == v as u8);
    } else {
        let rest = v / 128;
        let renc = spec_varint(rest);
        assert(enc == seq![(v % 128 + 128) as u8] + renc);
        assert(enc[0] == (v % 128 + 128) as u8);
        assert(s[pos] >= 128);
        assert(s.subrange(pos + 1, pos + 1 + renc.len()) =~= renc) by {
            assert forall|i: int| 0 <= i < renc.len() implies s.subrange(
                pos + 1,
                pos + 1 + renc.len(),
            )[i] == renc[i] by {
                assert(s.subrange(pos, pos + enc.len())[i + 1] == renc[i]);
            }
        }
        lemma_varint_round_trip(s, pos + 1, rest);
        lemma_fundamental_div_mod(v as int, 128);
        assert(rest <= VARINT_REST_MAX);
        assert(rest * 128 + (s[pos] - 128) == v);
    }
}

/// Append the encoding of `v`.
pub fn write_varint(out: &mut Vec<u8>, v: u64)
    ensures
        final(out)@ == old(out)@ + spec_varint(v),
    decreases v,
{
    if v < 128 {
        out.push(v as u8);
        proof {
            assert(out@ =~= old(out)@ + spec_varint(v));
        }
    } else {
        out.push((v % 128 + 128) as u8);
        write_varint(out, v / 128);
        proof {
            assert(out@ =~= old(out)@ + spec_varint(v));
        }
    }
}

/// Read the varint at `pos`; truncated bytes or a value beyond `u64::MAX`
/// fail with `InvalidEntry`.
pub fn read_varint(s: &[u8], pos: usize) -> (r: PmtResult<(u64, usize)>)
    ensures
        match r {
            Ok((v, next)) => spec_parse_varint(s@, pos as int) == Some((v, next as int)) && pos
                < next <= s@.len(),
            Err(e) => spec_parse_varint(s@, pos as int) is None && e == PmtError::InvalidEntry,
        },
    decreases s@.len() - pos,
{
    if pos >= s.len() {
        return Err(PmtError::InvalidEntry);
    }
    let b = s[pos];
    if b < 128 {
        Ok((b as u64, pos + 1))
    } else {
        match read_varint(s, pos + 1) {
            Err(e) => Err(e),
            Ok((rest, next)) => {
                if rest <= VARINT_REST_MAX {
                    Ok((rest * 128 + ((b - 128) as u64), next))
                } else {
                    Err(PmtError::InvalidEntry)
                }
            },
        }
    }
}

} // verus!
