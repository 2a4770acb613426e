//! The primitive reader: the tag/wire-type unit grammar of the wire format.
//!
//! A buffer is a sequence of units.  Each unit starts with a key, a varint
//! whose low three bits select the wire type and whose remaining bits are the
//! field number (the tag).  The wire type determines how many bytes follow:
//! another varint, four or eight little-endian bytes, a varint length followed
//! by that many payload bytes, or nothing at all for the deprecated group
//! markers.
//!
//! The meaning of every read is pinned down by spec functions over byte
//! sequences (`spec_varint`, `spec_unit`); the executable readers are proved
//! to return exactly what those functions denote.

use vstd::prelude::*;
use vstd::arithmetic::div_mod::lemma_fundamental_div_mod;
use vstd::arithmetic::power2::{lemma2_to64, lemma2_to64_rest, lemma_pow2_adds, pow2};
use vstd::bytes::{lemma_auto_spec_u32_to_from_le_bytes, lemma_auto_spec_u64_to_from_le_bytes,
    spec_u32_from_le_bytes, spec_u32_to_le_bytes, spec_u64_from_le_bytes, spec_u64_to_le_bytes,
    u32_from_le_bytes, u64_from_le_bytes};
use vstd::slice::slice_subrange;

verus! {

/// How a decode pass over a buffer can fail.
///
/// During a top-level decode any of these is fatal; during the structural
/// validation of a candidate nested message the same conditions silently
/// select the text/blob fallback instead.
#[derive(Clone, Copy, PartialEq, Eq, Structural, Debug)]
pub enum DecodeError {
    /// A varint's continuation bit never cleared within ten bytes, or the
    /// buffer ran out before it cleared.
    TruncatedVarint,
    /// Fewer than four (or eight) bytes remained for a fixed-width read.
    TruncatedFixed,
    /// The declared length of a length-delimited field exceeds the remaining
    /// bytes.
    TruncatedLength,
    /// The key's low three bits do not name a recognized wire type.
    UnknownWireType,
    /// The key does not fit in 32 bits, or its field number is zero.
    InvalidKey,
}

/// The value read from a single unit, at the specification level.
///
/// A length-delimited payload is reported as the half-open range of positions
/// it occupies, so that the builder can interpret it without copying.
pub enum UnitV {
    VarInt(u64),
    Fixed32(u32),
    Fixed64(u64),
    /// Payload start and end positions within the buffer.
    Delimited(int, int),
    StartGroup,
    EndGroup,
}

/// The value read from a single unit, as the executable reader reports it.
pub enum RawUnit {
    Varint(u64),
    Fixed32(u32),
    Fixed64(u64),
    /// Payload start and end indices within the buffer.
    Delimited { start: usize, end: usize },
    StartGroup,
    EndGroup,
}

impl View for RawUnit {
    type V = UnitV;

    open spec fn view(&self) -> UnitV {
        match self {
            RawUnit::Varint(v) => UnitV::VarInt(*v),
            RawUnit::Fixed32(v) => UnitV::Fixed32(*v),
            RawUnit::Fixed64(v) => UnitV::Fixed64(*v),
            RawUnit::Delimited { start, end } => UnitV::Delimited(*start as int, *end as int),
            RawUnit::StartGroup => UnitV::StartGroup,
            RawUnit::EndGroup => UnitV::EndGroup,
        }
    }
}

/// The little-endian base-128 varint starting at `pos`: its 64-bit value and
/// the position just past it, or `None` when the continuation bit never
/// clears within ten bytes or before the buffer ends.
///
/// Bits beyond the 64th of a ten-byte varint are discarded, which is what
/// accumulating the groups of seven bits into a 64-bit word does.
pub open spec fn spec_varint(s: Seq<u8>, pos: int) -> Option<(u64, int)>
    decreases s.len() - pos,
{
    if pos < 0 || pos >= s.len() {
        None
    } else if s[pos] < 128 {
        Some((s[pos] as u64, pos + 1))
    } else {
        match spec_varint(s, pos + 1) {
            None => None,
            Some((v, end)) => {
                if end - pos > 10 {
                    None
                } else {
                    Some(((((s[pos] - 128) + 128 * (v as int)) % 0x1_0000_0000_0000_0000) as u64, end))
                }
            },
        }
    }
}

pub proof fn lemma_spec_varint_bounds(s: Seq<u8>, pos: int)
    requires
        spec_varint(s, pos) is Some,
    ensures
        ({
            let (v, end) = spec_varint(s, pos)->Some_0;
            pos + 1 <= end <= s.len() && end - pos <= 10
        }),
    decreases s.len() - pos,
{
    if 0 <= pos < s.len() && s[pos] >= 128 {
        lemma_spec_varint_bounds(s, pos + 1);
    }
}

/// The unit starting at `pos`: its tag, its value, and the position just past
/// it, or the error that reading it raises.
///
/// The key must fit in 32 bits and carry a positive field number; wire types
/// are 0 (varint), 1 (fixed 64), 2 (length-delimited), 3 and 4 (group
/// markers), and 5 (fixed 32).
pub open spec fn spec_unit(s: Seq<u8>, pos: int) -> Result<(u32, UnitV, int), (
    DecodeError,
    Option<u32>,
)> {
    match spec_varint(s, pos) {
        None => Err((DecodeError::TruncatedVarint, None)),
        Some((key, kp)) => {
            if key > 0xffff_ffff {
                Err((DecodeError::InvalidKey, None))
            } else {
                let wt = key % 8;
                let tag = (key / 8) as u32;
                if wt == 6 || wt == 7 {
                    Err((DecodeError::UnknownWireType, Some(tag)))
                } else if tag == 0 {
                    Err((DecodeError::InvalidKey, None))
                } else if wt == 0 {
                    match spec_varint(s, kp) {
                        None => Err((DecodeError::TruncatedVarint, Some(tag))),
                        Some((v, end)) => Ok((tag, UnitV::VarInt(v), end)),
                    }
                } else if wt == 1 {
                    if kp + 8 <= s.len() {
                        Ok((tag, UnitV::Fixed64(spec_u64_from_le_bytes(s.subrange(kp, kp + 8))), kp + 8))
                    } else {
                        Err((DecodeError::TruncatedFixed, Some(tag)))
                    }
                } else if wt == 5 {
                    if kp + 4 <= s.len() {
                        Ok((tag, UnitV::Fixed32(spec_u32_from_le_bytes(s.subrange(kp, kp + 4))), kp + 4))
                    } else {
                        Err((DecodeError::TruncatedFixed, Some(tag)))
                    }
                } else if wt == 2 {
                    match spec_varint(s, kp) {
                        None => Err((DecodeError::TruncatedVarint, Some(tag))),
                        Some((len, dp)) => {
                            if dp + len <= s.len() {
                                Ok((tag, UnitV::Delimited(dp, dp + len), dp + len))
                            } else {
                                Err((DecodeError::TruncatedLength, Some(tag)))
                            }
                        },
                    }
                } else if wt == 3 {
                    Ok((tag, UnitV::StartGroup, kp))
                } else {
                    Ok((tag, UnitV::EndGroup, kp))
                }
            }
        },
    }
}

pub proof fn lemma_spec_unit_bounds(s: Seq<u8>, pos: int)
    requires
        0 <= pos,
        spec_unit(s, pos) is Ok,
    ensures
        ({
            let (tag, u, end) = spec_unit(s, pos)->Ok_0;
            &&& pos + 1 <= end <= s.len()
            &&& tag >= 1
            &&& (u matches UnitV::Delimited(ps, pe) ==> pos + 2 <= ps <= pe <= s.len() && pe == end)
        }),
{
    lemma_spec_varint_bounds(s, pos);
    let (key, kp) = spec_varint(s, pos)->Some_0;
    let wt = key % 8;
    if wt == 0 || wt == 2 {
        if spec_varint(s, kp) is Some {
            lemma_spec_varint_bounds(s, kp);
        }
    }
}

/// Reads the varint starting at `pos`, returning its value and the index just
/// past it.
pub fn read_varint(buf: &[u8], pos: usize) -> (r: Option<(u64, usize)>)
    requires
        pos <= buf@.len(),
    ensures
        match spec_varint(buf@, pos as int) {
            None => r is None,
            Some((v, end)) => pos < end <= buf@.len() && end - pos <= 10 && r == Some((
                v,
                end as usize,
            )),
        },
    decreases buf@.len() - pos,
{
    proof {
        if spec_varint(buf@, pos as int) is Some {
            lemma_spec_varint_bounds(buf@, pos as int);
        }
    }
    if pos == buf.len() {
        return None;
    }
    let b = buf[pos];
    if b < 128 {
        Some((b as u64, pos + 1))
    } else {
        match read_varint(buf, pos + 1) {
            None => None,
            Some((v, end)) => {
                if end - pos > 10 {
                    None
                } else {
                    let wide: u128 = ((b - 128) as u128) + 128u128 * (v as u128);
                    let combined: u64 = (wide % 0x1_0000_0000_0000_0000u128) as u64;
                    Some((combined, end))
                }
            },
        }
    }
}

/// Reads one unit: the key, then the bytes the wire type calls for.
///
/// On success the returned index points just past the unit, so a caller that
/// loops from position zero consumes the buffer exactly; a length-delimited
/// payload is returned as its index range, uninterpreted.
pub fn read_unit(buf: &[u8], pos: usize) -> (r: Result<
    (u32, RawUnit, usize),
    (DecodeError, Option<u32>),
>)
    requires
        pos <= buf@.len(),
    ensures
        match r {
            Ok((tag, u, end)) => spec_unit(buf@, pos as int) == Ok::<
                (u32, UnitV, int),
                (DecodeError, Option<u32>),
            >((tag, u@, end as int)) && pos < end <= buf@.len(),
            Err(e) => spec_unit(buf@, pos as int) == Err::<
                (u32, UnitV, int),
                (DecodeError, Option<u32>),
            >(e),
        },
{
    let n: usize = buf.len();
    proof {
        if spec_unit(buf@, pos as int) is Ok {
            lemma_spec_unit_bounds(buf@, pos as int);
        }
    }
    match read_varint(buf, pos) {
        None => Err((DecodeError::TruncatedVarint, None)),
        Some((key, kp)) => {
            if key > 0xffff_ffff {
                return Err((DecodeError::InvalidKey, None));
            }
            let wt: u64 = key % 8;
            let tag64: u64 = key / 8;
            if wt == 6 || wt == 7 {
                return Err((DecodeError::UnknownWireType, Some(tag64 as u32)));
            }
            if tag64 == 0 {
                return Err((DecodeError::InvalidKey, None));
            }
            let tag: u32 = tag64 as u32;
            if wt == 0 {
                match read_varint(buf, kp) {
                    None => Err((DecodeError::TruncatedVarint, Some(tag))),
                    Some((v, end)) => Ok((tag, RawUnit::Varint(v), end)),
                }
            } else if wt == 1 {
                if n - kp >= 8 {
                    let fb = slice_subrange(buf, kp, kp + 8);
                    Ok((tag, RawUnit::Fixed64(u64_from_le_bytes(fb)), kp + 8))
                } else {
                    Err((DecodeError::TruncatedFixed, Some(tag)))
                }
            } else if wt == 5 {
                if n - kp >= 4 {
                    let fb = slice_subrange(buf, kp, kp + 4);
                    Ok((tag, RawUnit::Fixed32(u32_from_le_bytes(fb)), kp + 4))
                } else {
                    Err((DecodeError::TruncatedFixed, Some(tag)))
                }
            } else if wt == 2 {
                match read_varint(buf, kp) {
                    None => Err((DecodeError::TruncatedVarint, Some(tag))),
                    Some((len, dp)) => {
                        if len <= (n - dp) as u64 {
                            let end: usize = dp + (len as usize);
                            Ok((tag, RawUnit::Delimited { start: dp, end }, end))
                        } else {
                            Err((DecodeError::TruncatedLength, Some(tag)))
                        }
                    },
                }
            } else if wt == 3 {
                Ok((tag, RawUnit::StartGroup, kp))
            } else {
                Ok((tag, RawUnit::EndGroup, kp))
            }
        },
    }
}

/// The canonical varint encoding of a 64-bit value: seven bits per byte,
/// least significant first, continuation bit on every byte but the last.
pub open spec fn spec_varint_encode(v: u64) -> Seq<u8>
    decreases v,
{
    if v < 128 {
        seq![v as u8]
    } else {
        seq![(128 + (v % 128)) as u8] + spec_varint_encode(v / 128)
    }
}

/// A varint read depends only on the bytes from its start position on.
pub proof fn lemma_varint_localize(s: Seq<u8>, pos: int)
    requires
        0 <= pos <= s.len(),
    ensures
        spec_varint(s, pos) == match spec_varint(s.subrange(pos, s.len() as int), 0) {
            None => None::<(u64, int)>,
            Some((v, e)) => Some((v, e + pos)),
        },
    decreases s.len() - pos,
{
    let t = s.subrange(pos, s.len() as int);
    if pos < s.len() {
        assert(t[0] == s[pos]);
        if s[pos] >= 128 {
            lemma_varint_localize(s, pos + 1);
            lemma_varint_localize(t, 1);
            assert(t.subrange(1, t.len() as int) =~= s.subrange(pos + 1, s.len() as int));
        }
    }
}

proof fn lemma_varint_encode_len_bound(v: u64, k: nat)
    requires
        1 <= k,
        (v as nat) < pow2(7 * k),
    ensures
        1 <= spec_varint_encode(v).len() <= k,
    decreases k,
{
    if v >= 128 {
        lemma2_to64();
        if k < 2 {
            assert(7 * k == 7);
            assert(false);
        }
        lemma_pow2_adds(7, (7 * (k - 1)) as nat);
        assert((v as nat) < 128 * pow2((7 * (k - 1)) as nat));
        assert(((v / 128) as nat) < pow2((7 * (k - 1)) as nat)) by (nonlinear_arith)
            requires
                (v as nat) < 128 * pow2((7 * (k - 1)) as nat),
        ;
        lemma_varint_encode_len_bound(v / 128, (k - 1) as nat);
    }
}

/// The canonical varint encoding takes one to ten bytes.
pub proof fn lemma_varint_encode_len(v: u64)
    ensures
        1 <= spec_varint_encode(v).len() <= 10,
{
    lemma2_to64();
    lemma2_to64_rest();
    lemma_pow2_adds(64, 6);
    assert((v as nat) < pow2(70));
    lemma_varint_encode_len_bound(v, 10);
}

/// Round trip: decoding the canonical varint encoding of any 64-bit value
/// yields that value back, consuming exactly the encoding.
pub proof fn lemma_varint_round_trip(v: u64)
    ensures
        ({
            let e = spec_varint_encode(v);
            spec_varint(e, 0) == Some((v, e.len() as int))
        }),
    decreases v,
{
    let e = spec_varint_encode(v);
    if v < 128 {
        assert(e[0] == v as u8);
    } else {
        let tail = spec_varint_encode(v / 128);
        lemma_varint_round_trip(v / 128);
        lemma2_to64();
        lemma2_to64_rest();
        assert(((v / 128) as nat) < pow2(63)) by (nonlinear_arith)
            requires
                v <= 0xffff_ffff_ffff_ffff && pow2(63) == 0x8000_0000_0000_0000,
        ;
        lemma_varint_encode_len_bound(v / 128, 9);
        assert(e[0] == (128 + (v % 128)) as u8);
        assert(e.subrange(1, e.len() as int) =~= tail);
        lemma_varint_localize(e, 1);
        assert(spec_varint(e, 1) == Some((v / 128, 1 + tail.len() as int)));
        lemma_fundamental_div_mod(v as int, 128);
        assert((((e[0] - 128) + 128 * ((v / 128) as int)) % 0x1_0000_0000_0000_0000) as u64 == v);
    }
}

/// Cutting a buffer strictly inside a varint leaves an unreadable varint.
pub proof fn lemma_varint_truncated(s: Seq<u8>, pos: int, k: int)
    requires
        spec_varint(s, pos) is Some,
        pos <= k < spec_varint(s, pos)->Some_0.1,
    ensures
        spec_varint(s.take(k), pos) is None,
    decreases s.len() - pos,
{
    let t = s.take(k);
    lemma_spec_varint_bounds(s, pos);
    if pos < k {
        assert(t[pos] == s[pos]);
        if s[pos] >= 128 {
            lemma_varint_truncated(s, pos + 1, k);
        }
    }
}

/// Cutting a buffer at or after the end of a varint leaves the varint read
/// unchanged.
pub proof fn lemma_varint_framed(s: Seq<u8>, pos: int, k: int)
    requires
        0 <= pos,
        spec_varint(s, pos) is Some,
        spec_varint(s, pos)->Some_0.1 <= k <= s.len(),
    ensures
        spec_varint(s.take(k), pos) == spec_varint(s, pos),
    decreases s.len() - pos,
{
    let t = s.take(k);
    lemma_spec_varint_bounds(s, pos);
    let (v, end) = spec_varint(s, pos)->Some_0;
    assert(pos < end);
    assert(pos < k);
    assert(t[pos] == s[pos]);
    if s[pos] >= 128 {
        lemma_spec_varint_bounds(s, pos + 1);
        lemma_varint_framed(s, pos + 1, k);
    }
}

/// A varint read is unchanged when more bytes follow the buffer.
pub proof fn lemma_varint_extended(s: Seq<u8>, t: Seq<u8>, pos: int)
    requires
        0 <= pos,
        spec_varint(s, pos) is Some,
    ensures
        spec_varint(s + t, pos) == spec_varint(s, pos),
    decreases s.len() - pos,
{
    lemma_spec_varint_bounds(s, pos);
    assert((s + t)[pos] == s[pos]);
    if s[pos] >= 128 {
        lemma_varint_extended(s, t, pos + 1);
    }
}

/// The wire encoding of a unit key: the field number shifted over the
/// three-bit wire type, as a varint.
pub open spec fn spec_key_encode(tag: u32, wt: u64) -> Seq<u8> {
    spec_varint_encode((8 * (tag as u64) + wt) as u64)
}

/// Round trip: a varint unit built from any field number and value reads
/// back as exactly that field number and value, consuming the whole unit.
///
/// Field numbers are 29-bit here and in the two fixed-width round trips:
/// keys are 32-bit in this format, so no key encodes a wider field number,
/// and the reader reports a wider key as `InvalidKey`.
pub proof fn lemma_varint_unit_round_trip(tag: u32, v: u64)
    requires
        1 <= tag <= 0x1fff_ffff,
    ensures
        ({
            let b = spec_key_encode(tag, 0) + spec_varint_encode(v);
            spec_unit(b, 0) == Ok::<(u32, UnitV, int), (DecodeError, Option<u32>)>((
                tag,
                UnitV::VarInt(v),
                b.len() as int,
            ))
        }),
{
    let key: u64 = (8 * (tag as u64)) as u64;
    let e1 = spec_varint_encode(key);
    let e2 = spec_varint_encode(v);
    let b = e1 + e2;
    lemma_varint_round_trip(key);
    lemma_varint_encode_len(key);
    lemma_varint_extended(e1, e2, 0);
    assert(spec_varint(b, 0) == Some((key, e1.len() as int)));
    lemma_varint_localize(b, e1.len() as int);
    assert(b.subrange(e1.len() as int, b.len() as int) =~= e2);
    lemma_varint_round_trip(v);
}

/// Round trip: a fixed 32-bit unit built from any field number and value
/// reads back as exactly that field number and bit pattern.
pub proof fn lemma_fixed32_unit_round_trip(tag: u32, x: u32)
    requires
        1 <= tag <= 0x1fff_ffff,
    ensures
        ({
            let b = spec_key_encode(tag, 5) + spec_u32_to_le_bytes(x);
            spec_unit(b, 0) == Ok::<(u32, UnitV, int), (DecodeError, Option<u32>)>((
                tag,
                UnitV::Fixed32(x),
                b.len() as int,
            ))
        }),
{
    let key: u64 = (8 * (tag as u64) + 5) as u64;
    let e1 = spec_varint_encode(key);
    lemma_auto_spec_u32_to_from_le_bytes();
    let e2 = spec_u32_to_le_bytes(x);
    let b = e1 + e2;
    lemma_varint_round_trip(key);
    lemma_varint_encode_len(key);
    lemma_varint_extended(e1, e2, 0);
    assert(spec_varint(b, 0) == Some((key, e1.len() as int)));
    assert(b.subrange(e1.len() as int, e1.len() as int + 4) =~= e2);
}

/// Round trip: a fixed 64-bit unit built from any field number and value
/// reads back as exactly that field number and bit pattern.
pub proof fn lemma_fixed64_unit_round_trip(tag: u32, x: u64)
    requires
        1 <= tag <= 0x1fff_ffff,
    ensures
        ({
            let b = spec_key_encode(tag, 1) + spec_u64_to_le_bytes(x);
            spec_unit(b, 0) == Ok::<(u32, UnitV, int), (DecodeError, Option<u32>)>((
                tag,
                UnitV::Fixed64(x),
                b.len() as int,
            ))
        }),
{
    let key: u64 = (8 * (tag as u64) + 1) as u64;
    let e1 = spec_varint_encode(key);
    lemma_auto_spec_u64_to_from_le_bytes();
    let e2 = spec_u64_to_le_bytes(x);
    let b = e1 + e2;
    lemma_varint_round_trip(key);
    lemma_varint_encode_len(key);
    lemma_varint_extended(e1, e2, 0);
    assert(spec_varint(b, 0) == Some((key, e1.len() as int)));
    assert(b.subrange(e1.len() as int, e1.len() as int + 8) =~= e2);
}

/// Round trip: reading back the four little-endian bytes of a 32-bit value
/// reproduces the exact bit pattern.
pub proof fn lemma_fixed32_round_trip(x: u32)
    ensures
        spec_u32_to_le_bytes(x).len() == 4,
        spec_u32_from_le_bytes(spec_u32_to_le_bytes(x)) == x,
{
    lemma_auto_spec_u32_to_from_le_bytes();
    assert(spec_u32_to_le_bytes(x).len() == 4);
}

/// Round trip: reading back the eight little-endian bytes of a 64-bit value
/// reproduces the exact bit pattern.
pub proof fn lemma_fixed64_round_trip(x: u64)
    ensures
        spec_u64_to_le_bytes(x).len() == 8,
        spec_u64_from_le_bytes(spec_u64_to_le_bytes(x)) == x,
{
    lemma_auto_spec_u64_to_from_le_bytes();
    assert(spec_u64_to_le_bytes(x).len() == 8);
}

} // verus!
