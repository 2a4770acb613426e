//! The canonical in-memory model of a decoded message.
//!
//! A message is an ordered list of `(tag, value)` entries.  A value carries
//! every interpretation reachable from its wire type: a varint both as the
//! raw unsigned integer and as its zig-zag decoding, a fixed-width field both
//! as the unsigned and the two's-complement signed reading of the same bits,
//! and a length-delimited field either as a nested message, or as raw bytes
//! together with their text decoding when they are valid UTF-8.
//!
//! Contracts speak about values through [`value_view`], which forgets the
//! derived interpretations, and [`value_wf`], which states that every derived
//! interpretation agrees with the primary one.

use vstd::prelude::*;
use vstd::utf8::{decode_utf8, valid_utf8};

verus! {

broadcast use vstd::std_specs::vec::group_vec_axioms;

/// A field number.  Positive; a message may repeat a tag, so a tag groups
/// occurrences rather than keying a unique field.
#[derive(Clone, Copy, PartialEq, Eq, PartialOrd, Ord, Hash, Debug, Structural)]
pub struct Tag(pub u32);

/// A decoded value, at the specification level: only the primary
/// interpretation of each wire type, since every other interpretation is a
/// function of it.
pub enum ValueV {
    VarInt(u64),
    Fixed64(u64),
    Fixed32(u32),
    Msg(Seq<(u32, ValueV)>),
    Bytes(Seq<u8>),
}

/// A decoded value with every computed interpretation.
#[derive(PartialEq, Eq, Debug)]
pub enum Value {
    VarInt { unsigned: u64, signed: i64 },
    Fixed64 { as_u64: u64, as_i64: i64 },
    Fixed32 { as_u32: u32, as_i32: i32 },
    Message(Box<Message>),
    Bytes { raw: Vec<u8>, as_str: Option<String> },
}

/// One `(tag, value)` occurrence.
#[derive(PartialEq, Eq, Debug)]
pub struct Entry {
    pub tag: Tag,
    pub value: Value,
}

/// A decoded message: its entries, in canonical order once
/// [`crate::canon::canonicalize`] has run over them.
#[derive(PartialEq, Eq, Debug)]
pub struct Message(pub Vec<Entry>);

/// The zig-zag decoding of an unsigned 64-bit integer: even values map to
/// successive non-negative integers, odd values to successive negative ones.
pub open spec fn spec_zigzag(u: u64) -> int {
    if u % 2 == 0 {
        (u / 2) as int
    } else {
        -((u / 2) as int) - 1
    }
}

/// The two's-complement reading of an unsigned 64-bit integer.
pub open spec fn spec_as_signed64(u: u64) -> int {
    if u < 0x8000_0000_0000_0000 {
        u as int
    } else {
        u - 0x1_0000_0000_0000_0000
    }
}

/// The two's-complement reading of an unsigned 32-bit integer.
pub open spec fn spec_as_signed32(u: u32) -> int {
    if u < 0x8000_0000 {
        u as int
    } else {
        u - 0x1_0000_0000
    }
}

/// What a value denotes, with the derived interpretations forgotten.
pub open spec fn value_view(v: Value) -> ValueV
    decreases v,
{
    match v {
        Value::VarInt { unsigned, signed } => ValueV::VarInt(unsigned),
        Value::Fixed64 { as_u64, as_i64 } => ValueV::Fixed64(as_u64),
        Value::Fixed32 { as_u32, as_i32 } => ValueV::Fixed32(as_u32),
        Value::Message(m) => ValueV::Msg(entries_view(m.0@)),
        Value::Bytes { raw, as_str } => ValueV::Bytes(raw@),
    }
}

/// What an entry list denotes.
pub open spec fn entries_view(es: Seq<Entry>) -> Seq<(u32, ValueV)>
    decreases es,
{
    if es.len() == 0 {
        Seq::empty()
    } else {
        seq![(es[0].tag.0, value_view(es[0].value))] + entries_view(es.drop_first())
    }
}

/// Every derived interpretation in the value agrees with the primary one:
/// `signed` is the zig-zag decoding, `as_i64`/`as_i32` are the
/// two's-complement readings, `as_str` is present exactly on valid UTF-8 and
/// is its decoding, and nested messages are well-formed throughout.
pub open spec fn value_wf(v: Value) -> bool
    decreases v,
{
    match v {
        Value::VarInt { unsigned, signed } => signed as int == spec_zigzag(unsigned),
        Value::Fixed64 { as_u64, as_i64 } => as_i64 as int == spec_as_signed64(as_u64),
        Value::Fixed32 { as_u32, as_i32 } => as_i32 as int == spec_as_signed32(as_u32),
        Value::Message(m) => entries_wf(m.0@),
        Value::Bytes { raw, as_str } => match as_str {
            Some(t) => valid_utf8(raw@) && t@ == decode_utf8(raw@),
            None => !valid_utf8(raw@),
        },
    }
}

/// Every value in the entry list is well-formed.
pub open spec fn entries_wf(es: Seq<Entry>) -> bool
    decreases es,
{
    if es.len() == 0 {
        true
    } else {
        value_wf(es[0].value) && entries_wf(es.drop_first())
    }
}

/// The denotation of an entry list is pointwise: as long as the list, with
/// the entry's tag and its value's denotation at each index.
pub proof fn lemma_entries_view(es: Seq<Entry>)
    ensures
        entries_view(es).len() == es.len(),
        forall|i: int|
            0 <= i < es.len() ==> entries_view(es)[i] == (es[i].tag.0, value_view(es[i].value)),
    decreases es.len(),
{
    if es.len() > 0 {
        lemma_entries_view(es.drop_first());
    }
}

/// An entry list is well-formed exactly when each of its values is.
pub proof fn lemma_entries_wf(es: Seq<Entry>)
    ensures
        entries_wf(es) <==> (forall|i: int|
            0 <= i < es.len() ==> value_wf(#[trigger] es[i].value)),
    decreases es.len(),
{
    if es.len() > 0 {
        lemma_entries_wf(es.drop_first());
        assert(forall|i: int|
            1 <= i < es.len() ==> es.drop_first()[i - 1] == #[trigger] es[i]);
    }
}

/// Appending an entry appends its denotation.
pub proof fn lemma_entries_view_push(es: Seq<Entry>, e: Entry)
    ensures
        entries_view(es.push(e)) == entries_view(es).push((e.tag.0, value_view(e.value))),
{
    lemma_entries_view(es.push(e));
    lemma_entries_view(es);
    assert(entries_view(es.push(e)) =~= entries_view(es).push((e.tag.0, value_view(e.value))));
}

/// Appending an entry keeps the list well-formed exactly when the entry is.
pub proof fn lemma_entries_wf_push(es: Seq<Entry>, e: Entry)
    ensures
        entries_wf(es.push(e)) <==> entries_wf(es) && value_wf(e.value),
{
    lemma_entries_wf(es);
    lemma_entries_wf(es.push(e));
    assert(forall|i: int| 0 <= i < es.len() ==> es.push(e)[i] == #[trigger] es[i]);
    assert(es.push(e)[es.len() as int] == e);
}

impl View for Message {
    type V = Seq<(u32, ValueV)>;

    open spec fn view(&self) -> Seq<(u32, ValueV)> {
        entries_view(self.0@)
    }
}

impl Message {
    /// Every value in the message, at every depth, is well-formed.
    pub open spec fn wf(&self) -> bool {
        entries_wf(self.0@)
    }
}

/// The zig-zag decoding, executably: shift out the sign bit and flip all
/// bits when it was set.  Proved to compute [`spec_zigzag`].
pub(crate) fn zigzag64(value: u64) -> (r: i64)
    ensures
        r as int == spec_zigzag(value),
{
    proof {
        assert(value >> 1 == value / 2) by (bit_vector);
        assert(value & 1 == value % 2) by (bit_vector);
        assert(value >> 1 < 0x8000_0000_0000_0000) by (bit_vector);
    }
    let shifted: i64 = (value >> 1) as i64;
    let mask: i64 = -((value & 1) as i64);
    proof {
        assert(shifted ^ 0i64 == shifted) by (bit_vector);
        assert(shifted ^ (-1i64) == -shifted - 1) by (bit_vector)
            requires
                shifted >= 0,
        ;
    }
    shifted ^ mask
}

/// The two's-complement reading of the same 64 bits, executably.
fn as_signed64(value: u64) -> (r: i64)
    ensures
        r as int == spec_as_signed64(value),
{
    if value <= 0x7fff_ffff_ffff_ffff {
        value as i64
    } else {
        -((u64::MAX - value) as i64) - 1
    }
}

/// The two's-complement reading of the same 32 bits, executably.
fn as_signed32(value: u32) -> (r: i32)
    ensures
        r as int == spec_as_signed32(value),
{
    if value <= 0x7fff_ffff {
        value as i32
    } else {
        -((u32::MAX - value) as i32) - 1
    }
}

/// Relies on `std::str::from_utf8`: it returns `Ok` exactly when the bytes
/// are valid UTF-8, and then the string's characters are their decoding
/// (stated with vstd's own UTF-8 specification).  The `to_owned` call only
/// copies the borrowed `str` into an owned `String`.
#[verifier::external_body]
pub(crate) fn bytes_as_text(raw: &[u8]) -> (r: Option<String>)
    ensures
        r is Some <==> valid_utf8(raw@),
        (r matches Some(t) ==> t@ == decode_utf8(raw@)),
{
    match std::str::from_utf8(raw) {
        Ok(text) => Some(text.to_owned()),
        Err(_) => None,
    }
}

impl Value {
    /// A varint value: the raw unsigned integer, with its zig-zag decoding
    /// computed alongside.
    pub fn varint(value: u64) -> (r: Value)
        ensures
            value_view(r) == ValueV::VarInt(value),
            value_wf(r),
    {
        Value::VarInt { unsigned: value, signed: zigzag64(value) }
    }

    /// A fixed 64-bit value: the eight little-endian bytes read unsigned,
    /// with the signed reading of the same bits computed alongside.
    pub fn fixed64(value: u64) -> (r: Value)
        ensures
            value_view(r) == ValueV::Fixed64(value),
            value_wf(r),
    {
        Value::Fixed64 { as_u64: value, as_i64: as_signed64(value) }
    }

    /// A fixed 32-bit value, as [`Value::fixed64`] for four bytes.
    pub fn fixed32(value: u32) -> (r: Value)
        ensures
            value_view(r) == ValueV::Fixed32(value),
            value_wf(r),
    {
        Value::Fixed32 { as_u32: value, as_i32: as_signed32(value) }
    }

    /// An opaque byte payload, with its text decoding populated exactly when
    /// the bytes are valid UTF-8.
    pub fn bytes(value: Vec<u8>) -> (r: Value)
        ensures
            value_view(r) == ValueV::Bytes(value@),
            value_wf(r),
    {
        let as_str: Option<String> = bytes_as_text(value.as_slice());
        Value::Bytes { raw: value, as_str }
    }
}

} // verus!
