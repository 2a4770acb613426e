//! The structural validator and the recursive message builder.
//!
//! [`decode`] consumes a buffer top to bottom.  Numeric units become values
//! directly.  For each length-delimited unit it runs [`validate_message`]
//! over the payload: a payload that is a well-formed unit sequence is decoded
//! recursively as a nested message, anything else falls back to a text/blob
//! value.  The fallback never fails, so a top-level decode fails only when
//! the buffer itself breaks the unit grammar.
//!
//! The heuristic is inherently approximate: without a schema there is no
//! marker separating a nested message from bytes that merely parse as one,
//! so any payload that happens to be a well-formed unit sequence is shown as
//! a message.  That is the accepted behavior, not a defect to correct.
//!
//! The group wire types carry no length prefix and no value; they are
//! recorded as nothing and their bodies are not skipped, so a buffer that
//! actually uses groups will read as whatever its group bodies parse as.

use vstd::prelude::*;
use vstd::slice::{slice_subrange, slice_to_vec};
use crate::canon::{canonicalize, keep_tag, lemma_canon_preserves_groups,
    lemma_canon_respects_grouping, lemma_keep_tag_contains, spec_canon};
use crate::models::{bytes_as_text, entries_view, entries_wf, lemma_entries_view_push,
    lemma_entries_wf_push, value_view, Entry, Message, Tag, Value, ValueV};
use crate::visit::Visit;
use crate::wire::{lemma_spec_unit_bounds, lemma_spec_varint_bounds, lemma_varint_framed,
    lemma_varint_truncated, lemma_varint_unit_round_trip, read_unit, spec_key_encode, spec_unit,
    spec_varint, spec_varint_encode, DecodeError, RawUnit, UnitV};

verus! {

/// Whether the bytes from `pos` on are a well-formed unit sequence: units
/// parse back to back and land exactly on the end of the buffer.  Nested
/// payloads are size-checked but not themselves validated.
pub open spec fn spec_validate(s: Seq<u8>, pos: int) -> bool
    decreases s.len() - pos,
{
    if pos >= s.len() {
        true
    } else {
        match spec_unit(s, pos) {
            Err(_) => false,
            Ok((tag, u, end)) => {
                if pos < end && end <= s.len() {
                    spec_validate(s, end)
                } else {
                    false
                }
            },
        }
    }
}

/// What decoding the bytes from `pos` on denotes: the entry list in
/// encounter order, with nested messages already canonical, or the error
/// that stops the pass.  Group markers record no entry.
pub open spec fn spec_decode(s: Seq<u8>, pos: int) -> Result<Seq<(u32, ValueV)>, (
    DecodeError,
    Option<u32>,
    int,
)>
    decreases s.len() - pos, 0int,
{
    if pos >= s.len() {
        Ok(Seq::empty())
    } else {
        match spec_unit(s, pos) {
            Err((e, t)) => Err((e, t, pos)),
            Ok((tag, u, end)) => {
                if !(pos < end && end <= s.len()) {
                    // Unreachable: see `lemma_spec_unit_bounds`.
                    Err((DecodeError::TruncatedVarint, None, pos))
                } else {
                    match spec_decode(s, end) {
                        Err(e) => Err(e),
                        Ok(rest) => match u {
                            UnitV::VarInt(v) => Ok(seq![(tag, ValueV::VarInt(v))] + rest),
                            UnitV::Fixed32(v) => Ok(seq![(tag, ValueV::Fixed32(v))] + rest),
                            UnitV::Fixed64(v) => Ok(seq![(tag, ValueV::Fixed64(v))] + rest),
                            UnitV::StartGroup => Ok(rest),
                            UnitV::EndGroup => Ok(rest),
                            UnitV::Delimited(ps, pe) => {
                                if !(pos <= ps && ps <= pe && pe <= s.len() && pe - ps < s.len()
                                    - pos) {
                                    // Unreachable: see `lemma_spec_unit_bounds`.
                                    Err((DecodeError::TruncatedVarint, None, pos))
                                } else {
                                    Ok(
                                        seq![(tag, spec_payload_value(s.subrange(ps, pe)))]
                                            + rest,
                                    )
                                }
                            },
                        },
                    }
                }
            },
        }
    }
}

/// How a length-delimited payload is interpreted: a nested message when it
/// validates, raw bytes otherwise.
pub open spec fn spec_payload_value(payload: Seq<u8>) -> ValueV
    decreases payload.len(), 1int,
{
    if spec_validate(payload, 0) {
        match spec_decode(payload, 0) {
            Ok(es) => ValueV::Msg(spec_canon(es)),
            // Unreachable: see `lemma_validate_decodes`.
            Err(_) => ValueV::Bytes(payload),
        }
    } else {
        ValueV::Bytes(payload)
    }
}

/// Whether a value is, or contains at any depth, a text/blob fallback — the
/// one kind of value whose visitor callbacks (`string`, `bytes`) may refuse.
pub open spec fn value_has_fallback(v: ValueV) -> bool
    decreases v,
{
    match v {
        ValueV::Bytes(b) => true,
        ValueV::Msg(es) => has_fallback_value(es),
        ValueV::VarInt(x) => false,
        ValueV::Fixed32(x) => false,
        ValueV::Fixed64(x) => false,
    }
}

/// Whether any entry of the list holds a fallback value at any depth.
pub open spec fn has_fallback_value(es: Seq<(u32, ValueV)>) -> bool
    decreases es,
{
    if es.len() == 0 {
        false
    } else {
        value_has_fallback(es[0].1) || has_fallback_value(es.drop_first())
    }
}

/// An entry list holds a fallback exactly when some entry's value does.
pub proof fn lemma_has_fallback_char(es: Seq<(u32, ValueV)>)
    ensures
        has_fallback_value(es) <==> (exists|i: int|
            0 <= i < es.len() && value_has_fallback((#[trigger] es[i]).1)),
    decreases es.len(),
{
    if es.len() > 0 {
        lemma_has_fallback_char(es.drop_first());
        assert(forall|i: int| 1 <= i < es.len() ==> es.drop_first()[i - 1] == #[trigger] es[i]);
        if has_fallback_value(es.drop_first()) {
            let j = choose|j: int|
                0 <= j < es.drop_first().len() && value_has_fallback(
                    (#[trigger] es.drop_first()[j]).1,
                );
            assert(value_has_fallback(es[j + 1].1));
        }
        if exists|i: int| 0 <= i < es.len() && value_has_fallback((#[trigger] es[i]).1) {
            let i = choose|i: int| 0 <= i < es.len() && value_has_fallback((#[trigger] es[i]).1);
            if i > 0 {
                assert(value_has_fallback(es.drop_first()[i - 1].1));
            }
        }
    }
}

/// Canonical reordering neither adds nor removes fallback values: the
/// canonical form holds one exactly when the original entries do.
pub proof fn lemma_canon_preserves_fallback(s: Seq<(u32, ValueV)>)
    ensures
        has_fallback_value(spec_canon(s)) <==> has_fallback_value(s),
{
    lemma_has_fallback_char(s);
    lemma_has_fallback_char(spec_canon(s));
    if has_fallback_value(spec_canon(s)) {
        let i = choose|i: int|
            0 <= i < spec_canon(s).len() && value_has_fallback((#[trigger] spec_canon(s)[i]).1);
        let e = spec_canon(s)[i];
        assert(spec_canon(s).contains(e));
        lemma_keep_tag_contains(spec_canon(s), e.0, e);
        lemma_canon_preserves_groups(s, e.0);
        lemma_keep_tag_contains(s, e.0, e);
        let j = choose|j: int| 0 <= j < s.len() && s[j] == e;
        assert(value_has_fallback(s[j].1));
    }
    if has_fallback_value(s) {
        let i = choose|i: int| 0 <= i < s.len() && value_has_fallback((#[trigger] s[i]).1);
        let e = s[i];
        assert(s.contains(e));
        lemma_keep_tag_contains(s, e.0, e);
        lemma_canon_preserves_groups(s, e.0);
        lemma_keep_tag_contains(spec_canon(s), e.0, e);
        let j = choose|j: int| 0 <= j < spec_canon(s).len() && spec_canon(s)[j] == e;
        assert(value_has_fallback(spec_canon(s)[j].1));
    }
}

/// A payload that validates also decodes: validation applies exactly the
/// unit rules that the decode pass applies, and the fallback below the top
/// level never fails.
pub proof fn lemma_validate_decodes(s: Seq<u8>, pos: int)
    requires
        0 <= pos,
        spec_validate(s, pos),
    ensures
        spec_decode(s, pos) is Ok,
    decreases s.len() - pos,
{
    if pos < s.len() {
        lemma_spec_unit_bounds(s, pos);
        let (tag, u, end) = spec_unit(s, pos)->Ok_0;
        lemma_validate_decodes(s, end);
    }
}

/// One step of the decode denotation, with the bounds of a parsed unit
/// already discharged.
pub proof fn lemma_spec_decode_step(s: Seq<u8>, pos: int)
    requires
        0 <= pos < s.len(),
        spec_unit(s, pos) is Ok,
    ensures
        ({
            let (tag, u, end) = spec_unit(s, pos)->Ok_0;
            spec_decode(s, pos) == match spec_decode(s, end) {
                Err(e) => Err::<Seq<(u32, ValueV)>, (DecodeError, Option<u32>, int)>(e),
                Ok(rest) => match u {
                    UnitV::VarInt(v) => Ok(seq![(tag, ValueV::VarInt(v))] + rest),
                    UnitV::Fixed32(v) => Ok(seq![(tag, ValueV::Fixed32(v))] + rest),
                    UnitV::Fixed64(v) => Ok(seq![(tag, ValueV::Fixed64(v))] + rest),
                    UnitV::StartGroup => Ok(rest),
                    UnitV::EndGroup => Ok(rest),
                    UnitV::Delimited(ps, pe) => Ok(
                        seq![(tag, spec_payload_value(s.subrange(ps, pe)))] + rest,
                    ),
                },
            }
        }),
{
    lemma_spec_unit_bounds(s, pos);
}

/// Round trip: a buffer holding one encoded varint field decodes to the
/// message with exactly that field — the tag and both numeric
/// interpretations reproduced, since the decoder's value carries the
/// unsigned reading and its well-formedness pins the zig-zag reading to it.
pub proof fn lemma_varint_decode_round_trip(tag: u32, v: u64)
    requires
        1 <= tag <= 0x1fff_ffff,
    ensures
        ({
            let b = spec_key_encode(tag, 0) + spec_varint_encode(v);
            spec_decode(b, 0) == Ok::<Seq<(u32, ValueV)>, (DecodeError, Option<u32>, int)>(
                seq![(tag, ValueV::VarInt(v))],
            )
        }),
{
    let b = spec_key_encode(tag, 0) + spec_varint_encode(v);
    lemma_varint_unit_round_trip(tag, v);
    lemma_spec_decode_step(b, 0);
    assert(spec_decode(b, b.len() as int) == Ok::<Seq<(u32, ValueV)>, (
        DecodeError,
        Option<u32>,
        int,
    )>(Seq::empty()));
    assert(seq![(tag, ValueV::VarInt(v))] + Seq::<(u32, ValueV)>::empty() =~= seq![
        (tag, ValueV::VarInt(v)),
    ]);
}

/// Two buffers that decode to the same per-tag groups — the same
/// occurrences of every tag, in the same relative order — decode to equal
/// canonical models, however the groups are ordered against each other.
pub proof fn lemma_decode_respects_grouping(b1: Seq<u8>, b2: Seq<u8>)
    requires
        spec_decode(b1, 0) is Ok,
        spec_decode(b2, 0) is Ok,
        forall|t: u32| #[trigger] keep_tag(spec_decode(b1, 0)->Ok_0, t) == keep_tag(
            spec_decode(b2, 0)->Ok_0,
            t,
        ),
    ensures
        spec_canon(spec_decode(b1, 0)->Ok_0) == spec_canon(spec_decode(b2, 0)->Ok_0),
{
    lemma_canon_respects_grouping(spec_decode(b1, 0)->Ok_0, spec_decode(b2, 0)->Ok_0);
}

/// Truncation terminates with an error: cutting a buffer that holds one
/// complete unit anywhere strictly inside it leaves a buffer whose decode
/// reports an error.  (Decoding itself is total — it never panics and
/// always terminates, on this and every other input — so truncated input
/// is rejected, not mishandled.)
pub proof fn lemma_unit_prefix_errs(s: Seq<u8>, k: int)
    requires
        spec_unit(s, 0) is Ok,
        spec_unit(s, 0)->Ok_0.2 == s.len(),
        1 <= k < s.len(),
    ensures
        spec_decode(s.take(k), 0) is Err,
{
    let t = s.take(k);
    lemma_spec_unit_bounds(s, 0);
    lemma_spec_varint_bounds(s, 0);
    let (key, kp) = spec_varint(s, 0)->Some_0;
    if k < kp {
        lemma_varint_truncated(s, 0, k);
    } else {
        lemma_varint_framed(s, 0, k);
        let wt = key % 8;
        if wt == 0 {
            lemma_varint_truncated(s, kp, k);
        } else if wt == 2 {
            lemma_spec_varint_bounds(s, kp);
            let (len, dp) = spec_varint(s, kp)->Some_0;
            if k < dp {
                lemma_varint_truncated(s, kp, k);
            } else {
                lemma_varint_framed(s, kp, k);
            }
        }
    }
}

/// Checks whether the buffer is a well-formed unit sequence, in one linear
/// pass that interprets no values and recurses into nothing.
pub fn validate_message(buffer: &[u8]) -> (r: bool)
    ensures
        r == spec_validate(buffer@, 0),
{
    let mut pos: usize = 0;
    while pos < buffer.len()
        invariant
            pos <= buffer@.len(),
            spec_validate(buffer@, 0) == spec_validate(buffer@, pos as int),
        decreases buffer@.len() - pos,
    {
        match read_unit(buffer, pos) {
            Err(_) => {
                return false;
            },
            Ok((_, _, end)) => {
                pos = end;
            },
        }
    }
    true
}

/// Why and where a decode failed: the error, the offset of the unit whose
/// read raised it, and the field number of that unit when the key had been
/// read far enough to know it.
///
/// Failures surface only from the top-level pass — a failing nested payload
/// falls back to a text/blob value instead — so the offset is an index into
/// the decoded buffer itself.
#[derive(Clone, Copy, PartialEq, Eq, Structural, Debug)]
pub struct DecodeFailure {
    pub error: DecodeError,
    pub tag: Option<u32>,
    pub offset: usize,
}

/// Decodes the buffer into its canonical message tree.
///
/// On success the returned message is the canonical form of the buffer's
/// entries — tags ascending, same-tag occurrences in encounter order, nested
/// messages canonical throughout — with every derived interpretation
/// well-formed.  On failure the buffer itself breaks the unit grammar, and
/// the error says how; a decode never panics and always terminates.
///
/// Recursion depth is bounded by the input: every nesting level costs at
/// least two header bytes, so the decoder recurses at most half the buffer
/// length deep (the measure the termination proof checks shrinks by two per
/// level).  A caller embedding this in a long-running service bounds stack
/// use by bounding input size, or calls [`decode_guarded`].
pub fn decode(buffer: &[u8]) -> (r: Result<Message, DecodeFailure>)
    ensures
        (r matches Ok(m) ==> spec_decode(buffer@, 0) matches Ok(es) && m@ == spec_canon(es)
            && m.wf()),
        (r matches Err(f) ==> spec_decode(buffer@, 0) == Err::<
            Seq<(u32, ValueV)>,
            (DecodeError, Option<u32>, int),
        >((f.error, f.tag, f.offset as int))),
    decreases buffer@.len(),
{
    let mut entries: Vec<Entry> = Vec::new();
    let mut pos: usize = 0;
    proof {
        assert(entries_view(entries@) =~= Seq::<(u32, ValueV)>::empty());
    }
    while pos < buffer.len()
        invariant
            pos <= buffer@.len(),
            entries_wf(entries@),
            match spec_decode(buffer@, pos as int) {
                Ok(rest) => spec_decode(buffer@, 0) == Ok::<
                    Seq<(u32, ValueV)>,
                    (DecodeError, Option<u32>, int),
                >(entries_view(entries@) + rest),
                Err(e) => spec_decode(buffer@, 0) == Err::<
                    Seq<(u32, ValueV)>,
                    (DecodeError, Option<u32>, int),
                >(e),
            },
        decreases buffer@.len() - pos,
    {
        match read_unit(buffer, pos) {
            Err((e, t)) => {
                return Err(DecodeFailure { error: e, tag: t, offset: pos });
            },
            Ok((tag, unit, end)) => {
                proof {
                    lemma_spec_unit_bounds(buffer@, pos as int);
                    lemma_spec_decode_step(buffer@, pos as int);
                }
                let value_opt: Option<Value> = match unit {
                    RawUnit::Varint(v) => Some(Value::varint(v)),
                    RawUnit::Fixed32(v) => Some(Value::fixed32(v)),
                    RawUnit::Fixed64(v) => Some(Value::fixed64(v)),
                    RawUnit::StartGroup => None,
                    RawUnit::EndGroup => None,
                    RawUnit::Delimited { start, end: pend } => {
                        let payload: &[u8] = slice_subrange(buffer, start, pend);
                        if validate_message(payload) {
                            match decode(payload) {
                                Ok(m) => Some(Value::Message(Box::new(m))),
                                Err(_) => {
                                    // Defensive: a validated payload also
                                    // decodes, so this fallback is provably
                                    // never taken, but the bytes reading is
                                    // still the right answer if it were.
                                    Some(Value::bytes(slice_to_vec(payload)))
                                },
                            }
                        } else {
                            Some(Value::bytes(slice_to_vec(payload)))
                        }
                    },
                };
                let ghost unit_entries: Seq<(u32, ValueV)> = if value_opt is Some {
                    seq![(tag, value_view(value_opt->Some_0))]
                } else {
                    Seq::empty()
                };
                proof {
                    if spec_decode(buffer@, end as int) is Ok {
                        let rest = spec_decode(buffer@, end as int)->Ok_0;
                        assert(spec_decode(buffer@, pos as int) == Ok::<
                            Seq<(u32, ValueV)>,
                            (DecodeError, Option<u32>, int),
                        >(unit_entries + rest));
                    }
                }
                match value_opt {
                    Some(value) => {
                        proof {
                            lemma_entries_view_push(entries@, Entry { tag: Tag(tag), value });
                            lemma_entries_wf_push(entries@, Entry { tag: Tag(tag), value });
                            if spec_decode(buffer@, end as int) is Ok {
                                let rest = spec_decode(buffer@, end as int)->Ok_0;
                                assert(entries_view(entries@) + (unit_entries + rest)
                                    =~= entries_view(entries@.push(
                                    Entry { tag: Tag(tag), value },
                                )) + rest);
                            }
                        }
                        entries.push(Entry { tag: Tag(tag), value });
                    },
                    None => {
                        proof {
                            if spec_decode(buffer@, end as int) is Ok {
                                let rest = spec_decode(buffer@, end as int)->Ok_0;
                                assert(entries_view(entries@) + (unit_entries + rest)
                                    =~= entries_view(entries@) + rest);
                            }
                        }
                    },
                }
                pos = end;
            },
        }
    }
    proof {
        assert(entries_view(entries@) + Seq::<(u32, ValueV)>::empty() =~= entries_view(
            entries@,
        ));
    }
    let ces: Vec<Entry> = canonicalize(entries);
    Ok(Message(ces))
}

/// Decodes with an explicit nesting guard: the defensive depth bound for
/// callers that cannot trust their input's size.
///
/// A nested message costs at least two bytes of header per level, so a
/// buffer can nest at most half its length deep; the guard rejects any
/// buffer whose worst-case depth exceeds `max_depth` before decoding, and
/// otherwise behaves exactly as [`decode`].
pub fn decode_guarded(buffer: &[u8], max_depth: usize) -> (r: Option<
    Result<Message, DecodeFailure>,
>)
    ensures
        (r is Some <==> buffer@.len() / 2 <= max_depth),
        (r matches Some(inner) ==> match inner {
            Ok(m) => spec_decode(buffer@, 0) matches Ok(es) && m@ == spec_canon(es) && m.wf(),
            Err(f) => spec_decode(buffer@, 0) == Err::<
                Seq<(u32, ValueV)>,
                (DecodeError, Option<u32>, int),
            >((f.error, f.tag, f.offset as int)),
        }),
{
    if buffer.len() / 2 > max_depth {
        None
    } else {
        Some(decode(buffer))
    }
}

/// How a visitor-driven walk can end early.
#[derive(Clone, Copy, PartialEq, Eq, Structural, Debug)]
pub enum InspectError {
    /// The buffer broke the unit grammar.
    Decode(DecodeFailure),
    /// The visitor refused a string or bytes field.
    Visitor,
}

/// Walks the buffer unit by unit, feeding each field to the visitor in
/// encounter order; a nested message is bracketed by `start_message` and
/// `end_message` and walked recursively, with the same message-vs-text-vs-
/// blob decision as [`decode`].
///
/// The walk succeeds on exactly the buffers whose decode succeeds, except
/// that the visitor may refuse first.
pub fn inspect<V: Visit>(buffer: &[u8], visit: &mut V) -> (r: Result<(), InspectError>)
    ensures
        (r is Ok ==> spec_decode(buffer@, 0) is Ok),
        (r matches Err(e) ==> match e {
            InspectError::Decode(f) => spec_decode(buffer@, 0) == Err::<
                Seq<(u32, ValueV)>,
                (DecodeError, Option<u32>, int),
            >((f.error, f.tag, f.offset as int)),
            InspectError::Visitor => true,
        }),
        (spec_decode(buffer@, 0) matches Ok(es) && !has_fallback_value(es) ==> r is Ok),
    decreases buffer@.len(),
{
    let mut pos: usize = 0;
    while pos < buffer.len()
        invariant
            pos <= buffer@.len(),
            match spec_decode(buffer@, pos as int) {
                Ok(rest) => spec_decode(buffer@, 0) is Ok,
                Err(e) => spec_decode(buffer@, 0) == Err::<
                    Seq<(u32, ValueV)>,
                    (DecodeError, Option<u32>, int),
                >(e),
            },
            (spec_decode(buffer@, 0) matches Ok(es0) && !has_fallback_value(es0) ==> (
            spec_decode(buffer@, pos as int) matches Ok(rest) && !has_fallback_value(rest))),
        decreases buffer@.len() - pos,
    {
        match read_unit(buffer, pos) {
            Err((e, t)) => {
                return Err(InspectError::Decode(DecodeFailure { error: e, tag: t, offset: pos }));
            },
            Ok((tag, unit, end)) => {
                proof {
                    lemma_spec_unit_bounds(buffer@, pos as int);
                    lemma_spec_decode_step(buffer@, pos as int);
                }
                match unit {
                    RawUnit::Varint(v) => visit.varint(tag, v),
                    RawUnit::Fixed32(v) => visit.fixed32(tag, v),
                    RawUnit::Fixed64(v) => visit.fixed64(tag, v),
                    RawUnit::StartGroup => visit.start_group(tag),
                    RawUnit::EndGroup => visit.end_group(tag),
                    RawUnit::Delimited { start, end: pend } => {
                        let payload: &[u8] = slice_subrange(buffer, start, pend);
                        if validate_message(payload) {
                            visit.start_message(tag);
                            match inspect(payload, visit) {
                                Ok(()) => {},
                                Err(InspectError::Visitor) => {
                                    proof {
                                        // Under a fallback-free denotation the
                                        // nested walk cannot have refused.
                                        if spec_decode(buffer@, 0) matches Ok(es0)
                                            && !has_fallback_value(es0) {
                                            let restp = spec_decode(buffer@, pos as int)->Ok_0;
                                            lemma_validate_decodes(payload@, 0);
                                            let es2 = spec_decode(payload@, 0)->Ok_0;
                                            assert(restp[0].1 == ValueV::Msg(spec_canon(es2)));
                                            lemma_has_fallback_char(restp);
                                            assert(!value_has_fallback(restp[0].1));
                                            lemma_canon_preserves_fallback(es2);
                                            assert(!has_fallback_value(es2));
                                            assert(false);
                                        }
                                    }
                                    return Err(InspectError::Visitor);
                                },
                                Err(InspectError::Decode(d)) => {
                                    proof {
                                        lemma_validate_decodes(payload@, 0);
                                        assert(false);
                                    }
                                },
                            }
                            visit.end_message(tag);
                        } else {
                            proof {
                                // The unit's denotation is a fallback value,
                                // so a fallback-free denotation rules this
                                // branch out entirely.
                                if spec_decode(buffer@, 0) matches Ok(es0)
                                    && !has_fallback_value(es0) {
                                    let restp = spec_decode(buffer@, pos as int)->Ok_0;
                                    assert(restp[0].1 == ValueV::Bytes(payload@));
                                    lemma_has_fallback_char(restp);
                                    assert(false);
                                }
                            }
                            match bytes_as_text(payload) {
                                Some(text) => {
                                    match visit.string(tag, text.as_str()) {
                                        Ok(_) => {},
                                        Err(_) => {
                                            return Err(InspectError::Visitor);
                                        },
                                    }
                                },
                                None => {
                                    match visit.bytes(tag, payload) {
                                        Ok(_) => {},
                                        Err(_) => {
                                            return Err(InspectError::Visitor);
                                        },
                                    }
                                },
                            }
                        }
                    },
                }
                proof {
                    if spec_decode(buffer@, 0) matches Ok(es0) && !has_fallback_value(es0) {
                        let restp = spec_decode(buffer@, pos as int)->Ok_0;
                        let rest_end = spec_decode(buffer@, end as int)->Ok_0;
                        lemma_has_fallback_char(restp);
                        lemma_has_fallback_char(rest_end);
                        let off = restp.len() - rest_end.len();
                        assert forall|i: int|
                            0 <= i < rest_end.len() implies !value_has_fallback(
                            (#[trigger] rest_end[i]).1) by {
                            assert(restp[i + off] == rest_end[i]);
                        }
                    }
                }
                pos = end;
            },
        }
    }
    Ok(())
}

} // verus!
