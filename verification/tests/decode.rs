use wirescope::canon::canonicalize;
use wirescope::inspect::{decode, decode_guarded, inspect, validate_message, DecodeFailure, InspectError};
use wirescope::inspector::Inspector;
use wirescope::models::{Entry, Message, Tag, Value};
use wirescope::visit::Visit;
use wirescope::wire::DecodeError;

#[derive(Default)]
struct Recorder {
    events: Vec<String>,
    refuse_strings: bool,
}

impl Visit for Recorder {
    fn varint(&mut self, tag: u32, value: u64) {
        self.events.push(format!("varint {tag} {value}"));
    }

    fn fixed32(&mut self, tag: u32, value: u32) {
        self.events.push(format!("fixed32 {tag} {value}"));
    }

    fn fixed64(&mut self, tag: u32, value: u64) {
        self.events.push(format!("fixed64 {tag} {value}"));
    }

    fn string(&mut self, tag: u32, value: &str) -> Result<(), ()> {
        if self.refuse_strings {
            return Err(());
        }
        self.events.push(format!("string {tag} {value}"));
        Ok(())
    }

    fn bytes(&mut self, tag: u32, value: &[u8]) -> Result<(), ()> {
        self.events.push(format!("bytes {tag} {}", value.len()));
        Ok(())
    }

    fn start_group(&mut self, tag: u32) {
        self.events.push(format!("start_group {tag}"));
    }

    fn end_group(&mut self, tag: u32) {
        self.events.push(format!("end_group {tag}"));
    }

    fn start_message(&mut self, tag: u32) {
        self.events.push(format!("start_message {tag}"));
    }

    fn end_message(&mut self, tag: u32) {
        self.events.push(format!("end_message {tag}"));
    }
}

fn varint_entry(tag: u32, unsigned: u64, signed: i64) -> Entry {
    Entry { tag: Tag(tag), value: Value::VarInt { unsigned, signed } }
}

#[test]
fn empty_buffer_is_an_empty_message() {
    let m = decode(&[]).unwrap();
    assert_eq!(m.0.len(), 0);
}

#[test]
fn varint_round_trip_values() {
    // Tag 1, varint 150 (0x96 0x01 on the wire).
    let m = decode(&[0x08, 0x96, 0x01]).unwrap();
    assert_eq!(m, Message(vec![varint_entry(1, 150, 75)]));
}

#[test]
fn varint_maximum_value() {
    // Ten-byte varint holding u64::MAX; its zig-zag reading is i64::MIN.
    let buf = [0x08, 0xFF, 0xFF, 0xFF, 0xFF, 0xFF, 0xFF, 0xFF, 0xFF, 0xFF, 0x01];
    let m = decode(&buf).unwrap();
    assert_eq!(m, Message(vec![varint_entry(1, u64::MAX, i64::MIN)]));
}

#[test]
fn fixed32_reproduces_every_interpretation() {
    // Tag 1, fixed32 holding the bits of 1.0f32.
    let m = decode(&[0x0D, 0x00, 0x00, 0x80, 0x3F]).unwrap();
    match &m.0[..] {
        [Entry { tag: Tag(1), value: Value::Fixed32 { as_u32, as_i32 } }] => {
            assert_eq!(*as_u32, 0x3F80_0000);
            assert_eq!(*as_i32, 0x3F80_0000_i32);
            assert_eq!(f32::from_bits(*as_u32), 1.0f32);
        }
        other => panic!("unexpected entries: {other:?}"),
    }
}

#[test]
fn fixed64_reproduces_every_interpretation() {
    // Tag 2, fixed64 holding all-ones bits: unsigned max, signed -1.
    let m = decode(&[0x11, 0xFF, 0xFF, 0xFF, 0xFF, 0xFF, 0xFF, 0xFF, 0xFF]).unwrap();
    match &m.0[..] {
        [Entry { tag: Tag(2), value: Value::Fixed64 { as_u64, as_i64 } }] => {
            assert_eq!(*as_u64, u64::MAX);
            assert_eq!(*as_i64, -1_i64);
            assert!(f64::from_bits(*as_u64).is_nan());
        }
        other => panic!("unexpected entries: {other:?}"),
    }
}

#[test]
fn nested_message_round_trip() {
    // Tag 1, length-delimited, 4 bytes: tag 1 varint 1, tag 2 varint 2.
    let m = decode(&[0x0A, 0x04, 0x08, 0x01, 0x10, 0x02]).unwrap();
    let expected = Message(vec![Entry {
        tag: Tag(1),
        value: Value::Message(Box::new(Message(vec![
            varint_entry(1, 1, -1),
            varint_entry(2, 2, 1),
        ]))),
    }]);
    assert_eq!(m, expected);
}

#[test]
fn zigzag_scenarios() {
    let m = decode(&[0x08, 0x02]).unwrap();
    assert_eq!(m, Message(vec![varint_entry(1, 2, 1)]));
    let m = decode(&[0x08, 0x01]).unwrap();
    assert_eq!(m, Message(vec![varint_entry(1, 1, -1)]));
}

#[test]
fn zigzag_by_hand() {
    assert_eq!(Inspector::from_uint64(0), 0);
    assert_eq!(Inspector::from_uint64(1), -1);
    assert_eq!(Inspector::from_uint64(2), 1);
    assert_eq!(Inspector::from_uint64(3), -2);
    assert_eq!(Inspector::from_uint64(4), 2);
    assert_eq!(Inspector::from_uint64(u64::MAX), i64::MIN);
}

#[test]
fn text_fallback_keeps_the_string() {
    // "hello" is not a well-formed unit sequence (its final byte would be
    // wire type 7), so the payload falls back to text.
    let m = decode(&[0x0A, 0x05, b'h', b'e', b'l', b'l', b'o']).unwrap();
    match &m.0[..] {
        [Entry { tag: Tag(1), value: Value::Bytes { raw, as_str } }] => {
            assert_eq!(raw.as_slice(), b"hello");
            assert_eq!(as_str.as_deref(), Some("hello"));
        }
        other => panic!("unexpected entries: {other:?}"),
    }
}

#[test]
fn blob_fallback_keeps_raw_bytes_only() {
    // Four 0xFF bytes: neither a unit sequence nor UTF-8.
    let m = decode(&[0x0A, 0x04, 0xFF, 0xFF, 0xFF, 0xFF]).unwrap();
    match &m.0[..] {
        [Entry { tag: Tag(1), value: Value::Bytes { raw, as_str } }] => {
            assert_eq!(raw.as_slice(), &[0xFF, 0xFF, 0xFF, 0xFF][..]);
            assert_eq!(*as_str, None);
        }
        other => panic!("unexpected entries: {other:?}"),
    }
}

#[test]
fn decoding_twice_gives_equal_models() {
    let buf = [0x0A, 0x04, 0x08, 0x01, 0x10, 0x02, 0x08, 0x2A];
    assert_eq!(decode(&buf).unwrap(), decode(&buf).unwrap());
}

#[test]
fn tag_group_order_does_not_matter() {
    // Two tag-1 varints then a tag-2 varint, against the tag-2 varint first;
    // each buffer keeps its same-tag occurrences adjacent.
    let b1 = [0x08, 0x01, 0x08, 0x02, 0x10, 0x03];
    let b2 = [0x10, 0x03, 0x08, 0x01, 0x08, 0x02];
    assert_eq!(decode(&b1).unwrap(), decode(&b2).unwrap());
}

#[test]
fn canonical_order_sorts_tags_and_keeps_occurrence_order() {
    let entries = vec![
        varint_entry(3, 30, 15),
        varint_entry(1, 10, 5),
        varint_entry(3, 31, -16),
        varint_entry(2, 20, 10),
        varint_entry(1, 11, -6),
    ];
    let canonical = canonicalize(entries);
    let tags: Vec<u32> = canonical.iter().map(|e| e.tag.0).collect();
    assert_eq!(tags, vec![1, 1, 2, 3, 3]);
    // Stability: occurrences of one tag stay in encounter order.
    assert_eq!(canonical[0], varint_entry(1, 10, 5));
    assert_eq!(canonical[1], varint_entry(1, 11, -6));
    assert_eq!(canonical[3], varint_entry(3, 30, 15));
    assert_eq!(canonical[4], varint_entry(3, 31, -16));
}

#[test]
fn canonicalize_is_idempotent_on_values() {
    let build = || vec![varint_entry(2, 1, -1), varint_entry(1, 2, 1), varint_entry(2, 3, -2)];
    let once = canonicalize(build());
    let twice = canonicalize(canonicalize(build()));
    assert_eq!(once, twice);
    // And differs from the raw encounter order.
    assert_ne!(once, build());
}

#[test]
fn truncated_prefixes_all_error() {
    // Every proper non-empty prefix of a valid single-unit buffer fails.
    let buf = [0x0A, 0x04, 0x08, 0x01, 0x10, 0x02];
    for len in 1..buf.len() {
        assert!(decode(&buf[..len]).is_err(), "prefix of length {len} decoded");
    }
}

#[test]
fn truncated_varint_is_reported() {
    assert_eq!(decode(&[0x08]), Err(DecodeFailure { error: DecodeError::TruncatedVarint, tag: Some(1), offset: 0 }));
    assert_eq!(decode(&[0xFF, 0xFF]), Err(DecodeFailure { error: DecodeError::TruncatedVarint, tag: None, offset: 0 }));
}

#[test]
fn varint_longer_than_ten_bytes_is_reported() {
    let buf = [0x08, 0xFF, 0xFF, 0xFF, 0xFF, 0xFF, 0xFF, 0xFF, 0xFF, 0xFF, 0xFF, 0x01];
    assert_eq!(decode(&buf), Err(DecodeFailure { error: DecodeError::TruncatedVarint, tag: Some(1), offset: 0 }));
}

#[test]
fn truncated_fixed_is_reported() {
    assert_eq!(decode(&[0x0D, 0x01, 0x02]), Err(DecodeFailure { error: DecodeError::TruncatedFixed, tag: Some(1), offset: 0 }));
    assert_eq!(decode(&[0x11, 0x01, 0x02, 0x03, 0x04]), Err(DecodeFailure { error: DecodeError::TruncatedFixed, tag: Some(2), offset: 0 }));
}

#[test]
fn truncated_length_is_reported() {
    // Declared payload length 5, only one byte left.
    assert_eq!(decode(&[0x0A, 0x05, 0x01]), Err(DecodeFailure { error: DecodeError::TruncatedLength, tag: Some(1), offset: 0 }));
}

#[test]
fn unknown_wire_type_is_reported() {
    // Key 0x0E: tag 1, wire type 6.
    assert_eq!(decode(&[0x0E]), Err(DecodeFailure { error: DecodeError::UnknownWireType, tag: Some(1), offset: 0 }));
}

#[test]
fn invalid_key_is_reported() {
    // Field number zero.
    assert_eq!(decode(&[0x00]), Err(DecodeFailure { error: DecodeError::InvalidKey, tag: None, offset: 0 }));
    // Key wider than 32 bits.
    let buf = [0x80, 0x80, 0x80, 0x80, 0x80, 0x01];
    assert_eq!(decode(&buf), Err(DecodeFailure { error: DecodeError::InvalidKey, tag: None, offset: 0 }));
}

#[test]
fn group_markers_record_no_value() {
    // Tag 1 start-group, tag 1 end-group: decodes, but holds no entries.
    let m = decode(&[0x0B, 0x0C]).unwrap();
    assert_eq!(m.0.len(), 0);
}

#[test]
fn validate_message_accepts_and_rejects() {
    assert!(validate_message(&[]));
    assert!(validate_message(&[0x08, 0x01, 0x10, 0x02]));
    assert!(validate_message(&[0x0B, 0x0C]));
    assert!(!validate_message(&[0x08]));
    assert!(!validate_message(&[0x0E]));
    assert!(!validate_message(b"hello"));
}

#[test]
fn value_bytes_decodes_text() {
    // The UTF-8 check really looks at the bytes: text comes back decoded,
    // and invalid bytes yield no text.
    match Value::bytes(vec![0x68, 0x69]) {
        Value::Bytes { raw, as_str } => {
            assert_eq!(raw, vec![0x68, 0x69]);
            assert_eq!(as_str.as_deref(), Some("hi"));
        }
        other => panic!("unexpected value: {other:?}"),
    }
    match Value::bytes(vec![0xC0, 0x80]) {
        Value::Bytes { as_str, .. } => assert_eq!(as_str, None),
        other => panic!("unexpected value: {other:?}"),
    }
}

#[test]
fn inspector_path_follows_the_walk() {
    let mut inspector = Inspector::new();
    assert!(inspector.path().is_empty());
    inspector.start_message(3);
    inspector.start_message(7);
    assert_eq!(inspector.path(), &vec![3, 7]);
    inspector.end_message();
    assert_eq!(inspector.path(), &vec![3]);
    inspector.end_message();
    assert!(inspector.path().is_empty());
    // Popping past the top level stays at the empty path.
    inspector.end_message();
    assert!(inspector.path().is_empty());
}

#[test]
fn deeply_nested_messages_decode() {
    // tag 1 wraps tag 1 wraps tag 1 varint 5.
    let m = decode(&[0x0A, 0x04, 0x0A, 0x02, 0x08, 0x05]).unwrap();
    let expected = Message(vec![Entry {
        tag: Tag(1),
        value: Value::Message(Box::new(Message(vec![Entry {
            tag: Tag(1),
            value: Value::Message(Box::new(Message(vec![varint_entry(1, 5, -3)]))),
        }]))),
    }]);
    assert_eq!(m, expected);
}

#[test]
fn visitor_walk_follows_encounter_order() {
    let mut recorder = Recorder::default();
    let buf = [0x0A, 0x04, 0x08, 0x01, 0x10, 0x02, 0x0D, 0x2A, 0x00, 0x00, 0x00];
    inspect(&buf, &mut recorder).unwrap();
    assert_eq!(
        recorder.events,
        vec![
            "start_message 1".to_string(),
            "varint 1 1".to_string(),
            "varint 2 2".to_string(),
            "end_message 1".to_string(),
            "fixed32 1 42".to_string(),
        ]
    );
}

#[test]
fn visitor_receives_text_and_blobs() {
    let mut recorder = Recorder::default();
    let buf = [0x0A, 0x05, b'h', b'e', b'l', b'l', b'o', 0x12, 0x02, 0xFF, 0xFF];
    inspect(&buf, &mut recorder).unwrap();
    assert_eq!(
        recorder.events,
        vec!["string 1 hello".to_string(), "bytes 2 2".to_string()]
    );
}

#[test]
fn visitor_refusal_stops_the_walk() {
    let mut recorder = Recorder { refuse_strings: true, ..Recorder::default() };
    let buf = [0x0A, 0x05, b'h', b'e', b'l', b'l', b'o'];
    assert_eq!(inspect(&buf, &mut recorder), Err(InspectError::Visitor));
}

#[test]
fn visitor_walk_reports_decode_errors() {
    let mut recorder = Recorder::default();
    assert_eq!(
        inspect(&[0x08], &mut recorder),
        Err(InspectError::Decode(DecodeFailure {
            error: DecodeError::TruncatedVarint,
            tag: Some(1),
            offset: 0,
        }))
    );
}

#[test]
fn visitor_sees_group_markers() {
    let mut recorder = Recorder::default();
    inspect(&[0x0B, 0x0C], &mut recorder).unwrap();
    assert_eq!(
        recorder.events,
        vec!["start_group 1".to_string(), "end_group 1".to_string()]
    );
}

#[test]
fn failure_offset_points_at_the_failing_unit() {
    // A complete varint unit, then a fixed32 unit cut short: the failure
    // names the second unit's start and its field number.
    let buf = [0x08, 0x01, 0x0D, 0x01];
    assert_eq!(
        decode(&buf),
        Err(DecodeFailure { error: DecodeError::TruncatedFixed, tag: Some(1), offset: 2 })
    );
}

#[test]
fn message_canonicalize_orders_entries() {
    let unordered = Message(vec![varint_entry(2, 4, 2), varint_entry(1, 6, 3)]);
    let canonical = unordered.canonicalize();
    assert_eq!(canonical, Message(vec![varint_entry(1, 6, 3), varint_entry(2, 4, 2)]));
}

#[test]
fn fallback_free_walk_succeeds_even_with_a_refusing_visitor() {
    // No length-delimited fallback occurs, so the refusable callbacks are
    // never consulted and the walk must succeed.
    let mut recorder = Recorder { refuse_strings: true, ..Recorder::default() };
    let buf = [0x08, 0x01, 0x0A, 0x04, 0x08, 0x02, 0x10, 0x03, 0x0D, 0x2A, 0x00, 0x00, 0x00];
    assert_eq!(inspect(&buf, &mut recorder), Ok(()));
}

#[test]
fn decode_guarded_enforces_the_depth_bound() {
    let buf = [0x0A, 0x04, 0x08, 0x01, 0x10, 0x02];
    // Worst-case nesting of a six-byte buffer is three levels.
    assert!(decode_guarded(&buf, 2).is_none());
    let decoded = decode_guarded(&buf, 3).expect("within the depth bound");
    assert_eq!(decoded, decode(&buf));
    assert!(decode_guarded(&[], 0).is_some());
}
