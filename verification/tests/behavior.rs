//! Behaviour pinned by the library's laws: round trips, exact error
//! reporting, bounded nesting, and the closed tag set.

use rlreplay::{decode_chunk, decode_dict, decode_sections, decode_text, encode_text, DecodeError,
    FaultKind, PropertyValue};

fn text(s: &str) -> Vec<u8> {
    let mut v: Vec<u8> = Vec::new();
    let n = (s.len() + 1) as u32;
    v.extend_from_slice(&n.to_le_bytes());
    v.extend_from_slice(s.as_bytes());
    v.push(0);
    v
}

fn entry(name: &str, tag: &str) -> Vec<u8> {
    let mut v = text(name);
    v.extend_from_slice(&text(tag));
    v.extend_from_slice(&[0u8; 8]);
    v
}

fn sentinel() -> Vec<u8> {
    text("None")
}

#[test]
fn text_round_trip() {
    for s in ["", "a", "hello", "TAGame.Replay_Soccar_TA", "Zähler", "日本語"] {
        let enc = encode_text(s);
        let r = decode_text(&enc, 0).unwrap();
        assert_eq!(r.0, s);
        assert_eq!(r.1, enc.len());
    }
}

#[test]
fn encode_text_exact_bytes() {
    assert_eq!(encode_text("hi"), vec![3, 0, 0, 0, b'h', b'i', 0]);
    assert_eq!(encode_text(""), vec![1, 0, 0, 0, 0]);
}

#[test]
fn chunk_exact_fields() {
    let data = [3, 0, 0, 0, 0xaa, 0xbb, 0xcc, 0xdd, 7, 8, 9];
    let (chunk, pos) = decode_chunk(&data, 0).unwrap();
    assert_eq!(chunk.crc, 0xddccbbaa);
    assert_eq!(chunk.payload, vec![7, 8, 9]);
    assert_eq!(pos, 11);
}

#[test]
fn chunk_truncated_by_one_needs_one() {
    let data = [3, 0, 0, 0, 0xaa, 0xbb, 0xcc, 0xdd, 7, 8];
    let r = decode_chunk(&data, 0);
    assert_eq!(r, Err(DecodeError::Incomplete { need: 1 }));
}

#[test]
fn empty_dict_leaves_trailing_bytes() {
    let mut data = sentinel();
    data.extend_from_slice(&[1, 2, 3]);
    let r = decode_dict(&data, 0).unwrap();
    assert_eq!(r.0, Vec::new());
    assert_eq!(r.1, 9);
}

#[test]
fn nested_arrays_round_trip() {
    // inner: [("x", Int(7))]
    let mut inner = entry("x", "IntProperty");
    inner.extend_from_slice(&7u32.to_le_bytes());
    inner.extend_from_slice(&sentinel());
    // mid: [("inner", Array([inner]))]
    let mut mid = entry("inner", "ArrayProperty");
    mid.extend_from_slice(&1u32.to_le_bytes());
    mid.extend_from_slice(&inner);
    mid.extend_from_slice(&sentinel());
    // outer: [("outer", Array([mid, mid]))]
    let mut data = entry("outer", "ArrayProperty");
    data.extend_from_slice(&2u32.to_le_bytes());
    data.extend_from_slice(&mid);
    data.extend_from_slice(&mid);
    data.extend_from_slice(&sentinel());
    let r = decode_dict(&data, 0).unwrap();
    let mid_dict = || {
        let inner_dict = vec![("x".to_string(), PropertyValue::Int(7))];
        vec![("inner".to_string(), PropertyValue::Array(vec![inner_dict]))]
    };
    let expected = vec![(
        "outer".to_string(),
        PropertyValue::Array(vec![mid_dict(), mid_dict()]),
    )];
    assert_eq!(r.0, expected);
    assert_eq!(r.1, data.len());
}

#[test]
fn unknown_tag_is_malformed() {
    let mut data = entry("Whatever", "BogusProperty");
    data.extend_from_slice(&sentinel());
    let r = decode_dict(&data, 0);
    // the tag text starts right after the name text
    let offset = text("Whatever").len();
    assert_eq!(r, Err(DecodeError::Malformed { offset, kind: FaultKind::UnknownTag }));
}

#[test]
fn zero_length_text_is_malformed() {
    let data = [0, 0, 0, 0];
    let r = decode_text(&data, 0);
    assert_eq!(r, Err(DecodeError::Malformed { offset: 0, kind: FaultKind::EmptyText }));
}

#[test]
fn invalid_utf8_is_malformed() {
    let data = [2, 0, 0, 0, 0xff, 0];
    let r = decode_text(&data, 0);
    assert_eq!(r, Err(DecodeError::Malformed { offset: 0, kind: FaultKind::InvalidText }));
}

#[test]
fn invalid_utf8_name_fails_dict() {
    let mut data = vec![2, 0, 0, 0, 0xff, 0];
    data.extend_from_slice(&sentinel());
    let r = decode_dict(&data, 0);
    assert_eq!(r, Err(DecodeError::Malformed { offset: 0, kind: FaultKind::InvalidText }));
}

#[test]
fn dict_without_sentinel_is_incomplete() {
    let mut data = entry("PlayerTeam", "IntProperty");
    data.extend_from_slice(&0u32.to_le_bytes());
    // input ends where the sentinel is owed: the next name's length field needs 4 bytes
    let r = decode_dict(&data, 0);
    assert_eq!(r, Err(DecodeError::Incomplete { need: 4 }));
}

#[test]
fn int_payload_truncated_is_incomplete() {
    let mut data = entry("PlayerTeam", "IntProperty");
    data.extend_from_slice(&[0u8, 0]);
    let r = decode_dict(&data, 0);
    assert_eq!(r, Err(DecodeError::Incomplete { need: 2 }));
}

#[test]
fn byte_property_uses_text_payload() {
    let mut data = entry("Platform", "ByteProperty");
    data.extend_from_slice(&text("OnlinePlatform_Steam"));
    data.extend_from_slice(&sentinel());
    let r = decode_dict(&data, 0).unwrap();
    assert_eq!(
        r.0,
        vec![(
            "Platform".to_string(),
            PropertyValue::Byte("OnlinePlatform_Steam".to_string()),
        )]
    );
}

#[test]
fn bool_reads_one_byte() {
    let mut data = entry("bBot", "BoolProperty");
    data.push(1);
    data.extend_from_slice(&sentinel());
    let r = decode_dict(&data, 0).unwrap();
    assert_eq!(r.0, vec![("bBot".to_string(), PropertyValue::Bool(true))]);
}

#[test]
fn duplicate_names_kept_in_order() {
    let mut data = entry("k", "IntProperty");
    data.extend_from_slice(&1u32.to_le_bytes());
    data.extend_from_slice(&entry("k", "IntProperty"));
    data.extend_from_slice(&2u32.to_le_bytes());
    data.extend_from_slice(&sentinel());
    let r = decode_dict(&data, 0).unwrap();
    assert_eq!(
        r.0,
        vec![
            ("k".to_string(), PropertyValue::Int(1)),
            ("k".to_string(), PropertyValue::Int(2)),
        ]
    );
}

#[test]
fn nesting_past_the_bound_is_malformed() {
    // 501 array levels: one more than the decoder's nesting allowance
    let mut dict = sentinel();
    for _ in 0..501 {
        let mut wrapped = entry("a", "ArrayProperty");
        wrapped.extend_from_slice(&1u32.to_le_bytes());
        wrapped.extend_from_slice(&dict);
        wrapped.extend_from_slice(&sentinel());
        dict = wrapped;
    }
    let r = decode_dict(&dict, 0);
    assert!(matches!(r, Err(DecodeError::Malformed { kind: FaultKind::TooDeep, .. })));
}

#[test]
fn nesting_at_the_bound_decodes() {
    let mut dict = sentinel();
    for _ in 0..500 {
        let mut wrapped = entry("a", "ArrayProperty");
        wrapped.extend_from_slice(&1u32.to_le_bytes());
        wrapped.extend_from_slice(&dict);
        wrapped.extend_from_slice(&sentinel());
        dict = wrapped;
    }
    let r = decode_dict(&dict, 0).unwrap();
    assert_eq!(r.1, dict.len());
    assert_eq!(r.0.len(), 1);
}

#[test]
fn decode_from_offset() {
    let mut data = vec![0xee, 0xee];
    data.extend_from_slice(&text("Online"));
    let r = decode_text(&data, 2).unwrap();
    assert_eq!(r.0, "Online");
    assert_eq!(r.1, data.len());
}

#[test]
fn sections_are_two_chunks() {
    let data = [
        2, 0, 0, 0, 1, 0, 0, 0, 0xaa, 0xbb, // header: size 2, crc 1
        1, 0, 0, 0, 2, 0, 0, 0, 0xcc, // body: size 1, crc 2
    ];
    let ((header, body), pos) = decode_sections(&data, 0).unwrap();
    assert_eq!(header.crc, 1);
    assert_eq!(header.payload, vec![0xaa, 0xbb]);
    assert_eq!(body.crc, 2);
    assert_eq!(body.payload, vec![0xcc]);
    assert_eq!(pos, data.len());
}

#[test]
fn sections_missing_body_is_incomplete() {
    let data = [2, 0, 0, 0, 1, 0, 0, 0, 0xaa, 0xbb, 1, 0];
    let r = decode_sections(&data, 0);
    assert_eq!(r, Err(DecodeError::Incomplete { need: 2 }));
}

#[test]
fn chunk_of_dict_decodes_in_two_steps() {
    let mut dict = entry("PlayerTeam", "IntProperty");
    dict.extend_from_slice(&0u32.to_le_bytes());
    dict.extend_from_slice(&sentinel());
    let mut data = (dict.len() as u32).to_le_bytes().to_vec();
    data.extend_from_slice(&0u32.to_le_bytes());
    data.extend_from_slice(&dict);
    let (chunk, pos) = decode_chunk(&data, 0).unwrap();
    assert_eq!(pos, data.len());
    let r = decode_dict(&chunk.payload, 0).unwrap();
    assert_eq!(r.0, vec![("PlayerTeam".to_string(), PropertyValue::Int(0))]);
}
