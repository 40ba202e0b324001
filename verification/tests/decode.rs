//! The decoder test suite: chunk framing, text, and property dictionaries.

use rlreplay::{decode_chunk, decode_dict, decode_text, DecodeError, PropertyValue};

/// A wire text: length-plus-one, the bytes, a terminator.
fn text(s: &str) -> Vec<u8> {
    let mut v: Vec<u8> = Vec::new();
    let n = (s.len() + 1) as u32;
    v.extend_from_slice(&n.to_le_bytes());
    v.extend_from_slice(s.as_bytes());
    v.push(0);
    v
}

/// A non-array entry: name text, tag text, eight redundant bytes.
fn entry(name: &str, tag: &str) -> Vec<u8> {
    let mut v = text(name);
    v.extend_from_slice(&text(tag));
    v.extend_from_slice(&[0u8; 8]);
    v
}

fn append_none(input: &[u8]) -> Vec<u8> {
    let append = [0x05, 0x00, 0x00, 0x00, b'N', b'o', b'n', b'e', 0x00];
    let mut v = Vec::new();
    v.extend_from_slice(input);
    v.extend_from_slice(&append);
    v
}

/// The first bytes of a replay whose header chunk says 4776 payload bytes.
fn replay_head() -> Vec<u8> {
    let mut v: Vec<u8> = Vec::new();
    v.extend_from_slice(&4776u32.to_le_bytes());
    v.extend_from_slice(&0x1d10463au32.to_le_bytes());
    v.push(0);
    v
}

#[test]
fn missing_header_data() {
    let data = replay_head();
    let r = decode_chunk(&data[..8], 0);
    assert_eq!(r, Err(DecodeError::Incomplete { need: 4776 }));
}

#[test]
fn incomplete_header_data() {
    let data = replay_head();
    let r = decode_chunk(&data[..9], 0);
    assert_eq!(r, Err(DecodeError::Incomplete { need: 4775 }));
}

#[test]
fn missing_header() {
    let r = decode_chunk(&[], 0);
    assert_eq!(r, Err(DecodeError::Incomplete { need: 4 }));
}

#[test]
fn missing_crc_data() {
    let data = replay_head();
    let r = decode_chunk(&data[..4], 0);
    assert_eq!(r, Err(DecodeError::Incomplete { need: 4 }));
}

#[test]
fn parse_a_header_with_zero_data() {
    let data = [0, 0, 0, 0, 0, 0, 0, 0];
    let r = decode_chunk(&data, 0).unwrap();
    assert_eq!(r.0.payload, Vec::<u8>::new());
    assert_eq!(r.1, 8);
}

#[test]
fn parse_text_encoding() {
    let data = text("TAGame.Replay_Soccar_TA");
    let r = decode_text(&data, 0).unwrap();
    assert_eq!(r, ("TAGame.Replay_Soccar_TA".to_string(), data.len()));
}

#[test]
fn rdict_no_elements() {
    let data = [0x05, 0x00, 0x00, 0x00, b'N', b'o', b'n', b'e', 0x00];
    let r = decode_dict(&data, 0).unwrap();
    assert_eq!(r.0, Vec::new());
    assert_eq!(r.1, data.len());
}

#[test]
fn rdict_one_element() {
    let mut data = entry("PlayerName", "StrProperty");
    data.extend_from_slice(&text("comagoosie"));
    let data = append_none(&data);
    let r = decode_dict(&data, 0).unwrap();
    assert_eq!(
        r.0,
        vec![("PlayerName".to_string(), PropertyValue::Str("comagoosie".to_string()))]
    );
    assert_eq!(r.1, data.len());
}

#[test]
fn rdict_one_int_element() {
    let mut data = entry("PlayerTeam", "IntProperty");
    data.extend_from_slice(&0u32.to_le_bytes());
    let data = append_none(&data);
    let r = decode_dict(&data, 0).unwrap();
    assert_eq!(r.0, vec![("PlayerTeam".to_string(), PropertyValue::Int(0))]);
    assert_eq!(r.1, data.len());
}

#[test]
fn rdict_one_bool_element() {
    let mut data = entry("bBot", "BoolProperty");
    data.push(0);
    let data = append_none(&data);
    let r = decode_dict(&data, 0).unwrap();
    assert_eq!(r.0, vec![("bBot".to_string(), PropertyValue::Bool(false))]);
    assert_eq!(r.1, data.len());
}

#[test]
fn rdict_one_name_element() {
    let mut raw = entry("MatchType", "NameProperty");
    raw.extend_from_slice(&text("Online"));
    let data = append_none(&raw);
    let r = decode_dict(&data, 0).unwrap();
    assert_eq!(r.0, vec![("MatchType".to_string(), PropertyValue::Name("Online".to_string()))]);
    assert_eq!(r.1, data.len());
}

#[test]
fn rdict_one_float_element() {
    let mut raw = entry("RecordFPS", "FloatProperty");
    raw.extend_from_slice(&30.0f32.to_bits().to_le_bytes());
    let data = append_none(&raw);
    let r = decode_dict(&data, 0).unwrap();
    assert_eq!(
        r.0,
        vec![("RecordFPS".to_string(), PropertyValue::Float(30.0f32.to_bits()))]
    );
    assert_eq!(f32::from_bits(match &r.0[0].1 {
        PropertyValue::Float(bits) => *bits,
        _ => panic!("not a float"),
    }), 30.0);
    assert_eq!(r.1, data.len());
}

#[test]
fn rdict_one_qword_element() {
    let mut raw = entry("OnlineID", "QWordProperty");
    raw.extend_from_slice(&76561198101748375u64.to_le_bytes());
    let data = append_none(&raw);
    let r = decode_dict(&data, 0).unwrap();
    assert_eq!(
        r.0,
        vec![("OnlineID".to_string(), PropertyValue::QWord(76561198101748375))]
    );
    assert_eq!(r.1, data.len());
}

/// One goal record: frame, player name, player team, then the sentinel.
fn goal(frame: u32, player: &str, team: u32) -> Vec<u8> {
    let mut v = entry("frame", "IntProperty");
    v.extend_from_slice(&frame.to_le_bytes());
    v.extend_from_slice(&entry("PlayerName", "StrProperty"));
    v.extend_from_slice(&text(player));
    v.extend_from_slice(&entry("PlayerTeam", "IntProperty"));
    v.extend_from_slice(&team.to_le_bytes());
    append_none(&v)
}

fn goal_dict(frame: u32, player: &str, team: u32) -> Vec<(String, PropertyValue)> {
    vec![
        ("frame".to_string(), PropertyValue::Int(frame)),
        ("PlayerName".to_string(), PropertyValue::Str(player.to_string())),
        ("PlayerTeam".to_string(), PropertyValue::Int(team)),
    ]
}

#[test]
fn rdict_one_array_element() {
    let goals = [
        (441u32, "Cakeboss", 1u32),
        (1738, "Sasha Kaun", 0),
        (3504, "SilentWarrior", 0),
        (5058, "jeffreyj1", 1),
        (5751, "GOOSE LORD", 0),
        (6083, "GOOSE LORD", 0),
        (7021, "SilentWarrior", 0),
    ];
    let mut raw = entry("Goals", "ArrayProperty");
    raw.extend_from_slice(&(goals.len() as u32).to_le_bytes());
    for (frame, player, team) in goals.iter() {
        raw.extend_from_slice(&goal(*frame, player, *team));
    }
    let data = append_none(&raw);
    let r = decode_dict(&data, 0).unwrap();
    let expected: Vec<Vec<(String, PropertyValue)>> = goals
        .iter()
        .map(|(frame, player, team)| goal_dict(*frame, player, *team))
        .collect();
    assert_eq!(r.0, vec![("Goals".to_string(), PropertyValue::Array(expected))]);
    assert_eq!(r.1, data.len());
}
