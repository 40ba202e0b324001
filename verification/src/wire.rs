//! The wire grammar, written once as spec functions over byte sequences.
//! Every executable decoder is proved to return exactly what these functions
//! say. Each parse outcome carries either the exact count of bytes consumed or
//! the error owed to the caller, with `Incomplete` giving the exact number of
//! further bytes that would complete the field being read.

use vstd::prelude::*;
use vstd::utf8::{decode_utf8, encode_utf8, valid_utf8};

use crate::model::{FaultKind, Parsed, SpecDict, SpecValue};

verus! {

/// Hard bound on array nesting depth: a dictionary may descend through at most
/// this many `Array` payloads. A defence against depth-bombing inputs; the
/// format itself puts no bound on nesting.
pub const MAX_NESTING: usize = 500;

/// The little-endian 32-bit unsigned integer spelled by the four bytes at `i`.
pub open spec fn le32(s: Seq<u8>, i: int) -> u32
    recommends
        0 <= i,
        i + 4 <= s.len(),
{
    (s[i] + s[i + 1] * 0x100 + s[i + 2] * 0x1_0000 + s[i + 3] * 0x100_0000) as u32
}

/// The little-endian 64-bit unsigned integer spelled by the eight bytes at `i`.
pub open spec fn le64(s: Seq<u8>, i: int) -> u64
    recommends
        0 <= i,
        i + 8 <= s.len(),
{
    (s[i] + s[i + 1] * 0x100 + s[i + 2] * 0x1_0000 + s[i + 3] * 0x100_0000 + s[i + 4]
        * 0x1_0000_0000 + s[i + 5] * 0x100_0000_0000 + s[i + 6] * 0x1_0000_0000_0000 + s[i + 7]
        * 0x100_0000_0000_0000) as u64
}

/// Bytes left at and after position `i`, clamped at zero; the measure every
/// recursive parse function decreases.
pub open spec fn rem(s: Seq<u8>, i: int) -> int {
    if i <= s.len() {
        s.len() - i
    } else {
        0
    }
}

/// A length-framed chunk at `i`: `size:u32 crc:u32 payload:u8[size]`.
/// Yields the CRC field and the raw payload, unvalidated.
pub open spec fn spec_chunk(s: Seq<u8>, i: int) -> Parsed<(u32, Seq<u8>)>
    recommends
        0 <= i <= s.len(),
{
    let avail = s.len() - i;
    if avail < 4 {
        Parsed::Incomplete { need: 4 - avail }
    } else if avail - 4 < 4 {
        Parsed::Incomplete { need: 4 - (avail - 4) }
    } else {
        let size = le32(s, i) as int;
        if avail - 8 < size {
            Parsed::Incomplete { need: size - (avail - 8) }
        } else {
            Parsed::Done {
                value: (le32(s, i + 4), s.subrange(i + 8, i + 8 + size)),
                used: (8 + size) as nat,
            }
        }
    }
}

/// The outer container at `i`: two length-framed chunks back to back, the
/// header section and then the body section. No further structure is read
/// out of either payload here.
pub open spec fn spec_sections(s: Seq<u8>, i: int) -> Parsed<((u32, Seq<u8>), (u32, Seq<u8>))>
    recommends
        0 <= i <= s.len(),
{
    match spec_chunk(s, i) {
        Parsed::Incomplete { need } => Parsed::Incomplete { need },
        Parsed::Malformed { offset, kind } => Parsed::Malformed { offset, kind },
        Parsed::Done { value: header, used: u1 } => {
            match spec_chunk(s, i + u1) {
                Parsed::Incomplete { need } => Parsed::Incomplete { need },
                Parsed::Malformed { offset, kind } => Parsed::Malformed { offset, kind },
                Parsed::Done { value: body, used: u2 } => Parsed::Done {
                    value: (header, body),
                    used: u1 + u2,
                },
            }
        },
    }
}

/// A text at `i`: `len:u32 body:u8[len-1] terminator:u8`. Yields the raw body
/// bytes; the terminator byte is consumed untouched, since the length field
/// alone fixes the boundary. A zero length can frame no terminator and is
/// malformed.
pub open spec fn spec_text(s: Seq<u8>, i: int) -> Parsed<Seq<u8>>
    recommends
        0 <= i <= s.len(),
{
    let avail = s.len() - i;
    if avail < 4 {
        Parsed::Incomplete { need: 4 - avail }
    } else {
        let n = le32(s, i) as int;
        if n == 0 {
            Parsed::Malformed { offset: i, kind: FaultKind::EmptyText }
        } else if avail - 4 < n {
            Parsed::Incomplete { need: n - (avail - 4) }
        } else {
            Parsed::Done { value: s.subrange(i + 4, i + 4 + n - 1), used: (4 + n) as nat }
        }
    }
}

/// A text at `i` decoded to characters: the body must be valid UTF-8, and an
/// invalid body is malformed, never substituted.
pub open spec fn spec_string(s: Seq<u8>, i: int) -> Parsed<Seq<char>>
    recommends
        0 <= i <= s.len(),
{
    match spec_text(s, i) {
        Parsed::Incomplete { need } => Parsed::Incomplete { need },
        Parsed::Malformed { offset, kind } => Parsed::Malformed { offset, kind },
        Parsed::Done { value, used } => if valid_utf8(value) {
            Parsed::Done { value: decode_utf8(value), used }
        } else {
            Parsed::Malformed { offset: i, kind: FaultKind::InvalidText }
        },
    }
}

/// The closed set of property type tags.
#[derive(Clone, Copy, PartialEq, Eq, Debug, Structural)]
pub enum Tag {
    Array,
    Bool,
    Byte,
    Float,
    Int,
    Name,
    QWord,
    Str,
}

/// The characters that spell a tag.
pub open spec fn tag_chars(t: Tag) -> Seq<char> {
    match t {
        Tag::Array => "ArrayProperty"@,
        Tag::Bool => "BoolProperty"@,
        Tag::Byte => "ByteProperty"@,
        Tag::Float => "FloatProperty"@,
        Tag::Int => "IntProperty"@,
        Tag::Name => "NameProperty"@,
        Tag::QWord => "QWordProperty"@,
        Tag::Str => "StrProperty"@,
    }
}

/// The exact bytes that spell a tag on the wire.
pub open spec fn tag_bytes(t: Tag) -> Seq<u8> {
    encode_utf8(tag_chars(t))
}

/// The bytes of the sentinel name that ends every dictionary.
pub open spec fn sentinel_bytes() -> Seq<u8> {
    encode_utf8("None"@)
}

/// Which tag a text body spells, if any; the set is closed, so anything else
/// is malformed.
pub open spec fn tag_of(b: Seq<u8>) -> Option<Tag> {
    if b == tag_bytes(Tag::Array) {
        Some(Tag::Array)
    } else if b == tag_bytes(Tag::Bool) {
        Some(Tag::Bool)
    } else if b == tag_bytes(Tag::Byte) {
        Some(Tag::Byte)
    } else if b == tag_bytes(Tag::Float) {
        Some(Tag::Float)
    } else if b == tag_bytes(Tag::Int) {
        Some(Tag::Int)
    } else if b == tag_bytes(Tag::Name) {
        Some(Tag::Name)
    } else if b == tag_bytes(Tag::QWord) {
        Some(Tag::QWord)
    } else if b == tag_bytes(Tag::Str) {
        Some(Tag::Str)
    } else {
        None
    }
}

/// A property dictionary at `i`: entries in on-wire order up to (and
/// consuming, but not yielding) the sentinel name. An entry whose name, tag or
/// payload fails makes the whole dictionary fail with that exact error; the
/// sentinel is owed, so input ending first is incomplete, not an implicit end.
/// `fuel` bounds how many `Array` payloads may still be descended through.
pub open spec fn spec_dict(s: Seq<u8>, i: int, fuel: nat) -> Parsed<SpecDict>
    recommends
        0 <= i <= s.len(),
    decreases rem(s, i), 0int, 0nat,
{
    match spec_text(s, i) {
        Parsed::Incomplete { need } => Parsed::Incomplete { need },
        Parsed::Malformed { offset, kind } => Parsed::Malformed { offset, kind },
        Parsed::Done { value: name_bytes, used: u1 } => {
            if name_bytes == sentinel_bytes() {
                Parsed::Done { value: Seq::empty(), used: u1 }
            } else if !valid_utf8(name_bytes) {
                Parsed::Malformed { offset: i, kind: FaultKind::InvalidText }
            } else {
                match spec_tagged_value(s, i + u1, fuel) {
                    Parsed::Incomplete { need } => Parsed::Incomplete { need },
                    Parsed::Malformed { offset, kind } => Parsed::Malformed { offset, kind },
                    Parsed::Done { value: v, used: u2 } => {
                        match spec_dict(s, i + u1 + u2, fuel) {
                            Parsed::Incomplete { need } => Parsed::Incomplete { need },
                            Parsed::Malformed { offset, kind } => Parsed::Malformed {
                                offset,
                                kind,
                            },
                            Parsed::Done { value: rest, used: u3 } => Parsed::Done {
                                value: seq![(decode_utf8(name_bytes), v)] + rest,
                                used: u1 + u2 + u3,
                            },
                        }
                    },
                }
            }
        },
    }
}

/// A tag text at `i` followed by the payload it selects.
pub open spec fn spec_tagged_value(s: Seq<u8>, i: int, fuel: nat) -> Parsed<SpecValue>
    recommends
        0 <= i <= s.len(),
    decreases rem(s, i), 2int, 0nat,
{
    match spec_text(s, i) {
        Parsed::Incomplete { need } => Parsed::Incomplete { need },
        Parsed::Malformed { offset, kind } => Parsed::Malformed { offset, kind },
        Parsed::Done { value: tag_b, used: u1 } => {
            match tag_of(tag_b) {
                Some(t) => match spec_payload(s, i + u1, t, fuel) {
                    Parsed::Incomplete { need } => Parsed::Incomplete { need },
                    Parsed::Malformed { offset, kind } => Parsed::Malformed { offset, kind },
                    Parsed::Done { value, used: u2 } => Parsed::Done { value, used: u1 + u2 },
                },
                None => if !valid_utf8(tag_b) {
                    Parsed::Malformed { offset: i, kind: FaultKind::InvalidText }
                } else {
                    Parsed::Malformed { offset: i, kind: FaultKind::UnknownTag }
                },
            }
        },
    }
}

/// A payload at `i` for a known tag: a redundant 8-byte quantity that is
/// consumed and never interpreted, then the tag's own encoding. The `Array`
/// payload goes on with an element count and that many dictionaries back to
/// back, each spending one unit of `fuel`.
pub open spec fn spec_payload(s: Seq<u8>, i: int, t: Tag, fuel: nat) -> Parsed<SpecValue>
    recommends
        0 <= i <= s.len(),
    decreases rem(s, i), 2int, 0nat,
{
    let avail = s.len() - i;
    if avail < 8 {
        Parsed::Incomplete { need: 8 - avail }
    } else {
        match t {
            Tag::Bool => if avail - 8 < 1 {
                Parsed::Incomplete { need: 1 - (avail - 8) }
            } else {
                Parsed::Done { value: SpecValue::Bool(s[i + 8] == 1), used: 9 }
            },
            Tag::Int => if avail - 8 < 4 {
                Parsed::Incomplete { need: 4 - (avail - 8) }
            } else {
                Parsed::Done { value: SpecValue::Int(le32(s, i + 8)), used: 12 }
            },
            Tag::Float => if avail - 8 < 4 {
                Parsed::Incomplete { need: 4 - (avail - 8) }
            } else {
                Parsed::Done { value: SpecValue::Float(le32(s, i + 8)), used: 12 }
            },
            Tag::QWord => if avail - 8 < 8 {
                Parsed::Incomplete { need: 8 - (avail - 8) }
            } else {
                Parsed::Done { value: SpecValue::QWord(le64(s, i + 8)), used: 16 }
            },
            Tag::Str => match spec_string(s, i + 8) {
                Parsed::Incomplete { need } => Parsed::Incomplete { need },
                Parsed::Malformed { offset, kind } => Parsed::Malformed { offset, kind },
                Parsed::Done { value, used } => Parsed::Done {
                    value: SpecValue::Str(value),
                    used: 8 + used,
                },
            },
            Tag::Name => match spec_string(s, i + 8) {
                Parsed::Incomplete { need } => Parsed::Incomplete { need },
                Parsed::Malformed { offset, kind } => Parsed::Malformed { offset, kind },
                Parsed::Done { value, used } => Parsed::Done {
                    value: SpecValue::Name(value),
                    used: 8 + used,
                },
            },
            Tag::Byte => match spec_string(s, i + 8) {
                Parsed::Incomplete { need } => Parsed::Incomplete { need },
                Parsed::Malformed { offset, kind } => Parsed::Malformed { offset, kind },
                Parsed::Done { value, used } => Parsed::Done {
                    value: SpecValue::Byte(value),
                    used: 8 + used,
                },
            },
            Tag::Array => if avail - 8 < 4 {
                Parsed::Incomplete { need: 4 - (avail - 8) }
            } else if fuel == 0 {
                Parsed::Malformed { offset: i + 8, kind: FaultKind::TooDeep }
            } else {
                match spec_dicts(s, i + 12, le32(s, i + 8) as nat, (fuel - 1) as nat) {
                    Parsed::Incomplete { need } => Parsed::Incomplete { need },
                    Parsed::Malformed { offset, kind } => Parsed::Malformed { offset, kind },
                    Parsed::Done { value, used } => Parsed::Done {
                        value: SpecValue::Array(value),
                        used: 12 + used,
                    },
                }
            },
        }
    }
}

/// Exactly `c` dictionaries back to back, starting at `i`, in on-wire order.
pub open spec fn spec_dicts(s: Seq<u8>, i: int, c: nat, fuel: nat) -> Parsed<Seq<SpecDict>>
    recommends
        0 <= i <= s.len(),
    decreases rem(s, i), 1int, c,
{
    if c == 0 {
        Parsed::Done { value: Seq::empty(), used: 0 }
    } else {
        match spec_dict(s, i, fuel) {
            Parsed::Incomplete { need } => Parsed::Incomplete { need },
            Parsed::Malformed { offset, kind } => Parsed::Malformed { offset, kind },
            Parsed::Done { value: d, used: u } => {
                match spec_dicts(s, i + u, (c - 1) as nat, fuel) {
                    Parsed::Incomplete { need } => Parsed::Incomplete { need },
                    Parsed::Malformed { offset, kind } => Parsed::Malformed { offset, kind },
                    Parsed::Done { value: rest, used: u2 } => Parsed::Done {
                        value: seq![d] + rest,
                        used: u + u2,
                    },
                }
            },
        }
    }
}

} // verus!
