//! Encodings of the wire productions, as spec-level byte sequences, and an
//! executable text encoder. The round-trip laws in `crate::laws` relate these
//! to the grammar in `crate::wire`.

use vstd::prelude::*;
use vstd::string::StrSliceExecFns;
use vstd::utf8::encode_utf8;

use crate::model::{SpecDict, SpecValue};
use crate::wire::{le32, le64, sentinel_bytes, tag_bytes, Tag};

verus! {

/// The four little-endian bytes of a 32-bit value.
pub open spec fn u32_le_bytes(x: u32) -> Seq<u8> {
    seq![
        (x % 0x100) as u8,
        ((x / 0x100) % 0x100) as u8,
        ((x / 0x1_0000) % 0x100) as u8,
        ((x / 0x100_0000) % 0x100) as u8,
    ]
}

/// The eight little-endian bytes of a 64-bit value.
pub open spec fn u64_le_bytes(x: u64) -> Seq<u8> {
    seq![
        (x % 0x100) as u8,
        ((x / 0x100) % 0x100) as u8,
        ((x / 0x1_0000) % 0x100) as u8,
        ((x / 0x100_0000) % 0x100) as u8,
        ((x / 0x1_0000_0000) % 0x100) as u8,
        ((x / 0x100_0000_0000) % 0x100) as u8,
        ((x / 0x1_0000_0000_0000) % 0x100) as u8,
        ((x / 0x100_0000_0000_0000) % 0x100) as u8,
    ]
}

/// Reading four little-endian bytes back gives the value they were made from.
pub proof fn lemma_le32_of_bytes(s: Seq<u8>, i: int, x: u32)
    requires
        0 <= i,
        i + 4 <= s.len(),
        s.subrange(i, i + 4) == u32_le_bytes(x),
    ensures
        le32(s, i) == x,
{
    assert(s[i] == u32_le_bytes(x)[0]);
    assert(s[i + 1] == u32_le_bytes(x)[1]);
    assert(s[i + 2] == u32_le_bytes(x)[2]);
    assert(s[i + 3] == u32_le_bytes(x)[3]);
    assert(x % 0x100 + (x / 0x100 % 0x100) * 0x100 + (x / 0x1_0000 % 0x100) * 0x1_0000 + (x
        / 0x100_0000 % 0x100) * 0x100_0000 == x) by (bit_vector);
}

/// Reading eight little-endian bytes back gives the value they were made from.
pub proof fn lemma_le64_of_bytes(s: Seq<u8>, i: int, x: u64)
    requires
        0 <= i,
        i + 8 <= s.len(),
        s.subrange(i, i + 8) == u64_le_bytes(x),
    ensures
        le64(s, i) == x,
{
    assert(s[i] == u64_le_bytes(x)[0]);
    assert(s[i + 1] == u64_le_bytes(x)[1]);
    assert(s[i + 2] == u64_le_bytes(x)[2]);
    assert(s[i + 3] == u64_le_bytes(x)[3]);
    assert(s[i + 4] == u64_le_bytes(x)[4]);
    assert(s[i + 5] == u64_le_bytes(x)[5]);
    assert(s[i + 6] == u64_le_bytes(x)[6]);
    assert(s[i + 7] == u64_le_bytes(x)[7]);
    assert(x % 0x100 + (x / 0x100 % 0x100) * 0x100 + (x / 0x1_0000 % 0x100) * 0x1_0000 + (x
        / 0x100_0000 % 0x100) * 0x100_0000 + (x / 0x1_0000_0000 % 0x100) * 0x1_0000_0000 + (x
        / 0x100_0000_0000 % 0x100) * 0x100_0000_0000 + (x / 0x1_0000_0000_0000 % 0x100)
        * 0x1_0000_0000_0000 + (x / 0x100_0000_0000_0000 % 0x100) * 0x100_0000_0000_0000 == x)
        by (bit_vector);
}

/// The text encoding of a byte body: its length plus one as a u32, the body,
/// one terminator byte.
pub open spec fn spec_encode_text(body: Seq<u8>) -> Seq<u8>
    recommends
        body.len() + 1 <= u32::MAX,
{
    u32_le_bytes((body.len() + 1) as u32) + body + seq![0u8]
}

/// The eight redundant bytes written before every payload; the decoder never
/// interprets them, and the encoder writes zeros.
pub open spec fn zeros8() -> Seq<u8> {
    seq![0u8, 0u8, 0u8, 0u8, 0u8, 0u8, 0u8, 0u8]
}

/// The tag under which a value is written back.
pub open spec fn tag_for(v: SpecValue) -> Tag {
    match v {
        SpecValue::Array(..) => Tag::Array,
        SpecValue::Bool(..) => Tag::Bool,
        SpecValue::Byte(..) => Tag::Byte,
        SpecValue::Float(..) => Tag::Float,
        SpecValue::Int(..) => Tag::Int,
        SpecValue::Name(..) => Tag::Name,
        SpecValue::QWord(..) => Tag::QWord,
        SpecValue::Str(..) => Tag::Str,
    }
}

/// The tag-specific encoding of a value, without the redundant bytes.
pub open spec fn spec_encode_value(v: SpecValue) -> Seq<u8>
    decreases v, 3int,
{
    match v {
        SpecValue::Array(ds) => u32_le_bytes(ds.len() as u32) + spec_encode_dicts(ds),
        SpecValue::Bool(b) => seq![if b { 1u8 } else { 0u8 }],
        SpecValue::Byte(t) => spec_encode_text(encode_utf8(t)),
        SpecValue::Float(bits) => u32_le_bytes(bits),
        SpecValue::Int(x) => u32_le_bytes(x),
        SpecValue::Name(t) => spec_encode_text(encode_utf8(t)),
        SpecValue::QWord(x) => u64_le_bytes(x),
        SpecValue::Str(t) => spec_encode_text(encode_utf8(t)),
    }
}

/// One dictionary entry: name text, tag text, redundant bytes, payload.
pub open spec fn spec_encode_entry(name: Seq<char>, v: SpecValue) -> Seq<u8>
    decreases v, 4int,
{
    spec_encode_text(encode_utf8(name)) + spec_encode_text(tag_bytes(tag_for(v))) + zeros8()
        + spec_encode_value(v)
}

/// A dictionary: its entries in order, then the sentinel name.
pub open spec fn spec_encode_dict(d: SpecDict) -> Seq<u8>
    decreases d, 5int,
{
    spec_encode_entries(d) + spec_encode_text(sentinel_bytes())
}

/// The entries of a dictionary, in order.
pub open spec fn spec_encode_entries(d: SpecDict) -> Seq<u8>
    decreases d, 4int,
{
    if d.len() == 0 {
        Seq::empty()
    } else {
        spec_encode_entry(d[0].0, d[0].1) + spec_encode_entries(d.drop_first())
    }
}

/// Dictionaries back to back, in order.
pub open spec fn spec_encode_dicts(ds: Seq<SpecDict>) -> Seq<u8>
    decreases ds, 6int,
{
    if ds.len() == 0 {
        Seq::empty()
    } else {
        spec_encode_dict(ds[0]) + spec_encode_dicts(ds.drop_first())
    }
}

/// Whether a value can be written back and re-read within `fuel` levels of
/// array nesting: every text and every element count must fit its u32 length
/// field, and no name may spell the sentinel.
pub open spec fn encodable_value(v: SpecValue, fuel: nat) -> bool
    decreases v, 3int,
{
    match v {
        SpecValue::Array(ds) => fuel >= 1 && ds.len() <= u32::MAX && encodable_dicts(
            ds,
            (fuel - 1) as nat,
        ),
        SpecValue::Bool(..) => true,
        SpecValue::Byte(t) => encode_utf8(t).len() + 1 <= u32::MAX,
        SpecValue::Float(..) => true,
        SpecValue::Int(..) => true,
        SpecValue::Name(t) => encode_utf8(t).len() + 1 <= u32::MAX,
        SpecValue::QWord(..) => true,
        SpecValue::Str(t) => encode_utf8(t).len() + 1 <= u32::MAX,
    }
}

/// Whether every entry of a dictionary can be written back and re-read.
pub open spec fn encodable_dict(d: SpecDict, fuel: nat) -> bool
    decreases d, 4int,
{
    if d.len() == 0 {
        true
    } else {
        &&& encode_utf8(d[0].0).len() + 1 <= u32::MAX
        &&& encode_utf8(d[0].0) != sentinel_bytes()
        &&& encodable_value(d[0].1, fuel)
        &&& encodable_dict(d.drop_first(), fuel)
    }
}

/// Whether every dictionary of a sequence can be written back and re-read.
pub open spec fn encodable_dicts(ds: Seq<SpecDict>, fuel: nat) -> bool
    decreases ds, 6int,
{
    if ds.len() == 0 {
        true
    } else {
        encodable_dict(ds[0], fuel) && encodable_dicts(ds.drop_first(), fuel)
    }
}

/// Encodes a string as a wire text: length plus one, the UTF-8 bytes, one
/// terminator byte.
pub fn encode_text(s: &str) -> (r: Vec<u8>)
    requires
        encode_utf8(s@).len() + 1 <= u32::MAX,
    ensures
        r@ == spec_encode_text(encode_utf8(s@)),
{
    let body = s.as_bytes_vec();
    let n = body.len() as u32 + 1;
    let mut r: Vec<u8> = Vec::new();
    r.push((n % 0x100) as u8);
    r.push(((n / 0x100) % 0x100) as u8);
    r.push(((n / 0x1_0000) % 0x100) as u8);
    r.push(((n / 0x100_0000) % 0x100) as u8);
    let mut k: usize = 0;
    while k < body.len()
        invariant
            k <= body@.len(),
            body@ == encode_utf8(s@),
            r@.len() == 4 + k,
            r@.subrange(0, 4) == u32_le_bytes((body@.len() + 1) as u32),
            forall|j: int| 0 <= j < k ==> r@[4 + j] == body@[j],
        decreases body@.len() - k,
    {
        r.push(body[k]);
        k = k + 1;
    }
    r.push(0);
    proof {
        assert(r@ =~= spec_encode_text(encode_utf8(s@)));
    }
    r
}

} // verus!
