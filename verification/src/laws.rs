//! The laws the decoders obey, each stated over the wire grammar and proved
//! once for all inputs.

use vstd::prelude::*;
use vstd::utf8::{
    encode_scalar, encode_utf8, encode_utf8_decode_utf8, encode_utf8_valid_utf8, valid_utf8,
};

use crate::encode::{
    encodable_dict, encodable_dicts, encodable_value, lemma_le32_of_bytes, lemma_le64_of_bytes,
    spec_encode_dict, spec_encode_dicts, spec_encode_text, spec_encode_value, tag_for,
    u32_le_bytes, zeros8,
};
use crate::model::{FaultKind, Parsed, SpecDict, SpecValue};
use crate::wire::{
    le32, sentinel_bytes, spec_chunk, spec_dict, spec_dicts, spec_payload, spec_string,
    spec_tagged_value, spec_text, tag_bytes, tag_chars, tag_of, Tag,
};

verus! {

broadcast use vstd::string::group_string_axioms;

/// Decoding an encoded text gives the original string back, whole: the length
/// field alone frames the body, so every string round-trips, as long as its
/// byte length fits the u32 length field.
pub proof fn lemma_text_round_trip(t: Seq<char>)
    requires
        encode_utf8(t).len() + 1 <= u32::MAX,
    ensures
        spec_string(spec_encode_text(encode_utf8(t)), 0) == (Parsed::Done {
            value: t,
            used: spec_encode_text(encode_utf8(t)).len() as nat,
        }),
{
    let body = encode_utf8(t);
    let enc = spec_encode_text(body);
    let n = (body.len() + 1) as u32;
    assert(enc.len() == 4 + body.len() + 1);
    assert(enc.subrange(0, 4) =~= u32_le_bytes(n));
    lemma_le32_of_bytes(enc, 0, n);
    assert(enc.subrange(4, 4 + n - 1) =~= body);
    encode_utf8_valid_utf8(t);
    encode_utf8_decode_utf8(t);
}

/// A dictionary that begins with the sentinel name is empty, and decoding it
/// consumes exactly the sentinel's bytes, whatever fuel is at hand.
pub proof fn lemma_empty_dict(s: Seq<u8>, i: int, u: nat, fuel: nat)
    requires
        spec_text(s, i) == (Parsed::Done { value: sentinel_bytes(), used: u }),
    ensures
        spec_dict(s, i, fuel) == (Parsed::Done {
            value: Seq::<(Seq<char>, SpecValue)>::empty(),
            used: u,
        }),
{
}

/// Cutting the last byte off an input that ends exactly at a chunk's end
/// leaves the chunk incomplete, needing exactly one more byte — never
/// malformed.
pub proof fn lemma_chunk_truncated(s: Seq<u8>, i: int)
    requires
        0 <= i,
        i + 8 <= s.len(),
        1 <= le32(s, i),
        i + 8 + le32(s, i) == s.len(),
    ensures
        spec_chunk(s.take(s.len() - 1), i) == (Parsed::<(u32, Seq<u8>)>::Incomplete { need: 1 }),
{
    let t = s.take(s.len() - 1);
    assert(t.subrange(i, i + 4) =~= s.subrange(i, i + 4));
    assert(le32(t, i) == le32(s, i));
}

/// An entry whose tag text spells no known tag makes the whole dictionary
/// malformed at that tag — it is never skipped.
pub proof fn lemma_unknown_tag(
    s: Seq<u8>,
    i: int,
    nb: Seq<u8>,
    u1: nat,
    tb: Seq<u8>,
    u2: nat,
    fuel: nat,
)
    requires
        spec_text(s, i) == (Parsed::Done { value: nb, used: u1 }),
        nb != sentinel_bytes(),
        valid_utf8(nb),
        spec_text(s, i + u1) == (Parsed::Done { value: tb, used: u2 }),
        tag_of(tb) is None,
    ensures
        spec_dict(s, i, fuel) == (Parsed::<SpecDict>::Malformed {
            offset: i + u1,
            kind: if valid_utf8(tb) {
                FaultKind::UnknownTag
            } else {
                FaultKind::InvalidText
            },
        }),
{
    assert(spec_tagged_value(s, i + u1, fuel) == (Parsed::<SpecValue>::Malformed {
        offset: i + u1,
        kind: if valid_utf8(tb) {
            FaultKind::UnknownTag
        } else {
            FaultKind::InvalidText
        },
    }));
}

/// A UTF-8 encoding takes at most four bytes per character.
pub proof fn lemma_encode_utf8_len(chars: Seq<char>)
    ensures
        encode_utf8(chars).len() <= 4 * chars.len(),
    decreases chars.len(),
{
    if chars.len() == 0 {
    } else {
        lemma_encode_utf8_len(chars.drop_first());
        assert(encode_scalar(chars[0] as u32).len() <= 4);
    }
}

/// Different tags are spelled by different bytes.
proof fn lemma_tag_bytes_injective(t1: Tag, t2: Tag)
    requires
        t1 != t2,
    ensures
        tag_bytes(t1) != tag_bytes(t2),
{
    reveal_strlit("ArrayProperty");
    reveal_strlit("BoolProperty");
    reveal_strlit("ByteProperty");
    reveal_strlit("FloatProperty");
    reveal_strlit("IntProperty");
    reveal_strlit("NameProperty");
    reveal_strlit("QWordProperty");
    reveal_strlit("StrProperty");
    encode_utf8_decode_utf8("ArrayProperty"@);
    encode_utf8_decode_utf8("BoolProperty"@);
    encode_utf8_decode_utf8("ByteProperty"@);
    encode_utf8_decode_utf8("FloatProperty"@);
    encode_utf8_decode_utf8("IntProperty"@);
    encode_utf8_decode_utf8("NameProperty"@);
    encode_utf8_decode_utf8("QWordProperty"@);
    encode_utf8_decode_utf8("StrProperty"@);
    assert("ArrayProperty"@.len() == 13);
    assert("BoolProperty"@.len() == 12);
    assert("ByteProperty"@.len() == 12);
    assert("FloatProperty"@.len() == 13);
    assert("IntProperty"@.len() == 11);
    assert("NameProperty"@.len() == 12);
    assert("QWordProperty"@.len() == 13);
    assert("StrProperty"@.len() == 11);
    assert("ArrayProperty"@[0] == 'A');
    assert("FloatProperty"@[0] == 'F');
    assert("QWordProperty"@[0] == 'Q');
    assert("NameProperty"@[0] == 'N');
    assert("BoolProperty"@[0] == 'B');
    assert("ByteProperty"@[0] == 'B');
    assert("BoolProperty"@[1] == 'o');
    assert("ByteProperty"@[1] == 'y');
    assert("IntProperty"@[0] == 'I');
    assert("StrProperty"@[0] == 'S');
    if tag_bytes(t1) == tag_bytes(t2) {
        assert(tag_chars(t1) == tag_chars(t2));
        assert(false);
    }
}

/// A tag's own bytes always look the tag back up, and they are short.
pub proof fn lemma_tag_of_tag_bytes(t: Tag)
    ensures
        tag_of(tag_bytes(t)) == Some(t),
        tag_bytes(t).len() <= 52,
{
    assert forall|t1: Tag, t2: Tag| t1 != t2 implies #[trigger] tag_bytes(t1)
        != #[trigger] tag_bytes(t2) by {
        lemma_tag_bytes_injective(t1, t2);
    }
    reveal_strlit("ArrayProperty");
    reveal_strlit("BoolProperty");
    reveal_strlit("ByteProperty");
    reveal_strlit("FloatProperty");
    reveal_strlit("IntProperty");
    reveal_strlit("NameProperty");
    reveal_strlit("QWordProperty");
    reveal_strlit("StrProperty");
    lemma_encode_utf8_len(tag_chars(t));
}

/// The sentinel name is short enough for its length field.
pub proof fn lemma_sentinel_len()
    ensures
        sentinel_bytes().len() <= 16,
{
    reveal_strlit("None");
    lemma_encode_utf8_len("None"@);
}

/// A window of `s` that holds a concatenation holds each part in turn.
proof fn lemma_subrange_concat(s: Seq<u8>, i: int, a: Seq<u8>, b: Seq<u8>)
    requires
        0 <= i,
        i + a.len() + b.len() <= s.len(),
        s.subrange(i, i + a.len() + b.len()) == a + b,
    ensures
        s.subrange(i, i + a.len()) == a,
        s.subrange(i + a.len(), i + a.len() + b.len()) == b,
{
    let al = a.len() as int;
    let bl = b.len() as int;
    assert forall|j: int| 0 <= j < al implies s.subrange(i, i + al)[j] == a[j] by {
        assert(s.subrange(i, i + al + bl)[j] == (a + b)[j]);
    }
    assert(s.subrange(i, i + al) =~= a);
    assert forall|j: int| 0 <= j < bl implies s.subrange(i + al, i + al + bl)[j] == b[j] by {
        assert(s.subrange(i, i + al + bl)[al + j] == (a + b)[al + j]);
    }
    assert(s.subrange(i + al, i + al + bl) =~= b);
}

/// An encoded text embedded in a longer input parses back to its body,
/// consuming exactly its own bytes.
pub proof fn lemma_text_at(s: Seq<u8>, i: int, body: Seq<u8>)
    requires
        0 <= i,
        body.len() + 1 <= u32::MAX,
        i + 4 + body.len() + 1 <= s.len(),
        s.subrange(i, i + 4 + body.len() + 1) == spec_encode_text(body),
    ensures
        spec_text(s, i) == (Parsed::<Seq<u8>>::Done {
            value: body,
            used: (4 + body.len() + 1) as nat,
        }),
{
    let n = (body.len() + 1) as u32;
    lemma_subrange_concat(s, i, u32_le_bytes(n) + body, seq![0u8]);
    lemma_subrange_concat(s, i, u32_le_bytes(n), body);
    lemma_le32_of_bytes(s, i, n);
}

/// An encoded payload embedded in a longer input parses back to its value
/// under the tag it was written with, consuming exactly its own bytes.
#[verifier::rlimit(100)]
pub proof fn lemma_rt_payload(s: Seq<u8>, i: int, v: SpecValue, fuel: nat)
    requires
        0 <= i,
        encodable_value(v, fuel),
        i + 8 + spec_encode_value(v).len() <= s.len(),
        s.subrange(i, i + 8 + spec_encode_value(v).len()) == zeros8() + spec_encode_value(v),
    ensures
        spec_payload(s, i, tag_for(v), fuel) == (Parsed::<SpecValue>::Done {
            value: v,
            used: (8 + spec_encode_value(v).len()) as nat,
        }),
    decreases v, 0int,
{
    let enc = spec_encode_value(v);
    let el = enc.len() as int;
    lemma_subrange_concat(s, i, zeros8(), enc);
    match v {
        SpecValue::Bool(b) => {
            assert(s[i + 8] == s.subrange(i + 8, i + 8 + el)[0]);
        },
        SpecValue::Int(x) => {
            lemma_le32_of_bytes(s, i + 8, x);
        },
        SpecValue::Float(bits) => {
            lemma_le32_of_bytes(s, i + 8, bits);
        },
        SpecValue::QWord(x) => {
            lemma_le64_of_bytes(s, i + 8, x);
        },
        SpecValue::Str(t) => {
            lemma_text_at(s, i + 8, encode_utf8(t));
            encode_utf8_valid_utf8(t);
            encode_utf8_decode_utf8(t);
        },
        SpecValue::Name(t) => {
            lemma_text_at(s, i + 8, encode_utf8(t));
            encode_utf8_valid_utf8(t);
            encode_utf8_decode_utf8(t);
        },
        SpecValue::Byte(t) => {
            lemma_text_at(s, i + 8, encode_utf8(t));
            encode_utf8_valid_utf8(t);
            encode_utf8_decode_utf8(t);
        },
        SpecValue::Array(ds) => {
            let c = ds.len() as u32;
            lemma_subrange_concat(s, i + 8, u32_le_bytes(c), spec_encode_dicts(ds));
            lemma_le32_of_bytes(s, i + 8, c);
            lemma_rt_dicts(s, i + 12, ds, (fuel - 1) as nat);
        },
    }
}

/// An encoded tag text and payload embedded in a longer input parse back to
/// the value, consuming exactly their own bytes.
pub proof fn lemma_rt_tagged(s: Seq<u8>, i: int, v: SpecValue, fuel: nat)
    requires
        0 <= i,
        encodable_value(v, fuel),
        i + spec_encode_text(tag_bytes(tag_for(v))).len() + 8 + spec_encode_value(v).len()
            <= s.len(),
        s.subrange(
            i,
            i + spec_encode_text(tag_bytes(tag_for(v))).len() + 8 + spec_encode_value(v).len(),
        ) == spec_encode_text(tag_bytes(tag_for(v))) + (zeros8() + spec_encode_value(v)),
    ensures
        spec_tagged_value(s, i, fuel) == (Parsed::<SpecValue>::Done {
            value: v,
            used: (spec_encode_text(tag_bytes(tag_for(v))).len() + 8 + spec_encode_value(
                v,
            ).len()) as nat,
        }),
    decreases v, 1int,
{
    lemma_tag_of_tag_bytes(tag_for(v));
    let tt = spec_encode_text(tag_bytes(tag_for(v)));
    let tl = tt.len() as int;
    lemma_subrange_concat(s, i, tt, zeros8() + spec_encode_value(v));
    lemma_text_at(s, i, tag_bytes(tag_for(v)));
    lemma_rt_payload(s, i + tl, v, fuel);
}

/// An encoded dictionary embedded in a longer input parses back to itself,
/// consuming exactly its own bytes, at any fuel that admits its nesting.
#[verifier::rlimit(100)]
pub proof fn lemma_rt_dict(s: Seq<u8>, i: int, d: SpecDict, fuel: nat)
    requires
        0 <= i,
        encodable_dict(d, fuel),
        i + spec_encode_dict(d).len() <= s.len(),
        s.subrange(i, i + spec_encode_dict(d).len()) == spec_encode_dict(d),
    ensures
        spec_dict(s, i, fuel) == (Parsed::<SpecDict>::Done {
            value: d,
            used: spec_encode_dict(d).len() as nat,
        }),
    decreases d, 2int,
{
    lemma_sentinel_len();
    let dlen = spec_encode_dict(d).len() as int;
    if d.len() == 0 {
        assert(s.subrange(i, i + dlen) =~= spec_encode_text(sentinel_bytes()));
        lemma_text_at(s, i, sentinel_bytes());
        assert(d =~= Seq::<(Seq<char>, SpecValue)>::empty());
    } else {
        let name = d[0].0;
        let v = d[0].1;
        let nt = spec_encode_text(encode_utf8(name));
        let tt = spec_encode_text(tag_bytes(tag_for(v)));
        let pv = zeros8() + spec_encode_value(v);
        let restenc = spec_encode_dict(d.drop_first());
        assert(s.subrange(i, i + dlen) == nt + ((tt + pv) + restenc)) by {
            assert(spec_encode_dict(d) =~= nt + ((tt + pv) + restenc));
        }
        let nl = nt.len() as int;
        let tl = tt.len() as int;
        let pl = pv.len() as int;
        lemma_subrange_concat(s, i, nt, (tt + pv) + restenc);
        lemma_text_at(s, i, encode_utf8(name));
        encode_utf8_valid_utf8(name);
        encode_utf8_decode_utf8(name);
        let i1 = i + nl;
        lemma_subrange_concat(s, i1, tt + pv, restenc);
        lemma_rt_tagged(s, i1, v, fuel);
        let i2 = i1 + tl + pl;
        lemma_rt_dict(s, i2, d.drop_first(), fuel);
        assert((d[0].0, d[0].1) == d[0]);
        assert(seq![d[0]] + d.drop_first() =~= d);
    }
}

/// Encoded dictionaries back to back parse back to themselves, in order,
/// consuming exactly their own bytes.
pub proof fn lemma_rt_dicts(s: Seq<u8>, i: int, ds: Seq<SpecDict>, fuel: nat)
    requires
        0 <= i,
        encodable_dicts(ds, fuel),
        i + spec_encode_dicts(ds).len() <= s.len(),
        s.subrange(i, i + spec_encode_dicts(ds).len()) == spec_encode_dicts(ds),
    ensures
        spec_dicts(s, i, ds.len() as nat, fuel) == (Parsed::<Seq<SpecDict>>::Done {
            value: ds,
            used: spec_encode_dicts(ds).len() as nat,
        }),
    decreases ds, 1int,
{
    if ds.len() == 0 {
        assert(ds =~= Seq::<SpecDict>::empty());
    } else {
        let e0 = spec_encode_dict(ds[0]);
        let rest = spec_encode_dicts(ds.drop_first());
        let el = e0.len() as int;
        lemma_subrange_concat(s, i, e0, rest);
        lemma_rt_dict(s, i, ds[0], fuel);
        lemma_rt_dicts(s, i + el, ds.drop_first(), fuel);
        assert(seq![ds[0]] + ds.drop_first() =~= ds);
    }
}

/// The round trip: a dictionary written back out decodes to itself, whole, at
/// arbitrary nesting depth, consuming every encoded byte — so nested arrays
/// of dictionaries survive encode-then-decode exactly.
pub proof fn lemma_dict_round_trip(d: SpecDict, fuel: nat)
    requires
        encodable_dict(d, fuel),
    ensures
        spec_dict(spec_encode_dict(d), 0, fuel) == (Parsed::<SpecDict>::Done {
            value: d,
            used: spec_encode_dict(d).len() as nat,
        }),
{
    let s = spec_encode_dict(d);
    assert(s.subrange(0, s.len() as int) =~= s);
    lemma_rt_dict(s, 0, d, fuel);
}

} // verus!
