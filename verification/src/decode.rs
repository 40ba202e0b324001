//! Executable decoders, each proved to return exactly the outcome that the
//! wire grammar (`crate::wire`) assigns to its input.

use vstd::prelude::*;
use vstd::string::StrSliceExecFns;
use vstd::utf8::{decode_utf8, valid_utf8};

use crate::model::{
    lemma_dict_view_push, lemma_dicts_view_push, dict_view, dicts_view, err_of, value_view, Chunk,
    DecodeError, FaultKind, Parsed, PropertyDict, PropertyValue, SpecDict, SpecValue,
};
use crate::wire::{
    le32, le64, sentinel_bytes, spec_chunk, spec_dict, spec_dicts, spec_payload, spec_sections,
    spec_string, spec_tagged_value, spec_text, tag_of, Tag, MAX_NESTING,
};

verus! {

/// The little-endian u32 at `pos`.
fn read_u32(input: &[u8], pos: usize) -> (r: u32)
    requires
        pos + 4 <= input.len(),
    ensures
        r == le32(input@, pos as int),
{
    input[pos] as u32 + input[pos + 1] as u32 * 0x100 + input[pos + 2] as u32 * 0x1_0000 + input[pos
        + 3] as u32 * 0x100_0000
}

/// The little-endian u64 at `pos`.
fn read_u64(input: &[u8], pos: usize) -> (r: u64)
    requires
        pos + 8 <= input.len(),
    ensures
        r == le64(input@, pos as int),
{
    input[pos] as u64 + input[pos + 1] as u64 * 0x100 + input[pos + 2] as u64 * 0x1_0000 + input[pos
        + 3] as u64 * 0x100_0000 + input[pos + 4] as u64 * 0x1_0000_0000 + input[pos + 5] as u64
        * 0x100_0000_0000 + input[pos + 6] as u64 * 0x1_0000_0000_0000 + input[pos + 7] as u64
        * 0x100_0000_0000_0000
}

/// Copies `count` bytes starting at `start` into an owned vector.
fn copy_range(input: &[u8], start: usize, count: usize) -> (r: Vec<u8>)
    requires
        start + count <= input.len(),
    ensures
        r@ == input@.subrange(start as int, start as int + count as int),
{
    let mut r: Vec<u8> = Vec::new();
    let mut k: usize = 0;
    while k < count
        invariant
            start + count <= input.len(),
            k <= count,
            r@.len() == k,
            forall|j: int| 0 <= j < k ==> r@[j] == input@[start + j],
        decreases count - k,
    {
        r.push(input[start + k]);
        k = k + 1;
    }
    assert(r@ =~= input@.subrange(start as int, start as int + count as int));
    r
}

/// Byte-for-byte equality of two owned byte vectors.
fn eq_bytes(a: &Vec<u8>, b: &Vec<u8>) -> (r: bool)
    ensures
        r == (a@ == b@),
{
    if a.len() != b.len() {
        return false;
    }
    let mut k: usize = 0;
    while k < a.len()
        invariant
            a@.len() == b@.len(),
            k <= a@.len(),
            forall|j: int| 0 <= j < k ==> a@[j] == b@[j],
        decreases a@.len() - k,
    {
        if a[k] != b[k] {
            return false;
        }
        k = k + 1;
    }
    assert(a@ =~= b@);
    true
}

/// Relies on `String::from_utf8` from std: it succeeds exactly on valid UTF-8
/// input, and the string it builds holds the characters those bytes encode.
#[verifier::external_body]
fn utf8_to_string(bytes: Vec<u8>) -> (r: Option<String>)
    ensures
        r is Some <==> valid_utf8(bytes@),
        r matches Some(s) ==> s@ == decode_utf8(bytes@),
{
    match String::from_utf8(bytes) {
        Ok(s) => Some(s),
        Err(_) => None,
    }
}

/// The raw body bytes of the text at `pos`, and the position just past its
/// terminator.
fn decode_text_bytes(input: &[u8], pos: usize) -> (r: Result<(Vec<u8>, usize), DecodeError>)
    requires
        pos <= input.len(),
    ensures
        spec_text(input@, pos as int) matches Parsed::Done { value, used } ==> (r matches Ok(p)
            && p.0@ == value && p.1 == pos + used),
        !(spec_text(input@, pos as int) is Done) ==> (r matches Err(e) && e == err_of(
            spec_text(input@, pos as int),
        )),
        r matches Ok(p) ==> pos < p.1 <= input.len(),
{
    let avail = input.len() - pos;
    if avail < 4 {
        return Err(DecodeError::Incomplete { need: 4 - avail });
    }
    let n = read_u32(input, pos);
    if n == 0 {
        return Err(DecodeError::Malformed { offset: pos, kind: FaultKind::EmptyText });
    }
    if avail - 4 < n as usize {
        return Err(DecodeError::Incomplete { need: n as usize - (avail - 4) });
    }
    let body = copy_range(input, pos + 4, n as usize - 1);
    Ok((body, pos + 4 + n as usize))
}

/// Decodes the text at `pos` to a string: the grammar's `spec_string`
/// production, exactly.
pub fn decode_text(input: &[u8], pos: usize) -> (r: Result<(String, usize), DecodeError>)
    requires
        pos <= input.len(),
    ensures
        spec_string(input@, pos as int) matches Parsed::Done { value, used } ==> (r matches Ok(p)
            && p.0@ == value && p.1 == pos + used),
        !(spec_string(input@, pos as int) is Done) ==> (r matches Err(e) && e == err_of(
            spec_string(input@, pos as int),
        )),
        r matches Ok(p) ==> pos < p.1 <= input.len(),
{
    match decode_text_bytes(input, pos) {
        Err(e) => Err(e),
        Ok((body, p1)) => match utf8_to_string(body) {
            Some(s) => Ok((s, p1)),
            None => Err(DecodeError::Malformed { offset: pos, kind: FaultKind::InvalidText }),
        },
    }
}

/// Decodes the length-framed chunk at `pos`: the grammar's `spec_chunk`
/// production, exactly. The CRC field is handed out, not verified.
pub fn decode_chunk(input: &[u8], pos: usize) -> (r: Result<(Chunk, usize), DecodeError>)
    requires
        pos <= input.len(),
    ensures
        spec_chunk(input@, pos as int) matches Parsed::Done { value, used } ==> (r matches Ok(p)
            && p.0.crc == value.0 && p.0.payload@ == value.1 && p.1 == pos + used),
        !(spec_chunk(input@, pos as int) is Done) ==> (r matches Err(e) && e == err_of(
            spec_chunk(input@, pos as int),
        )),
        r matches Ok(p) ==> pos <= p.1 <= input.len(),
{
    let avail = input.len() - pos;
    if avail < 4 {
        return Err(DecodeError::Incomplete { need: 4 - avail });
    }
    if avail - 4 < 4 {
        return Err(DecodeError::Incomplete { need: 4 - (avail - 4) });
    }
    let size = read_u32(input, pos);
    if avail - 8 < size as usize {
        return Err(DecodeError::Incomplete { need: size as usize - (avail - 8) });
    }
    let crc = read_u32(input, pos + 4);
    let payload = copy_range(input, pos + 8, size as usize);
    Ok((Chunk { crc, payload }, pos + 8 + size as usize))
}

/// Decodes the two top-level container sections at `pos` — the header chunk,
/// then the body chunk: the grammar's `spec_sections` production, exactly.
/// What the payloads hold is left to the caller.
pub fn decode_sections(input: &[u8], pos: usize) -> (r: Result<((Chunk, Chunk), usize), DecodeError>)
    requires
        pos <= input.len(),
    ensures
        spec_sections(input@, pos as int) matches Parsed::Done { value, used } ==> (r matches Ok(p)
            && p.0.0.crc == value.0.0 && p.0.0.payload@ == value.0.1 && p.0.1.crc == value.1.0
            && p.0.1.payload@ == value.1.1 && p.1 == pos + used),
        !(spec_sections(input@, pos as int) is Done) ==> (r matches Err(e) && e == err_of(
            spec_sections(input@, pos as int),
        )),
        r matches Ok(p) ==> pos <= p.1 <= input.len(),
{
    match decode_chunk(input, pos) {
        Err(e) => Err(e),
        Ok((header, p1)) => match decode_chunk(input, p1) {
            Err(e) => Err(e),
            Ok((body, p2)) => Ok(((header, body), p2)),
        },
    }
}

/// Which known tag a text body spells, if any.
fn tag_lookup(b: &Vec<u8>) -> (r: Option<Tag>)
    ensures
        r == tag_of(b@),
{
    if eq_bytes(b, &"ArrayProperty".as_bytes_vec()) {
        Some(Tag::Array)
    } else if eq_bytes(b, &"BoolProperty".as_bytes_vec()) {
        Some(Tag::Bool)
    } else if eq_bytes(b, &"ByteProperty".as_bytes_vec()) {
        Some(Tag::Byte)
    } else if eq_bytes(b, &"FloatProperty".as_bytes_vec()) {
        Some(Tag::Float)
    } else if eq_bytes(b, &"IntProperty".as_bytes_vec()) {
        Some(Tag::Int)
    } else if eq_bytes(b, &"NameProperty".as_bytes_vec()) {
        Some(Tag::Name)
    } else if eq_bytes(b, &"QWordProperty".as_bytes_vec()) {
        Some(Tag::QWord)
    } else if eq_bytes(b, &"StrProperty".as_bytes_vec()) {
        Some(Tag::Str)
    } else {
        None
    }
}

/// Whether a text body spells the sentinel name that ends a dictionary.
fn is_sentinel(b: &Vec<u8>) -> (r: bool)
    ensures
        r == (b@ == sentinel_bytes()),
{
    eq_bytes(b, &"None".as_bytes_vec())
}

/// The outcome of a dictionary parse that continues a partial one: `acc`
/// entries and `du` bytes are already behind the cursor.
spec fn dict_after(acc: SpecDict, du: nat, p: Parsed<SpecDict>) -> Parsed<SpecDict> {
    match p {
        Parsed::Incomplete { need } => Parsed::Incomplete { need },
        Parsed::Malformed { offset, kind } => Parsed::Malformed { offset, kind },
        Parsed::Done { value, used } => Parsed::Done { value: acc + value, used: du + used },
    }
}

/// The outcome of an element-sequence parse that continues a partial one.
spec fn dicts_after(acc: Seq<SpecDict>, du: nat, p: Parsed<Seq<SpecDict>>) -> Parsed<
    Seq<SpecDict>,
> {
    match p {
        Parsed::Incomplete { need } => Parsed::Incomplete { need },
        Parsed::Malformed { offset, kind } => Parsed::Malformed { offset, kind },
        Parsed::Done { value, used } => Parsed::Done { value: acc + value, used: du + used },
    }
}

/// Decodes the dictionary at `pos`, descending through at most `fuel` array
/// payloads: the grammar's `spec_dict` production, exactly.
fn decode_dict_inner(input: &[u8], pos: usize, fuel: usize) -> (r: Result<
    (PropertyDict, usize),
    DecodeError,
>)
    requires
        pos <= input.len(),
    ensures
        spec_dict(input@, pos as int, fuel as nat) matches Parsed::Done { value, used } ==> (
        r matches Ok(p) && dict_view(p.0@) == value && p.1 == pos + used),
        !(spec_dict(input@, pos as int, fuel as nat) is Done) ==> (r matches Err(e) && e == err_of(
            spec_dict(input@, pos as int, fuel as nat),
        )),
        r matches Ok(p) ==> pos < p.1 <= input.len(),
    decreases fuel, 3int,
{
    let ghost s = input@;
    let ghost f = fuel as nat;
    let mut acc: PropertyDict = Vec::new();
    let mut cur: usize = pos;
    loop
        invariant
            pos <= cur <= input.len(),
            s == input@,
            f == fuel as nat,
            spec_dict(s, pos as int, f) == dict_after(
                dict_view(acc@),
                (cur - pos) as nat,
                spec_dict(s, cur as int, f),
            ),
        decreases input.len() - cur,
    {
        match decode_text_bytes(input, cur) {
            Err(e) => {
                return Err(e);
            },
            Ok((body, p1)) => {
                if is_sentinel(&body) {
                    proof {
                        assert(dict_view(acc@) + Seq::<(Seq<char>, SpecValue)>::empty()
                            =~= dict_view(acc@));
                    }
                    return Ok((acc, p1));
                }
                let ghost nb = body@;
                match utf8_to_string(body) {
                    None => {
                        return Err(
                            DecodeError::Malformed { offset: cur, kind: FaultKind::InvalidText },
                        );
                    },
                    Some(name) => {
                        match decode_tagged_value(input, p1, fuel) {
                            Err(e) => {
                                return Err(e);
                            },
                            Ok((val, p2)) => {
                                proof {
                                    lemma_dict_view_push(acc@, (name, val));
                                    let entry = (decode_utf8(nb), value_view(val));
                                    match spec_dict(s, p2 as int, f) {
                                        Parsed::Done { value: rest, used: u3 } => {
                                            assert(dict_view(acc@) + (seq![entry] + rest)
                                                =~= dict_view(acc@).push(entry) + rest);
                                        },
                                        _ => {},
                                    }
                                }
                                acc.push((name, val));
                                cur = p2;
                            },
                        }
                    },
                }
            },
        }
    }
}

/// Decodes the tag text at `pos` and the payload that tag selects: the
/// grammar's `spec_tagged_value` production, exactly.
fn decode_tagged_value(input: &[u8], pos: usize, fuel: usize) -> (r: Result<
    (PropertyValue, usize),
    DecodeError,
>)
    requires
        pos <= input.len(),
    ensures
        spec_tagged_value(input@, pos as int, fuel as nat) matches Parsed::Done { value, used }
            ==> (r matches Ok(p) && value_view(p.0) == value && p.1 == pos + used),
        !(spec_tagged_value(input@, pos as int, fuel as nat) is Done) ==> (r matches Err(e) && e
            == err_of(spec_tagged_value(input@, pos as int, fuel as nat))),
        r matches Ok(p) ==> pos < p.1 <= input.len(),
    decreases fuel, 2int,
{
    match decode_text_bytes(input, pos) {
        Err(e) => Err(e),
        Ok((body, p1)) => {
            match tag_lookup(&body) {
                Some(t) => {
                    match decode_payload(input, p1, t, fuel) {
                        Err(e) => Err(e),
                        Ok((v, p2)) => Ok((v, p2)),
                    }
                },
                None => {
                    match utf8_to_string(body) {
                        Some(_) => Err(
                            DecodeError::Malformed { offset: pos, kind: FaultKind::UnknownTag },
                        ),
                        None => Err(
                            DecodeError::Malformed { offset: pos, kind: FaultKind::InvalidText },
                        ),
                    }
                },
            }
        },
    }
}

/// Decodes the payload of a known tag at `pos`: the redundant 8-byte quantity
/// is consumed and never interpreted, then the tag's own encoding follows.
/// The grammar's `spec_payload` production, exactly.
fn decode_payload(input: &[u8], pos: usize, t: Tag, fuel: usize) -> (r: Result<
    (PropertyValue, usize),
    DecodeError,
>)
    requires
        pos <= input.len(),
    ensures
        spec_payload(input@, pos as int, t, fuel as nat) matches Parsed::Done { value, used } ==> (
        r matches Ok(p) && value_view(p.0) == value && p.1 == pos + used),
        !(spec_payload(input@, pos as int, t, fuel as nat) is Done) ==> (r matches Err(e) && e
            == err_of(spec_payload(input@, pos as int, t, fuel as nat))),
        r matches Ok(p) ==> pos <= p.1 <= input.len(),
    decreases fuel, 1int,
{
    let ghost s = input@;
    let avail = input.len() - pos;
    if avail < 8 {
        return Err(DecodeError::Incomplete { need: 8 - avail });
    }
    match t {
        Tag::Bool => {
            if avail - 8 < 1 {
                Err(DecodeError::Incomplete { need: 1 - (avail - 8) })
            } else {
                Ok((PropertyValue::Bool(input[pos + 8] == 1), pos + 9))
            }
        },
        Tag::Int => {
            if avail - 8 < 4 {
                Err(DecodeError::Incomplete { need: 4 - (avail - 8) })
            } else {
                Ok((PropertyValue::Int(read_u32(input, pos + 8)), pos + 12))
            }
        },
        Tag::Float => {
            if avail - 8 < 4 {
                Err(DecodeError::Incomplete { need: 4 - (avail - 8) })
            } else {
                Ok((PropertyValue::Float(read_u32(input, pos + 8)), pos + 12))
            }
        },
        Tag::QWord => {
            if avail - 8 < 8 {
                Err(DecodeError::Incomplete { need: 8 - (avail - 8) })
            } else {
                Ok((PropertyValue::QWord(read_u64(input, pos + 8)), pos + 16))
            }
        },
        Tag::Str => {
            match decode_text(input, pos + 8) {
                Err(e) => Err(e),
                Ok((txt, p2)) => Ok((PropertyValue::Str(txt), p2)),
            }
        },
        Tag::Name => {
            match decode_text(input, pos + 8) {
                Err(e) => Err(e),
                Ok((txt, p2)) => Ok((PropertyValue::Name(txt), p2)),
            }
        },
        Tag::Byte => {
            match decode_text(input, pos + 8) {
                Err(e) => Err(e),
                Ok((txt, p2)) => Ok((PropertyValue::Byte(txt), p2)),
            }
        },
        Tag::Array => {
            if avail - 8 < 4 {
                return Err(DecodeError::Incomplete { need: 4 - (avail - 8) });
            }
            if fuel == 0 {
                return Err(DecodeError::Malformed { offset: pos + 8, kind: FaultKind::TooDeep });
            }
            let count = read_u32(input, pos + 8);
            match decode_dict_elements(input, pos + 12, count, fuel) {
                Err(e) => Err(e),
                Ok((ds, cur)) => Ok((PropertyValue::Array(ds), cur)),
            }
        },
    }
}

/// Decodes `count` dictionaries back to back, starting at `pos`: the
/// grammar's `spec_dicts` production, exactly. Each element spends one unit
/// of `fuel`.
fn decode_dict_elements(input: &[u8], pos: usize, count: u32, fuel: usize) -> (r: Result<
    (Vec<PropertyDict>, usize),
    DecodeError,
>)
    requires
        pos <= input.len(),
        fuel >= 1,
    ensures
        spec_dicts(input@, pos as int, count as nat, (fuel - 1) as nat) matches Parsed::Done {
            value,
            used,
        } ==> (r matches Ok(p) && dicts_view(p.0@) == value && p.1 == pos + used),
        !(spec_dicts(input@, pos as int, count as nat, (fuel - 1) as nat) is Done) ==> (
        r matches Err(e) && e == err_of(
            spec_dicts(input@, pos as int, count as nat, (fuel - 1) as nat),
        )),
        r matches Ok(p) ==> pos <= p.1 <= input.len(),
    decreases fuel, 0int,
{
    let ghost s = input@;
    let ghost f1 = (fuel - 1) as nat;
    let mut ds: Vec<PropertyDict> = Vec::new();
    let mut cur: usize = pos;
    let mut k: u32 = 0;
    while k < count
        invariant
            pos <= cur <= input.len(),
            k <= count,
            s == input@,
            fuel >= 1,
            f1 == (fuel - 1) as nat,
            spec_dicts(s, pos as int, count as nat, f1) == dicts_after(
                dicts_view(ds@),
                (cur - pos) as nat,
                spec_dicts(s, cur as int, (count - k) as nat, f1),
            ),
        decreases count - k,
    {
        match decode_dict_inner(input, cur, fuel - 1) {
            Err(e) => {
                proof {
                    let pd = spec_dict(s, cur as int, f1);
                    assert(!(spec_dicts(s, cur as int, (count - k) as nat, f1) is Done));
                    assert(err_of(spec_dicts(s, cur as int, (count - k) as nat, f1)) == err_of(pd));
                    assert(!(spec_dicts(s, pos as int, count as nat, f1) is Done));
                    assert(err_of(spec_dicts(s, pos as int, count as nat, f1)) == err_of(pd));
                }
                return Err(e);
            },
            Ok((d, p2)) => {
                proof {
                    lemma_dicts_view_push(ds@, d);
                    assert(spec_dict(s, cur as int, f1) == (Parsed::Done {
                        value: dict_view(d@),
                        used: (p2 - cur) as nat,
                    }));
                    match spec_dicts(s, p2 as int, (count - k - 1) as nat, f1) {
                        Parsed::Done { value: rest, used: u2 } => {
                            assert(spec_dicts(s, cur as int, (count - k) as nat, f1) == (
                            Parsed::Done {
                                value: seq![dict_view(d@)] + rest,
                                used: ((p2 - cur) as nat + u2) as nat,
                            }));
                            assert(dicts_view(ds@) + (seq![dict_view(d@)] + rest) =~= dicts_view(
                                ds@,
                            ).push(dict_view(d@)) + rest);
                        },
                        _ => {
                            assert(spec_dicts(s, cur as int, (count - k) as nat, f1) == spec_dicts(
                                s,
                                p2 as int,
                                (count - k - 1) as nat,
                                f1,
                            ));
                        },
                    }
                }
                ds.push(d);
                cur = p2;
                k = k + 1;
            },
        }
    }
    proof {
        assert(dicts_view(ds@) + Seq::<SpecDict>::empty() =~= dicts_view(ds@));
    }
    Ok((ds, cur))
}

/// Decodes the property dictionary at `pos`: the grammar's `spec_dict`
/// production with the full nesting allowance, exactly. Entries come back in
/// on-wire order, the sentinel is consumed but not returned, and no partial
/// dictionary survives a failure.
pub fn decode_dict(input: &[u8], pos: usize) -> (r: Result<(PropertyDict, usize), DecodeError>)
    requires
        pos <= input.len(),
    ensures
        spec_dict(input@, pos as int, MAX_NESTING as nat) matches Parsed::Done { value, used }
            ==> (r matches Ok(p) && dict_view(p.0@) == value && p.1 == pos + used),
        !(spec_dict(input@, pos as int, MAX_NESTING as nat) is Done) ==> (r matches Err(e) && e
            == err_of(spec_dict(input@, pos as int, MAX_NESTING as nat))),
        r matches Ok(p) ==> pos < p.1 <= input.len(),
{
    decode_dict_inner(input, pos, MAX_NESTING)
}

} // verus!
