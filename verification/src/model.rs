//! The decoded data model: the tagged property value, the error type shared by
//! all decoders, and the mathematical (spec-level) image of each of them.

use vstd::prelude::*;

verus! {

/// What made a structurally present input semantically invalid.
#[derive(Clone, Copy, PartialEq, Eq, Debug, Structural)]
pub enum FaultKind {
    /// A text length field was zero, which the format forbids.
    EmptyText,
    /// A text body was not valid UTF-8.
    InvalidText,
    /// A property tag outside the closed set of known tags.
    UnknownTag,
    /// Array nesting deeper than the decoder's hard bound.
    TooDeep,
}

/// A decode failure. Decoding never returns a partial result: each decoder
/// either consumes a well-formed prefix or reports exactly one of these.
#[derive(Clone, Copy, PartialEq, Eq, Debug, Structural)]
pub enum DecodeError {
    /// The input ended before the field being read was complete; `need` is the
    /// exact number of further bytes that would complete that field.
    Incomplete { need: usize },
    /// The bytes at `offset` began a field that can never become valid.
    Malformed { offset: usize, kind: FaultKind },
}

/// One typed property payload, as decoded from the wire.
#[derive(PartialEq, Debug)]
pub enum PropertyValue {
    /// An ordered sequence of property dictionaries, one per array element.
    Array(Vec<PropertyDict>),
    /// A single-byte flag; any byte other than 1 decodes to `false`.
    Bool(bool),
    /// Tagged `ByteProperty` on the wire, but its payload uses the text
    /// encoding; kept distinct from `Str` by tag only.
    Byte(String),
    /// The bit pattern of a 32-bit IEEE-754 value, left uninterpreted.
    Float(u32),
    /// A 32-bit unsigned integer.
    Int(u32),
    /// A name string; same payload shape as `Str`, distinct by tag only.
    Name(String),
    /// A 64-bit unsigned integer.
    QWord(u64),
    /// A length-prefixed, null-terminated string.
    Str(String),
}

/// An ordered sequence of named properties, in on-wire order. Duplicate names
/// are legal and preserved.
pub type PropertyDict = Vec<(String, PropertyValue)>;

/// A length-framed container chunk: the frame's CRC field and its raw payload,
/// handed out unvalidated.
#[derive(PartialEq, Eq, Debug)]
pub struct Chunk {
    pub crc: u32,
    pub payload: Vec<u8>,
}

/// The mathematical image of a `PropertyValue`: strings become their character
/// sequences, vectors become sequences.
pub enum SpecValue {
    Array(Seq<SpecDict>),
    Bool(bool),
    Byte(Seq<char>),
    Float(u32),
    Int(u32),
    Name(Seq<char>),
    QWord(u64),
    Str(Seq<char>),
}

/// The mathematical image of a `PropertyDict`.
pub type SpecDict = Seq<(Seq<char>, SpecValue)>;

/// The outcome of parsing one wire production at a given position:
/// either a value together with the exact number of bytes it consumed,
/// or the error the decoders must report.
pub enum Parsed<T> {
    Incomplete { need: int },
    Malformed { offset: int, kind: FaultKind },
    Done { value: T, used: nat },
}

/// The abstraction of a decoded value.
pub open spec fn value_view(v: PropertyValue) -> SpecValue
    decreases v,
{
    match v {
        PropertyValue::Array(ds) => SpecValue::Array(dicts_view(ds@)),
        PropertyValue::Bool(b) => SpecValue::Bool(b),
        PropertyValue::Byte(s) => SpecValue::Byte(s@),
        PropertyValue::Float(bits) => SpecValue::Float(bits),
        PropertyValue::Int(x) => SpecValue::Int(x),
        PropertyValue::Name(s) => SpecValue::Name(s@),
        PropertyValue::QWord(x) => SpecValue::QWord(x),
        PropertyValue::Str(s) => SpecValue::Str(s@),
    }
}

/// The abstraction of a sequence of decoded dictionaries, in order.
pub open spec fn dicts_view(ds: Seq<PropertyDict>) -> Seq<SpecDict>
    decreases ds,
{
    Seq::new(
        ds.len(),
        |j: int|
            if 0 <= j < ds.len() {
                dict_view(ds[j]@)
            } else {
                arbitrary()
            },
    )
}

/// The abstraction of a decoded dictionary: entry order is preserved.
pub open spec fn dict_view(entries: Seq<(String, PropertyValue)>) -> SpecDict
    decreases entries,
{
    Seq::new(
        entries.len(),
        |j: int|
            if 0 <= j < entries.len() {
                (entries[j].0@, value_view(entries[j].1))
            } else {
                arbitrary()
            },
    )
}

/// Appending one decoded entry appends exactly its abstraction.
pub proof fn lemma_dict_view_push(entries: Seq<(String, PropertyValue)>, e: (String, PropertyValue))
    ensures
        dict_view(entries.push(e)) == dict_view(entries).push((e.0@, value_view(e.1))),
{
    assert(dict_view(entries.push(e)) =~= dict_view(entries).push((e.0@, value_view(e.1))));
}

/// Appending one decoded dictionary appends exactly its abstraction.
pub proof fn lemma_dicts_view_push(ds: Seq<PropertyDict>, d: PropertyDict)
    ensures
        dicts_view(ds.push(d)) == dicts_view(ds).push(dict_view(d@)),
{
    assert(dicts_view(ds.push(d)) =~= dicts_view(ds).push(dict_view(d@)));
}

/// The error a decoder reports for a grammar outcome that is not `Done`.
pub open spec fn err_of<T>(p: Parsed<T>) -> DecodeError
    recommends
        !(p is Done),
{
    match p {
        Parsed::Incomplete { need } => DecodeError::Incomplete { need: need as usize },
        Parsed::Malformed { offset, kind } => DecodeError::Malformed {
            offset: offset as usize,
            kind,
        },
        Parsed::Done { .. } => arbitrary(),
    }
}

} // verus!
