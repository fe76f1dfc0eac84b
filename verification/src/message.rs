//! Wire-level protocol buffer data model.
//!
//! A buffer is read as a stream of tagged fields. Every byte span that a
//! decoded value refers to is kept as a pair of indices into the caller's
//! buffer, so nothing is copied at this layer.

use vstd::prelude::*;

use crate::varint::{decode_var, spec_decode_var};

verus! {

/// Protocol buffer wire types, derived from the low three bits of a tag.
#[derive(Debug, PartialEq, Clone, Eq, Copy, Hash, Structural)]
pub enum WireType {
    /// Varint (0)
    Varint,
    /// 64-bit (1)
    Fixed64,
    /// Length-delimited (2)
    LengthDelimited,
    /// 32-bit (5)
    Fixed32,
    /// Any other three-bit code
    Invalid(u8),
}

/// The wire type that a three-bit tag code denotes.
pub open spec fn spec_wire_type(value: u8) -> WireType {
    if value == 0 {
        WireType::Varint
    } else if value == 1 {
        WireType::Fixed64
    } else if value == 2 {
        WireType::LengthDelimited
    } else if value == 5 {
        WireType::Fixed32
    } else {
        WireType::Invalid(value)
    }
}

impl From<u8> for WireType {
    fn from(value: u8) -> (r: Self) {
        match value {
            0u8 => WireType::Varint,
            1u8 => WireType::Fixed64,
            2u8 => WireType::LengthDelimited,
            5u8 => WireType::Fixed32,
            other => WireType::Invalid(other),
        }
    }
}

impl vstd::std_specs::convert::FromSpecImpl<u8> for WireType {
    open spec fn obeys_from_spec() -> bool {
        true
    }

    open spec fn from_spec(value: u8) -> Self {
        spec_wire_type(value)
    }
}

/// Decoded protocol buffer value.
///
/// Byte spans are `(start, end)` index pairs into the buffer that was
/// decoded; `Invalid` and `Incomplete` carry only the start of the remaining
/// bytes, whose span always extends to the end of that buffer.
#[derive(Debug, PartialEq, Clone, Eq, Copy, Hash, Structural)]
pub enum FieldValue {
    /// Varint (wire type = 0).
    Varint(u128),
    /// 64-bit value (wire type = 1).
    Fixed64(u64),
    /// Length-delimited value (wire type = 2): the span of its bytes.
    LengthDelimited(usize, usize),
    /// 32-bit value (wire type = 5).
    Fixed32(u32),
    /// Value whose wire type code was not recognized.
    ///
    /// The size of such a value cannot be determined, so the remaining bytes
    /// of the buffer are treated as consumed by it.
    Invalid(u8, usize),
    /// Value cut short by the end of the buffer; the remaining bytes are
    /// treated as consumed by it.
    Incomplete(WireType, usize),
}

/// Decoded protocol buffer field.
#[derive(Debug, PartialEq, Clone, Eq, Copy, Hash, Structural)]
pub struct Field {
    /// Field number.
    pub number: u64,
    /// Decoded value.
    pub value: FieldValue,
}

/// Protocol buffer message: the fields decoded from one buffer.
#[derive(Debug, Clone, PartialEq, Eq, Hash)]
pub struct Message {
    /// Decoded fields.
    pub fields: Vec<Field>,
    /// Start of garbage data at the end of the buffer.
    ///
    /// As opposed to a `FieldValue::Invalid`, garbage did not have a valid
    /// field tag and for that reason cannot be placed among the fields.
    pub garbage: Option<usize>,
}

impl Default for Message {
    fn default() -> (r: Self)
        ensures
            r.fields@ =~= Seq::<Field>::empty(),
            r.garbage is None,
    {
        Message { fields: Vec::new(), garbage: None }
    }
}

/// The unsigned little-endian value of the eight bytes at `pos`.
pub open spec fn spec_le64(s: Seq<u8>, pos: int) -> u64 {
    (s[pos] as u64) | ((s[pos + 1] as u64) << 8u64) | ((s[pos + 2] as u64) << 16u64) | ((s[pos
        + 3] as u64) << 24u64) | ((s[pos + 4] as u64) << 32u64) | ((s[pos + 5] as u64) << 40u64)
        | ((s[pos + 6] as u64) << 48u64) | ((s[pos + 7] as u64) << 56u64)
}

/// The unsigned little-endian value of the four bytes at `pos`.
pub open spec fn spec_le32(s: Seq<u8>, pos: int) -> u32 {
    (s[pos] as u32) | ((s[pos + 1] as u32) << 8u32) | ((s[pos + 2] as u32) << 16u32) | ((s[pos
        + 3] as u32) << 24u32)
}

fn read_le64(data: &[u8], pos: usize) -> (r: u64)
    requires
        pos + 8 <= data@.len(),
    ensures
        r == spec_le64(data@, pos as int),
{
    (data[pos] as u64) | ((data[pos + 1] as u64) << 8u64) | ((data[pos + 2] as u64) << 16u64) | ((
    data[pos + 3] as u64) << 24u64) | ((data[pos + 4] as u64) << 32u64) | ((data[pos
        + 5] as u64) << 40u64) | ((data[pos + 6] as u64) << 48u64) | ((data[pos + 7] as u64)
        << 56u64)
}

fn read_le32(data: &[u8], pos: usize) -> (r: u32)
    requires
        pos + 4 <= data@.len(),
    ensures
        r == spec_le32(data@, pos as int),
{
    (data[pos] as u32) | ((data[pos + 1] as u32) << 8u32) | ((data[pos + 2] as u32) << 16u32) | ((
    data[pos + 3] as u32) << 24u32)
}

/// Decoding one value of the given wire type at `pos`: the value and the
/// position just past the bytes it consumed. A value that cannot be read in
/// full (`Invalid`, `Incomplete`) consumes the rest of the buffer, carrying
/// the start of the bytes it swallowed.
pub open spec fn spec_decode_value(s: Seq<u8>, pos: int, wire_type: WireType) -> (FieldValue, int) {
    match wire_type {
        WireType::Varint => match spec_decode_var(s, pos) {
            Some((v, end)) => (FieldValue::Varint(v as u128), end),
            None => (FieldValue::Incomplete(WireType::Varint, pos as usize), s.len() as int),
        },
        WireType::Fixed64 => if pos + 8 <= s.len() {
            (FieldValue::Fixed64(spec_le64(s, pos)), pos + 8)
        } else {
            (FieldValue::Incomplete(WireType::Fixed64, pos as usize), s.len() as int)
        },
        WireType::LengthDelimited => match spec_decode_var(s, pos) {
            Some((len, p)) => if p + len <= s.len() {
                (FieldValue::LengthDelimited(p as usize, (p + len) as usize), p + len)
            } else {
                (
                    FieldValue::Incomplete(WireType::LengthDelimited, p as usize),
                    s.len() as int,
                )
            },
            None => (
                FieldValue::Incomplete(WireType::LengthDelimited, pos as usize),
                s.len() as int,
            ),
        },
        WireType::Fixed32 => if pos + 4 <= s.len() {
            (FieldValue::Fixed32(spec_le32(s, pos)), pos + 4)
        } else {
            (FieldValue::Incomplete(WireType::Fixed32, pos as usize), s.len() as int)
        },
        WireType::Invalid(code) => (FieldValue::Invalid(code, pos as usize), s.len() as int),
    }
}

/// A value decode never moves backwards and never reaches past the end of
/// the buffer.
pub proof fn lemma_decode_value_advances(s: Seq<u8>, pos: int, wire_type: WireType)
    requires
        0 <= pos <= s.len(),
    ensures
        pos <= spec_decode_value(s, pos, wire_type).1 <= s.len(),
{
    crate::varint::lemma_decode_var_totality(s, pos);
    match wire_type {
        WireType::LengthDelimited => {
            if let Some((len, p)) = spec_decode_var(s, pos) {
            }
        },
        _ => {},
    }
}

impl FieldValue {
    /// Decode one value of the given wire type from `data` starting at
    /// `pos`, returning the value and the position just past the consumed
    /// bytes.
    pub fn decode(data: &[u8], pos: usize, wire_type: WireType) -> (r: (FieldValue, usize))
        requires
            pos <= data@.len(),
        ensures
            r.0 == spec_decode_value(data@, pos as int, wire_type).0,
            r.1 as int == spec_decode_value(data@, pos as int, wire_type).1,
            pos <= r.1 <= data@.len(),
    {
        match wire_type {
            WireType::Varint => match decode_var(data, pos) {
                Ok((v, end)) => (FieldValue::Varint(v as u128), end),
                Err(()) => (FieldValue::Incomplete(WireType::Varint, pos), data.len()),
            },
            WireType::Fixed64 => {
                if data.len() - pos < 8 {
                    (FieldValue::Incomplete(WireType::Fixed64, pos), data.len())
                } else {
                    (FieldValue::Fixed64(read_le64(data, pos)), pos + 8)
                }
            },
            WireType::LengthDelimited => match decode_var(data, pos) {
                Ok((len, p)) => {
                    if len <= (data.len() - p) as u64 {
                        let end = p + (len as usize);
                        (FieldValue::LengthDelimited(p, end), end)
                    } else {
                        (FieldValue::Incomplete(WireType::LengthDelimited, p), data.len())
                    }
                },
                Err(()) => (FieldValue::Incomplete(WireType::LengthDelimited, pos), data.len()),
            },
            WireType::Fixed32 => {
                if data.len() - pos < 4 {
                    (FieldValue::Incomplete(WireType::Fixed32, pos), data.len())
                } else {
                    (FieldValue::Fixed32(read_le32(data, pos)), pos + 4)
                }
            },
            WireType::Invalid(code) => (FieldValue::Invalid(code, pos), data.len()),
        }
    }
}

/// Parsing fields from `pos` to the end of the buffer: the decoded fields,
/// the position where field decoding stopped, and the start of the garbage
/// bytes if a tag failed to decode there.
pub open spec fn spec_parse_from(s: Seq<u8>, pos: int) -> (Seq<Field>, int, Option<int>)
    decreases s.len() - pos,
    via spec_parse_from_dec
{
    if pos < 0 || pos >= s.len() {
        (Seq::empty(), pos, None)
    } else {
        match spec_decode_var(s, pos) {
            None => (Seq::empty(), pos, Some(pos)),
            Some((tag, p1)) => {
                let number = tag >> 3u64;
                let wire_type = spec_wire_type((tag & 7) as u8);
                let (value, p2) = spec_decode_value(s, p1, wire_type);
                let rest = spec_parse_from(s, p2);
                (seq![Field { number, value }] + rest.0, rest.1, rest.2)
            },
        }
    }
}

#[via_fn]
proof fn spec_parse_from_dec(s: Seq<u8>, pos: int) {
    if 0 <= pos < s.len() {
        if let Some((tag, p1)) = spec_decode_var(s, pos) {
            crate::varint::lemma_decode_var_totality(s, pos);
            lemma_decode_value_advances(s, p1, spec_wire_type((tag & 7) as u8));
        }
    }
}

/// Whether any length-delimited span of the field lies between `lo + 2` and
/// `len`: a span is always preceded by its tag and its length prefix, at
/// least one byte each.
pub open spec fn span_in_bounds(f: Field, lo: int, len: int) -> bool {
    match f.value {
        FieldValue::LengthDelimited(start, end) => lo + 2 <= start <= end <= len,
        _ => true,
    }
}

/// Every length-delimited span among the parsed fields stays within the
/// buffer and leaves at least two bytes (tag and length prefix) before it.
pub proof fn lemma_parse_from_spans(s: Seq<u8>, pos: int)
    requires
        0 <= pos,
        s.len() <= usize::MAX,
    ensures
        forall|i: int|
            0 <= i < spec_parse_from(s, pos).0.len() ==> span_in_bounds(
                #[trigger] spec_parse_from(s, pos).0[i],
                pos,
                s.len() as int,
            ),
    decreases s.len() - pos,
{
    if 0 <= pos < s.len() {
        if let Some((tag, p1)) = spec_decode_var(s, pos) {
            crate::varint::lemma_decode_var_totality(s, pos);
            let wire_type = spec_wire_type((tag & 7) as u8);
            let (value, p2) = spec_decode_value(s, p1, wire_type);
            lemma_decode_value_advances(s, p1, wire_type);
            if wire_type is LengthDelimited {
                crate::varint::lemma_decode_var_totality(s, p1);
            }
            lemma_parse_from_spans(s, p2);
            let head = Field { number: tag >> 3u64, value };
            assert(span_in_bounds(head, pos, s.len() as int));
            assert forall|i: int|
                0 <= i < spec_parse_from(s, pos).0.len() implies span_in_bounds(
                #[trigger] spec_parse_from(s, pos).0[i],
                pos,
                s.len() as int,
            ) by {
                if i > 0 {
                    assert(spec_parse_from(s, pos).0[i] == spec_parse_from(s, p2).0[i - 1]);
                    assert(span_in_bounds(spec_parse_from(s, p2).0[i - 1], p2, s.len() as int));
                }
            }
        }
    }
}

/// Law: the wire decoder accounts for every input byte. Field decoding stops
/// either at the end of the buffer, or exactly where the garbage span
/// begins; the bytes before that point were consumed by the decoded fields,
/// and the garbage span runs to the end of the buffer.
pub proof fn lemma_wire_decoder_accounts(s: Seq<u8>, pos: int)
    requires
        0 <= pos <= s.len(),
    ensures
        match spec_parse_from(s, pos).2 {
            Some(g) => spec_parse_from(s, pos).1 == g && pos <= g < s.len(),
            None => spec_parse_from(s, pos).1 == s.len(),
        },
    decreases s.len() - pos,
{
    if pos < s.len() {
        if let Some((tag, p1)) = spec_decode_var(s, pos) {
            crate::varint::lemma_decode_var_totality(s, pos);
            let wire_type = spec_wire_type((tag & 7) as u8);
            lemma_decode_value_advances(s, p1, wire_type);
            lemma_wire_decoder_accounts(s, spec_decode_value(s, p1, wire_type).1);
        }
    }
}

} // verus!
