//! Heuristic protobuf-to-JSON projector.
//!
//! Without a schema, a length-delimited payload may be a nested message, a
//! string, or opaque bytes. The projector parses each candidate buffer once,
//! then decides: printable text is kept as a string; a parse with trailing
//! garbage or reserved field numbers inside text is judged accidental; what
//! remains is rendered as a nested object, with repeated field numbers
//! grouped into arrays.

use vstd::prelude::*;
use vstd::slice::slice_subrange;
use vstd::utf8::{decode_utf8, valid_utf8};

use crate::encodings::{
    all_printable, base64_fits, encode_bytes_leaf, has_control_chars, spec_leaf, utf8_validate,
    BytesEncoding,
};
use crate::json::{
    entries_model, group_all, lemma_entries_model, lemma_grouping_pair, lemma_grouping_single,
    lookup, object_insert, values_of, JsonModel, JsonValue,
};
use crate::message::{
    lemma_parse_from_spans, span_in_bounds, spec_parse_from, Field, FieldValue, Message, WireType,
};
use crate::varint::decode_var;

verus! {

/// Whether a field number lies in the range that the protocol buffer
/// specification reserves (19000 to 19999), a hint that bytes parsed by
/// accident.
pub open spec fn is_reserved(number: u64) -> bool {
    19000 <= number < 20000
}

/// Whether any of the fields carries a reserved number.
pub open spec fn any_reserved(fields: Seq<Field>) -> bool {
    exists|i: int| 0 <= i < fields.len() && is_reserved(#[trigger] fields[i].number)
}

/// A keyed value in front of an already-projected tail.
pub open spec fn cons_pair(
    head: (u64, JsonModel),
    rest: Option<Seq<(u64, JsonModel)>>,
) -> Option<Seq<(u64, JsonModel)>> {
    match rest {
        Some(tail) => Some(seq![head] + tail),
        None => None,
    }
}

/// The keyed leaf values that projecting the fields from index `i` on
/// yields, in encounter order and before grouping; `None` when a malformed
/// field disqualifies the whole candidate (below the top level), and a
/// truncated list when one stops the top level early.
pub open spec fn spec_project_fields(
    s: Seq<u8>,
    fields: Seq<Field>,
    i: int,
    first_layer: bool,
    encoding: BytesEncoding,
) -> Option<Seq<(u64, JsonModel)>>
    decreases s.len(), 0int, fields.len() - i,
{
    if i < 0 || i >= fields.len() {
        Some(Seq::empty())
    } else {
        let f = fields[i];
        match f.value {
            FieldValue::Varint(v) => cons_pair(
                (f.number, JsonModel::Num(#[verifier::truncate] (v as u64))),
                spec_project_fields(s, fields, i + 1, first_layer, encoding),
            ),
            FieldValue::Fixed64(v) => cons_pair(
                (f.number, JsonModel::Num(v)),
                spec_project_fields(s, fields, i + 1, first_layer, encoding),
            ),
            FieldValue::Fixed32(v) => cons_pair(
                (f.number, JsonModel::Num(v as u64)),
                spec_project_fields(s, fields, i + 1, first_layer, encoding),
            ),
            FieldValue::LengthDelimited(start, end) => {
                let sub = s.subrange(start as int, end as int);
                let leaf = if start <= end <= s.len() && end - start < s.len() {
                    match spec_project(sub, false, encoding) {
                        Some(nested) => nested,
                        None => spec_leaf(sub, encoding),
                    }
                } else {
                    spec_leaf(sub, encoding)
                };
                cons_pair(
                    (f.number, leaf),
                    spec_project_fields(s, fields, i + 1, first_layer, encoding),
                )
            },
            FieldValue::Invalid(_, _) => if first_layer {
                Some(Seq::empty())
            } else {
                None
            },
            FieldValue::Incomplete(_, _) => if first_layer {
                Some(Seq::empty())
            } else {
                None
            },
        }
    }
}

/// Projecting a buffer at one nesting level: `None` when the buffer is
/// judged not to be a message here, otherwise the object holding its
/// grouped fields.
pub open spec fn spec_project(s: Seq<u8>, first_layer: bool, encoding: BytesEncoding) -> Option<
    JsonModel,
>
    decreases s.len(), 1int, 0int,
{
    if s.len() == 0 {
        None
    } else if !first_layer && valid_utf8(s) && all_printable(decode_utf8(s)) {
        None
    } else {
        let (fields, end, garbage) = spec_parse_from(s, 0);
        if fields.len() == 0 {
            None
        } else if !first_layer && valid_utf8(s) && (garbage is Some || any_reserved(fields)) {
            None
        } else {
            match spec_project_fields(s, fields, 0, first_layer, encoding) {
                Some(pairs) => Some(JsonModel::Obj(group_all(pairs))),
                None => None,
            }
        }
    }
}

/// A protobuf parser that converts protobuf messages to JSON.
#[derive(Debug, Clone, PartialEq, Eq, Hash, Structural)]
pub struct Parser {
    /// How to encode bytes fields when converting to JSON.
    pub bytes_encoding: BytesEncoding,
}

impl Default for Parser {
    fn default() -> (r: Self)
        ensures
            r.bytes_encoding == BytesEncoding::Auto,
    {
        Parser { bytes_encoding: BytesEncoding::Auto }
    }
}

impl Parser {
    /// Create a new parser.
    pub fn new() -> (r: Self)
        ensures
            r.bytes_encoding == BytesEncoding::Auto,
    {
        Parser { bytes_encoding: BytesEncoding::Auto }
    }

    /// Create a new parser with the given bytes encoding method.
    pub fn with_bytes_encoding(bytes_encoding: BytesEncoding) -> (r: Self)
        ensures
            r.bytes_encoding == bytes_encoding,
    {
        Parser { bytes_encoding }
    }

    /// Parse a protobuf message from the given byte slice without recursion:
    /// decode fields until the buffer ends or a tag fails to decode, in
    /// which case the remaining bytes are kept as garbage.
    #[verifier::loop_isolation(false)]
    pub fn parse_once(&self, data: &[u8]) -> (msg: Message)
        ensures
            msg.fields@ == spec_parse_from(data@, 0).0,
            msg.garbage is Some <==> spec_parse_from(data@, 0).2 is Some,
            msg.garbage matches Some(g) ==> Some(g as int) == spec_parse_from(data@, 0).2,
    {
        let ghost s = data@;
        let mut fields: Vec<Field> = Vec::new();
        let mut pos: usize = 0;
        loop
            invariant
                pos <= data@.len(),
                spec_parse_from(s, 0).0 == fields@ + spec_parse_from(s, pos as int).0,
                spec_parse_from(s, 0).1 == spec_parse_from(s, pos as int).1,
                spec_parse_from(s, 0).2 == spec_parse_from(s, pos as int).2,
            decreases data@.len() - pos,
        {
            if pos >= data.len() {
                proof {
                    assert(fields@ + spec_parse_from(s, pos as int).0 =~= fields@);
                }
                return Message { fields, garbage: None };
            }
            match decode_var(data, pos) {
                Err(()) => {
                    proof {
                        assert(fields@ + spec_parse_from(s, pos as int).0 =~= fields@);
                    }
                    return Message { fields, garbage: Some(pos) };
                },
                Ok((tag, p1)) => {
                    let number = tag >> 3u64;
                    let wire_type = WireType::from((tag & 7) as u8);
                    let (value, p2) = FieldValue::decode(data, p1, wire_type);
                    let ghost fields_before = fields@;
                    fields.push(Field { number, value });
                    proof {
                        assert(spec_parse_from(s, pos as int).0 == seq![
                            Field { number, value },
                        ] + spec_parse_from(s, p2 as int).0);
                        assert(fields_before + spec_parse_from(s, pos as int).0 =~= fields@
                            + spec_parse_from(s, p2 as int).0);
                    }
                    pos = p2;
                },
            }
        }
    }

    /// Parse a protobuf message from the given byte slice and convert it to
    /// JSON: `None` when the buffer does not look like a protobuf message.
    pub fn parse(&self, data: &[u8]) -> (r: Option<JsonValue>)
        requires
            base64_fits(data@.len() as int),
        ensures
            r is Some <==> spec_project(data@, true, self.bytes_encoding) is Some,
            r matches Some(v) ==> Some(v.deep_view()) == spec_project(
                data@,
                true,
                self.bytes_encoding,
            ),
    {
        self.parse_to_json(data, true)
    }

    /// Recursively parse a protobuf message and convert it to JSON.
    #[verifier::loop_isolation(false)]
    fn parse_to_json(&self, data: &[u8], first_layer: bool) -> (r: Option<JsonValue>)
        requires
            base64_fits(data@.len() as int),
        ensures
            r is Some <==> spec_project(data@, first_layer, self.bytes_encoding) is Some,
            r matches Some(v) ==> Some(v.deep_view()) == spec_project(
                data@,
                first_layer,
                self.bytes_encoding,
            ),
        decreases data@.len(),
    {
        let ghost s = data@;
        if data.len() == 0 {
            return None;
        }
        let utf8_str = utf8_validate(data);
        let utf8_printable = match utf8_str {
            Some(text) => !has_control_chars(text),
            None => false,
        };
        if !first_layer && utf8_printable {
            return None;
        }
        let msg = self.parse_once(data);
        let ghost fields_spec = spec_parse_from(s, 0).0;
        if msg.fields.len() == 0 {
            return None;
        }
        if !first_layer && utf8_str.is_some() && (msg.garbage.is_some() || has_reserved_field(
            &msg.fields,
        )) {
            return None;
        }
        proof {
            lemma_parse_from_spans(s, 0);
        }
        let mut obj: Vec<(u64, JsonValue)> = Vec::new();
        let ghost mut pairs: Seq<(u64, JsonModel)> = Seq::empty();
        let ghost mut stopped_early: bool = false;
        let n = msg.fields.len();
        let mut idx: usize = 0;
        while idx < n
            invariant
                idx <= n,
                entries_model(obj@) == group_all(pairs),
                !stopped_early ==> spec_project_fields(
                    s,
                    fields_spec,
                    0,
                    first_layer,
                    self.bytes_encoding,
                ) == (match spec_project_fields(
                    s,
                    fields_spec,
                    idx as int,
                    first_layer,
                    self.bytes_encoding,
                ) {
                    Some(rest) => Some(pairs + rest),
                    None => None::<Seq<(u64, JsonModel)>>,
                }),
                stopped_early ==> idx == n,
                stopped_early ==> spec_project_fields(
                    s,
                    fields_spec,
                    0,
                    first_layer,
                    self.bytes_encoding,
                ) == Some(pairs),
            decreases n - idx,
        {
            let field_number = msg.fields[idx].number;
            let maybe_value: Option<JsonValue> = match msg.fields[idx].value {
                FieldValue::Varint(v) => Some(JsonValue::Number(#[verifier::truncate] (v as u64))),
                FieldValue::Fixed64(v) => Some(JsonValue::Number(v)),
                FieldValue::Fixed32(v) => Some(JsonValue::Number(v as u64)),
                FieldValue::LengthDelimited(start, end) => {
                    proof {
                        assert(span_in_bounds(fields_spec[idx as int], 0, s.len() as int));
                    }
                    let sub = slice_subrange(data, start, end);
                    match self.parse_to_json(sub, false) {
                        Some(nested) => Some(nested),
                        None => Some(encode_bytes_leaf(sub, self.bytes_encoding)),
                    }
                },
                FieldValue::Invalid(_, _) | FieldValue::Incomplete(_, _) => {
                    if !first_layer {
                        return None;
                    }
                    None
                },
            };
            match maybe_value {
                Some(value) => {
                    let ghost value_model = value.deep_view();
                    let ghost pairs_before = pairs;
                    object_insert(&mut obj, field_number, value);
                    proof {
                        pairs = pairs.push((field_number, value_model));
                        assert(pairs.drop_last() =~= pairs_before);
                        match spec_project_fields(
                            s,
                            fields_spec,
                            idx + 1,
                            first_layer,
                            self.bytes_encoding,
                        ) {
                            Some(rest) => {
                                assert(pairs_before + (seq![(field_number, value_model)] + rest)
                                    =~= pairs + rest);
                            },
                            None => {},
                        }
                    }
                    idx = idx + 1;
                },
                None => {
                    proof {
                        stopped_early = true;
                        assert(pairs + Seq::<(u64, JsonModel)>::empty() =~= pairs);
                    }
                    idx = n;
                },
            }
        }
        proof {
            if !stopped_early {
                assert(pairs + Seq::<(u64, JsonModel)>::empty() =~= pairs);
            }
            lemma_entries_model(obj@);
        }
        Some(JsonValue::Object(obj))
    }
}

/// Whether any decoded field carries a number in the reserved range.
#[verifier::loop_isolation(false)]
fn has_reserved_field(fields: &Vec<Field>) -> (r: bool)
    ensures
        r == any_reserved(fields@),
{
    let n = fields.len();
    let mut i: usize = 0;
    loop
        invariant
            i <= n,
            forall|j: int| 0 <= j < i ==> !is_reserved(#[trigger] fields@[j].number),
        decreases n - i,
    {
        if i >= n {
            return false;
        }
        let number = fields[i].number;
        if 19000 <= number && number < 20000 {
            return true;
        }
        i = i + 1;
    }
}

/// Law: printable text is never taken for a nested message. A non-empty
/// span of valid UTF-8 with no control characters is rejected as a message
/// candidate below the top level, whatever the policy; under the default
/// policy its leaf is exactly that text.
pub proof fn lemma_utf8_tie_break(s: Seq<u8>, encoding: BytesEncoding)
    requires
        s.len() > 0,
        valid_utf8(s),
        all_printable(decode_utf8(s)),
    ensures
        spec_project(s, false, encoding) is None,
        spec_leaf(s, BytesEncoding::Auto) == JsonModel::Text(decode_utf8(s)),
{
}

/// Law: grouping of repeated field numbers in one decode. Among the keyed
/// values that one projection of a buffer yields, a field number seen
/// exactly once keeps its value directly, and one seen exactly twice with a
/// non-array first value ends up as the two-element array of its values in
/// encounter order.
pub proof fn lemma_projector_grouping(
    s: Seq<u8>,
    first_layer: bool,
    encoding: BytesEncoding,
    key: u64,
)
    ensures
        ({
            let fields = spec_parse_from(s, 0).0;
            match spec_project_fields(s, fields, 0, first_layer, encoding) {
                Some(pairs) => {
                    &&& (values_of(pairs, key).len() == 1 ==> lookup(group_all(pairs), key)
                        == Some(values_of(pairs, key)[0]))
                    &&& (values_of(pairs, key).len() == 2 && !(values_of(pairs, key)[0] is Arr)
                        ==> lookup(group_all(pairs), key) == Some(
                        JsonModel::Arr(values_of(pairs, key)),
                    ))
                },
                None => true,
            }
        }),
{
    let fields = spec_parse_from(s, 0).0;
    if let Some(pairs) = spec_project_fields(s, fields, 0, first_layer, encoding) {
        if values_of(pairs, key).len() == 1 {
            lemma_grouping_single(pairs, key);
        }
        if values_of(pairs, key).len() == 2 && !(values_of(pairs, key)[0] is Arr) {
            lemma_grouping_pair(pairs, key);
        }
    }
}

/// Law: the projector is a pure function of the buffer and the policy, so
/// two decodes of the same buffer yield the same tree. Any two results that
/// meet the contract of `Parser::parse` on the same input have equal models.
pub proof fn lemma_projector_deterministic(
    data: Seq<u8>,
    encoding: BytesEncoding,
    v1: JsonValue,
    v2: JsonValue,
)
    requires
        Some(v1.deep_view()) == spec_project(data, true, encoding),
        Some(v2.deep_view()) == spec_project(data, true, encoding),
    ensures
        v1.deep_view() == v2.deep_view(),
{
}

} // verus!
