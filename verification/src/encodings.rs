//! Leaf encoding of opaque byte spans.
//!
//! When the projector decides that a length-delimited payload is not a
//! nested message, the configured policy turns its bytes into a JSON leaf:
//! decoded text, base64, a byte array, a lossy decoding, or STFU-8. Every
//! policy yields a leaf for every byte span.

use vstd::prelude::*;
use vstd::string::StrSliceExecFns;
use vstd::utf8::{decode_utf8, valid_utf8};

use base64::Engine;
use base64::prelude::BASE64_STANDARD;

use crate::json::{item_models, lemma_item_models, JsonModel, JsonValue};

verus! {

/// How to encode bytes fields when converting to JSON.
#[derive(Debug, Clone, Copy, PartialEq, Eq, Hash, Structural)]
pub enum BytesEncoding {
    /// Encode bytes as a string if valid UTF-8, otherwise as base64.
    Auto,
    /// Encode bytes as base64 string.
    Base64,
    /// Encode bytes as a JSON array of numbers.
    ByteArray,
    /// Encode bytes as an STFU-8 encoded string.
    Stfu8,
    /// Encode bytes as a UTF-8 lossy string.
    StringLossy,
}

impl Default for BytesEncoding {
    fn default() -> (r: Self)
        ensures
            r == BytesEncoding::Auto,
    {
        BytesEncoding::Auto
    }
}

/// The text that the standard base64 alphabet, with padding, assigns to a
/// byte sequence.
pub uninterp spec fn base64_of(bytes: Seq<u8>) -> Seq<char>;

/// The text that STFU-8 assigns to a byte sequence: printable characters
/// kept, everything else escaped.
pub uninterp spec fn stfu8_of(bytes: Seq<u8>) -> Seq<char>;

/// The text of a byte sequence decoded as UTF-8 with every invalid sequence
/// replaced by the replacement character.
pub uninterp spec fn lossy_of(bytes: Seq<u8>) -> Seq<char>;

/// Whether a base64 rendering of `n` bytes fits in memory: four output
/// bytes for every three of input must stay within `usize`.
pub open spec fn base64_fits(n: int) -> bool {
    n / 3 <= (usize::MAX - 4) / 4
}

/// Relies on base64's `BASE64_STANDARD` engine: the standard alphabet with
/// padding, a function of the input bytes alone.
#[verifier::external_body]
fn base64_encode(data: &[u8]) -> (r: String)
    requires
        base64_fits(data@.len() as int),
    ensures
        r@ == base64_of(data@),
{
    BASE64_STANDARD.encode(data)
}

/// Relies on stfu8::encode_u8: the encoded text is a function of the input
/// bytes alone.
#[verifier::external_body]
fn stfu8_encode(data: &[u8]) -> (r: String)
    ensures
        r@ == stfu8_of(data@),
{
    stfu8::encode_u8(data)
}

/// Relies on String::from_utf8_lossy: invalid sequences are replaced, a
/// function of the input bytes alone; valid UTF-8 comes back as the decoded
/// text itself.
#[verifier::external_body]
fn utf8_lossy(data: &[u8]) -> (r: String)
    ensures
        r@ == lossy_of(data@),
        valid_utf8(data@) ==> r@ == decode_utf8(data@),
{
    String::from_utf8_lossy(data).into_owned()
}

/// Relies on simdutf8::basic::from_utf8: returns `Ok` exactly when the
/// bytes are valid UTF-8, and then the returned str is the input bytes
/// themselves, read as text.
#[verifier::external_body]
pub(crate) fn utf8_validate(data: &[u8]) -> (r: Option<&str>)
    ensures
        r is Some <==> valid_utf8(data@),
        r matches Some(s) ==> s@ == decode_utf8(data@),
{
    simdutf8::basic::from_utf8(data).ok()
}

/// Control characters: the Unicode `Cc` category.
pub open spec fn is_control_char(c: char) -> bool {
    (c as u32) < 0x20 || (0x7f <= (c as u32) && (c as u32) <= 0x9f)
}

/// Whether the text holds no control character.
pub open spec fn all_printable(text: Seq<char>) -> bool {
    forall|i: int| 0 <= i < text.len() ==> !is_control_char(#[trigger] text[i])
}

/// Whether the text holds a control character.
pub(crate) fn has_control_chars(s: &str) -> (r: bool)
    ensures
        r == !all_printable(s@),
{
    let len = s.unicode_len();
    let mut i: usize = 0;
    loop
        invariant
            len == s@.len(),
            i <= len,
            forall|j: int| 0 <= j < i ==> !is_control_char(#[trigger] s@[j]),
        decreases len - i,
    {
        if i >= len {
            return false;
        }
        let c = s.get_char(i);
        let code = c as u32;
        if code < 0x20 || (0x7f <= code && code <= 0x9f) {
            return true;
        }
        i = i + 1;
    }
}

/// The JSON leaf that a policy assigns to a byte span.
pub open spec fn spec_leaf(bytes: Seq<u8>, encoding: BytesEncoding) -> JsonModel {
    match encoding {
        BytesEncoding::Auto => if valid_utf8(bytes) {
            JsonModel::Text(decode_utf8(bytes))
        } else {
            JsonModel::Text(base64_of(bytes))
        },
        BytesEncoding::Base64 => JsonModel::Text(base64_of(bytes)),
        BytesEncoding::ByteArray => JsonModel::Arr(
            Seq::new(bytes.len(), |i: int| JsonModel::Num(bytes[i] as u64)),
        ),
        BytesEncoding::Stfu8 => JsonModel::Text(stfu8_of(bytes)),
        BytesEncoding::StringLossy => JsonModel::Text(lossy_of(bytes)),
    }
}

/// Turn a byte span that is not a nested message into a JSON leaf under the
/// given policy. Every policy produces a leaf for every span.
#[verifier::loop_isolation(false)]
pub fn encode_bytes_leaf(bytes: &[u8], encoding: BytesEncoding) -> (r: JsonValue)
    requires
        base64_fits(bytes@.len() as int),
    ensures
        r.deep_view() == spec_leaf(bytes@, encoding),
{
    match encoding {
        BytesEncoding::Auto => match utf8_validate(bytes) {
            Some(s) => JsonValue::String(s.to_owned()),
            None => JsonValue::String(base64_encode(bytes)),
        },
        BytesEncoding::Base64 => JsonValue::String(base64_encode(bytes)),
        BytesEncoding::ByteArray => {
            let mut items: Vec<JsonValue> = Vec::new();
            let mut i: usize = 0;
            loop
                invariant
                    i <= bytes@.len(),
                    items@.len() == i,
                    forall|j: int|
                        0 <= j < i ==> #[trigger] items@[j] == JsonValue::Number(
                            bytes@[j] as u64,
                        ),
                decreases bytes@.len() - i,
            {
                if i >= bytes.len() {
                    proof {
                        lemma_item_models(items@);
                        assert(item_models(items@) =~= Seq::new(
                            bytes@.len(),
                            |j: int| JsonModel::Num(bytes@[j] as u64),
                        ));
                    }
                    return JsonValue::Array(items);
                }
                items.push(JsonValue::Number(bytes[i] as u64));
                i = i + 1;
            }
        },
        BytesEncoding::Stfu8 => JsonValue::String(stfu8_encode(bytes)),
        BytesEncoding::StringLossy => JsonValue::String(utf8_lossy(bytes)),
    }
}

} // verus!
