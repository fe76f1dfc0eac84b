//! Schema-less protocol buffer decoding.
//!
//! The wire decoder turns a byte buffer into a sequence of numbered fields,
//! never failing on malformed input; the heuristic projector then reinterprets
//! length-delimited payloads as nested messages, text or opaque bytes and
//! assembles a JSON-like tree keyed by field number.

mod encodings;
mod json;
mod message;
mod parser;
mod varint;

pub use encodings::all_printable;
pub use encodings::base64_fits;
pub use encodings::base64_of;
pub use encodings::encode_bytes_leaf;
pub use encodings::is_control_char;
pub use encodings::lossy_of;
pub use encodings::spec_leaf;
pub use encodings::stfu8_of;
pub use encodings::BytesEncoding;
pub use json::entries_model;
pub use json::find_key;
pub use json::group_all;
pub use json::group_insert;
pub use json::item_models;
pub use json::lemma_grouping_pair;
pub use json::lemma_grouping_single;
pub use json::lookup;
pub use json::object_insert;
pub use json::values_of;
pub use json::JsonModel;
pub use json::JsonValue;
pub use message::lemma_wire_decoder_accounts;
pub use message::spec_decode_value;
pub use message::spec_parse_from;
pub use message::spec_wire_type;
pub use message::Field;
pub use message::FieldValue;
pub use message::Message;
pub use message::WireType;
pub use parser::any_reserved;
pub use parser::is_reserved;
pub use parser::lemma_projector_deterministic;
pub use parser::lemma_projector_grouping;
pub use parser::lemma_utf8_tie_break;
pub use parser::spec_project;
pub use parser::spec_project_fields;
pub use parser::Parser;
pub use varint::decode_var;
pub use varint::encode_var;
pub use varint::lemma_decode_var_totality;
pub use varint::lemma_varint_round_trip;
pub use varint::spec_decode_var;
pub use varint::spec_encode_var;
pub use varint::MSB;
