//! Telling JSON messages from binary payloads, and naming their types.

use crate::json::{as_text, json_member, json_parse, json_str, member, parse_value};
use vstd::prelude::*;

verus! {

/// The string under `"htype"`, if `value` is an object that has one.
pub open spec fn discriminator(value: serde_json::Value) -> Option<Seq<char>> {
    match json_member(value, "htype"@) {
        Some(tag) => json_str(tag),
        None => None,
    }
}

/// The type under which a classified message is counted.
pub open spec fn type_label(classified: Option<serde_json::Value>) -> Seq<char> {
    match classified {
        None => "<binary>"@,
        Some(value) => match discriminator(value) {
            Some(tag) => tag,
            None => "<unknown>"@,
        },
    }
}

/// The discriminator of a raw record: that of its JSON value, none if the
/// record is no JSON text.
pub open spec fn htype_of(raw: Seq<u8>) -> Option<Seq<char>> {
    match json_parse(raw) {
        Some(value) => discriminator(value),
        None => None,
    }
}

/// The type label of a raw record.
pub open spec fn label_of(raw: Seq<u8>) -> Seq<char> {
    type_label(json_parse(raw))
}

/// Classifies a raw record: its JSON value, or `None` for a record that does
/// not parse and is therefore taken to be binary.
pub fn try_parse(raw_msg: &[u8]) -> (classified: Option<serde_json::Value>)
    ensures
        classified == json_parse(raw_msg@),
{
    match parse_value(raw_msg) {
        Ok(value) => Some(value),
        Err(_) => None,
    }
}

/// The discriminator of a JSON value, as an owned string.
pub fn get_htype(value: &serde_json::Value) -> (tag: Option<String>)
    ensures
        match tag {
            Some(s) => discriminator(*value) == Some(s@),
            None => discriminator(*value) is None,
        },
{
    match member(value, "htype") {
        Some(inner) => match as_text(inner) {
            Some(s) => Some(s.to_owned()),
            None => None,
        },
        None => None,
    }
}

/// The type label of a classified message: `"<binary>"` where classification
/// found no JSON, the discriminator where there is one, `"<unknown>"` else.
pub fn get_msg_type(maybe_value: &Option<serde_json::Value>) -> (label: String)
    ensures
        label@ == type_label(*maybe_value),
{
    match maybe_value {
        None => "<binary>".to_owned(),
        Some(value) => match get_htype(value) {
            Some(tag) => tag,
            None => "<unknown>".to_owned(),
        },
    }
}

} // verus!
