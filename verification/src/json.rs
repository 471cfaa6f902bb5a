//! The JSON layer. Parsing, member access and printing are done by
//! `serde_json`; this module declares what the rest of the library takes on
//! trust about it.
//!
//! A JSON document is kept as the `serde_json::Value` that the parser made,
//! so that members which the library knows nothing about come out again as
//! they went in. To the verifier such a value is opaque: contracts speak of
//! it through the names below, each of which stands for what one function of
//! `serde_json` returns. Nothing is proved about these names; every wrapper
//! says in its comment what it claims of the function that it calls.

use vstd::prelude::*;

verus! {

/// Makes `serde_json::Value` known to the verifier, as a type of which it
/// sees nothing.
#[verifier::external_type_specification]
#[verifier::external_body]
pub struct ExJsonValue(serde_json::Value);

/// Makes `serde_json::Error` known to the verifier, as a type of which it
/// sees nothing.
#[verifier::external_type_specification]
#[verifier::external_body]
pub struct ExJsonError(serde_json::Error);

/// The value that `serde_json::from_slice` reads from `text`; `None` where it
/// reports an error.
pub uninterp spec fn json_parse(text: Seq<u8>) -> Option<serde_json::Value>;

/// The members that `value` holds if it is an object, each under its key;
/// the empty map for a value that is no object.
pub uninterp spec fn json_members(value: serde_json::Value) -> Map<Seq<char>, serde_json::Value>;

/// The member of `value` under `key`, if it has one.
pub open spec fn json_member(value: serde_json::Value, key: Seq<char>) -> Option<
    serde_json::Value,
> {
    if json_members(value).contains_key(key) {
        Some(json_members(value)[key])
    } else {
        None
    }
}

/// What `Value::as_str` returns.
pub uninterp spec fn json_str(value: serde_json::Value) -> Option<Seq<char>>;

/// What `Value::as_u64` returns.
pub uninterp spec fn json_u64(value: serde_json::Value) -> Option<u64>;

/// The value that `Value::from` makes of an unsigned integer.
pub uninterp spec fn json_of_u64(n: u64) -> serde_json::Value;

/// The value that `Value::from` makes of a string.
pub uninterp spec fn json_of_str(s: Seq<char>) -> serde_json::Value;

/// `value` after the member under `key` has been assigned `with`.
pub uninterp spec fn json_replaced(
    value: serde_json::Value,
    key: Seq<char>,
    with: serde_json::Value,
) -> serde_json::Value;

/// The compact text that `serde_json::to_vec` writes; `None` where it reports
/// an error.
pub uninterp spec fn json_bytes(value: serde_json::Value) -> Option<Seq<u8>>;

/// The indented text that `serde_json::to_string_pretty` writes; `None` where
/// it reports an error.
pub uninterp spec fn json_pretty(value: serde_json::Value) -> Option<Seq<char>>;

/// Calls `serde_json::from_slice` to read one `Value` from the whole of
/// `text`. Trusted: the outcome depends on the bytes alone, and is the one
/// that `json_parse` names.
#[verifier::external_body]
pub(crate) fn parse_value(text: &[u8]) -> (parsed: Result<serde_json::Value, serde_json::Error>)
    ensures
        match parsed {
            Ok(value) => json_parse(text@) == Some(value),
            Err(_) => json_parse(text@) is None,
        },
{
    serde_json::from_slice::<serde_json::Value>(text)
}

/// Calls `Value::get` with a string key. Trusted: it finds the member that
/// `json_members` holds under the key, and nothing where there is none.
/// (`get` gives `None` for a value that is no object and for an object
/// without the key.)
#[verifier::external_body]
pub(crate) fn member<'a>(value: &'a serde_json::Value, key: &str) -> (found: Option<
    &'a serde_json::Value,
>)
    ensures
        match found {
            Some(inner) => json_members(*value).contains_key(key@) && json_members(*value)[key@]
                == *inner,
            None => !json_members(*value).contains_key(key@),
        },
{
    value.get(key)
}

/// Calls `Value::as_str`. Trusted: the string handed out, or `None` for a
/// value that is no string, is what `json_str` names.
#[verifier::external_body]
pub(crate) fn as_text<'a>(value: &'a serde_json::Value) -> (text: Option<&'a str>)
    ensures
        match text {
            Some(s) => json_str(*value) == Some(s@),
            None => json_str(*value) is None,
        },
{
    value.as_str()
}

/// Calls `Value::as_u64`. Trusted: the number handed out, or `None` for a
/// value that is no integer in the range of `u64`, is what `json_u64` names.
#[verifier::external_body]
pub(crate) fn as_unsigned(value: &serde_json::Value) -> (n: Option<u64>)
    ensures
        n == json_u64(*value),
{
    value.as_u64()
}

/// Calls `Value::from` on a `u64`. Trusted: the result is the JSON number
/// that `json_of_u64` names, and `as_u64` reads `n` back from it.
#[verifier::external_body]
pub(crate) fn value_of_u64(n: u64) -> (value: serde_json::Value)
    ensures
        value == json_of_u64(n),
        json_u64(value) == Some(n),
{
    serde_json::Value::from(n)
}

/// Calls `Value::from` on a string slice. Trusted: the result is the JSON
/// string that `json_of_str` names, and `as_str` reads `s` back from it.
#[verifier::external_body]
pub(crate) fn value_of_str(s: &str) -> (value: serde_json::Value)
    ensures
        value == json_of_str(s@),
        json_str(value) == Some(s@),
{
    serde_json::Value::from(s)
}

/// Assigns through `Value`'s string index, `value[key] = with`. The index
/// panics on a value that is neither an object nor null and inserts a key
/// that is missing; `requires` leaves both out by asking that the member is
/// there. Trusted: the object afterwards is the one that `json_replaced`
/// names, and its members are those from before with `with` under `key`.
#[verifier::external_body]
pub(crate) fn replace_member(value: &mut serde_json::Value, key: &str, with: serde_json::Value)
    requires
        json_members(*old(value)).contains_key(key@),
    ensures
        *final(value) == json_replaced(*old(value), key@, with),
        json_members(*final(value)) == json_members(*old(value)).insert(key@, with),
{
    value[key] = with;
}

/// Calls `serde_json::to_vec`. Trusted: the bytes written, or the failure,
/// are what `json_bytes` names.
#[verifier::external_body]
pub(crate) fn to_bytes(value: &serde_json::Value) -> (written: Result<Vec<u8>, serde_json::Error>)
    ensures
        match written {
            Ok(bytes) => json_bytes(*value) == Some(bytes@),
            Err(_) => json_bytes(*value) is None,
        },
{
    serde_json::to_vec(value)
}

/// Calls `serde_json::to_string_pretty`. Trusted: the text written, or the
/// failure, is what `json_pretty` names.
#[verifier::external_body]
pub(crate) fn to_pretty(value: &serde_json::Value) -> (written: Result<String, serde_json::Error>)
    ensures
        match written {
            Ok(s) => json_pretty(*value) == Some(s@),
            Err(_) => json_pretty(*value) is None,
        },
{
    serde_json::to_string_pretty(value)
}

} // verus!
