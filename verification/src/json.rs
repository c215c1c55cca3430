//! The JSON codec this crate relies on. Documents are decoded by `serde_json`
//! into its own `Value`; nothing here is proved, each item states what the
//! codec is trusted to do.

use vstd::prelude::*;

verus! {

/// `serde_json::Value`, a decoded JSON document. Nothing is known of what is
/// inside one but what the accessors below report.
#[verifier::external_type_specification]
#[verifier::external_body]
pub struct ExValue(serde_json::Value);

/// The value `serde_json::from_str` decodes from a complete text, `None`
/// where it reports an error.
pub uninterp spec fn json_document(text: Seq<char>) -> Option<serde_json::Value>;

/// What `Value::get` finds under a string key, `None` where the value is not
/// an object or has no such member.
pub uninterp spec fn json_member(value: serde_json::Value, key: Seq<char>) -> Option<
    serde_json::Value,
>;

/// What `Value::as_str` gives: the characters of a JSON string, `None` for
/// every other kind of value.
pub uninterp spec fn json_text(value: serde_json::Value) -> Option<Seq<char>>;

/// What `Value::as_array` gives: the elements of a JSON array, `None` for
/// every other kind of value.
pub uninterp spec fn json_items(value: serde_json::Value) -> Option<Seq<serde_json::Value>>;

/// The text `serde_json::to_string` writes for a list of strings.
pub uninterp spec fn json_string_list(items: Seq<Seq<char>>) -> Seq<char>;

/// The character contents of a list of strings.
pub open spec fn texts(items: Seq<String>) -> Seq<Seq<char>> {
    Seq::new(items.len(), |i: int| items[i]@)
}

/// Calls `serde_json::from_str` for a `Value`. Trusted: the outcome is the
/// same for the same text, and an error is reported as `None`.
#[verifier::external_body]
pub(crate) fn parse_document(text: &str) -> (doc: Option<serde_json::Value>)
    ensures
        doc == json_document(text@),
{
    serde_json::from_str::<serde_json::Value>(text).ok()
}

/// Calls `Value::get` with a string key. Trusted: the outcome depends on the
/// value and the key alone.
#[verifier::external_body]
pub(crate) fn member<'a>(value: &'a serde_json::Value, key: &str) -> (found: Option<
    &'a serde_json::Value,
>)
    ensures
        match found {
            Some(inner) => json_member(*value, key@) == Some(*inner),
            None => json_member(*value, key@) is None,
        },
{
    value.get(key)
}

/// Calls `Value::as_str`. Trusted: the outcome depends on the value alone.
#[verifier::external_body]
pub(crate) fn text_of<'a>(value: &'a serde_json::Value) -> (found: Option<&'a str>)
    ensures
        match found {
            Some(s) => json_text(*value) == Some(s@),
            None => json_text(*value) is None,
        },
{
    value.as_str()
}

/// Calls `Value::as_array`. Trusted: the outcome depends on the value alone.
#[verifier::external_body]
pub(crate) fn items_of<'a>(value: &'a serde_json::Value) -> (found: Option<
    &'a Vec<serde_json::Value>,
>)
    ensures
        match found {
            Some(items) => json_items(*value) == Some(items@),
            None => json_items(*value) is None,
        },
{
    value.as_array()
}

/// Calls `serde_json::to_string` on a list of strings. Trusted: the text
/// depends on the strings alone, and the call succeeds: it writes into a
/// byte vector, and a list of strings has neither a part that refuses to be
/// written nor a map key that is not a string, the two ways it can fail.
#[verifier::external_body]
pub(crate) fn encode_string_list(items: &Vec<String>) -> (encoded: Option<String>)
    ensures
        encoded is Some,
        encoded->0@ == json_string_list(texts(items@)),
{
    serde_json::to_string(items).ok()
}

} // verus!
