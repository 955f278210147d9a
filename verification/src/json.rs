//! JSON values as `serde_json` holds them, and what the library reads off them.
//!
//! A [`serde_json::Value`] is opaque here. [`json_of`] names what it holds, and
//! the functions of this module say of each accessor of `serde_json` what it
//! returns for what the value holds.

use crate::float::Double;
use serde_json::Value as JsonValue;
use vstd::prelude::*;

verus! {

/// What a JSON value holds.
pub enum JsonView {
    /// Null.
    Null,
    /// A boolean.
    Bool(bool),
    /// An integer that is not negative.
    PosInt(u64),
    /// A negative integer.
    NegInt(i64),
    /// Any other number.
    Float(Double),
    /// A string.
    Text(Seq<char>),
    /// A list of values.
    Array(Seq<JsonView>),
    /// Keys with their values, in the order in which they are walked.
    Object(Seq<(Seq<char>, JsonView)>),
}

impl JsonView {
    /// The integer that a value holds, if it holds one of sixty-four bits with a
    /// sign.
    pub open spec fn integer(self) -> Option<i64> {
        match self {
            JsonView::PosInt(n) => if n <= i64::MAX {
                Some(n as i64)
            } else {
                None
            },
            JsonView::NegInt(n) => Some(n),
            _ => None,
        }
    }

    /// The number that a value holds, if it holds one, as a double.
    pub open spec fn number(self) -> Option<Double> {
        match self {
            JsonView::PosInt(n) => Some(Double { bits: Double::int_bits(n as int) as u64 }),
            JsonView::NegInt(n) => Some(Double { bits: Double::int_bits(n as int) as u64 }),
            JsonView::Float(f) => Some(f),
            _ => None,
        }
    }

    /// The text that a value holds, if it holds one.
    pub open spec fn text(self) -> Option<Seq<char>> {
        match self {
            JsonView::Text(s) => Some(s),
            _ => None,
        }
    }

    /// The boolean that a value holds, if it holds one.
    pub open spec fn boolean(self) -> Option<bool> {
        match self {
            JsonView::Bool(b) => Some(b),
            _ => None,
        }
    }
}

/// A JSON value of `serde_json`.
#[verifier::external_type_specification]
#[verifier::external_body]
pub struct ExJsonValue(JsonValue);

/// A JSON object of `serde_json`.
#[verifier::external_type_specification]
#[verifier::external_body]
#[verifier::reject_recursive_types(K)]
#[verifier::reject_recursive_types(V)]
pub struct ExJsonMap<K, V>(serde_json::Map<K, V>);

/// What a JSON value holds.
pub uninterp spec fn json_of(value: JsonValue) -> JsonView;

/// What a JSON object holds, in the order in which it is walked.
pub uninterp spec fn entries_of(
    map: serde_json::Map<String, JsonValue>,
) -> Seq<(Seq<char>, JsonView)>;

/// The compact text of what a JSON value holds.
pub uninterp spec fn json_text(value: JsonView) -> Seq<char>;

/// `serde_json::Value::as_str` gives the text of a string and nothing for any
/// other value. The text is copied.
#[verifier::external_body]
pub(crate) fn as_text(value: &JsonValue) -> (text: Option<String>)
    ensures
        match text {
            Some(s) => json_of(*value).text() == Some(s@),
            None => json_of(*value).text() is None,
        },
{
    match value.as_str() {
        Some(s) => Some(s.to_owned()),
        None => None,
    }
}

/// `serde_json::Value::as_bool` gives the value of a boolean and nothing for any
/// other value.
#[verifier::external_body]
pub(crate) fn as_bool(value: &JsonValue) -> (b: Option<bool>)
    ensures
        b == json_of(*value).boolean(),
{
    value.as_bool()
}

/// `serde_json::Value::as_i64` gives an integer that fits in sixty-four bits with
/// a sign, and nothing for any other value.
#[verifier::external_body]
pub(crate) fn as_i64(value: &JsonValue) -> (n: Option<i64>)
    ensures
        n == json_of(*value).integer(),
{
    value.as_i64()
}

/// `serde_json::Value::as_f64` gives any number as a double, an integer rounded
/// to the nearest one, and nothing for any other value.
#[verifier::external_body]
pub(crate) fn as_f64(value: &JsonValue) -> (f: Option<Double>)
    ensures
        f == json_of(*value).number(),
{
    match value.as_f64() {
        Some(x) => Some(Double { bits: x.to_bits() }),
        None => None,
    }
}

/// The `Display` of `serde_json::Value` writes the value as compact JSON text,
/// which is the same for values that hold the same.
#[verifier::external_body]
pub(crate) fn display(value: &JsonValue) -> (text: String)
    ensures
        text@ == json_text(json_of(*value)),
{
    format!("{value}")
}

/// Keys and values by what they hold.
pub open spec fn held(entries: Seq<(String, JsonValue)>) -> Seq<(Seq<char>, JsonView)> {
    Seq::new(entries.len(), |i: int| (entries[i].0@, json_of(entries[i].1)))
}

/// `serde_json::Map::into_iter` walks over the keys and values that an object
/// holds.
#[verifier::external_body]
pub(crate) fn into_entries(map: serde_json::Map<String, JsonValue>) -> (entries: Vec<
    (String, JsonValue),
>)
    ensures
        held(entries@) == entries_of(map),
{
    map.into_iter().collect()
}

} // verus!
