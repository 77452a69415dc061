//! The boundary to `serde_json`: values are built through it and written as
//! compact JSON by it. Nothing in this file is proved; each contract states
//! what the outside function does.

use vstd::prelude::*;
use crate::modules::config::ConfigModel;

verus! {

/// `serde_json::Value`, a JSON value; nothing of its inside is seen here.
#[verifier::external_type_specification]
#[verifier::external_body]
pub struct ExJsonValue(serde_json::Value);

/// `serde_json::Error`, with which `serde_json::to_string` fails; nothing of
/// its inside is seen here.
#[verifier::external_type_specification]
#[verifier::external_body]
pub struct ExJsonError(serde_json::Error);

/// What a `serde_json::Value` holds, for a value made of `null`, booleans,
/// integers, strings, lists and objects.
pub uninterp spec fn json_content(v: serde_json::Value) -> ConfigModel;

/// What `serde_json::to_string` gives for a value that holds a string, a list
/// or an object: its compact JSON text.
pub uninterp spec fn json_text(m: ConfigModel) -> Seq<char>;

/// The text of `null`.
pub open spec fn null_text() -> Seq<char> {
    seq!['n', 'u', 'l', 'l']
}

/// The text of a boolean.
pub open spec fn bool_text(b: bool) -> Seq<char> {
    if b {
        seq!['t', 'r', 'u', 'e']
    } else {
        seq!['f', 'a', 'l', 's', 'e']
    }
}

/// The character of a decimal digit.
pub open spec fn digit_char(d: nat) -> char {
    if d == 0 {
        '0'
    } else if d == 1 {
        '1'
    } else if d == 2 {
        '2'
    } else if d == 3 {
        '3'
    } else if d == 4 {
        '4'
    } else if d == 5 {
        '5'
    } else if d == 6 {
        '6'
    } else if d == 7 {
        '7'
    } else if d == 8 {
        '8'
    } else {
        '9'
    }
}

/// The decimal digits of a natural number, without leading zeros.
pub open spec fn digits_text(n: nat) -> Seq<char>
    decreases n,
{
    if n < 10 {
        seq![digit_char(n)]
    } else {
        digits_text(n / 10).push(digit_char(n % 10))
    }
}

/// The decimal text of an integer, with a minus sign where it is negative.
pub open spec fn decimal_text(n: int) -> Seq<char> {
    if n < 0 {
        seq!['-'] + digits_text((-n) as nat)
    } else {
        digits_text(n as nat)
    }
}

/// Whether no key occurs twice among the entries.
pub open spec fn distinct_keys<V>(entries: Seq<(Seq<char>, V)>) -> bool {
    forall|i: int, j: int|
        0 <= i < j < entries.len() ==> (#[trigger] entries[i]).0 != (#[trigger] entries[j]).0
}

/// `serde_json::Value::Null`: the value holds nothing.
#[verifier::external_body]
pub(crate) fn json_null() -> (v: serde_json::Value)
    ensures
        json_content(v) == ConfigModel::Null,
{
    serde_json::Value::Null
}

/// `serde_json::Value::from` on a `bool`: the value holds that boolean.
#[verifier::external_body]
pub(crate) fn json_bool(b: bool) -> (v: serde_json::Value)
    ensures
        json_content(v) == ConfigModel::Bool(b),
{
    serde_json::Value::from(b)
}

/// `serde_json::Value::from` on an `i64`: the value holds that number.
#[verifier::external_body]
pub(crate) fn json_number(n: i64) -> (v: serde_json::Value)
    ensures
        json_content(v) == ConfigModel::Number(n as int),
{
    serde_json::Value::from(n)
}

/// `serde_json::Value::from` on a `u64`: the value holds that number.
#[verifier::external_body]
pub(crate) fn json_unsigned(n: u64) -> (v: serde_json::Value)
    ensures
        json_content(v) == ConfigModel::Number(n as int),
{
    serde_json::Value::from(n)
}

/// `serde_json::Value::from` on a `&str`: the value holds that string.
#[verifier::external_body]
pub(crate) fn json_string(s: &str) -> (v: serde_json::Value)
    ensures
        json_content(v) == ConfigModel::Text(s@),
{
    serde_json::Value::from(s)
}

/// `serde_json::Value::Array`: the value holds the items, in their order.
#[verifier::external_body]
pub(crate) fn json_array(items: Vec<serde_json::Value>) -> (v: serde_json::Value)
    ensures
        json_content(v) == ConfigModel::List(items@.map_values(|x: serde_json::Value| json_content(x))),
{
    serde_json::Value::Array(items)
}

/// `serde_json::Map::from_iter` and `serde_json::Value::Object`: with no key
/// twice, the object holds the entries in the order given (with the feature
/// `preserve_order` the map keeps the order of insertion).
#[verifier::external_body]
pub(crate) fn json_object(entries: Vec<(String, serde_json::Value)>) -> (v: serde_json::Value)
    requires
        distinct_keys(entries@.map_values(|e: (String, serde_json::Value)| (e.0@, e.1))),
    ensures
        json_content(v) == ConfigModel::Object(
            entries@.map_values(|e: (String, serde_json::Value)| (e.0@, json_content(e.1))),
        ),
{
    serde_json::Value::Object(entries.into_iter().collect())
}

/// `serde_json::to_string` on a `serde_json::Value`: the compact JSON text
/// of what the value holds. `null`, booleans and integers are written as
/// `null`, `true` or `false`, and in decimal; of every other value the text
/// is the named one. The call does not fail on a `Value`: the value's own
/// `Serialize` only hands on the errors of the serializer, every key of its
/// maps is a string, and the serializer's other errors are those of its
/// writer, which is a byte vector in memory.
#[verifier::external_body]
pub(crate) fn json_to_string(v: &serde_json::Value) -> (r: Result<String, serde_json::Error>)
    ensures
        r is Ok,
        r->Ok_0@ == (match json_content(*v) {
            ConfigModel::Null => null_text(),
            ConfigModel::Bool(b) => bool_text(b),
            ConfigModel::Number(n) => decimal_text(n),
            m => json_text(m),
        }),
{
    serde_json::to_string(v)
}

} // verus!
