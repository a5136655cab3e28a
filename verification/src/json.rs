//! The boundary to `serde_json`. Its values are opaque here: the library carries
//! them, builds them and takes them apart through the functions of this module, and
//! what these return is believed, not proved.

use serde_json::Value;
use vstd::prelude::*;

verus! {

/// `serde_json::Value`: any JSON value.
#[verifier::external_type_specification]
#[verifier::external_body]
pub struct ExValue(Value);

/// `serde_json::Map`: a JSON object, which keeps its entries in the order of their
/// keys.
#[verifier::external_type_specification]
#[verifier::external_body]
#[verifier::reject_recursive_types(K)]
#[verifier::reject_recursive_types(V)]
pub struct ExMap<K, V>(serde_json::Map<K, V>);

/// `serde_json::Error`: why a text is not JSON.
#[verifier::external_type_specification]
#[verifier::external_body]
pub struct ExError(serde_json::Error);

/// The entries of a JSON object, in the order in which the object hands them out.
pub uninterp spec fn object_entries(m: serde_json::Map<String, Value>) -> Seq<(Seq<char>, Value)>;

/// The JSON number that holds the integer `n`.
pub uninterp spec fn json_number(n: int) -> Value;

/// The JSON string that holds `s`.
pub uninterp spec fn json_string(s: Seq<char>) -> Value;

/// The JSON string that holds `s`, or JSON's null where there is none.
pub uninterp spec fn json_optional_string(s: Option<Seq<char>>) -> Value;

/// The JSON array that holds `items`.
pub uninterp spec fn json_array(items: Seq<Value>) -> Value;

/// The items of a JSON array; `None` for a value that is no array.
pub uninterp spec fn json_elements(v: Value) -> Option<Seq<Value>>;

/// The compact text of a JSON value.
pub uninterp spec fn json_text(v: Value) -> Seq<char>;

/// The JSON value that a text holds; `None` for a text that is not JSON.
pub uninterp spec fn json_parsed(text: Seq<char>) -> Option<Value>;

/// `Value::clone`: the clone equals the value.
pub assume_specification[ <Value as Clone>::clone ](v: &Value) -> (out: Value)
    ensures
        out == *v,
;

/// `Map::clone`: the clone holds the same entries in the same order.
pub assume_specification[ <serde_json::Map<String, Value> as Clone>::clone ](
    m: &serde_json::Map<String, Value>,
) -> (out: serde_json::Map<String, Value>)
    ensures
        object_entries(out) == object_entries(*m),
;

/// `Map::iter`: hands out the entries in the object's order, here each as a clone.
#[verifier::external_body]
pub(crate) fn entries_of(m: &serde_json::Map<String, Value>) -> (out: Vec<(String, Value)>)
    ensures
        out@.len() == object_entries(*m).len(),
        forall|i: int|
            0 <= i < out@.len() ==> (#[trigger] out@[i]).0@ == object_entries(*m)[i].0
                && out@[i].1 == object_entries(*m)[i].1,
{
    m.iter().map(|(k, v)| (k.clone(), v.clone())).collect()
}

/// Whether `a` stands before `b` in the order of strings: character by character,
/// by code point, a proper prefix first.
pub open spec fn key_precedes(a: Seq<char>, b: Seq<char>) -> bool
    decreases a.len(),
{
    if a.len() == 0 {
        b.len() > 0
    } else if b.len() == 0 {
        false
    } else if a[0] != b[0] {
        (a[0] as u32) < (b[0] as u32)
    } else {
        key_precedes(a.drop_first(), b.drop_first())
    }
}

/// The entries whose keys stand before `key`.
pub open spec fn entries_before(entries: Seq<(Seq<char>, Value)>, key: Seq<char>) -> Seq<
    (Seq<char>, Value),
> {
    entries.filter(|e: (Seq<char>, Value)| key_precedes(e.0, key))
}

/// Entries in the order of their keys after `key` got `value`: the entry of that
/// key is replaced where there is one, else the new entry stands behind the entries
/// whose keys stand before `key`.
pub open spec fn with_entry(entries: Seq<(Seq<char>, Value)>, key: Seq<char>, value: Value) -> Seq<
    (Seq<char>, Value),
> {
    let at = entries_before(entries, key).len() as int;
    if at < entries.len() && entries[at].0 == key {
        entries.update(at, (key, value))
    } else {
        entries.insert(at, (key, value))
    }
}

/// `Map::new`: an object without entries.
#[verifier::external_body]
pub(crate) fn object_new() -> (out: serde_json::Map<String, Value>)
    ensures
        object_entries(out) == Seq::<(Seq<char>, Value)>::empty(),
{
    serde_json::Map::new()
}

/// `Map::insert`: the object keeps its entries in the order of their keys, so the
/// entry goes where `with_entry` puts it.
#[verifier::external_body]
pub(crate) fn object_insert(m: &mut serde_json::Map<String, Value>, key: &str, value: Value)
    ensures
        object_entries(*final(m)) == with_entry(object_entries(*old(m)), key@, value),
{
    m.insert(key.to_owned(), value);
}

/// `Value::from` on an `i64`: a JSON number that holds the integer.
#[verifier::external_body]
pub(crate) fn json_from_i64(n: i64) -> (out: Value)
    ensures
        out == json_number(n as int),
{
    Value::from(n)
}

/// `Value::from` on a `&str`: a JSON string that holds a copy of it.
#[verifier::external_body]
pub(crate) fn json_from_str(s: &str) -> (out: Value)
    ensures
        out == json_string(s@),
{
    Value::from(s)
}

/// `Value::from` on an `Option<&str>`: the JSON string of `Some`, null for `None`.
#[verifier::external_body]
pub(crate) fn json_from_optional_str(s: Option<&str>) -> (out: Value)
    ensures
        out == json_optional_string(
            match s {
                Some(t) => Some(t@),
                None => None,
            },
        ),
        s matches Some(t) ==> out == json_string(t@),
{
    Value::from(s)
}

/// `Value::Array`: the JSON array of the items, which `as_array` gives back.
#[verifier::external_body]
pub(crate) fn json_from_vec(items: Vec<Value>) -> (out: Value)
    ensures
        out == json_array(items@),
        json_elements(out) == Some(items@),
{
    Value::Array(items)
}

/// `Value::as_array`: the items of an array, `None` for any other value.
#[verifier::external_body]
pub(crate) fn json_as_array(v: &Value) -> (out: Option<&Vec<Value>>)
    ensures
        match out {
            Some(items) => json_elements(*v) == Some(items@),
            None => json_elements(*v) is None,
        },
{
    v.as_array()
}

/// `ToString::to_string` on a `Value`: its compact JSON text.
#[verifier::external_body]
pub(crate) fn json_to_string(v: &Value) -> (out: String)
    ensures
        out@ == json_text(*v),
{
    v.to_string()
}

/// `serde_json::from_str` for a `Value`: the value that the whole text holds, or
/// the error of a text that is not JSON.
#[verifier::external_body]
pub(crate) fn json_from_text(text: &str) -> (out: Result<Value, serde_json::Error>)
    ensures
        match out {
            Ok(v) => json_parsed(text@) == Some(v),
            Err(_) => json_parsed(text@) is None,
        },
{
    serde_json::from_str(text)
}

} // verus!
