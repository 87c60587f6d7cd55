//! JSON documents, as read by `serde_json`, held as plain values.
use vstd::prelude::*;

verus! {

/// A JSON value: the library's own copy of what `serde_json::Value` holds.
/// An object lists its entries in the order in which `serde_json`'s map yields them.
pub enum JsonValue {
    Null,
    Bool(bool),
    /// A number, by its text as `serde_json` prints it.
    Number(String),
    Str(String),
    Array(Vec<JsonValue>),
    Object(Vec<(String, JsonValue)>),
}

#[verifier::external_type_specification]
#[verifier::external_body]
pub struct ExSerdeJsonValue(serde_json::Value);

/// The value that `serde_json::from_str::<serde_json::Value>` reads from a text, when it reads one.
pub uninterp spec fn json_of_text(text: Seq<char>) -> Option<JsonValue>;

/// Converts a `serde_json::Value` into a [`JsonValue`], variant by variant and
/// entry by entry in the order the value yields them; numbers keep their printed text.
#[verifier::external_body]
fn json_from_serde(v: serde_json::Value) -> JsonValue {
    match v {
        serde_json::Value::Null => JsonValue::Null,
        serde_json::Value::Bool(b) => JsonValue::Bool(b),
        serde_json::Value::Number(n) => JsonValue::Number(n.to_string()),
        serde_json::Value::String(s) => JsonValue::Str(s),
        serde_json::Value::Array(a) => JsonValue::Array(a.into_iter().map(json_from_serde).collect()),
        serde_json::Value::Object(m) => JsonValue::Object(
            m.into_iter().map(|(k, v)| (k, json_from_serde(v))).collect(),
        ),
    }
}

/// `serde_json::from_str::<serde_json::Value>`: the document that `text` holds,
/// or `None` when `text` is not JSON. What it reads is named by [`json_of_text`],
/// a function of the text alone; nothing else is stated of it.
#[verifier::external_body]
pub(crate) fn parse_json(text: &str) -> (r: Option<JsonValue>)
    ensures
        r == json_of_text(text@),
{
    match serde_json::from_str::<serde_json::Value>(text) {
        Ok(v) => Some(json_from_serde(v)),
        Err(_) => None,
    }
}

/// The value stored under `key` in the entries `es`.
pub open spec fn entry_value(es: Seq<(String, JsonValue)>, key: Seq<char>) -> Option<JsonValue>
    decreases es.len(),
{
    if es.len() == 0 {
        None
    } else if es[0].0@ == key {
        Some(es[0].1)
    } else {
        entry_value(es.drop_first(), key)
    }
}

/// `Value::get(key)`: the value stored under `key` when `j` is an object, `None` otherwise.
pub open spec fn json_get(j: JsonValue, key: Seq<char>) -> Option<JsonValue> {
    match j {
        JsonValue::Object(es) => entry_value(es@, key),
        _ => None,
    }
}

/// Whether the entries `es` hold the key `key`.
pub open spec fn has_key(es: Seq<(String, JsonValue)>, key: Seq<char>) -> bool {
    exists|i: int| 0 <= i < es.len() && (#[trigger] es[i]).0@ == key
}

/// `Value::get(key)`.
pub fn json_get_exec<'a>(j: &'a JsonValue, key: &str) -> (r: Option<&'a JsonValue>)
    ensures
        match r {
            None => json_get(*j, key@) is None,
            Some(x) => json_get(*j, key@) == Some(*x),
        },
{
    match j {
        JsonValue::Object(es) => {
            let k = key.to_owned();
            let mut i: usize = 0;
            assert(es@.skip(0) =~= es@);
            while i < es.len()
                invariant
                    i <= es@.len(),
                    k@ == key@,
                    json_get(*j, key@) == entry_value(es@, key@),
                    entry_value(es@, key@) == entry_value(es@.skip(i as int), key@),
                decreases es@.len() - i,
            {
                assert(es@.skip(i as int).drop_first() =~= es@.skip(i + 1));
                if es[i].0 == k {
                    return Some(&es[i].1);
                }
                i = i + 1;
            }
            None
        },
        _ => None,
    }
}

/// Whether the entries `es` hold the key `key`.
pub fn has_key_exec(es: &Vec<(String, JsonValue)>, key: &str) -> (r: bool)
    ensures
        r == has_key(es@, key@),
{
    let k = key.to_owned();
    let mut i: usize = 0;
    while i < es.len()
        invariant
            i <= es@.len(),
            k@ == key@,
            forall|j: int| 0 <= j < i ==> (#[trigger] es@[j]).0@ != key@,
        decreases es@.len() - i,
    {
        if es[i].0 == k {
            return true;
        }
        i = i + 1;
    }
    false
}

/// Keys are found whole, as `Value::get` finds them: the entries hold a key
/// exactly when a value is stored under it.
pub proof fn a_present_key_has_a_value(es: Seq<(String, JsonValue)>, key: Seq<char>)
    ensures
        has_key(es, key) <==> entry_value(es, key) is Some,
    decreases es.len(),
{
    if es.len() > 0 {
        a_present_key_has_a_value(es.drop_first(), key);
        if es[0].0@ != key {
            if has_key(es, key) {
                let i = choose|i: int| 0 <= i < es.len() && (#[trigger] es[i]).0@ == key;
                assert(es.drop_first()[i - 1] == es[i]);
            }
            if has_key(es.drop_first(), key) {
                let i = choose|i: int| 0 <= i < es.len() - 1 && (#[trigger] es.drop_first()[i]).0@ == key;
                assert(es[i + 1] == es.drop_first()[i]);
            }
        } else {
            assert(es[0].0@ == key);
        }
    }
}

} // verus!
