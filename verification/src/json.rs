//! JSON documents: parsing by serde_json, and reading fields, strings and first chars.
use vstd::prelude::*;
use crate::strs::{chars_of, str_eq};

verus! {

/// A JSON value; an object keeps its entries in the order the parser gives them.
pub enum JsonValue {
    Null,
    Bool(bool),
    /// A number, by its text.
    Number(String),
    Str(String),
    Array(Vec<JsonValue>),
    Object(Vec<(String, JsonValue)>),
}

/// serde_json's parsed value, carried through opaquely.
#[verifier::external_type_specification]
#[verifier::external_body]
pub struct ExJsonValue(serde_json::Value);

/// Name for the value `serde_json::from_str::<serde_json::Value>` gives for a text, `None`
/// when the text is no JSON document.
pub uninterp spec fn spec_json_parse(text: Seq<char>) -> Option<JsonValue>;

/// `serde_json::from_str::<serde_json::Value>`: the parsed document, `None` on a parse
/// error. What it is for a given text is only named, not stated.
#[verifier::external_body]
pub(crate) fn json_parse(text: &str) -> (r: Option<JsonValue>)
    ensures
        r == spec_json_parse(text@),
{
    serde_json::from_str::<serde_json::Value>(text).ok().map(json_from_value)
}

/// serde_json's value as a `JsonValue`, variant by variant (a number by its text); used
/// only by `json_parse` to convert what the parser returned.
#[verifier::external_body]
fn json_from_value(v: serde_json::Value) -> JsonValue {
    match v {
        serde_json::Value::Null => JsonValue::Null,
        serde_json::Value::Bool(b) => JsonValue::Bool(b),
        serde_json::Value::Number(n) => JsonValue::Number(n.to_string()),
        serde_json::Value::String(s) => JsonValue::Str(s),
        serde_json::Value::Array(a) => JsonValue::Array(a.into_iter().map(json_from_value).collect()),
        serde_json::Value::Object(o) => JsonValue::Object(o.into_iter().map(|(k, x)| (k, json_from_value(x))).collect()),
    }
}

/// The value of the first entry named `key`.
pub open spec fn entry_value(es: Seq<(String, JsonValue)>, key: Seq<char>) -> Option<JsonValue>
    decreases es.len(),
{
    if es.len() == 0 {
        None
    } else if es[0].0@ == key {
        Some(es[0].1)
    } else {
        entry_value(es.skip(1), key)
    }
}

/// `Value::get(key)`: the field of an object, `None` for a missing key or a non-object.
pub open spec fn field_spec(v: JsonValue, key: Seq<char>) -> Option<JsonValue> {
    match v {
        JsonValue::Object(es) => entry_value(es@, key),
        _ => None,
    }
}

/// The entries of field `key` when it is an object, else none.
pub open spec fn object_field(v: JsonValue, key: Seq<char>) -> Seq<(String, JsonValue)> {
    match field_spec(v, key) {
        Some(JsonValue::Object(es)) => es@,
        _ => Seq::empty(),
    }
}

/// The first char of a text.
pub open spec fn first_char(s: Seq<char>) -> Option<char> {
    if s.len() > 0 {
        Some(s[0])
    } else {
        None
    }
}

/// The first char of a string value.
pub open spec fn str_first(v: JsonValue) -> Option<char> {
    match v {
        JsonValue::Str(s) => first_char(s@),
        _ => None,
    }
}

/// First chars of the items that are non-empty strings, in order.
pub open spec fn item_firsts(items: Seq<JsonValue>) -> Seq<char>
    decreases items.len(),
{
    if items.len() == 0 {
        Seq::empty()
    } else {
        item_firsts(items.drop_last()) + match str_first(items.last()) {
            Some(c) => seq![c],
            None => Seq::empty(),
        }
    }
}

/// First chars of the non-empty strings of an array; none for a non-array.
pub open spec fn first_chars(v: JsonValue) -> Seq<char> {
    match v {
        JsonValue::Array(items) => item_firsts(items@),
        _ => Seq::empty(),
    }
}

/// The first entry named `key`, by reference.
fn entry_ref<'a>(es: &'a Vec<(String, JsonValue)>, key: &str) -> (r: Option<&'a JsonValue>)
    ensures
        match r {
            Some(x) => entry_value(es@, key@) == Some(*x),
            None => entry_value(es@, key@) is None,
        },
{
    let mut i: usize = 0;
    assert(es@.skip(0) =~= es@);
    while i < es.len()
        invariant
            i <= es@.len(),
            entry_value(es@, key@) == entry_value(es@.skip(i as int), key@),
        decreases es@.len() - i,
    {
        proof {
            let t = es@.skip(i as int);
            assert(t[0] == es@[i as int]);
            assert(t.skip(1) =~= es@.skip(i + 1));
        }
        if str_eq(es[i].0.as_str(), key) {
            return Some(&es[i].1);
        }
        i += 1;
    }
    proof {
        assert(es@.skip(i as int).len() == 0);
    }
    None
}

/// `Value::get(key)`.
pub fn field<'a>(v: &'a JsonValue, key: &str) -> (r: Option<&'a JsonValue>)
    ensures
        match r {
            Some(x) => field_spec(*v, key@) == Some(*x),
            None => field_spec(*v, key@) is None,
        },
{
    match v {
        JsonValue::Object(es) => entry_ref(es, key),
        _ => None,
    }
}

/// The first char of `s`, if any.
pub fn first_char_of(s: &str) -> (r: Option<char>)
    ensures
        r == first_char(s@),
{
    let cs = chars_of(s);
    if cs.len() > 0 {
        Some(cs[0])
    } else {
        None
    }
}

/// First chars of the non-empty strings of an array value.
pub fn first_chars_of(v: &JsonValue) -> (r: Vec<char>)
    ensures
        r@ == first_chars(*v),
{
    let mut out: Vec<char> = Vec::new();
    match v {
        JsonValue::Array(items) => {
            let mut i: usize = 0;
            while i < items.len()
                invariant
                    i <= items@.len(),
                    out@ == item_firsts(items@.take(i as int)),
                decreases items@.len() - i,
            {
                proof {
                    assert(items@.take(i + 1).drop_last() =~= items@.take(i as int));
                    assert(items@.take(i + 1).last() == items@[i as int]);
                }
                match &items[i] {
                    JsonValue::Str(s) => {
                        match first_char_of(s.as_str()) {
                            Some(c) => {
                                out.push(c);
                            },
                            None => {},
                        }
                    },
                    _ => {},
                }
                proof {
                    assert(out@ =~= item_firsts(items@.take(i + 1)));
                }
                i += 1;
            }
            proof {
                assert(items@.take(items@.len() as int) =~= items@);
            }
        },
        _ => {},
    }
    out
}

} // verus!
