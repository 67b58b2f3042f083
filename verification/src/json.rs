//! JSON documents as plain values, as the configuration readers inspect them.
use vstd::prelude::*;
use crate::text::str_eq;

verus! {

/// A JSON number: its value when it is an `i64`, and, for a finite value, a
/// key that orders numbers as their `f64` values' total order does.
#[derive(Clone, Copy, Debug, PartialEq, Eq, Structural)]
pub struct JsonNumber {
    pub integer: Option<i64>,
    pub order: Option<u64>,
}

/// A JSON document. An object holds each key once.
pub enum JsonValue {
    Null,
    Bool(bool),
    Number(JsonNumber),
    Text(String),
    Array(Vec<JsonValue>),
    Object(Vec<(String, JsonValue)>),
}

/// The value under `key` in the object fields `fields`.
pub open spec fn field(fields: Seq<(String, JsonValue)>, key: Seq<char>) -> Option<JsonValue>
    decreases fields.len(),
{
    if fields.len() == 0 {
        None
    } else if fields.last().0@ == key {
        Some(fields.last().1)
    } else {
        field(fields.drop_last(), key)
    }
}

/// The value under `key` in the object fields `fields`.
pub fn get<'a>(fields: &'a Vec<(String, JsonValue)>, key: &str) -> (r: Option<&'a JsonValue>)
    ensures
        match field(fields@, key@) {
            None => r is None,
            Some(v) => r matches Some(x) && *x == v,
        },
{
    let mut i = fields.len();
    assert(fields@.take(i as int) =~= fields@);
    while i > 0
        invariant
            i <= fields@.len(),
            field(fields@, key@) == field(fields@.take(i as int), key@),
        decreases i,
    {
        assert(fields@.take(i as int).drop_last() =~= fields@.take(i - 1));
        if str_eq(fields[i - 1].0.as_str(), key) {
            return Some(&fields[i - 1].1);
        }
        i -= 1;
    }
    None
}

} // verus!
