//! Settings as a client sends them.

use vstd::prelude::*;

use crate::strings::same_str;

verus! {

/// A number as it was written, and the machine integers that hold it.
#[derive(Debug)]
pub struct JsonNumber {
    pub text: String,
    pub unsigned: Option<u64>,
    pub signed: Option<i64>,
}

/// A setting. The entries of an object have different names.
#[derive(Debug)]
pub enum JsonValue {
    Null,
    Bool(bool),
    Number(JsonNumber),
    Text(String),
    Array(Vec<JsonValue>),
    Object(Vec<(String, JsonValue)>),
}

/// The value of `name` among the entries from `i` on.
pub open spec fn entry_from(
    entries: Seq<(String, JsonValue)>,
    name: Seq<char>,
    i: int,
) -> Option<JsonValue>
    decreases entries.len() - i,
{
    if i < 0 || i >= entries.len() {
        None
    } else if entries[i].0@ == name {
        Some(entries[i].1)
    } else {
        entry_from(entries, name, i + 1)
    }
}

/// The value of `name` in an object.
pub open spec fn entry_of(entries: Seq<(String, JsonValue)>, name: Seq<char>) -> Option<JsonValue> {
    entry_from(entries, name, 0)
}

/// The value of `name` in an object.
pub fn get_entry<'a>(entries: &'a Vec<(String, JsonValue)>, name: &str) -> (r: Option<
    &'a JsonValue,
>)
    ensures
        match r {
            Some(value) => entry_of(entries@, name@) == Some(*value),
            None => entry_of(entries@, name@) is None,
        },
{
    let mut i: usize = 0;
    while i < entries.len()
        invariant
            i <= entries@.len(),
            entry_of(entries@, name@) == entry_from(entries@, name@, i as int),
        decreases entries@.len() - i,
    {
        if same_str(entries[i].0.as_str(), name) {
            return Some(&entries[i].1);
        }
        i += 1;
    }
    None
}

/// A setting that is there and not null.
pub open spec fn present(value: Option<JsonValue>) -> Option<JsonValue> {
    match value {
        Some(JsonValue::Null) => None,
        _ => value,
    }
}

} // verus!
