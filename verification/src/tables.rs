//! TOML documents as plain values: what the contract's data files hold, read
//! by the `toml` crate and handed over as a tree the library can reason about.

use vstd::prelude::*;

use crate::text::{chars_of, same_chars};

verus! {

/// One TOML value. A float carries nothing here: nothing in the contract's
/// data is a float, and nothing reads one.
#[derive(Debug)]
pub enum TomlValue {
    Text(String),
    Integer(i64),
    Float,
    Boolean(bool),
    Datetime(String),
    Array(Vec<TomlValue>),
    Table(Vec<(String, TomlValue)>),
}

/// The document a TOML text parses to, its keys in the order the `toml` crate
/// keeps them; or the parser's message.
pub uninterp spec fn toml_document(text: Seq<char>) -> Result<Vec<(String, TomlValue)>, String>;

/// Parses a TOML document.
///
/// Wraps `toml::from_str::<toml::Table>`, converting each `toml::Value` one
/// for one into a `TomlValue` (a float's number is not kept) and the error into
/// its message. The contract claims only that the outcome is a function of the
/// text, named `toml_document`.
#[verifier::external_body]
pub fn parse_toml(text: &str) -> (r: Result<Vec<(String, TomlValue)>, String>)
    ensures
        r == toml_document(text@),
{
    match toml::from_str::<toml::Table>(text) {
        Ok(table) => Ok(table.into_iter().map(|(key, value)| (key, toml_value(value))).collect()),
        Err(error) => Err(error.to_string()),
    }
}

/// A value of the `toml` crate, carried through opaque.
#[verifier::external_type_specification]
#[verifier::external_body]
pub struct ExTomlValue(toml::Value);

/// One `toml::Value` as a `TomlValue`, variant for variant.
///
/// Part of the conversion `parse_toml` makes; it tells `toml::Value`'s variants
/// apart and moves their contents.
#[verifier::external_body]
fn toml_value(value: toml::Value) -> TomlValue {
    match value {
        toml::Value::String(text) => TomlValue::Text(text),
        toml::Value::Integer(number) => TomlValue::Integer(number),
        toml::Value::Float(_) => TomlValue::Float,
        toml::Value::Boolean(flag) => TomlValue::Boolean(flag),
        toml::Value::Datetime(when) => TomlValue::Datetime(when.to_string()),
        toml::Value::Array(items) => TomlValue::Array(items.into_iter().map(toml_value).collect()),
        toml::Value::Table(table) => TomlValue::Table(table.into_iter().map(|(key, value)| (key, toml_value(value))).collect()),
    }
}

/// The value stored under a key: the first entry that has it.
pub open spec fn lookup(table: Seq<(String, TomlValue)>, key: Seq<char>) -> Option<TomlValue>
    decreases table.len(),
{
    if table.len() == 0 {
        None
    } else if table[0].0@ == key {
        Some(table[0].1)
    } else {
        lookup(table.skip(1), key)
    }
}

/// The value stored under a key.
pub fn find<'a>(table: &'a Vec<(String, TomlValue)>, key: &str) -> (r: Option<&'a TomlValue>)
    ensures
        r matches Some(v) ==> lookup(table@, key@) == Some(*v),
        r is None ==> lookup(table@, key@) is None,
{
    let wanted = chars_of(key);
    let mut i: usize = 0;
    proof {
        assert(table@.skip(0) =~= table@);
    }
    while i < table.len()
        invariant
            i <= table.len(),
            wanted@ == key@,
            lookup(table@.skip(i as int), key@) == lookup(table@, key@),
        decreases table.len() - i,
    {
        let k = chars_of(table[i].0.as_str());
        if same_chars(&k, &wanted) {
            proof {
                assert(table@.skip(i as int)[0] == table@[i as int]);
            }
            return Some(&table[i].1);
        }
        proof {
            assert(table@.skip(i as int)[0] == table@[i as int]);
            assert(table@.skip(i as int).skip(1) =~= table@.skip(i + 1));
        }
        i = i + 1;
    }
    None
}

} // verus!
