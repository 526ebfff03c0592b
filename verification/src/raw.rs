//! The contract's data files as they are written, before anything is checked
//! about what they say.

use vstd::prelude::*;

use crate::contract::Limits as Bounds;
use crate::tables::{find, lookup, TomlValue};
use crate::text::{chars_of, push_str, string_of};

verus! {

/// What `limits.toml` holds: the version and the limits.
pub struct Limits {
    pub version: String,
    pub limits: Bounds,
}

/// One `[[ruling]]` entry as written.
pub struct Ruling {
    pub id: String,
    pub status: String,
    pub question: String,
    pub statement: Option<String>,
    pub rationale: Option<String>,
    pub note: Option<String>,
}

/// What `rulings.toml` holds: the entries, in order.
pub struct Rulings {
    pub ruling: Vec<Ruling>,
}

/// An optional string as a value.
pub open spec fn opt_view(o: Option<String>) -> Option<Seq<char>> {
    match o {
        Some(s) => Some(s@),
        None => None,
    }
}

/// One entry as values.
pub struct RulingEntry {
    pub id: Seq<char>,
    pub status: Seq<char>,
    pub question: Seq<char>,
    pub statement: Option<Seq<char>>,
    pub rationale: Option<Seq<char>>,
    pub note: Option<Seq<char>>,
}

impl View for Ruling {
    type V = RulingEntry;

    open spec fn view(&self) -> RulingEntry {
        RulingEntry {
            id: self.id@,
            status: self.status@,
            question: self.question@,
            statement: opt_view(self.statement),
            rationale: opt_view(self.rationale),
            note: opt_view(self.note),
        }
    }
}

/// The views of several entries.
pub open spec fn raw_views(entries: Seq<Ruling>) -> Seq<RulingEntry> {
    entries.map_values(|e: Ruling| e@)
}

pub open spec fn missing(key: Seq<char>) -> Seq<char> {
    "missing field `"@ + key + "`"@
}

pub open spec fn not_text(key: Seq<char>) -> Seq<char> {
    "`"@ + key + "` is not a string"@
}

pub open spec fn not_count(key: Seq<char>) -> Seq<char> {
    "`"@ + key + "` is not a whole number from 0 to 4294967295"@
}

pub open spec fn not_table(key: Seq<char>) -> Seq<char> {
    "`"@ + key + "` is not a table"@
}

pub open spec fn not_tables(key: Seq<char>) -> Seq<char> {
    "`"@ + key + "` is not an array of tables"@
}

/// A string that must be there.
pub open spec fn text_field(table: Seq<(String, TomlValue)>, key: Seq<char>) -> Result<Seq<char>, Seq<char>> {
    match lookup(table, key) {
        None => Err(missing(key)),
        Some(TomlValue::Text(s)) => Ok(s@),
        Some(_) => Err(not_text(key)),
    }
}

/// A string that may be absent.
pub open spec fn optional_text(table: Seq<(String, TomlValue)>, key: Seq<char>) -> Result<Option<Seq<char>>, Seq<char>> {
    match lookup(table, key) {
        None => Ok(None),
        Some(TomlValue::Text(s)) => Ok(Some(s@)),
        Some(_) => Err(not_text(key)),
    }
}

/// A number that must be there and fit a `u32`.
pub open spec fn count_field(table: Seq<(String, TomlValue)>, key: Seq<char>) -> Result<u32, Seq<char>> {
    match lookup(table, key) {
        None => Err(missing(key)),
        Some(TomlValue::Integer(n)) => if 0 <= n <= u32::MAX { Ok(n as u32) } else { Err(not_count(key)) },
        Some(_) => Err(not_count(key)),
    }
}

/// The version and limits a `limits.toml` document states.
pub open spec fn raw_limits_of(doc: Seq<(String, TomlValue)>) -> Result<(Seq<char>, Bounds), Seq<char>> {
    match text_field(doc, "version"@) {
        Err(why) => Err(why),
        Ok(version) => match lookup(doc, "limits"@) {
            None => Err(missing("limits"@)),
            Some(TomlValue::Table(t)) => match count_field(t@, "max_coordinate"@) {
                Err(why) => Err(why),
                Ok(max_coordinate) => match count_field(t@, "max_instructions"@) {
                    Err(why) => Err(why),
                    Ok(max_instructions) => Ok((version, Bounds { max_coordinate, max_instructions })),
                },
            },
            Some(_) => Err(not_table("limits"@)),
        },
    }
}

/// One entry, from its table.
pub open spec fn raw_ruling_of(t: Seq<(String, TomlValue)>) -> Result<RulingEntry, Seq<char>> {
    match text_field(t, "id"@) {
        Err(why) => Err(why),
        Ok(id) => match text_field(t, "status"@) {
            Err(why) => Err(why),
            Ok(status) => match text_field(t, "question"@) {
                Err(why) => Err(why),
                Ok(question) => match optional_text(t, "ruling"@) {
                    Err(why) => Err(why),
                    Ok(statement) => match optional_text(t, "rationale"@) {
                        Err(why) => Err(why),
                        Ok(rationale) => match optional_text(t, "note"@) {
                            Err(why) => Err(why),
                            Ok(note) => Ok(RulingEntry { id, status, question, statement, rationale, note }),
                        },
                    },
                },
            },
        },
    }
}

/// Every entry of the `ruling` array, in order; the first problem if any.
pub open spec fn raw_rulings_from(items: Seq<TomlValue>) -> Result<Seq<RulingEntry>, Seq<char>>
    decreases items.len(),
{
    if items.len() == 0 {
        Ok(seq![])
    } else {
        match items[0] {
            TomlValue::Table(t) => match raw_ruling_of(t@) {
                Err(why) => Err(why),
                Ok(first) => match raw_rulings_from(items.skip(1)) {
                    Err(why) => Err(why),
                    Ok(rest) => Ok(seq![first] + rest),
                },
            },
            _ => Err(not_tables("ruling"@)),
        }
    }
}

/// The entries a `rulings.toml` document states.
pub open spec fn raw_rulings_of(doc: Seq<(String, TomlValue)>) -> Result<Seq<RulingEntry>, Seq<char>> {
    match lookup(doc, "ruling"@) {
        None => Err(missing("ruling"@)),
        Some(TomlValue::Array(items)) => raw_rulings_from(items@),
        Some(_) => Err(not_tables("ruling"@)),
    }
}

fn message(before: &str, key: &str, after: &str) -> (r: String)
    ensures
        r@ == before@ + key@ + after@,
{
    let mut out: Vec<char> = Vec::new();
    push_str(&mut out, before);
    push_str(&mut out, key);
    push_str(&mut out, after);
    string_of(&out)
}

fn text_of(table: &Vec<(String, TomlValue)>, key: &str) -> (r: Result<String, String>)
    ensures
        r matches Ok(s) ==> text_field(table@, key@) == Ok::<Seq<char>, Seq<char>>(s@),
        r matches Err(why) ==> text_field(table@, key@) == Err::<Seq<char>, Seq<char>>(why@),
{
    match find(table, key) {
        None => Err(message("missing field `", key, "`")),
        Some(TomlValue::Text(s)) => Ok(s.clone()),
        Some(_) => Err(message("`", key, "` is not a string")),
    }
}

fn optional_text_of(table: &Vec<(String, TomlValue)>, key: &str) -> (r: Result<Option<String>, String>)
    ensures
        r matches Ok(s) ==> optional_text(table@, key@) == Ok::<Option<Seq<char>>, Seq<char>>(opt_view(s)),
        r matches Err(why) ==> optional_text(table@, key@) == Err::<Option<Seq<char>>, Seq<char>>(why@),
{
    match find(table, key) {
        None => Ok(None),
        Some(TomlValue::Text(s)) => Ok(Some(s.clone())),
        Some(_) => Err(message("`", key, "` is not a string")),
    }
}

fn count_of(table: &Vec<(String, TomlValue)>, key: &str) -> (r: Result<u32, String>)
    ensures
        r matches Ok(n) ==> count_field(table@, key@) == Ok::<u32, Seq<char>>(n),
        r matches Err(why) ==> count_field(table@, key@) == Err::<u32, Seq<char>>(why@),
{
    match find(table, key) {
        None => Err(message("missing field `", key, "`")),
        Some(TomlValue::Integer(n)) => {
            if 0 <= *n && *n <= 4294967295 {
                Ok(*n as u32)
            } else {
                Err(message("`", key, "` is not a whole number from 0 to 4294967295"))
            }
        },
        Some(_) => Err(message("`", key, "` is not a whole number from 0 to 4294967295")),
    }
}

impl Limits {
    /// The version and limits a `limits.toml` document states.
    pub fn from_document(doc: &Vec<(String, TomlValue)>) -> (r: Result<Self, String>)
        ensures
            r matches Ok(l) ==> raw_limits_of(doc@) == Ok::<(Seq<char>, Bounds), Seq<char>>((l.version@, l.limits)),
            r matches Err(why) ==> raw_limits_of(doc@) == Err::<(Seq<char>, Bounds), Seq<char>>(why@),
    {
        let version = text_of(doc, "version")?;
        let limits = match find(doc, "limits") {
            None => return Err(message("missing field `", "limits", "`")),
            Some(TomlValue::Table(t)) => t,
            Some(_) => return Err(message("`", "limits", "` is not a table")),
        };
        let max_coordinate = count_of(limits, "max_coordinate")?;
        let max_instructions = count_of(limits, "max_instructions")?;
        Ok(Limits { version, limits: Bounds { max_coordinate, max_instructions } })
    }
}

impl Ruling {
    /// One entry, from its table.
    pub fn from_table(t: &Vec<(String, TomlValue)>) -> (r: Result<Self, String>)
        ensures
            r matches Ok(e) ==> raw_ruling_of(t@) == Ok::<RulingEntry, Seq<char>>(e@),
            r matches Err(why) ==> raw_ruling_of(t@) == Err::<RulingEntry, Seq<char>>(why@),
    {
        let id = text_of(t, "id")?;
        let status = text_of(t, "status")?;
        let question = text_of(t, "question")?;
        let statement = optional_text_of(t, "ruling")?;
        let rationale = optional_text_of(t, "rationale")?;
        let note = optional_text_of(t, "note")?;
        Ok(Ruling { id, status, question, statement, rationale, note })
    }
}

impl Rulings {
    /// The entries a `rulings.toml` document states.
    pub fn from_document(doc: &Vec<(String, TomlValue)>) -> (r: Result<Self, String>)
        ensures
            r matches Ok(rs) ==> raw_rulings_of(doc@) == Ok::<Seq<RulingEntry>, Seq<char>>(raw_views(rs.ruling@)),
            r matches Err(why) ==> raw_rulings_of(doc@) == Err::<Seq<RulingEntry>, Seq<char>>(why@),
    {
        let items = match find(doc, "ruling") {
            None => return Err(message("missing field `", "ruling", "`")),
            Some(TomlValue::Array(items)) => items,
            Some(_) => return Err(message("`", "ruling", "` is not an array of tables")),
        };
        let mut entries: Vec<Ruling> = Vec::new();
        let mut i: usize = 0;
        proof {
            assert(items@.skip(0) =~= items@);
            match raw_rulings_from(items@) {
                Err(_) => {},
                Ok(rest) => { assert(raw_views(entries@) + rest =~= rest); },
            }
        }
        while i < items.len()
            invariant
                i <= items.len(),
                raw_rulings_of(doc@) == raw_rulings_from(items@),
                raw_rulings_from(items@) == (match raw_rulings_from(items@.skip(i as int)) {
                    Err(why) => Err::<Seq<RulingEntry>, Seq<char>>(why),
                    Ok(rest) => Ok(raw_views(entries@) + rest),
                }),
            decreases items.len() - i,
        {
            proof {
                assert(items@.skip(i as int)[0] == items@[i as int]);
                assert(items@.skip(i as int).skip(1) =~= items@.skip(i + 1));
            }
            match &items[i] {
                TomlValue::Table(t) => {
                    let entry = Ruling::from_table(t)?;
                    proof {
                        match raw_rulings_from(items@.skip(i + 1)) {
                            Err(_) => {},
                            Ok(rest) => {
                                assert(raw_views(entries@.push(entry)) =~= raw_views(entries@).push(entry@));
                                assert(raw_views(entries@) + (seq![entry@] + rest) =~= raw_views(entries@).push(entry@) + rest);
                            },
                        }
                    }
                    entries.push(entry);
                },
                _ => return Err(message("`", "ruling", "` is not an array of tables")),
            }
            i = i + 1;
        }
        proof {
            assert(items@.skip(i as int).len() == 0);
            assert(raw_views(entries@) + Seq::<RulingEntry>::empty() =~= raw_views(entries@));
        }
        Ok(Rulings { ruling: entries })
    }
}

} // verus!
