//! The stored form of an entry: one table row whose list and map fields are
//! JSON text, and the conversions between rows and entries.

use vstd::prelude::*;
use crate::registry::entry::{env_keys_distinct, ServerEntry};
use crate::registry::validate::texts;

verus! {

/// What `serde_json::from_str::<Vec<String>>` makes of a text: the strings
/// of a JSON array of strings, or nothing when the text is not one.
pub uninterp spec fn json_string_list(text: Seq<char>) -> Option<Seq<Seq<char>>>;

/// What `serde_json::from_str` makes of a text read as a JSON object of
/// strings: its key/value pairs in key order, or nothing when it is not one.
pub uninterp spec fn json_string_map(text: Seq<char>) -> Option<Seq<(Seq<char>, Seq<char>)>>;

/// The JSON text `serde_json::to_string` writes for a list of strings.
pub uninterp spec fn json_list_text(items: Seq<Seq<char>>) -> Seq<char>;

/// The JSON text `serde_json::to_string` writes for the map that collects
/// the given key/value pairs.
pub uninterp spec fn json_map_text(pairs: Seq<(Seq<char>, Seq<char>)>) -> Seq<char>;

/// The map that key/value pairs make when collected in order (a later pair
/// replaces an earlier one with the same key).
pub open spec fn pairs_map(s: Seq<(Seq<char>, Seq<char>)>) -> Map<Seq<char>, Seq<char>>
    decreases s.len(),
{
    if s.len() == 0 {
        Map::empty()
    } else {
        pairs_map(s.drop_last()).insert(s.last().0, s.last().1)
    }
}

/// The views of key/value pairs.
pub open spec fn pair_texts(v: Seq<(String, String)>) -> Seq<(Seq<char>, Seq<char>)> {
    v.map_values(|p: (String, String)| (p.0@, p.1@))
}

/// Parses a stored list column with `serde_json::from_str::<Vec<String>>`.
#[verifier::external_body]
fn parse_string_list(text: &str) -> (r: Option<Vec<String>>)
    ensures
        match json_string_list(text@) {
            Some(v) => r matches Some(x) && texts(x@) == v,
            None => r is None,
        },
{
    serde_json::from_str::<Vec<String>>(text).ok()
}

/// Parses a stored map column with `serde_json::from_str` into a
/// `BTreeMap<String, String>`, whose pairs come out in key order; the
/// contract also claims that no key comes out twice (a `BTreeMap` holds
/// each key once, and its iterator yields each entry once).
#[verifier::external_body]
fn parse_string_map(text: &str) -> (r: Option<Vec<(String, String)>>)
    ensures
        match json_string_map(text@) {
            Some(v) => r matches Some(x) && pair_texts(x@) == v,
            None => r is None,
        },
        r matches Some(x) ==> env_keys_distinct(x@),
{
    serde_json::from_str::<std::collections::BTreeMap<String, String>>(text).ok().map(|m| m.into_iter().collect())
}

/// Writes a list of strings as JSON with `serde_json::to_string`. The
/// contract claims that writing succeeds (its documentation names only two
/// failures, a `Serialize` impl that fails and a map with non-string keys,
/// and a list of strings has neither; the writer is a `Vec<u8>`, which
/// never fails), that the text is the named one, and that reading it back
/// with `serde_json::from_str::<Vec<String>>` gives the same strings: the
/// writer escapes every quote, backslash and control character, and the
/// reader undoes exactly those escapes.
#[verifier::external_body]
fn write_string_list(items: &Vec<String>) -> (r: Option<String>)
    ensures
        r is Some,
        r matches Some(t) ==> t@ == json_list_text(texts(items@)) && json_string_list(t@) == Some(texts(items@)),
{
    serde_json::to_string(items).ok()
}

/// Writes key/value pairs as a JSON object with `serde_json::to_string`,
/// through a `BTreeMap` that collects them (so keys come out sorted, and a
/// later pair replaces an earlier one with the same key). The contract
/// claims that writing succeeds (the keys are strings and string values
/// cannot fail to serialize), names the text, and claims that reading it
/// back with `serde_json::from_str` gives the same map: every key and value
/// is escaped by the writer and unescaped by the reader, as for lists.
#[verifier::external_body]
fn write_string_map(pairs: &Vec<(String, String)>) -> (r: Option<String>)
    ensures
        r is Some,
        r matches Some(t) ==> t@ == json_map_text(pair_texts(pairs@))
            && (json_string_map(t@) matches Some(q) && pairs_map(q) == pairs_map(pair_texts(pairs@))),
{
    serde_json::to_string(&pairs.iter().map(|p| (p.0.as_str(), p.1.as_str())).collect::<std::collections::BTreeMap<&str, &str>>()).ok()
}

/// A stored server row, as the database returns it.
pub struct ServerRow {
    pub id: i64,
    pub owner: String,
    pub name: String,
    pub version: String,
    pub description: String,
    pub author: String,
    pub license: String,
    pub repository: String,
    pub command: String,
    pub args: String,
    pub transport: String,
    pub tools: String,
    pub resources: String,
    pub prompts: String,
    pub tags: String,
    pub env: String,
    pub homepage: String,
    pub deprecated: i32,
    pub deprecated_by: String,
    pub category: String,
    pub downloads: i64,
    pub stars: i64,
    pub created_at: String,
    pub updated_at: String,
}

/// A stored list column read back: its strings, or none if it does not parse.
pub open spec fn stored_list(text: Seq<char>) -> Seq<Seq<char>> {
    match json_string_list(text) {
        Some(v) => v,
        None => Seq::empty(),
    }
}

/// A stored map column read back: its pairs, or none if it does not parse.
pub open spec fn stored_map(text: Seq<char>) -> Seq<(Seq<char>, Seq<char>)> {
    match json_string_map(text) {
        Some(v) => v,
        None => Seq::empty(),
    }
}

/// The entry a row stands for: its lists and map decoded (empty when a
/// column does not parse), `deprecated` set by any non-zero value, an empty
/// `deprecated_by` read as none, and both time stamps present.
pub open spec fn entry_of_row(e: ServerEntry, row: ServerRow) -> bool {
    &&& e.id == Some(row.id)
    &&& e.owner == row.owner
    &&& e.name == row.name
    &&& e.version == row.version
    &&& e.description == row.description
    &&& e.author == row.author
    &&& e.license == row.license
    &&& e.repository == row.repository
    &&& e.command == row.command
    &&& texts(e.args@) == stored_list(row.args@)
    &&& e.transport == row.transport
    &&& texts(e.tools@) == stored_list(row.tools@)
    &&& texts(e.resources@) == stored_list(row.resources@)
    &&& texts(e.prompts@) == stored_list(row.prompts@)
    &&& texts(e.tags@) == stored_list(row.tags@)
    &&& pair_texts(e.env@) == stored_map(row.env@)
    &&& e.homepage == row.homepage
    &&& e.deprecated == (row.deprecated != 0)
    &&& e.deprecated_by == (if row.deprecated_by@.len() == 0 { None } else { Some(row.deprecated_by) })
    &&& e.downloads == row.downloads
    &&& e.stars == row.stars
    &&& e.created_at == Some(row.created_at)
    &&& e.updated_at == Some(row.updated_at)
}

pub(crate) fn list_column(text: &str) -> (r: Vec<String>)
    ensures
        texts(r@) == stored_list(text@),
{
    match parse_string_list(text) {
        Some(v) => v,
        None => {
            let v: Vec<String> = Vec::new();
            assert(texts(v@) =~= Seq::<Seq<char>>::empty());
            v
        },
    }
}

fn map_column(text: &str) -> (r: Vec<(String, String)>)
    ensures
        pair_texts(r@) == stored_map(text@),
        env_keys_distinct(r@),
{
    match parse_string_map(text) {
        Some(v) => v,
        None => {
            let v: Vec<(String, String)> = Vec::new();
            assert(pair_texts(v@) =~= Seq::<(Seq<char>, Seq<char>)>::empty());
            v
        },
    }
}

impl ServerRow {
    /// The entry this row stands for.
    pub fn into_entry(self) -> (e: ServerEntry)
        ensures
            entry_of_row(e, self),
            env_keys_distinct(e.env@),
    {
        let args = list_column(self.args.as_str());
        let tools = list_column(self.tools.as_str());
        let resources = list_column(self.resources.as_str());
        let prompts = list_column(self.prompts.as_str());
        let tags = list_column(self.tags.as_str());
        let env = map_column(self.env.as_str());
        let deprecated_by = if self.deprecated_by.as_str().is_empty() { None } else { Some(self.deprecated_by) };
        ServerEntry {
            id: Some(self.id),
            owner: self.owner,
            name: self.name,
            version: self.version,
            description: self.description,
            author: self.author,
            license: self.license,
            repository: self.repository,
            command: self.command,
            args,
            transport: self.transport,
            tools,
            resources,
            prompts,
            tags,
            env,
            homepage: self.homepage,
            deprecated: self.deprecated != 0,
            deprecated_by,
            downloads: self.downloads,
            stars: self.stars,
            created_at: Some(self.created_at),
            updated_at: Some(self.updated_at),
        }
    }
}

/// The JSON columns an entry is stored with.
pub struct JsonColumns {
    pub args: String,
    pub tools: String,
    pub resources: String,
    pub prompts: String,
    pub tags: String,
    pub env: String,
}

/// Encodes the list and map fields of an entry for storage; the JSON writer
/// does not fail on strings, so there is always an answer. Each list column
/// reads back as the list it encodes, and the env column as the same map.
pub fn json_columns(e: &ServerEntry) -> (r: Option<JsonColumns>)
    ensures
        r is Some,
        r matches Some(c) ==> {
            &&& c.args@ == json_list_text(texts(e.args@))
            &&& c.tools@ == json_list_text(texts(e.tools@))
            &&& c.resources@ == json_list_text(texts(e.resources@))
            &&& c.prompts@ == json_list_text(texts(e.prompts@))
            &&& c.tags@ == json_list_text(texts(e.tags@))
            &&& c.env@ == json_map_text(pair_texts(e.env@))
            &&& stored_list(c.args@) == texts(e.args@)
            &&& stored_list(c.tools@) == texts(e.tools@)
            &&& stored_list(c.resources@) == texts(e.resources@)
            &&& stored_list(c.prompts@) == texts(e.prompts@)
            &&& stored_list(c.tags@) == texts(e.tags@)
            &&& pairs_map(stored_map(c.env@)) == pairs_map(pair_texts(e.env@))
        },
{
    let args = write_string_list(&e.args)?;
    let tools = write_string_list(&e.tools)?;
    let resources = write_string_list(&e.resources)?;
    let prompts = write_string_list(&e.prompts)?;
    let tags = write_string_list(&e.tags)?;
    let env = write_string_map(&e.env)?;
    Some(JsonColumns { args, tools, resources, prompts, tags, env })
}

} // verus!
