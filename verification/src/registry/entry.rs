//! A published MCP server as the registry stores it.

use vstd::prelude::*;
use crate::text::cat3;

verus! {

/// A published MCP server: identity, how to run it, what it offers, and
/// its registry counters.
#[derive(Debug)]
pub struct ServerEntry {
    pub id: Option<i64>,
    pub owner: String,
    pub name: String,
    pub version: String,
    pub description: String,
    pub author: String,
    pub license: String,
    pub repository: String,
    pub command: String,
    pub args: Vec<String>,
    pub transport: String,
    pub tools: Vec<String>,
    pub resources: Vec<String>,
    pub prompts: Vec<String>,
    pub tags: Vec<String>,
    /// Environment variables the server expects, as (key, value) pairs;
    /// no key occurs twice (see `env_keys_distinct`).
    pub env: Vec<(String, String)>,
    pub homepage: String,
    pub deprecated: bool,
    pub deprecated_by: Option<String>,
    pub downloads: i64,
    pub stars: i64,
    pub created_at: Option<String>,
    pub updated_at: Option<String>,
}

/// No two pairs of an environment share a key: the environment is a map.
pub open spec fn env_keys_distinct(env: Seq<(String, String)>) -> bool {
    forall|i: int, j: int| 0 <= i < j < env.len() ==> (#[trigger] env[i]).0@ != (#[trigger] env[j]).0@
}

/// `owner/name` from its parts.
pub open spec fn full_name_of(owner: Seq<char>, name: Seq<char>) -> Seq<char> {
    owner + seq!['/'] + name
}

impl ServerEntry {
    /// The entry's `owner/name`.
    pub open spec fn full_name_spec(&self) -> Seq<char> {
        full_name_of(self.owner@, self.name@)
    }

    /// The entry's `owner/name`.
    pub fn full_name(&self) -> (r: String)
        ensures
            r@ == self.full_name_spec(),
    {
        proof {
            reveal_strlit("/");
        }
        cat3(self.owner.as_str(), "/", self.name.as_str())
    }
}

} // verus!
