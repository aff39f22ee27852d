//! Regular-expression search over registry entries, with the `regex` crate.

use vstd::prelude::*;
use crate::error::McpRegError;
use crate::order::{firsts, int_desc, masked, retain_masked, sort_by, sort_by_int_desc, zip_keys};
use crate::registry::entry::ServerEntry;
use crate::text::cat;

verus! {

/// `regex::Regex`, carried through as an opaque value.
#[verifier::external_type_specification]
#[verifier::external_body]
pub struct ExRegex(regex::Regex);

/// What `regex::Regex::new` reports for a pattern: the text of its error,
/// or nothing when the pattern compiles.
pub uninterp spec fn regex_error(pattern: Seq<char>) -> Option<Seq<char>>;

/// What `regex::Regex::is_match` answers for the regex compiled from
/// `pattern` on `text`.
pub uninterp spec fn regex_is_match(pattern: Seq<char>, text: Seq<char>) -> bool;

/// A compiled regular expression with the pattern it was compiled from.
pub struct Pattern {
    re: regex::Regex,
    source: String,
}

impl Pattern {
    /// The pattern this regex was compiled from.
    pub closed spec fn source_text(&self) -> Seq<char> {
        self.source@
    }
}

/// Compiles a pattern with `regex::Regex::new`; on failure, the error's
/// text (`Display`).
#[verifier::external_body]
fn compile(pattern: &str) -> (r: Result<Pattern, String>)
    ensures
        match regex_error(pattern@) {
            None => r matches Ok(p) && p.source_text() == pattern@,
            Some(m) => r matches Err(e) && e@ == m,
        },
{
    match regex::Regex::new(pattern) {
        Ok(re) => Ok(Pattern { re, source: pattern.to_string() }),
        Err(e) => Err(e.to_string()),
    }
}

/// Tests a text with `regex::Regex::is_match`.
#[verifier::external_body]
fn is_match(p: &Pattern, text: &str) -> (r: bool)
    ensures
        r == regex_is_match(p.source_text(), text@),
{
    p.re.is_match(text)
}

/// Does the pattern match some string of the list?
pub open spec fn any_match(pattern: Seq<char>, v: Seq<String>) -> bool {
    exists|i: int| 0 <= i < v.len() && regex_is_match(pattern, #[trigger] v[i]@)
}

/// Does the pattern match the server's name, description, owner, full
/// name, or one of its tools or tags?
pub open spec fn entry_matches(pattern: Seq<char>, s: ServerEntry) -> bool {
    regex_is_match(pattern, s.name@) || regex_is_match(pattern, s.description@) || regex_is_match(pattern, s.owner@)
        || regex_is_match(pattern, s.full_name_spec()) || any_match(pattern, s.tools@) || any_match(pattern, s.tags@)
}

/// The match decisions over all servers.
pub open spec fn match_mask(pattern: Seq<char>, all: Seq<ServerEntry>) -> Seq<bool> {
    Seq::new(all.len(), |i: int| entry_matches(pattern, all[i]))
}

fn any_match_exec(p: &Pattern, v: &Vec<String>) -> (r: bool)
    ensures
        r == any_match(p.source_text(), v@),
{
    let mut i: usize = 0;
    while i < v.len()
        invariant
            i <= v.len(),
            forall|k: int| 0 <= k < i ==> !regex_is_match(p.source_text(), #[trigger] v@[k]@),
        decreases v.len() - i,
    {
        if is_match(p, v[i].as_str()) {
            return true;
        }
        i = i + 1;
    }
    false
}

/// The servers a regular expression finds: those it matches in name,
/// description, owner, full name, a tool or a tag, most downloaded first
/// (ties keep the listing order). A pattern that does not compile is
/// refused with the regex error.
pub fn search_regex(all: Vec<ServerEntry>, pattern: &str) -> (r: Result<Vec<ServerEntry>, McpRegError>)
    ensures
        match regex_error(pattern@) {
            Some(m) => r matches Err(McpRegError::Validation(x)) && x@ == "Invalid regex: "@ + m,
            None => r matches Ok(v) && ({
                let found = masked(all@, match_mask(pattern@, all@));
                v@ == firsts(sort_by(zip_keys(found, found.map_values(|s: ServerEntry| s.downloads as int)), int_desc()))
            }),
        },
{
    let p = match compile(pattern) {
        Ok(p) => p,
        Err(e) => {
            return Err(McpRegError::Validation(cat("Invalid regex: ", e.as_str())));
        },
    };
    let mut keep: Vec<bool> = Vec::new();
    let mut i: usize = 0;
    while i < all.len()
        invariant
            i <= all.len(),
            p.source_text() == pattern@,
            keep@ == match_mask(pattern@, all@).take(i as int),
        decreases all.len() - i,
    {
        let s = &all[i];
        let full = s.full_name();
        let m = is_match(&p, s.name.as_str()) || is_match(&p, s.description.as_str()) || is_match(&p, s.owner.as_str())
            || is_match(&p, full.as_str()) || any_match_exec(&p, &s.tools) || any_match_exec(&p, &s.tags);
        keep.push(m);
        assert(keep@ =~= match_mask(pattern@, all@).take(i + 1));
        i = i + 1;
    }
    assert(keep@ =~= match_mask(pattern@, all@));
    let found = retain_masked(all, &keep);
    let mut keys: Vec<i128> = Vec::new();
    let mut k: usize = 0;
    while k < found.len()
        invariant
            k <= found.len(),
            keys@.map_values(|x: i128| x as int) == found@.map_values(|s: ServerEntry| s.downloads as int).take(k as int),
        decreases found.len() - k,
    {
        let ghost before = keys@.map_values(|x: i128| x as int);
        keys.push(found[k].downloads as i128);
        assert(keys@.map_values(|x: i128| x as int) =~= before.push(found@[k as int].downloads as int));
        assert(found@.map_values(|s: ServerEntry| s.downloads as int).take(k + 1)
            =~= found@.map_values(|s: ServerEntry| s.downloads as int).take(k as int).push(found@[k as int].downloads as int));
        k = k + 1;
    }
    assert(found@.map_values(|s: ServerEntry| s.downloads as int).take(found.len() as int) =~= found@.map_values(|s: ServerEntry| s.downloads as int));
    Ok(sort_by_int_desc(found, keys))
}

} // verus!
