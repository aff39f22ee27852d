//! Partial updates of a stored entry.

use vstd::prelude::*;
use vstd::string::StringExecFns;
use crate::error::McpRegError;
use crate::registry::entry::{env_keys_distinct, ServerEntry};
use crate::registry::validate::{is_known_transport, known_transport, msg_if, publish_check_spec, push_when, texts};
use crate::semver::{is_semver, is_semver_spec};
use crate::text::cat3;

verus! {

/// The fields a partial update may carry. A list or map field holds each
/// submitted element, `None` where the element was not a string.
pub struct ServerPatch {
    pub description: Option<String>,
    pub version: Option<String>,
    pub author: Option<String>,
    pub license: Option<String>,
    pub repository: Option<String>,
    pub tools: Option<Vec<Option<String>>>,
    pub resources: Option<Vec<Option<String>>>,
    pub prompts: Option<Vec<Option<String>>>,
    pub tags: Option<Vec<Option<String>>>,
    pub transport: Option<String>,
    pub env: Option<Vec<(String, Option<String>)>>,
    pub homepage: Option<String>,
    pub deprecated: Option<bool>,
    pub deprecated_by: Option<String>,
}

/// The strings among submitted list elements, in order.
pub open spec fn strings_of(s: Seq<Option<String>>) -> Seq<String>
    decreases s.len(),
{
    if s.len() == 0 {
        Seq::empty()
    } else {
        strings_of(s.drop_last()) + match s.last() {
            Some(x) => seq![x],
            None => Seq::empty(),
        }
    }
}

/// The pairs among submitted map entries whose value is a string, in order.
pub open spec fn string_pairs(s: Seq<(String, Option<String>)>) -> Seq<(String, String)>
    decreases s.len(),
{
    if s.len() == 0 {
        Seq::empty()
    } else {
        string_pairs(s.drop_last()) + match s.last().1 {
            Some(x) => seq![(s.last().0, x)],
            None => Seq::empty(),
        }
    }
}

/// The names of the fields a patch sets, in the order they are applied.
pub open spec fn patch_fields(p: ServerPatch) -> Seq<Seq<char>> {
    msg_if(p.description is Some, "description"@)
        + msg_if(p.version is Some, "version"@)
        + msg_if(p.author is Some, "author"@)
        + msg_if(p.license is Some, "license"@)
        + msg_if(p.repository is Some, "repository"@)
        + msg_if(p.tools is Some, "tools"@)
        + msg_if(p.resources is Some, "resources"@)
        + msg_if(p.prompts is Some, "prompts"@)
        + msg_if(p.tags is Some, "tags"@)
        + msg_if(p.transport is Some, "transport"@)
        + msg_if(p.env is Some, "env"@)
        + msg_if(p.homepage is Some, "homepage"@)
        + msg_if(p.deprecated is Some, "deprecated"@)
        + msg_if(p.deprecated_by is Some, "deprecated_by"@)
}

/// Why a patch is refused, if it is: a malformed version, an unknown
/// transport, or no field at all.
pub open spec fn patch_error(p: ServerPatch) -> Option<Seq<char>> {
    if p.version is Some && !is_semver_spec(p.version->0@) {
        Some("version must be in semver format"@)
    } else if p.transport is Some && !known_transport(p.transport->0@) {
        Some("transport '"@ + p.transport->0@ + "' is not recognized"@)
    } else if patch_fields(p).len() == 0 {
        Some("no valid fields to update"@)
    } else {
        None
    }
}

/// A field after a patch: the patched value if there is one.
pub open spec fn or_keep<T>(new: Option<T>, old: T) -> T {
    match new {
        Some(x) => x,
        None => old,
    }
}

/// A list field after a patch: the submitted strings if the list was sent.
pub open spec fn list_or_keep(new: Option<Vec<Option<String>>>, old: Seq<String>) -> Seq<String> {
    match new {
        Some(v) => strings_of(v@),
        None => old,
    }
}

/// What a successful patch makes of an entry, field by field; the fields a
/// patch cannot name stay as they were.
pub open spec fn patched(r: ServerEntry, e: ServerEntry, p: ServerPatch) -> bool {
    &&& r.description == or_keep(p.description, e.description)
    &&& r.version == or_keep(p.version, e.version)
    &&& r.author == or_keep(p.author, e.author)
    &&& r.license == or_keep(p.license, e.license)
    &&& r.repository == or_keep(p.repository, e.repository)
    &&& r.tools@ == list_or_keep(p.tools, e.tools@)
    &&& r.resources@ == list_or_keep(p.resources, e.resources@)
    &&& r.prompts@ == list_or_keep(p.prompts, e.prompts@)
    &&& r.tags@ == list_or_keep(p.tags, e.tags@)
    &&& r.transport == or_keep(p.transport, e.transport)
    &&& r.env@ == (match p.env {
        Some(v) => string_pairs(v@),
        None => e.env@,
    })
    &&& r.homepage == or_keep(p.homepage, e.homepage)
    &&& r.deprecated == or_keep(p.deprecated, e.deprecated)
    &&& r.deprecated_by == (match p.deprecated_by {
        Some(d) => if d@.len() == 0 { None } else { Some(d) },
        None => e.deprecated_by,
    })
    &&& r.id == e.id
    &&& r.owner == e.owner
    &&& r.name == e.name
    &&& r.command == e.command
    &&& r.args == e.args
    &&& r.downloads == e.downloads
    &&& r.stars == e.stars
    &&& r.created_at == e.created_at
    &&& r.updated_at == e.updated_at
}

fn keep_strings(v: Vec<Option<String>>) -> (r: Vec<String>)
    ensures
        r@ == strings_of(v@),
{
    let ghost all = v@;
    let mut v = v;
    let mut r: Vec<String> = Vec::new();
    let ghost mut k: int = 0;
    while v.len() > 0
        invariant
            0 <= k <= all.len(),
            v@ == all.subrange(k, all.len() as int),
            r@ == strings_of(all.take(k)),
        decreases v.len(),
    {
        let x = v.remove(0);
        proof {
            assert(all.take(k + 1).drop_last() =~= all.take(k));
            assert(x == all[k]);
        }
        match x {
            Some(s) => {
                r.push(s);
            },
            None => {},
        }
        proof {
            k = k + 1;
        }
        assert(v@ =~= all.subrange(k, all.len() as int));
    }
    assert(all.take(k) =~= all);
    r
}

fn keep_string_pairs(v: Vec<(String, Option<String>)>) -> (r: Vec<(String, String)>)
    ensures
        r@ == string_pairs(v@),
{
    let ghost all = v@;
    let mut v = v;
    let mut r: Vec<(String, String)> = Vec::new();
    let ghost mut k: int = 0;
    while v.len() > 0
        invariant
            0 <= k <= all.len(),
            v@ == all.subrange(k, all.len() as int),
            r@ == string_pairs(all.take(k)),
        decreases v.len(),
    {
        let x = v.remove(0);
        proof {
            assert(all.take(k + 1).drop_last() =~= all.take(k));
            assert(x == all[k]);
        }
        let (key, value) = x;
        match value {
            Some(s) => {
                r.push((key, s));
            },
            None => {},
        }
        proof {
            k = k + 1;
        }
        assert(v@ =~= all.subrange(k, all.len() as int));
    }
    assert(all.take(k) =~= all);
    r
}

fn field_names(p: &ServerPatch) -> (r: Vec<String>)
    ensures
        texts(r@) == patch_fields(*p),
{
    let mut changed: Vec<String> = Vec::new();
    assert(texts(changed@) =~= Seq::<Seq<char>>::empty());
    push_when(&mut changed, p.description.is_some(), "description");
    push_when(&mut changed, p.version.is_some(), "version");
    push_when(&mut changed, p.author.is_some(), "author");
    push_when(&mut changed, p.license.is_some(), "license");
    push_when(&mut changed, p.repository.is_some(), "repository");
    push_when(&mut changed, p.tools.is_some(), "tools");
    push_when(&mut changed, p.resources.is_some(), "resources");
    push_when(&mut changed, p.prompts.is_some(), "prompts");
    push_when(&mut changed, p.tags.is_some(), "tags");
    push_when(&mut changed, p.transport.is_some(), "transport");
    push_when(&mut changed, p.env.is_some(), "env");
    push_when(&mut changed, p.homepage.is_some(), "homepage");
    push_when(&mut changed, p.deprecated.is_some(), "deprecated");
    push_when(&mut changed, p.deprecated_by.is_some(), "deprecated_by");
    assert(texts(changed@) =~= patch_fields(*p));
    changed
}

fn pick<T>(new: Option<T>, old: T) -> (r: T)
    ensures
        r == or_keep(new, old),
{
    match new {
        Some(x) => x,
        None => old,
    }
}

fn pick_list(new: Option<Vec<Option<String>>>, old: Vec<String>) -> (r: Vec<String>)
    ensures
        r@ == list_or_keep(new, old@),
{
    match new {
        Some(x) => keep_strings(x),
        None => old,
    }
}

fn pick_env(new: Option<Vec<(String, Option<String>)>>, old: Vec<(String, String)>) -> (r: Vec<(String, String)>)
    ensures
        r@ == (match new {
            Some(v) => string_pairs(v@),
            None => old@,
        }),
{
    match new {
        Some(x) => keep_string_pairs(x),
        None => old,
    }
}

fn pick_replacement(new: Option<String>, old: Option<String>) -> (r: Option<String>)
    ensures
        r == (match new {
            Some(d) => if d@.len() == 0 { None } else { Some(d) },
            None => old,
        }),
{
    match new {
        Some(x) => if x.as_str().is_empty() { None } else { Some(x) },
        None => old,
    }
}

fn apply_fields(e: ServerEntry, p: ServerPatch) -> (n: ServerEntry)
    ensures
        patched(n, e, p),
{
    let ServerEntry {
        id, owner, name, version: old_version, description: old_description, author: old_author,
        license: old_license, repository: old_repository, command, args, transport: old_transport,
        tools: old_tools, resources: old_resources, prompts: old_prompts, tags: old_tags, env: old_env,
        homepage: old_homepage, deprecated: old_deprecated, deprecated_by: old_deprecated_by,
        downloads, stars, created_at, updated_at,
    } = e;
    ServerEntry {
        id,
        owner,
        name,
        version: pick(p.version, old_version),
        description: pick(p.description, old_description),
        author: pick(p.author, old_author),
        license: pick(p.license, old_license),
        repository: pick(p.repository, old_repository),
        command,
        args,
        transport: pick(p.transport, old_transport),
        tools: pick_list(p.tools, old_tools),
        resources: pick_list(p.resources, old_resources),
        prompts: pick_list(p.prompts, old_prompts),
        tags: pick_list(p.tags, old_tags),
        env: pick_env(p.env, old_env),
        homepage: pick(p.homepage, old_homepage),
        deprecated: pick(p.deprecated, old_deprecated),
        deprecated_by: pick_replacement(p.deprecated_by, old_deprecated_by),
        downloads,
        stars,
        created_at,
        updated_at,
    }
}

/// Applies a partial update to an entry. A malformed version, an unknown
/// transport or an empty patch is refused; otherwise each field the patch
/// carries replaces the stored one (an empty `deprecated_by` clears it), and
/// the names of the updated fields come back in a fixed order.
pub fn apply_patch(e: ServerEntry, p: ServerPatch) -> (r: Result<(ServerEntry, Vec<String>), McpRegError>)
    ensures
        match patch_error(p) {
            Some(m) => r matches Err(McpRegError::Validation(x)) && x@ == m,
            None => r matches Ok((n, changed)) && patched(n, e, p) && texts(changed@) == patch_fields(p),
        },
{
    if let Some(v) = &p.version {
        if !is_semver(v.as_str()) {
            return Err(McpRegError::Validation(String::from_str("version must be in semver format")));
        }
    }
    if let Some(t) = &p.transport {
        if !is_known_transport(t.as_str()) {
            return Err(McpRegError::Validation(cat3("transport '", t.as_str(), "' is not recognized")));
        }
    }
    let changed = field_names(&p);
    if changed.len() == 0 {
        return Err(McpRegError::Validation(String::from_str("no valid fields to update")));
    }
    let n = apply_fields(e, p);
    Ok((n, changed))
}

/// Two entries agree on every field (lists by their contents).
pub open spec fn same_entry(a: ServerEntry, b: ServerEntry) -> bool {
    &&& a.id == b.id && a.owner == b.owner && a.name == b.name && a.version == b.version
    &&& a.description == b.description && a.author == b.author && a.license == b.license
    &&& a.repository == b.repository && a.command == b.command && a.args@ == b.args@
    &&& a.transport == b.transport && a.tools@ == b.tools@ && a.resources@ == b.resources@
    &&& a.prompts@ == b.prompts@ && a.tags@ == b.tags@ && a.env@ == b.env@ && a.homepage == b.homepage
    &&& a.deprecated == b.deprecated && a.deprecated_by == b.deprecated_by && a.downloads == b.downloads
    &&& a.stars == b.stars && a.created_at == b.created_at && a.updated_at == b.updated_at
}

/// Applying the same patch twice changes nothing the first application did
/// not: a patch is idempotent.
pub proof fn law_patch_idempotent(e: ServerEntry, p: ServerPatch, once: ServerEntry, twice: ServerEntry)
    requires
        patched(once, e, p),
        patched(twice, once, p),
    ensures
        same_entry(once, twice),
{
}

/// A patch never changes who published a server, what it is called, or its
/// counters.
pub proof fn law_patch_keeps_identity(e: ServerEntry, p: ServerPatch, n: ServerEntry)
    requires
        patched(n, e, p),
    ensures
        n.owner == e.owner && n.name == e.name && n.id == e.id && n.downloads == e.downloads && n.stars == e.stars,
{
}

/// An accepted patch keeps a publishable entry publishable: it cannot
/// clear the owner, name or command, and any version or transport it sets
/// passes the same checks as publishing.
pub proof fn law_patch_keeps_publishable(e: ServerEntry, p: ServerPatch, n: ServerEntry)
    requires
        publish_check_spec(e) is None,
        patch_error(p) is None,
        patched(n, e, p),
    ensures
        publish_check_spec(n) is None,
{
    if p.version is Some {
        let v = p.version->0@;
        if v.len() == 0 {
            assert(v =~= Seq::<char>::empty());
            assert(crate::semver::split_on(v, '.') =~= seq![Seq::<char>::empty()]);
        }
    }
}

/// No key occurs twice among the submitted map entries.
pub open spec fn patch_env_keys_distinct(v: Seq<(String, Option<String>)>) -> bool {
    forall|i: int, j: int| 0 <= i < j < v.len() ==> (#[trigger] v[i]).0@ != (#[trigger] v[j]).0@
}

proof fn lemma_string_pairs_keys(s: Seq<(String, Option<String>)>)
    requires
        patch_env_keys_distinct(s),
    ensures
        env_keys_distinct(string_pairs(s)),
        forall|k: int| 0 <= k < string_pairs(s).len()
            ==> exists|i: int| 0 <= i < s.len() && (#[trigger] string_pairs(s)[k]).0@ == s[i].0@,
    decreases s.len(),
{
    if s.len() > 0 {
        let s0 = s.drop_last();
        assert(patch_env_keys_distinct(s0)) by {
            assert forall|i: int, j: int| 0 <= i < j < s0.len() implies (#[trigger] s0[i]).0@ != (#[trigger] s0[j]).0@ by {
                assert(s0[i] == s[i] && s0[j] == s[j]);
            }
        }
        lemma_string_pairs_keys(s0);
        let r0 = string_pairs(s0);
        let r = string_pairs(s);
        assert forall|k: int| 0 <= k < r.len() implies exists|i: int| 0 <= i < s.len() && (#[trigger] r[k]).0@ == s[i].0@ by {
            if k < r0.len() {
                assert(r[k] == r0[k]);
                let i = choose|i: int| 0 <= i < s0.len() && r0[k].0@ == s0[i].0@;
                assert(s[i] == s0[i]);
            } else {
                assert(r[k].0 == s[s.len() - 1].0);
            }
        }
        assert forall|i: int, j: int| 0 <= i < j < r.len() implies (#[trigger] r[i]).0@ != (#[trigger] r[j]).0@ by {
            if j < r0.len() {
                assert(r[i] == r0[i] && r[j] == r0[j]);
            } else {
                assert(r[i] == r0[i]);
                assert(r[j].0 == s.last().0);
                let t = choose|t: int| 0 <= t < s0.len() && r0[i].0@ == s0[t].0@;
                assert(s[t] == s0[t]);
                assert(s[t].0@ != s[s.len() - 1].0@);
            }
        }
    }
}

/// A patch keeps the environment a map: if the stored keys are distinct,
/// and so are the keys the patch submits, no key occurs twice afterwards.
pub proof fn law_patch_keeps_env_a_map(e: ServerEntry, p: ServerPatch, n: ServerEntry)
    requires
        patched(n, e, p),
        env_keys_distinct(e.env@),
        p.env matches Some(v) ==> patch_env_keys_distinct(v@),
    ensures
        env_keys_distinct(n.env@),
{
    if let Some(v) = p.env {
        lemma_string_pairs_keys(v@);
    }
}

/// A patch that sets the transport to `stdio`, `sse` or `streamable-http`
/// (with a semver version, if it sets one) is accepted; one that sets any
/// other transport is refused with a message naming it.
pub proof fn law_patch_known_transports(p: ServerPatch)
    requires
        p.transport is Some,
        p.version matches Some(v) ==> is_semver_spec(v@),
    ensures
        p.transport->0@ == "stdio"@ || p.transport->0@ == "sse"@ || p.transport->0@ == "streamable-http"@
            ==> patch_error(p) is None,
        p.transport->0@ != "stdio"@ && p.transport->0@ != "sse"@ && p.transport->0@ != "streamable-http"@
            ==> patch_error(p) == Some("transport '"@ + p.transport->0@ + "' is not recognized"@),
{
    assert(patch_fields(p).len() > 0);
}


} // verus!
