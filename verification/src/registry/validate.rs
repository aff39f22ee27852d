//! Checks applied to entries before they are published, the report of the
//! validation route, and partial updates of stored entries.

use vstd::prelude::*;
use vstd::string::StringExecFns;
use crate::error::McpRegError;
use crate::registry::entry::ServerEntry;
use crate::semver::{is_semver, is_semver_spec};
use crate::text::{cat3, chars_eq, chars_of, starts_with_chars, starts_with_seq};

verus! {

/// The transports a published server may declare.
pub open spec fn known_transport(t: Seq<char>) -> bool {
    t == "stdio"@ || t == "sse"@ || t == "streamable-http"@
}

/// Is `t` one of `stdio`, `sse`, `streamable-http`?
pub fn is_known_transport(t: &str) -> (r: bool)
    ensures
        r == known_transport(t@),
{
    let c = chars_of(t);
    chars_eq(&c, &chars_of("stdio")) || chars_eq(&c, &chars_of("sse")) || chars_eq(&c, &chars_of("streamable-http"))
}

/// The message for an unrecognised transport at publish time.
pub open spec fn transport_error_text(t: Seq<char>) -> Seq<char> {
    "transport '"@ + t + "' is not recognized (expected: stdio, sse, streamable-http)"@
}

/// Why an entry cannot be published, if it cannot: owner and name, command
/// and version are required, the version must be dotted numbers (at least
/// two), and a declared transport must be a known one.
pub open spec fn publish_check_spec(e: ServerEntry) -> Option<Seq<char>> {
    if e.owner@.len() == 0 || e.name@.len() == 0 {
        Some("owner and name are required"@)
    } else if e.command@.len() == 0 {
        Some("command is required"@)
    } else if e.version@.len() == 0 {
        Some("version is required"@)
    } else if !is_semver_spec(e.version@) {
        Some("version must be in semver format (e.g. 1.0.0)"@)
    } else if e.transport@.len() > 0 && !known_transport(e.transport@) {
        Some(transport_error_text(e.transport@))
    } else {
        None
    }
}

/// Validates an entry for publishing; the error names the first problem.
pub fn check_publishable(e: &ServerEntry) -> (r: Result<(), McpRegError>)
    ensures
        match publish_check_spec(*e) {
            None => r is Ok,
            Some(m) => r matches Err(McpRegError::Validation(x)) && x@ == m,
        },
{
    if e.owner.as_str().is_empty() || e.name.as_str().is_empty() {
        return Err(McpRegError::Validation(String::from_str("owner and name are required")));
    }
    if e.command.as_str().is_empty() {
        return Err(McpRegError::Validation(String::from_str("command is required")));
    }
    if e.version.as_str().is_empty() {
        return Err(McpRegError::Validation(String::from_str("version is required")));
    }
    if !is_semver(e.version.as_str()) {
        return Err(McpRegError::Validation(String::from_str("version must be in semver format (e.g. 1.0.0)")));
    }
    if !e.transport.as_str().is_empty() && !is_known_transport(e.transport.as_str()) {
        return Err(McpRegError::Validation(cat3("transport '", e.transport.as_str(), "' is not recognized (expected: stdio, sse, streamable-http)")));
    }
    Ok(())
}

/// An ASCII letter or digit.
pub open spec fn ascii_alnum(c: char) -> bool {
    ('0' <= c && c <= '9') || ('a' <= c && c <= 'z') || ('A' <= c && c <= 'Z')
}

/// A conventional server name: ASCII letters, digits, `-` and `_`.
pub open spec fn name_chars_ok(s: Seq<char>) -> bool {
    forall|i: int| 0 <= i < s.len() ==> ascii_alnum(#[trigger] s[i]) || s[i] == '-' || s[i] == '_'
}

/// A conventional environment key: ASCII letters, digits and `_`.
pub open spec fn env_key_ok(s: Seq<char>) -> bool {
    forall|i: int| 0 <= i < s.len() ==> ascii_alnum(#[trigger] s[i]) || s[i] == '_'
}

fn ascii_alnum_exec(c: char) -> (r: bool)
    ensures
        r == ascii_alnum(c),
{
    ('0' <= c && c <= '9') || ('a' <= c && c <= 'z') || ('A' <= c && c <= 'Z')
}

fn chars_all_ok(s: &str, allow_dash: bool) -> (r: bool)
    ensures
        allow_dash ==> r == name_chars_ok(s@),
        !allow_dash ==> r == env_key_ok(s@),
{
    let c = chars_of(s);
    let mut i: usize = 0;
    while i < c.len()
        invariant
            i <= c.len(),
            c@ == s@,
            forall|k: int| 0 <= k < i ==> ascii_alnum(#[trigger] c@[k]) || (allow_dash && c@[k] == '-') || c@[k] == '_',
        decreases c.len() - i,
    {
        let ch = c[i];
        if !(ascii_alnum_exec(ch) || (allow_dash && ch == '-') || ch == '_') {
            return false;
        }
        i = i + 1;
    }
    true
}

/// `[m]` when `b` holds, else nothing.
pub open spec fn msg_if(b: bool, m: Seq<char>) -> Seq<Seq<char>> {
    if b { seq![m] } else { Seq::empty() }
}

/// The errors of the validation report, in order.
pub open spec fn validation_errors(e: ServerEntry) -> Seq<Seq<char>> {
    msg_if(e.owner@.len() == 0, "owner is required"@)
        + msg_if(e.name@.len() == 0, "name is required"@)
        + msg_if(e.command@.len() == 0, "command is required"@)
        + (if e.version@.len() == 0 {
            seq!["version is required"@]
        } else {
            msg_if(!is_semver_spec(e.version@), "version must be in semver format (e.g. 1.0.0)"@)
        })
        + msg_if(e.transport@.len() > 0 && !known_transport(e.transport@), transport_error_text(e.transport@))
}

/// The warning about one environment key, if any.
pub open spec fn env_warning(key: Seq<char>) -> Seq<Seq<char>> {
    if key.len() == 0 {
        seq!["env contains an empty key"@]
    } else if !env_key_ok(key) {
        seq!["env key '"@ + key + "' should use UPPER_SNAKE_CASE"@]
    } else {
        Seq::empty()
    }
}

/// The warnings about the first `n` environment keys, in order.
pub open spec fn env_warnings(env: Seq<(String, String)>, n: nat) -> Seq<Seq<char>>
    decreases n,
{
    if n == 0 {
        Seq::empty()
    } else {
        env_warnings(env, (n - 1) as nat) + env_warning(env[n - 1].0@)
    }
}

/// The warnings of the validation report, in order.
pub open spec fn validation_warnings(e: ServerEntry) -> Seq<Seq<char>> {
    msg_if(e.description@.len() == 0, "description is empty — a good description helps discovery"@)
        + msg_if(e.license@.len() == 0, "license is empty — consider specifying one (MIT, Apache-2.0, etc.)"@)
        + msg_if(e.tools.len() == 0 && e.resources.len() == 0 && e.prompts.len() == 0,
            "no tools, resources, or prompts declared — consider adding capabilities"@)
        + msg_if(e.repository@.len() == 0, "repository URL is empty — linking to source builds trust"@)
        + msg_if(e.author@.len() == 0, "author is empty"@)
        + msg_if(e.name@.len() > 0 && !name_chars_ok(e.name@),
            "name contains non-standard characters — use lowercase alphanumeric, hyphens, or underscores"@)
        + env_warnings(e.env@, e.env.len() as nat)
        + msg_if(e.homepage@.len() > 0 && !starts_with_seq(e.homepage@, "http://"@) && !starts_with_seq(e.homepage@, "https://"@),
            "homepage should be a valid HTTP(S) URL"@)
}

/// The findings of the validation route.
pub struct ValidationReport {
    pub valid: bool,
    pub errors: Vec<String>,
    pub warnings: Vec<String>,
}

/// The messages of a list of strings.
pub open spec fn texts(v: Seq<String>) -> Seq<Seq<char>> {
    v.map_values(|s: String| s@)
}

pub(crate) fn push_text(v: &mut Vec<String>, s: String)
    ensures
        texts(final(v)@) == texts(old(v)@).push(s@),
{
    let ghost o = v@;
    v.push(s);
    assert(texts(v@) =~= texts(o).push(s@));
}

pub(crate) fn push_when(v: &mut Vec<String>, b: bool, m: &str)
    ensures
        texts(final(v)@) == texts(old(v)@) + msg_if(b, m@),
{
    if b {
        push_text(v, String::from_str(m));
        assert(texts(old(v)@).push(m@) =~= texts(old(v)@) + seq![m@]);
    } else {
        assert(texts(old(v)@) =~= texts(old(v)@) + Seq::<Seq<char>>::empty());
    }
}

/// Validates an entry without publishing it: the errors that would stop
/// publication and the recommendations, each in a fixed order.
pub fn validate_entry(e: &ServerEntry) -> (r: ValidationReport)
    ensures
        texts(r.errors@) == validation_errors(*e),
        texts(r.warnings@) == validation_warnings(*e),
        r.valid == (validation_errors(*e).len() == 0),
{
    let mut errors: Vec<String> = Vec::new();
    let mut warnings: Vec<String> = Vec::new();
    assert(texts(errors@) =~= Seq::<Seq<char>>::empty());
    push_when(&mut errors, e.owner.as_str().is_empty(), "owner is required");
    push_when(&mut errors, e.name.as_str().is_empty(), "name is required");
    push_when(&mut errors, e.command.as_str().is_empty(), "command is required");
    if e.version.as_str().is_empty() {
        push_when(&mut errors, true, "version is required");
    } else {
        push_when(&mut errors, !is_semver(e.version.as_str()), "version must be in semver format (e.g. 1.0.0)");
    }
    let bad_transport = !e.transport.as_str().is_empty() && !is_known_transport(e.transport.as_str());
    if bad_transport {
        let ghost o = texts(errors@);
        push_text(&mut errors, cat3("transport '", e.transport.as_str(), "' is not recognized (expected: stdio, sse, streamable-http)"));
        assert(texts(errors@) =~= o + msg_if(true, transport_error_text(e.transport@)));
    } else {
        assert(texts(errors@) =~= texts(errors@) + Seq::<Seq<char>>::empty());
    }
    assert(texts(errors@) =~= validation_errors(*e));

    assert(texts(warnings@) =~= Seq::<Seq<char>>::empty());
    push_when(&mut warnings, e.description.as_str().is_empty(), "description is empty — a good description helps discovery");
    push_when(&mut warnings, e.license.as_str().is_empty(), "license is empty — consider specifying one (MIT, Apache-2.0, etc.)");
    push_when(&mut warnings, e.tools.len() == 0 && e.resources.len() == 0 && e.prompts.len() == 0,
        "no tools, resources, or prompts declared — consider adding capabilities");
    push_when(&mut warnings, e.repository.as_str().is_empty(), "repository URL is empty — linking to source builds trust");
    push_when(&mut warnings, e.author.as_str().is_empty(), "author is empty");
    push_when(&mut warnings, !e.name.as_str().is_empty() && !chars_all_ok(e.name.as_str(), true),
        "name contains non-standard characters — use lowercase alphanumeric, hyphens, or underscores");
    let ghost base = texts(warnings@);
    let mut i: usize = 0;
    while i < e.env.len()
        invariant
            i <= e.env.len(),
            texts(warnings@) == base + env_warnings(e.env@, i as nat),
        decreases e.env.len() - i,
    {
        let key = &e.env[i].0;
        let ghost before = texts(warnings@);
        if key.as_str().is_empty() {
            push_text(&mut warnings, String::from_str("env contains an empty key"));
            assert(texts(warnings@) =~= before + env_warning(key@));
        } else if !chars_all_ok(key.as_str(), false) {
            push_text(&mut warnings, cat3("env key '", key.as_str(), "' should use UPPER_SNAKE_CASE"));
            assert(texts(warnings@) =~= before + env_warning(key@));
        } else {
            assert(texts(warnings@) =~= before + env_warning(key@));
        }
        assert(base + env_warnings(e.env@, (i + 1) as nat) =~= base + env_warnings(e.env@, i as nat) + env_warning(key@));
        i = i + 1;
    }
    let hp = chars_of(e.homepage.as_str());
    push_when(&mut warnings, !e.homepage.as_str().is_empty() && !starts_with_chars(&hp, &chars_of("http://"))
        && !starts_with_chars(&hp, &chars_of("https://")), "homepage should be a valid HTTP(S) URL");
    assert(texts(warnings@) =~= validation_warnings(*e));
    let valid = errors.len() == 0;
    ValidationReport { valid, errors, warnings }
}

proof fn lemma_env_warnings_none(env: Seq<(String, String)>, n: nat)
    requires
        n <= env.len(),
        forall|i: int| 0 <= i < n ==> (#[trigger] env[i]).0@.len() > 0 && env_key_ok(env[i].0@),
    ensures
        env_warnings(env, n).len() == 0,
    decreases n,
{
    if n > 0 {
        lemma_env_warnings_none(env, (n - 1) as nat);
    }
}

/// A complete, conventional entry validates cleanly: with owner, name,
/// command, a semver version, a known transport or none, a description, a
/// license, some capability, a repository, an author, a name of letters,
/// digits, `-` and `_`, environment keys of letters, digits and `_`, and a
/// homepage that is empty or an HTTP(S) URL, the report has neither an
/// error nor a warning, and the entry is valid.
pub proof fn law_validation_clean(e: ServerEntry)
    requires
        e.owner@.len() > 0,
        e.name@.len() > 0,
        e.command@.len() > 0,
        e.version@.len() > 0,
        is_semver_spec(e.version@),
        e.transport@.len() == 0 || known_transport(e.transport@),
        e.description@.len() > 0,
        e.license@.len() > 0,
        e.tools.len() > 0 || e.resources.len() > 0 || e.prompts.len() > 0,
        e.repository@.len() > 0,
        e.author@.len() > 0,
        name_chars_ok(e.name@),
        forall|i: int| 0 <= i < e.env.len() ==> (#[trigger] e.env@[i]).0@.len() > 0 && env_key_ok(e.env@[i].0@),
        e.homepage@.len() == 0 || starts_with_seq(e.homepage@, "http://"@) || starts_with_seq(e.homepage@, "https://"@),
    ensures
        validation_errors(e).len() == 0,
        validation_warnings(e).len() == 0,
        publish_check_spec(e) is None,
{
    lemma_env_warnings_none(e.env@, e.env.len() as nat);
}

/// The transports `stdio`, `sse` and `streamable-http` are all accepted: a
/// complete entry (owner, name, command and a semver version) with one of
/// them, or with none, passes the publish check; with any other transport
/// it is refused, and the message names that transport.
pub proof fn law_known_transports_publish(e: ServerEntry)
    requires
        e.owner@.len() > 0,
        e.name@.len() > 0,
        e.command@.len() > 0,
        e.version@.len() > 0,
        is_semver_spec(e.version@),
    ensures
        e.transport@ == "stdio"@ ==> publish_check_spec(e) is None,
        e.transport@ == "sse"@ ==> publish_check_spec(e) is None,
        e.transport@ == "streamable-http"@ ==> publish_check_spec(e) is None,
        e.transport@.len() == 0 ==> publish_check_spec(e) is None,
        e.transport@.len() > 0 && e.transport@ != "stdio"@ && e.transport@ != "sse"@ && e.transport@ != "streamable-http"@
            ==> publish_check_spec(e) == Some(transport_error_text(e.transport@)),
{
}

/// The validation route reports no error for exactly the entries that
/// publishing accepts.
pub proof fn law_validation_agrees_with_publish(e: ServerEntry)
    ensures
        (validation_errors(e).len() == 0) <==> (publish_check_spec(e) is None),
{
}

} // verus!
