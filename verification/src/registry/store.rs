//! What the registry's database layer computes around its SQL: the escaping
//! of LIKE patterns, the plan of a text search, the conversion between stored
//! rows and entries, and the tool, prompt, tag and resource indexes.

use vstd::prelude::*;
use vstd::string::StringExecFns;
use crate::registry::entry::ServerEntry;
use crate::registry::validate::{msg_if, push_when, texts};
use crate::text::{
    any_ci_contains, any_contains_ci, cat, cat3, chars_of, ci_contains, contains_ci, contains_seq, dec, is_sep,
    lemma_contains_parts, lemma_contains_self, lemma_contains_trans, lower_chars, is_whitespace, is_ws, runs_of,
    split_whitespace, string_of, u64_to_string, words_of,
};
use crate::semver::{split_chars, split_on};
use crate::order::{kept_from, lemma_masked_contains, lemma_masked_from, masked, retain_masked};

verus! {

/// Is `c` special in a LIKE pattern escaped with a backslash?
pub open spec fn like_special(c: char) -> bool {
    c == '\\' || c == '%' || c == '_'
}

/// One character of input as it stands in an escaped LIKE pattern.
pub open spec fn escape_char(c: char) -> Seq<char> {
    if like_special(c) {
        seq!['\\', c]
    } else {
        seq![c]
    }
}

/// `s` with every backslash, `%` and `_` preceded by a backslash.
pub open spec fn escape_like_spec(s: Seq<char>) -> Seq<char> {
    s.flat_map(|c: char| escape_char(c))
}

/// How LIKE with `ESCAPE '\'` reads a pattern's literal characters: a
/// backslash stands for the character after it.
pub open spec fn unescape_like(p: Seq<char>) -> Seq<char>
    decreases p.len(),
{
    if p.len() == 0 {
        Seq::empty()
    } else if p[0] == '\\' && p.len() >= 2 {
        seq![p[1]] + unescape_like(p.skip(2))
    } else {
        seq![p[0]] + unescape_like(p.skip(1))
    }
}

proof fn lemma_escape_front(s: Seq<char>)
    requires
        s.len() > 0,
    ensures
        escape_like_spec(s) == escape_char(s[0]) + escape_like_spec(s.skip(1)),
{
    let f = |c: char| escape_char(c);
    assert(s.map_values(f).drop_first() =~= s.skip(1).map_values(f));
}

/// Escapes the LIKE wildcards `%` and `_`, and the escape character itself,
/// so that user input matches only literally.
pub fn escape_like(input: &str) -> (r: String)
    ensures
        r@ == escape_like_spec(input@),
{
    let s = crate::text::chars_of(input);
    let mut out: Vec<char> = Vec::new();
    let mut i: usize = 0;
    while i < s.len()
        invariant
            i <= s.len(),
            s@ == input@,
            out@ == s@.take(i as int).flat_map(|c: char| escape_char(c)),
        decreases s.len() - i,
    {
        let c = s[i];
        proof {
            s@.lemma_flat_map_take_append(|c: char| escape_char(c), i as int);
        }
        if c == '\\' || c == '%' || c == '_' {
            out.push('\\');
        }
        out.push(c);
        i = i + 1;
    }
    assert(s@.take(s.len() as int) =~= s@);
    string_of(out.as_slice())
}

/// Reading an escaped pattern literally gives back the input: escaping loses
/// nothing and leaves no wildcard active.
pub proof fn law_escape_like_roundtrip(s: Seq<char>)
    ensures
        unescape_like(escape_like_spec(s)) == s,
    decreases s.len(),
{
    if s.len() > 0 {
        lemma_escape_front(s);
        law_escape_like_roundtrip(s.skip(1));
        let e = escape_like_spec(s);
        if like_special(s[0]) {
            assert(e.skip(2) =~= escape_like_spec(s.skip(1)));
        } else {
            assert(e.skip(1) =~= escape_like_spec(s.skip(1)));
        }
        assert(s =~= seq![s[0]] + s.skip(1));
    } else {
        assert(escape_like_spec(s) =~= Seq::<char>::empty());
    }
}

/// Whether a LIKE pattern read with `ESCAPE '\'` has a wildcard in force: a
/// `%` or `_` not taken literally after a backslash.
pub open spec fn active_wildcard(p: Seq<char>) -> bool
    decreases p.len(),
{
    if p.len() == 0 {
        false
    } else if p[0] == '\\' && p.len() >= 2 {
        active_wildcard(p.skip(2))
    } else if p[0] == '%' || p[0] == '_' {
        true
    } else {
        active_wildcard(p.skip(1))
    }
}

/// An escaped input has no wildcard in force: every `%` and `_` of the
/// input is matched literally.
pub proof fn law_escape_like_no_wildcard(s: Seq<char>)
    ensures
        !active_wildcard(escape_like_spec(s)),
    decreases s.len(),
{
    if s.len() > 0 {
        lemma_escape_front(s);
        law_escape_like_no_wildcard(s.skip(1));
        let e = escape_like_spec(s);
        if like_special(s[0]) {
            assert(e.skip(2) =~= escape_like_spec(s.skip(1)));
        } else {
            assert(e.skip(1) =~= escape_like_spec(s.skip(1)));
        }
    } else {
        assert(escape_like_spec(s) =~= Seq::<char>::empty());
    }
}

/// A word of a query taken as a required term: any word not starting with `-`.
pub open spec fn positive_term(w: Seq<char>) -> Option<Seq<char>> {
    if w.len() > 0 && w[0] == '-' {
        None
    } else {
        Some(w)
    }
}

/// A word of a query taken as an excluded term: `-x` excludes `x`; a lone
/// `-` excludes nothing.
pub open spec fn negated_term(w: Seq<char>) -> Option<Seq<char>> {
    if w.len() > 1 && w[0] == '-' {
        Some(w.skip(1))
    } else {
        None
    }
}

/// The required terms of a query, in order.
pub open spec fn positive_terms(q: Seq<char>) -> Seq<Seq<char>> {
    words_of(q).filter_map(|w: Seq<char>| positive_term(w))
}

/// The excluded terms of a query, in order.
pub open spec fn negated_terms(q: Seq<char>) -> Seq<Seq<char>> {
    words_of(q).filter_map(|w: Seq<char>| negated_term(w))
}

/// What a word maps to is among what the words map to.
proof fn lemma_filter_map_has<A, B>(s: Seq<A>, f: spec_fn(A) -> Option<B>, i: int)
    requires
        0 <= i < s.len(),
        f(s[i]) is Some,
    ensures
        s.filter_map(f).contains(f(s[i])->0),
    decreases s.len(),
{
    let rest = s.drop_last();
    let x = f(s[i])->0;
    if i == s.len() - 1 {
        assert((rest.filter_map(f) + seq![x])[rest.filter_map(f).len() as int] == x);
    } else {
        lemma_filter_map_has(rest, f, i);
        assert(rest[i] == s[i]);
        let k = choose|k: int| 0 <= k < rest.filter_map(f).len() && rest.filter_map(f)[k] == x;
        match f(s.last()) {
            Some(y) => {
                assert((rest.filter_map(f) + seq![y])[k] == x);
            },
            None => {},
        }
    }
}

/// How a query's words become terms: a word not starting with `-` is a
/// required term, a word `-x` (longer than the dash) excludes `x`, and a
/// lone `-` is neither; each required term is such a word, and each
/// excluded term `x` comes from a word `-x`.
pub proof fn law_search_terms(q: Seq<char>, i: int, t: Seq<char>)
    requires
        0 <= i < words_of(q).len(),
    ensures
        ({
            let w = words_of(q)[i];
            &&& !(w.len() > 0 && w[0] == '-') ==> positive_terms(q).contains(w)
            &&& w.len() > 1 && w[0] == '-' ==> negated_terms(q).contains(w.skip(1))
            &&& w == seq!['-'] ==> !positive_terms(q).contains(w)
        }),
        positive_terms(q).contains(t) ==> words_of(q).contains(t) && !(t.len() > 0 && t[0] == '-'),
        negated_terms(q).contains(t) ==> t.len() > 0 && words_of(q).contains(seq!['-'] + t),
{
    let ws = words_of(q);
    let fp = |w: Seq<char>| positive_term(w);
    let fnn = |w: Seq<char>| negated_term(w);
    let w = ws[i];
    if !(w.len() > 0 && w[0] == '-') {
        lemma_filter_map_has(ws, fp, i);
    }
    if w.len() > 1 && w[0] == '-' {
        lemma_filter_map_has(ws, fnn, i);
    }
    if w == seq!['-'] && ws.filter_map(fp).contains(w) {
        ws.lemma_filter_map_contains(fp, w);
    }
    if ws.filter_map(fp).contains(t) {
        ws.lemma_filter_map_contains(fp, t);
    }
    if ws.filter_map(fnn).contains(t) {
        ws.lemma_filter_map_contains(fnn, t);
        let u = choose|u: Seq<char>| #[trigger] ws.contains(u) && fnn(u) == Some(t);
        assert(u =~= seq!['-'] + t);
    }
}

/// The parts joined with a separator between consecutive ones.
pub open spec fn joined(parts: Seq<Seq<char>>, sep: Seq<char>) -> Seq<char>
    decreases parts.len(),
{
    if parts.len() == 0 {
        Seq::empty()
    } else if parts.len() == 1 {
        parts[0]
    } else {
        joined(parts.drop_last(), sep) + sep + parts.last()
    }
}

/// `parts.join(sep)`.
pub fn join_strings(parts: &Vec<String>, sep: &str) -> (r: String)
    ensures
        r@ == joined(texts(parts@), sep@),
{
    let mut out = String::new();
    let mut i: usize = 0;
    assert(texts(parts@).take(0) =~= Seq::<Seq<char>>::empty());
    while i < parts.len()
        invariant
            i <= parts.len(),
            out@ == joined(texts(parts@).take(i as int), sep@),
        decreases parts.len() - i,
    {
        let ghost t = texts(parts@);
        assert(t.take(i + 1).drop_last() =~= t.take(i as int));
        assert(t.take(i + 1).last() == parts[i as int]@);
        if i > 0 {
            out.append(sep);
        } else {
            assert(out@ =~= Seq::<char>::empty());
        }
        out.append(parts[i].as_str());
        i = i + 1;
    }
    assert(texts(parts@).take(parts.len() as int) =~= texts(parts@));
    out
}

proof fn lemma_runs_len(s: Seq<char>, ws_only: bool)
    ensures
        2 * runs_of(s, ws_only).len() <= s.len() + 1,
        s.len() > 0 && is_sep(s.last(), ws_only) ==> 2 * runs_of(s, ws_only).len() <= s.len(),
        s.len() > 0 && !is_sep(s.last(), ws_only) ==> runs_of(s, ws_only).len() >= 1,
    decreases s.len(),
{
    if s.len() > 0 {
        lemma_runs_len(s.drop_last(), ws_only);
        if s.len() >= 2 {
            assert(s.drop_last().last() == s[s.len() - 2]);
        }
    }
}

/// A LIKE pattern matching any text that contains `t` literally.
pub open spec fn like_param(t: Seq<char>) -> Seq<char> {
    "%"@ + escape_like_spec(t) + "%"@
}

/// `col LIKE ?p ESCAPE '\'`.
pub open spec fn like_on(col: Seq<char>, p: Seq<char>) -> Seq<char> {
    col + " LIKE ?"@ + p + " ESCAPE '\\'"@
}

/// The condition a required term puts on a row, its pattern at placeholder `p`.
pub open spec fn required_cond(p: Seq<char>) -> Seq<char> {
    "("@ + joined(seq![like_on("name"@, p), like_on("description"@, p), like_on("owner"@, p),
        like_on("tools"@, p), like_on("author"@, p), like_on("category"@, p), like_on("tags"@, p)], " OR "@)
        + ")"@
}

/// The condition an excluded term puts on a row, its pattern at placeholder `p`.
pub open spec fn excluded_cond(p: Seq<char>) -> Seq<char> {
    "NOT ("@ + joined(seq![like_on("name"@, p), like_on("description"@, p), like_on("tools"@, p),
        like_on("tags"@, p)], " OR "@) + ")"@
}

/// Points for a case-insensitive equality with the term at placeholder `e`.
pub open spec fn case_eq(expr: Seq<char>, e: Seq<char>, points: Seq<char>) -> Seq<char> {
    "CASE WHEN LOWER("@ + expr + ") = LOWER(?"@ + e + ") THEN "@ + points + " ELSE 0 END"@
}

/// Points for a column matching the pattern at placeholder `l`.
pub open spec fn case_like(col: Seq<char>, l: Seq<char>, points: Seq<char>) -> Seq<char> {
    "CASE WHEN "@ + like_on(col, l) + " THEN "@ + points + " ELSE 0 END"@
}

/// The relevance a required term adds, with the term itself at placeholder
/// `e` and its pattern at `l`: exact name, owner and full name first, then
/// matches in name, owner, tools, category, tags, author and description.
pub open spec fn score_part(e: Seq<char>, l: Seq<char>) -> Seq<char> {
    "("@ + joined(seq![
        case_eq("name"@, e, "300"@),
        case_eq("owner"@, e, "250"@),
        case_eq("owner || '/' || name"@, e, "500"@),
        case_like("name"@, l, "100"@),
        case_like("owner"@, l, "50"@),
        case_like("tools"@, l, "40"@),
        case_like("category"@, l, "20"@),
        case_like("tags"@, l, "15"@),
        case_like("author"@, l, "12"@),
        case_like("description"@, l, "10"@),
    ], " + "@) + ")"@
}

/// The row conditions of a search with `t` required and `n` excluded terms:
/// condition `i` reads the pattern at placeholder `i + 1`.
pub open spec fn search_conds(t: nat, n: nat) -> Seq<Seq<char>> {
    Seq::new(t + n, |i: int| if i < t { required_cond(dec((i + 1) as nat)) } else { excluded_cond(dec((i + 1) as nat)) })
}

/// The relevance parts of a search: the term `k` at placeholder
/// `t + n + 2k + 1` and its pattern at the next one.
pub open spec fn search_scores(t: nat, n: nat) -> Seq<Seq<char>> {
    Seq::new(t, |k: int| score_part(dec((t + n + 2 * k + 1) as nat), dec((t + n + 2 * k + 2) as nat)))
}

/// The statement of a search with `t` required and `n` excluded terms.
pub open spec fn search_sql(t: nat, n: nat) -> Seq<char> {
    "SELECT id, owner, name, version, description, author, license, repository,\n                    command, args, transport, tools, resources, prompts, tags, env, homepage, deprecated, deprecated_by, category, downloads, stars, created_at, updated_at,\n                    ("@
        + joined(search_scores(t, n), " + "@)
        + " + downloads / 100) AS relevance\n             FROM servers\n             WHERE "@
        + joined(search_conds(t, n), " AND "@)
        + "\n             ORDER BY relevance DESC, downloads DESC\n             LIMIT 50"@
}

/// The parameters of a search: the pattern of each required then each
/// excluded term, then each required term followed by its pattern.
pub open spec fn search_params(pos: Seq<Seq<char>>, neg: Seq<Seq<char>>) -> Seq<Seq<char>> {
    (pos + neg).map_values(|t: Seq<char>| like_param(t)) + pos.flat_map(|t: Seq<char>| seq![t, like_param(t)])
}

fn like_on_exec(col: &str, p: &str) -> (r: String)
    ensures
        r@ == like_on(col@, p@),
{
    let mut r = cat3(col, " LIKE ?", p);
    r.append(" ESCAPE '\\'");
    r
}

fn required_cond_exec(p: &str) -> (r: String)
    ensures
        r@ == required_cond(p@),
{
    let mut parts: Vec<String> = Vec::new();
    parts.push(like_on_exec("name", p));
    parts.push(like_on_exec("description", p));
    parts.push(like_on_exec("owner", p));
    parts.push(like_on_exec("tools", p));
    parts.push(like_on_exec("author", p));
    parts.push(like_on_exec("category", p));
    parts.push(like_on_exec("tags", p));
    assert(texts(parts@) =~= seq![like_on("name"@, p@), like_on("description"@, p@), like_on("owner"@, p@),
        like_on("tools"@, p@), like_on("author"@, p@), like_on("category"@, p@), like_on("tags"@, p@)]);
    let j = join_strings(&parts, " OR ");
    cat3("(", j.as_str(), ")")
}

fn excluded_cond_exec(p: &str) -> (r: String)
    ensures
        r@ == excluded_cond(p@),
{
    let mut parts: Vec<String> = Vec::new();
    parts.push(like_on_exec("name", p));
    parts.push(like_on_exec("description", p));
    parts.push(like_on_exec("tools", p));
    parts.push(like_on_exec("tags", p));
    assert(texts(parts@) =~= seq![like_on("name"@, p@), like_on("description"@, p@), like_on("tools"@, p@),
        like_on("tags"@, p@)]);
    let j = join_strings(&parts, " OR ");
    cat3("NOT (", j.as_str(), ")")
}

fn case_eq_exec(expr: &str, e: &str, points: &str) -> (r: String)
    ensures
        r@ == case_eq(expr@, e@, points@),
{
    let mut r = cat3("CASE WHEN LOWER(", expr, ") = LOWER(?");
    r.append(e);
    r.append(") THEN ");
    r.append(points);
    r.append(" ELSE 0 END");
    r
}

fn case_like_exec(col: &str, l: &str, points: &str) -> (r: String)
    ensures
        r@ == case_like(col@, l@, points@),
{
    let c = like_on_exec(col, l);
    let mut r = cat3("CASE WHEN ", c.as_str(), " THEN ");
    r.append(points);
    r.append(" ELSE 0 END");
    r
}

fn score_part_exec(e: &str, l: &str) -> (r: String)
    ensures
        r@ == score_part(e@, l@),
{
    let mut parts: Vec<String> = Vec::new();
    parts.push(case_eq_exec("name", e, "300"));
    parts.push(case_eq_exec("owner", e, "250"));
    parts.push(case_eq_exec("owner || '/' || name", e, "500"));
    parts.push(case_like_exec("name", l, "100"));
    parts.push(case_like_exec("owner", l, "50"));
    parts.push(case_like_exec("tools", l, "40"));
    parts.push(case_like_exec("category", l, "20"));
    parts.push(case_like_exec("tags", l, "15"));
    parts.push(case_like_exec("author", l, "12"));
    parts.push(case_like_exec("description", l, "10"));
    assert(texts(parts@) =~= seq![
        case_eq("name"@, e@, "300"@),
        case_eq("owner"@, e@, "250"@),
        case_eq("owner || '/' || name"@, e@, "500"@),
        case_like("name"@, l@, "100"@),
        case_like("owner"@, l@, "50"@),
        case_like("tools"@, l@, "40"@),
        case_like("category"@, l@, "20"@),
        case_like("tags"@, l@, "15"@),
        case_like("author"@, l@, "12"@),
        case_like("description"@, l@, "10"@),
    ]);
    let j = join_strings(&parts, " + ");
    cat3("(", j.as_str(), ")")
}

/// Splits the words of a query into required and excluded terms.
pub fn split_terms(words: &Vec<String>) -> (r: (Vec<String>, Vec<String>))
    ensures
        texts(r.0@) == texts(words@).filter_map(|w: Seq<char>| positive_term(w)),
        texts(r.1@) == texts(words@).filter_map(|w: Seq<char>| negated_term(w)),
        r.0.len() + r.1.len() <= words.len(),
{
    let mut pos: Vec<String> = Vec::new();
    let mut neg: Vec<String> = Vec::new();
    let ghost ws = texts(words@);
    let mut i: usize = 0;
    assert(ws.take(0) =~= Seq::<Seq<char>>::empty());
    while i < words.len()
        invariant
            i <= words.len(),
            ws == texts(words@),
            texts(pos@) == ws.take(i as int).filter_map(|w: Seq<char>| positive_term(w)),
            texts(neg@) == ws.take(i as int).filter_map(|w: Seq<char>| negated_term(w)),
            pos.len() + neg.len() <= i,
        decreases words.len() - i,
    {
        let ghost op = texts(pos@);
        let ghost on = texts(neg@);
        assert(ws.take(i + 1).drop_last() =~= ws.take(i as int));
        assert(ws.take(i + 1).last() == ws[i as int]);
        let mut c = chars_of(words[i].as_str());
        if c.len() > 0 && c[0] == '-' {
            if c.len() > 1 {
                c.remove(0);
                assert(c@ =~= ws[i as int].skip(1));
                neg.push(string_of(c.as_slice()));
                assert(texts(neg@) =~= on + seq![ws[i as int].skip(1)]);
            }
            assert(texts(pos@) =~= op);
        } else {
            pos.push(words[i].clone());
            assert(texts(pos@) =~= op + seq![ws[i as int]]);
        }
        i = i + 1;
    }
    assert(ws.take(words.len() as int) =~= ws);
    (pos, neg)
}

/// How a text search is answered.
pub enum SearchPlan {
    /// The most downloaded servers, up to `limit`.
    Top { limit: usize },
    /// The most downloaded servers, up to `limit`, without those that match
    /// an excluded term.
    TopExcluding { limit: usize, negated: Vec<String> },
    /// A ranked query with its parameters.
    Query { sql: String, params: Vec<String> },
}

/// What a search for `q` runs: with no words, the top 50; with only
/// excluded terms, the top 200 less those matching one; otherwise a query
/// that requires every required term in some column, rejects rows matching
/// an excluded term, and ranks by relevance, then downloads.
pub open spec fn plan_matches(r: SearchPlan, q: Seq<char>) -> bool {
    let pos = positive_terms(q);
    let neg = negated_terms(q);
    if words_of(q).len() == 0 {
        r == (SearchPlan::Top { limit: 50 })
    } else if pos.len() == 0 && neg.len() > 0 {
        r matches SearchPlan::TopExcluding { limit, negated } && limit == 200 && texts(negated@) == neg
    } else {
        r matches SearchPlan::Query { sql, params } && sql@ == search_sql(pos.len(), neg.len())
            && texts(params@) == search_params(pos, neg)
    }
}

fn like_param_exec(t: &str) -> (r: String)
    ensures
        r@ == like_param(t@),
{
    let e = escape_like(t);
    cat3("%", e.as_str(), "%")
}

/// Plans the search for a query.
pub fn plan_search(query: &str) -> (r: SearchPlan)
    ensures
        plan_matches(r, query@),
{
    let all = chars_of(query);
    let words = split_whitespace(query);
    proof {
        lemma_runs_len(query@, true);
        assert(texts(words@) =~= words_of(query@));
    }
    if words.len() == 0 {
        return SearchPlan::Top { limit: 50 };
    }
    let (pos, neg) = split_terms(&words);
    if pos.len() == 0 && neg.len() > 0 {
        return SearchPlan::TopExcluding { limit: 200, negated: neg };
    }
    let t = pos.len();
    let n = neg.len();
    let total = t + n;
    assert(all@ == query@);
    assert(3 * (t + n) <= 0xffff_ffff_ffff_fff0u64);
    let mut conds: Vec<String> = Vec::new();
    let mut params: Vec<String> = Vec::new();
    let mut i: usize = 0;
    while i < total
        invariant
            t == pos.len(),
            total == t + n,
            n == neg.len(),
            3 * (t + n) <= 0xffff_ffff_ffff_fff0u64,
            i <= t + n,
            conds.len() == i,
            forall|k: int| 0 <= k < i ==> #[trigger] conds[k]@ == search_conds(t as nat, n as nat)[k],
            texts(params@) == (texts(pos@) + texts(neg@)).take(i as int).map_values(|x: Seq<char>| like_param(x)),
        decreases t + n - i,
    {
        let ghost all_terms = texts(pos@) + texts(neg@);
        let ghost before = texts(params@);
        let p = u64_to_string((i + 1) as u64);
        if i < t {
            conds.push(required_cond_exec(p.as_str()));
            params.push(like_param_exec(pos[i].as_str()));
            assert(all_terms[i as int] == pos[i as int]@);
        } else {
            conds.push(excluded_cond_exec(p.as_str()));
            params.push(like_param_exec(neg[i - t].as_str()));
            assert(all_terms[i as int] == neg[i - t]@);
        }
        assert(all_terms.take(i + 1) =~= all_terms.take(i as int).push(all_terms[i as int]));
        assert(texts(params@) =~= before.push(like_param(all_terms[i as int])));
        assert(texts(params@) =~= all_terms.take(i + 1).map_values(|x: Seq<char>| like_param(x)));
        i = i + 1;
    }
    let mut scores: Vec<String> = Vec::new();
    let mut k: usize = 0;
    assert(texts(pos@).take(0).flat_map(|x: Seq<char>| seq![x, like_param(x)]) =~= Seq::<Seq<char>>::empty());
    let ghost base = texts(params@);
    while k < t
        invariant
            t == pos.len(),
            n == neg.len(),
            3 * (t + n) <= 0xffff_ffff_ffff_fff0u64,
            k <= t,
            scores.len() == k,
            forall|j: int| 0 <= j < k ==> #[trigger] scores[j]@ == search_scores(t as nat, n as nat)[j],
            texts(params@) == base + texts(pos@).take(k as int).flat_map(|x: Seq<char>| seq![x, like_param(x)]),
        decreases t - k,
    {
        let e = u64_to_string(t as u64 + n as u64 + 2 * (k as u64) + 1);
        let l = u64_to_string(t as u64 + n as u64 + 2 * (k as u64) + 2);
        scores.push(score_part_exec(e.as_str(), l.as_str()));
        let ghost before = texts(params@);
        params.push(pos[k].clone());
        params.push(like_param_exec(pos[k].as_str()));
        proof {
            texts(pos@).lemma_flat_map_take_append(|x: Seq<char>| seq![x, like_param(x)], k as int);
            assert(texts(params@) =~= before + seq![pos[k as int]@, like_param(pos[k as int]@)]);
        }
        k = k + 1;
    }
    assert(texts(pos@).take(t as int) =~= texts(pos@));
    assert(texts(conds@) =~= search_conds(t as nat, n as nat));
    assert(texts(scores@) =~= search_scores(t as nat, n as nat));
    let score_expr = join_strings(&scores, " + ");
    let where_clause = join_strings(&conds, " AND ");
    let mut sql = String::from_str("SELECT id, owner, name, version, description, author, license, repository,\n                    command, args, transport, tools, resources, prompts, tags, env, homepage, deprecated, deprecated_by, category, downloads, stars, created_at, updated_at,\n                    (");
    sql.append(score_expr.as_str());
    sql.append(" + downloads / 100) AS relevance\n             FROM servers\n             WHERE ");
    sql.append(where_clause.as_str());
    sql.append("\n             ORDER BY relevance DESC, downloads DESC\n             LIMIT 50");
    assert((texts(pos@) + texts(neg@)).take((t + n) as int) =~= texts(pos@) + texts(neg@));
    SearchPlan::Query { sql, params }
}

/// Does a server match an (already lowercased) excluded term in its name,
/// description, owner, tools or tags?
pub open spec fn excluded_by(s: ServerEntry, neg_lower: Seq<char>) -> bool {
    ci_contains(s.name@, neg_lower) || ci_contains(s.description@, neg_lower) || ci_contains(s.owner@, neg_lower)
        || any_ci_contains(s.tools@, neg_lower) || any_ci_contains(s.tags@, neg_lower)
}

/// A server matches none of the excluded terms.
pub open spec fn clear_of(s: ServerEntry, negated: Seq<String>) -> bool {
    forall|j: int| 0 <= j < negated.len() ==> !excluded_by(s, #[trigger] crate::text::lower(negated[j]@))
}

/// The keep decisions for every server.
pub open spec fn clear_mask(servers: Seq<ServerEntry>, negated: Seq<String>) -> Seq<bool> {
    Seq::new(servers.len(), |i: int| clear_of(servers[i], negated))
}

fn is_clear(s: &ServerEntry, negated: &Vec<String>) -> (r: bool)
    ensures
        r == clear_of(*s, negated@),
{
    let mut j: usize = 0;
    while j < negated.len()
        invariant
            j <= negated.len(),
            forall|k: int| 0 <= k < j ==> !excluded_by(*s, #[trigger] crate::text::lower(negated@[k]@)),
        decreases negated.len() - j,
    {
        let n = lower_chars(negated[j].as_str());
        if contains_ci(s.name.as_str(), &n) || contains_ci(s.description.as_str(), &n)
            || contains_ci(s.owner.as_str(), &n) || any_contains_ci(&s.tools, &n) || any_contains_ci(&s.tags, &n) {
            return false;
        }
        j = j + 1;
    }
    true
}

/// Drops the servers that match any excluded term, keeping the order.
pub fn exclude_negated(servers: Vec<ServerEntry>, negated: &Vec<String>) -> (r: Vec<ServerEntry>)
    ensures
        r@ == masked(servers@, clear_mask(servers@, negated@)),
{
    let mut keep: Vec<bool> = Vec::new();
    let mut i: usize = 0;
    while i < servers.len()
        invariant
            i <= servers.len(),
            keep@ =~= clear_mask(servers@, negated@).take(i as int),
        decreases servers.len() - i,
    {
        let k = is_clear(&servers[i], negated);
        keep.push(k);
        i = i + 1;
    }
    assert(keep@ =~= clear_mask(servers@, negated@));
    retain_masked(servers, &keep)
}

/// Which optional columns an existing `servers` table already has.
pub struct SchemaColumns {
    pub category: bool,
    pub prompts: bool,
    pub tags: bool,
    pub env: bool,
    pub homepage: bool,
    pub deprecated: bool,
    pub stars: bool,
}

/// The statements that bring an older database up to date: each missing
/// column is added with its default (and the category gets its index), and
/// the version history table is created if absent.
pub open spec fn migration_spec(c: SchemaColumns) -> Seq<Seq<char>> {
    msg_if(!c.category, "ALTER TABLE servers ADD COLUMN category TEXT NOT NULL DEFAULT ''"@)
        + msg_if(!c.category, "CREATE INDEX IF NOT EXISTS idx_servers_category ON servers(category)"@)
        + msg_if(!c.prompts, "ALTER TABLE servers ADD COLUMN prompts TEXT NOT NULL DEFAULT '[]'"@)
        + msg_if(!c.tags, "ALTER TABLE servers ADD COLUMN tags TEXT NOT NULL DEFAULT '[]'"@)
        + msg_if(!c.env, "ALTER TABLE servers ADD COLUMN env TEXT NOT NULL DEFAULT '{}'"@)
        + msg_if(!c.homepage, "ALTER TABLE servers ADD COLUMN homepage TEXT NOT NULL DEFAULT ''"@)
        + msg_if(!c.deprecated, "ALTER TABLE servers ADD COLUMN deprecated INTEGER NOT NULL DEFAULT 0"@)
        + msg_if(!c.deprecated, "ALTER TABLE servers ADD COLUMN deprecated_by TEXT NOT NULL DEFAULT ''"@)
        + msg_if(!c.stars, "ALTER TABLE servers ADD COLUMN stars INTEGER NOT NULL DEFAULT 0"@)
        + seq!["CREATE TABLE IF NOT EXISTS server_versions (\n                id INTEGER PRIMARY KEY AUTOINCREMENT,\n                owner TEXT NOT NULL,\n                name TEXT NOT NULL,\n                version TEXT NOT NULL,\n                published_at TEXT NOT NULL DEFAULT (datetime('now')),\n                UNIQUE(owner, name, version)\n            );\n            CREATE INDEX IF NOT EXISTS idx_versions_server ON server_versions(owner, name);"@]
}

/// The schema upgrade to run, in order, given the columns present.
pub fn migration_statements(c: &SchemaColumns) -> (r: Vec<String>)
    ensures
        texts(r@) == migration_spec(*c),
{
    let mut r: Vec<String> = Vec::new();
    assert(texts(r@) =~= Seq::<Seq<char>>::empty());
    push_when(&mut r, !c.category, "ALTER TABLE servers ADD COLUMN category TEXT NOT NULL DEFAULT ''");
    push_when(&mut r, !c.category, "CREATE INDEX IF NOT EXISTS idx_servers_category ON servers(category)");
    push_when(&mut r, !c.prompts, "ALTER TABLE servers ADD COLUMN prompts TEXT NOT NULL DEFAULT '[]'");
    push_when(&mut r, !c.tags, "ALTER TABLE servers ADD COLUMN tags TEXT NOT NULL DEFAULT '[]'");
    push_when(&mut r, !c.env, "ALTER TABLE servers ADD COLUMN env TEXT NOT NULL DEFAULT '{}'");
    push_when(&mut r, !c.homepage, "ALTER TABLE servers ADD COLUMN homepage TEXT NOT NULL DEFAULT ''");
    push_when(&mut r, !c.deprecated, "ALTER TABLE servers ADD COLUMN deprecated INTEGER NOT NULL DEFAULT 0");
    push_when(&mut r, !c.deprecated, "ALTER TABLE servers ADD COLUMN deprecated_by TEXT NOT NULL DEFAULT ''");
    push_when(&mut r, !c.stars, "ALTER TABLE servers ADD COLUMN stars INTEGER NOT NULL DEFAULT 0");
    push_when(&mut r, true, "CREATE TABLE IF NOT EXISTS server_versions (\n                id INTEGER PRIMARY KEY AUTOINCREMENT,\n                owner TEXT NOT NULL,\n                name TEXT NOT NULL,\n                version TEXT NOT NULL,\n                published_at TEXT NOT NULL DEFAULT (datetime('now')),\n                UNIQUE(owner, name, version)\n            );\n            CREATE INDEX IF NOT EXISTS idx_versions_server ON server_versions(owner, name);");
    assert(texts(r@) =~= migration_spec(*c));
    r
}

/// `s` without leading whitespace.
pub open spec fn trim_start_ws(s: Seq<char>) -> Seq<char>
    decreases s.len(),
{
    if s.len() > 0 && is_ws(s[0]) { trim_start_ws(s.skip(1)) } else { s }
}

/// `s` without trailing whitespace.
pub open spec fn trim_end_ws(s: Seq<char>) -> Seq<char>
    decreases s.len(),
{
    if s.len() > 0 && is_ws(s.last()) { trim_end_ws(s.drop_last()) } else { s }
}

/// `str::trim`: `s` without leading and trailing whitespace.
pub open spec fn trim_ws(s: Seq<char>) -> Seq<char> {
    trim_end_ws(trim_start_ws(s))
}

fn trim_chars(v: &Vec<char>) -> (r: Vec<char>)
    ensures
        r@ == trim_ws(v@),
{
    let mut i: usize = 0;
    assert(v@.skip(0) =~= v@);
    while i < v.len() && is_whitespace(v[i])
        invariant
            i <= v.len(),
            trim_start_ws(v@) == trim_start_ws(v@.skip(i as int)),
        decreases v.len() - i,
    {
        assert(v@.skip(i as int).skip(1) =~= v@.skip(i + 1));
        i = i + 1;
    }
    let mut t: Vec<char> = Vec::new();
    let mut k: usize = i;
    while k < v.len()
        invariant
            i <= k <= v.len(),
            t@ == v@.subrange(i as int, k as int),
        decreases v.len() - k,
    {
        t.push(v[k]);
        assert(v@.subrange(i as int, k + 1) =~= v@.subrange(i as int, k as int).push(v@[k as int]));
        k = k + 1;
    }
    assert(t@ =~= v@.skip(i as int));
    let ghost ts = t@;
    while t.len() > 0 && is_whitespace(t[t.len() - 1])
        invariant
            trim_end_ws(ts) == trim_end_ws(t@),
        decreases t.len(),
    {
        t.pop();
    }
    t
}

/// The terms of an any-of search: the `|`-separated pieces of the query,
/// trimmed, the empty ones dropped.
pub open spec fn any_terms(q: Seq<char>) -> Seq<Seq<char>> {
    split_on(q, '|').map_values(|p: Seq<char>| trim_ws(p)).filter(|t: Seq<char>| t.len() > 0)
}

/// The condition of one term of an any-of search, its pattern at `p`.
pub open spec fn any_cond(p: Seq<char>) -> Seq<char> {
    "("@ + joined(seq![like_on("name"@, p), like_on("description"@, p), like_on("owner"@, p),
        like_on("tools"@, p), like_on("tags"@, p)], " OR "@) + ")"@
}

/// The statement of an any-of search with `n` terms: rows matching any term
/// in name, description, owner, tools or tags, most downloaded first.
pub open spec fn any_sql(n: nat) -> Seq<char> {
    "SELECT id, owner, name, version, description, author, license, repository,\n                    command, args, transport, tools, resources, prompts, tags, env, homepage, deprecated, deprecated_by, category, downloads, stars, created_at, updated_at\n             FROM servers\n             WHERE "@
        + joined(Seq::new(n, |i: int| any_cond(dec((i + 1) as nat))), " OR "@)
        + "\n             ORDER BY downloads DESC\n             LIMIT 50"@
}

fn any_cond_exec(p: &str) -> (r: String)
    ensures
        r@ == any_cond(p@),
{
    let mut parts: Vec<String> = Vec::new();
    parts.push(like_on_exec("name", p));
    parts.push(like_on_exec("description", p));
    parts.push(like_on_exec("owner", p));
    parts.push(like_on_exec("tools", p));
    parts.push(like_on_exec("tags", p));
    assert(texts(parts@) =~= seq![like_on("name"@, p@), like_on("description"@, p@), like_on("owner"@, p@),
        like_on("tools"@, p@), like_on("tags"@, p@)]);
    let j = join_strings(&parts, " OR ");
    cat3("(", j.as_str(), ")")
}

/// Plans an any-of search (`a|b|c`): `None` when the query has no term,
/// otherwise the statement and the pattern of each term.
pub fn plan_search_any(query: &str) -> (r: Option<(String, Vec<String>)>)
    ensures
        any_terms(query@).len() == 0 ==> r is None,
        any_terms(query@).len() > 0 ==> (r matches Some(x) && x.0@ == any_sql(any_terms(query@).len())
            && texts(x.1@) == any_terms(query@).map_values(|t: Seq<char>| like_param(t))),
{
    let c = chars_of(query);
    let pieces = split_chars(&c, '|');
    let ghost sp = split_on(query@, '|');
    let ghost tr = sp.map_values(|p: Seq<char>| trim_ws(p));
    let mut terms: Vec<String> = Vec::new();
    let mut i: usize = 0;
    assert(tr.take(0) =~= Seq::<Seq<char>>::empty());
    while i < pieces.len()
        invariant
            i <= pieces.len(),
            pieces.len() == sp.len(),
            forall|k: int| 0 <= k < pieces.len() ==> #[trigger] pieces[k]@ == sp[k],
            tr == sp.map_values(|p: Seq<char>| trim_ws(p)),
            texts(terms@) == tr.take(i as int).filter(|t: Seq<char>| t.len() > 0),
            terms.len() <= i,
        decreases pieces.len() - i,
    {
        let t = trim_chars(&pieces[i]);
        assert(tr[i as int] == t@);
        assert(tr.take(i + 1) =~= tr.take(i as int).push(t@));
        proof {
            tr.take(i as int).lemma_filter_push(t@, |t: Seq<char>| t.len() > 0);
        }
        if t.len() > 0 {
            let ghost before = texts(terms@);
            terms.push(string_of(t.as_slice()));
            assert(texts(terms@) =~= before.push(t@));
        }
        i = i + 1;
    }
    assert(tr.take(pieces.len() as int) =~= tr);
    if terms.len() == 0 {
        return None;
    }
    let ghost at = texts(terms@);
    assert(terms.len() <= pieces.len());
    let mut conds: Vec<String> = Vec::new();
    let mut params: Vec<String> = Vec::new();
    let mut k: usize = 0;
    while k < terms.len()
        invariant
            k <= terms.len(),
            at == texts(terms@),
            conds.len() == k,
            forall|j: int| 0 <= j < k ==> #[trigger] conds[j]@ == any_cond(dec((j + 1) as nat)),
            texts(params@) == at.take(k as int).map_values(|t: Seq<char>| like_param(t)),
        decreases terms.len() - k,
    {
        let p = u64_to_string((k + 1) as u64);
        conds.push(any_cond_exec(p.as_str()));
        let ghost before = texts(params@);
        params.push(like_param_exec(terms[k].as_str()));
        assert(at.take(k + 1) =~= at.take(k as int).push(at[k as int]));
        assert(texts(params@) =~= before.push(like_param(at[k as int])));
        k = k + 1;
    }
    assert(at.take(terms.len() as int) =~= at);
    assert(texts(conds@) =~= Seq::new(terms.len() as nat, |i: int| any_cond(dec((i + 1) as nat))));
    let w = join_strings(&conds, " OR ");
    let mut sql = String::from_str("SELECT id, owner, name, version, description, author, license, repository,\n                    command, args, transport, tools, resources, prompts, tags, env, homepage, deprecated, deprecated_by, category, downloads, stars, created_at, updated_at\n             FROM servers\n             WHERE ");
    sql.append(w.as_str());
    sql.append("\n             ORDER BY downloads DESC\n             LIMIT 50");
    Some((sql, params))
}

/// The pattern of a name autocompletion: none for an empty prefix,
/// otherwise the escaped prefix followed by any text.
pub fn suggest_pattern(prefix: &str) -> (r: Option<String>)
    ensures
        prefix@.len() == 0 ==> r is None,
        prefix@.len() > 0 ==> (r matches Some(p) && p@ == escape_like_spec(prefix@) + "%"@),
{
    if prefix.is_empty() {
        None
    } else {
        let e = escape_like(prefix);
        Some(cat(e.as_str(), "%"))
    }
}

/// The pattern of a substring filter (`%` escaped `%`), as category, tag and
/// random-server lookups use.
pub fn contains_pattern(text: &str) -> (r: String)
    ensures
        r@ == like_param(text@),
{
    like_param_exec(text)
}

/// Each part of a joined text occurs in it.
proof fn lemma_joined_contains(parts: Seq<Seq<char>>, sep: Seq<char>, i: int)
    requires
        0 <= i < parts.len(),
    ensures
        contains_seq(joined(parts, sep), parts[i]),
    decreases parts.len(),
{
    if parts.len() == 1 {
        lemma_contains_self(parts[0]);
    } else if i == parts.len() - 1 {
        lemma_contains_parts(joined(parts.drop_last(), sep) + sep, parts.last(), Seq::empty());
        assert(joined(parts.drop_last(), sep) + sep + parts.last() + Seq::<char>::empty()
            =~= joined(parts, sep));
    } else {
        lemma_joined_contains(parts.drop_last(), sep, i);
        let front = joined(parts.drop_last(), sep);
        lemma_contains_parts(Seq::empty(), front, sep + parts.last());
        assert(Seq::<char>::empty() + front + (sep + parts.last()) =~= joined(parts, sep));
        lemma_contains_trans(joined(parts, sep), front, parts[i]);
    }
}

/// What occurs in one row condition of a search occurs in its statement.
proof fn lemma_cond_in_sql(t: nat, n: nat, i: int, x: Seq<char>)
    requires
        0 <= i < t + n,
        contains_seq(search_conds(t, n)[i], x),
    ensures
        contains_seq(search_sql(t, n), x),
{
    let conds = search_conds(t, n);
    lemma_joined_contains(conds, " AND "@, i);
    lemma_contains_trans(joined(conds, " AND "@), conds[i], x);
    let front = "SELECT id, owner, name, version, description, author, license, repository,\n                    command, args, transport, tools, resources, prompts, tags, env, homepage, deprecated, deprecated_by, category, downloads, stars, created_at, updated_at,\n                    ("@
        + joined(search_scores(t, n), " + "@)
        + " + downloads / 100) AS relevance\n             FROM servers\n             WHERE "@;
    let back = "\n             ORDER BY relevance DESC, downloads DESC\n             LIMIT 50"@;
    lemma_contains_parts(front, joined(conds, " AND "@), back);
    assert(front + joined(conds, " AND "@) + back =~= search_sql(t, n));
    lemma_contains_trans(search_sql(t, n), joined(conds, " AND "@), x);
}

proof fn lemma_required_term_columns(t: nat, n: nat, k: int, col: Seq<char>, c: int)
    requires
        0 <= k < t,
        0 <= c < 7,
        col == seq!["name"@, "description"@, "owner"@, "tools"@, "author"@, "category"@, "tags"@][c],
    ensures
        contains_seq(search_sql(t, n), col + " LIKE ?"@ + dec((k + 1) as nat) + " ESCAPE '\\'"@),
{
    let p = dec((k + 1) as nat);
    let cols = seq![like_on("name"@, p), like_on("description"@, p), like_on("owner"@, p),
        like_on("tools"@, p), like_on("author"@, p), like_on("category"@, p), like_on("tags"@, p)];
    assert(cols[c] == like_on(col, p));
    lemma_joined_contains(cols, " OR "@, c);
    let cond = required_cond(p);
    lemma_contains_parts("("@, joined(cols, " OR "@), ")"@);
    lemma_contains_trans(cond, joined(cols, " OR "@), like_on(col, p));
    assert(search_conds(t, n)[k] == cond);
    lemma_cond_in_sql(t, n, k, like_on(col, p));
}

/// A search with required terms looks for each term in every searchable
/// column: the LIKE pattern of the term at position `k` (the term, escaped,
/// between `%` signs) is parameter `k + 1`, and the statement tests that
/// parameter against the name, description, owner, tools, author, category
/// and tags of each row.
pub proof fn law_search_looks_in_every_column(q: Seq<char>, r: SearchPlan, k: int)
    requires
        plan_matches(r, q),
        0 <= k < positive_terms(q).len(),
    ensures
        r matches SearchPlan::Query { sql, params } && {
            let p = dec((k + 1) as nat);
            &&& params@[k]@ == "%"@ + escape_like_spec(positive_terms(q)[k]) + "%"@
            &&& contains_seq(sql@, "name"@ + " LIKE ?"@ + p + " ESCAPE '\\'"@)
            &&& contains_seq(sql@, "description"@ + " LIKE ?"@ + p + " ESCAPE '\\'"@)
            &&& contains_seq(sql@, "owner"@ + " LIKE ?"@ + p + " ESCAPE '\\'"@)
            &&& contains_seq(sql@, "tools"@ + " LIKE ?"@ + p + " ESCAPE '\\'"@)
            &&& contains_seq(sql@, "author"@ + " LIKE ?"@ + p + " ESCAPE '\\'"@)
            &&& contains_seq(sql@, "category"@ + " LIKE ?"@ + p + " ESCAPE '\\'"@)
            &&& contains_seq(sql@, "tags"@ + " LIKE ?"@ + p + " ESCAPE '\\'"@)
        },
{
    let pos = positive_terms(q);
    let neg = negated_terms(q);
    if words_of(q).len() == 0 {
        assert(words_of(q) =~= Seq::<Seq<char>>::empty());
        assert(pos =~= Seq::<Seq<char>>::empty());
    }
    let cols = seq!["name"@, "description"@, "owner"@, "tools"@, "author"@, "category"@, "tags"@];
    lemma_required_term_columns(pos.len(), neg.len(), k, cols[0], 0);
    lemma_required_term_columns(pos.len(), neg.len(), k, cols[1], 1);
    lemma_required_term_columns(pos.len(), neg.len(), k, cols[2], 2);
    lemma_required_term_columns(pos.len(), neg.len(), k, cols[3], 3);
    lemma_required_term_columns(pos.len(), neg.len(), k, cols[4], 4);
    lemma_required_term_columns(pos.len(), neg.len(), k, cols[5], 5);
    lemma_required_term_columns(pos.len(), neg.len(), k, cols[6], 6);
    let sp = search_params(pos, neg);
    assert((pos + neg)[k] == pos[k]);
    assert(sp[k] == like_param(pos[k]));
    let a = (pos + neg).map_values(|t: Seq<char>| like_param(t));
    assert(sp.len() >= a.len());
    if let SearchPlan::Query { sql, params } = r {
        assert(texts(params@) == sp);
        assert(params@.len() == texts(params@).len());
        assert(k < params@.len());
        assert(texts(params@)[k] == params@[k]@);
    }
}

/// The parameters after the patterns: each required term followed by its
/// pattern.
proof fn lemma_term_pairs(s: Seq<Seq<char>>)
    ensures
        s.flat_map(|t: Seq<char>| seq![t, like_param(t)]).len() == 2 * s.len(),
        forall|k: int| 0 <= k < s.len() ==> s.flat_map(|t: Seq<char>| seq![t, like_param(t)])[2 * k] == #[trigger] s[k]
            && s.flat_map(|t: Seq<char>| seq![t, like_param(t)])[2 * k + 1] == like_param(s[k]),
    decreases s.len(),
{
    let f = |t: Seq<char>| seq![t, like_param(t)];
    if s.len() == 0 {
        assert(s.map_values(f) =~= Seq::<Seq<Seq<char>>>::empty());
        assert(s.flat_map(f) =~= Seq::<Seq<char>>::empty());
    } else {
        let init = s.drop_last();
        lemma_term_pairs(init);
        init.lemma_flat_map_push(f, s.last());
        assert(init.push(s.last()) =~= s);
        assert(s.flat_map(f) =~= init.flat_map(f) + f(s.last()));
        assert forall|k: int| 0 <= k < s.len() implies s.flat_map(f)[2 * k] == #[trigger] s[k]
            && s.flat_map(f)[2 * k + 1] == like_param(s[k]) by {
            if k < init.len() {
                assert(init[k] == s[k]);
            }
        }
    }
}

/// What occurs in the relevance part of required term `k` occurs in the
/// statement.
proof fn lemma_score_in_sql(t: nat, n: nat, k: int, x: Seq<char>)
    requires
        0 <= k < t,
        contains_seq(score_part(dec((t + n + 2 * k + 1) as nat), dec((t + n + 2 * k + 2) as nat)), x),
    ensures
        contains_seq(search_sql(t, n), x),
{
    let sc = search_scores(t, n);
    lemma_joined_contains(sc, " + "@, k);
    lemma_contains_trans(joined(sc, " + "@), sc[k], x);
    let front = "SELECT id, owner, name, version, description, author, license, repository,\n                    command, args, transport, tools, resources, prompts, tags, env, homepage, deprecated, deprecated_by, category, downloads, stars, created_at, updated_at,\n                    ("@;
    let back = " + downloads / 100) AS relevance\n             FROM servers\n             WHERE "@
        + joined(search_conds(t, n), " AND "@)
        + "\n             ORDER BY relevance DESC, downloads DESC\n             LIMIT 50"@;
    lemma_contains_parts(front, joined(sc, " + "@), back);
    assert(front + joined(sc, " + "@) + back =~= search_sql(t, n));
    lemma_contains_trans(search_sql(t, n), joined(sc, " + "@), x);
}

/// The relevance items of a term, written out.
pub open spec fn eq_points(col: Seq<char>, e: Seq<char>, pts: Seq<char>) -> Seq<char> {
    "CASE WHEN LOWER("@ + col + ") = LOWER(?"@ + e + ") THEN "@ + pts + " ELSE 0 END"@
}

/// A relevance item for a column matching a pattern, written out.
pub open spec fn like_points(col: Seq<char>, l: Seq<char>, pts: Seq<char>) -> Seq<char> {
    "CASE WHEN "@ + col + " LIKE ?"@ + l + " ESCAPE '\\'"@ + " THEN "@ + pts + " ELSE 0 END"@
}

#[verifier::spinoff_prover]
proof fn lemma_score_part_items(e: Seq<char>, l: Seq<char>)
    ensures
        contains_seq(score_part(e, l), eq_points("owner || '/' || name"@, e, "500"@)),
        contains_seq(score_part(e, l), eq_points("name"@, e, "300"@)),
        contains_seq(score_part(e, l), eq_points("owner"@, e, "250"@)),
        contains_seq(score_part(e, l), like_points("name"@, l, "100"@)),
        contains_seq(score_part(e, l), like_points("owner"@, l, "50"@)),
        contains_seq(score_part(e, l), like_points("tools"@, l, "40"@)),
        contains_seq(score_part(e, l), like_points("category"@, l, "20"@)),
        contains_seq(score_part(e, l), like_points("tags"@, l, "15"@)),
        contains_seq(score_part(e, l), like_points("author"@, l, "12"@)),
        contains_seq(score_part(e, l), like_points("description"@, l, "10"@)),
{
    let items = seq![
        case_eq("name"@, e, "300"@),
        case_eq("owner"@, e, "250"@),
        case_eq("owner || '/' || name"@, e, "500"@),
        case_like("name"@, l, "100"@),
        case_like("owner"@, l, "50"@),
        case_like("tools"@, l, "40"@),
        case_like("category"@, l, "20"@),
        case_like("tags"@, l, "15"@),
        case_like("author"@, l, "12"@),
        case_like("description"@, l, "10"@),
    ];
    let j = joined(items, " + "@);
    lemma_contains_parts("("@, j, ")"@);
    assert forall|c: int| 0 <= c < 10 implies contains_seq(score_part(e, l), #[trigger] items[c]) by {
        lemma_joined_contains(items, " + "@, c);
        lemma_contains_trans(score_part(e, l), j, items[c]);
    }
    assert forall|col: Seq<char>, pts: Seq<char>| #[trigger] case_like(col, l, pts) =~= like_points(col, l, pts) by {}
    assert(items[0] == eq_points("name"@, e, "300"@));
    assert(items[1] == eq_points("owner"@, e, "250"@));
    assert(items[2] == eq_points("owner || '/' || name"@, e, "500"@));
    assert(items[3] == like_points("name"@, l, "100"@));
    assert(items[4] == like_points("owner"@, l, "50"@));
    assert(items[5] == like_points("tools"@, l, "40"@));
    assert(items[6] == like_points("category"@, l, "20"@));
    assert(items[7] == like_points("tags"@, l, "15"@));
    assert(items[8] == like_points("author"@, l, "12"@));
    assert(items[9] == like_points("description"@, l, "10"@));
}

#[verifier::spinoff_prover]
proof fn lemma_relevance_sql(t: nat, n: nat, k: int)
    requires
        0 <= k < t,
    ensures
        ({
            let e = dec((t + n + 2 * k + 1) as nat);
            let l = dec((t + n + 2 * k + 2) as nat);
            let sql = search_sql(t, n);
            &&& contains_seq(sql, eq_points("owner || '/' || name"@, e, "500"@))
            &&& contains_seq(sql, eq_points("name"@, e, "300"@))
            &&& contains_seq(sql, eq_points("owner"@, e, "250"@))
            &&& contains_seq(sql, like_points("name"@, l, "100"@))
            &&& contains_seq(sql, like_points("owner"@, l, "50"@))
            &&& contains_seq(sql, like_points("tools"@, l, "40"@))
            &&& contains_seq(sql, like_points("category"@, l, "20"@))
            &&& contains_seq(sql, like_points("tags"@, l, "15"@))
            &&& contains_seq(sql, like_points("author"@, l, "12"@))
            &&& contains_seq(sql, like_points("description"@, l, "10"@))
        }),
{
    let e = dec((t + n + 2 * k + 1) as nat);
    let l = dec((t + n + 2 * k + 2) as nat);
    lemma_score_part_items(e, l);
    lemma_score_in_sql(t, n, k, eq_points("owner || '/' || name"@, e, "500"@));
    lemma_score_in_sql(t, n, k, eq_points("name"@, e, "300"@));
    lemma_score_in_sql(t, n, k, eq_points("owner"@, e, "250"@));
    lemma_score_in_sql(t, n, k, like_points("name"@, l, "100"@));
    lemma_score_in_sql(t, n, k, like_points("owner"@, l, "50"@));
    lemma_score_in_sql(t, n, k, like_points("tools"@, l, "40"@));
    lemma_score_in_sql(t, n, k, like_points("category"@, l, "20"@));
    lemma_score_in_sql(t, n, k, like_points("tags"@, l, "15"@));
    lemma_score_in_sql(t, n, k, like_points("author"@, l, "12"@));
    lemma_score_in_sql(t, n, k, like_points("description"@, l, "10"@));
}

/// How a search scores the relevance of a row. Each required term (at
/// position `k`) is parameter `t + n + 2k + 1` and its pattern the
/// next one, `t` and `n` being the numbers of required and excluded terms;
/// the term adds 500 points for a row whose `owner/name` equals it
/// ignoring case, 300 for such a name, 250 for such an owner, and for its
/// pattern 100 in the name, 50 in the owner, 40 in the tools, 20 in the
/// category, 15 in the tags, 12 in the author and 10 in the description.
#[verifier::spinoff_prover]
pub proof fn law_search_relevance(q: Seq<char>, r: SearchPlan, k: int)
    requires
        plan_matches(r, q),
        0 <= k < positive_terms(q).len(),
    ensures
        r matches SearchPlan::Query { sql, params } && {
            let t = positive_terms(q).len();
            let n = negated_terms(q).len();
            let e = dec((t + n + 2 * k + 1) as nat);
            let l = dec((t + n + 2 * k + 2) as nat);
            &&& params@[t + n + 2 * k]@ == positive_terms(q)[k]
            &&& params@[t + n + 2 * k + 1]@ == "%"@ + escape_like_spec(positive_terms(q)[k]) + "%"@
            &&& contains_seq(sql@, eq_points("owner || '/' || name"@, e, "500"@))
            &&& contains_seq(sql@, eq_points("name"@, e, "300"@))
            &&& contains_seq(sql@, eq_points("owner"@, e, "250"@))
            &&& contains_seq(sql@, like_points("name"@, l, "100"@))
            &&& contains_seq(sql@, like_points("owner"@, l, "50"@))
            &&& contains_seq(sql@, like_points("tools"@, l, "40"@))
            &&& contains_seq(sql@, like_points("category"@, l, "20"@))
            &&& contains_seq(sql@, like_points("tags"@, l, "15"@))
            &&& contains_seq(sql@, like_points("author"@, l, "12"@))
            &&& contains_seq(sql@, like_points("description"@, l, "10"@))
        },
{
    let pos = positive_terms(q);
    let neg = negated_terms(q);
    if words_of(q).len() == 0 {
        assert(words_of(q) =~= Seq::<Seq<char>>::empty());
        assert(pos =~= Seq::<Seq<char>>::empty());
    }
    let t = pos.len();
    let n = neg.len();
    lemma_relevance_sql(t, n, k);
    let sp = search_params(pos, neg);
    let a = (pos + neg).map_values(|x: Seq<char>| like_param(x));
    lemma_term_pairs(pos);
    let b = pos.flat_map(|x: Seq<char>| seq![x, like_param(x)]);
    assert(sp == a + b);
    assert(sp[t + n + 2 * k] == b[2 * k]);
    assert(sp[t + n + 2 * k + 1] == b[2 * k + 1]);
    if let SearchPlan::Query { sql, params } = r {
        assert(texts(params@) == sp);
        assert(params@.len() == texts(params@).len());
        assert(texts(params@)[t + n + 2 * k] == params@[t + n + 2 * k]@);
        assert(texts(params@)[t + n + 2 * k + 1] == params@[t + n + 2 * k + 1]@);
    }
}

/// What a search runs for each kind of query: a query without words lists
/// the 50 most downloaded servers; one with excluded terms only takes the
/// 200 most downloaded and drops those mentioning an excluded term; one
/// with a required term runs a ranked query with, per required term, its
/// pattern, its text and its pattern again, and per excluded term its
/// pattern.
pub proof fn law_search_plan_kinds(q: Seq<char>, r: SearchPlan)
    requires
        plan_matches(r, q),
    ensures
        words_of(q).len() == 0 ==> r == (SearchPlan::Top { limit: 50 }),
        positive_terms(q).len() == 0 && negated_terms(q).len() > 0 ==> (r matches SearchPlan::TopExcluding { limit, negated }
            && limit == 200 && texts(negated@) == negated_terms(q)),
        positive_terms(q).len() > 0 ==> (r matches SearchPlan::Query { sql, params }
            && params.len() == 3 * positive_terms(q).len() + negated_terms(q).len()),
{
    let pos = positive_terms(q);
    let neg = negated_terms(q);
    if words_of(q).len() == 0 {
        assert(words_of(q) =~= Seq::<Seq<char>>::empty());
        assert(pos =~= Seq::<Seq<char>>::empty());
        assert(neg =~= Seq::<Seq<char>>::empty());
    }
    if pos.len() > 0 {
        lemma_term_pairs(pos);
        if let SearchPlan::Query { sql, params } = r {
            assert(texts(params@).len() == params@.len());
        }
    }
}

/// A joined text starts with its first part.
proof fn lemma_joined_first(parts: Seq<Seq<char>>, sep: Seq<char>)
    requires
        parts.len() > 0,
    ensures
        exists|rest: Seq<char>| joined(parts, sep) == parts[0] + rest,
    decreases parts.len(),
{
    if parts.len() == 1 {
        assert(joined(parts, sep) == parts[0] + Seq::<char>::empty());
    } else {
        lemma_joined_first(parts.drop_last(), sep);
        let rest = choose|rest: Seq<char>| joined(parts.drop_last(), sep) == parts.drop_last()[0] + rest;
        assert(joined(parts, sep) == parts[0] + (rest + sep + parts.last()));
    }
}

proof fn lemma_excluded_term_columns(t: nat, n: nat, j: int, col: Seq<char>, c: int)
    requires
        0 <= j < n,
        0 <= c < 4,
        col == seq!["name"@, "description"@, "tools"@, "tags"@][c],
    ensures
        contains_seq(search_sql(t, n), col + " LIKE ?"@ + dec((t + j + 1) as nat) + " ESCAPE '\\'"@),
{
    let p = dec((t + j + 1) as nat);
    let cols = seq![like_on("name"@, p), like_on("description"@, p), like_on("tools"@, p), like_on("tags"@, p)];
    assert(cols[c] == like_on(col, p));
    lemma_joined_contains(cols, " OR "@, c);
    let cond = excluded_cond(p);
    lemma_contains_parts("NOT ("@, joined(cols, " OR "@), ")"@);
    lemma_contains_trans(cond, joined(cols, " OR "@), like_on(col, p));
    assert(search_conds(t, n)[t + j] == cond);
    lemma_cond_in_sql(t, n, t + j, like_on(col, p));
}

#[verifier::spinoff_prover]
#[verifier::rlimit(30)]
proof fn lemma_excluded_term_negated(t: nat, n: nat, j: int)
    requires
        0 <= j < n,
    ensures
        contains_seq(search_sql(t, n), "NOT ("@ + "name"@ + " LIKE ?"@ + dec((t + j + 1) as nat) + " ESCAPE '\\'"@),
{
    let p = dec((t + j + 1) as nat);
    let cols = seq![like_on("name"@, p), like_on("description"@, p), like_on("tools"@, p), like_on("tags"@, p)];
    let cond = excluded_cond(p);
    lemma_joined_first(cols, " OR "@);
    let rest = choose|rest: Seq<char>| joined(cols, " OR "@) == cols[0] + rest;
    let head = "NOT ("@ + like_on("name"@, p);
    lemma_contains_parts(Seq::empty(), head, rest + ")"@);
    assert(Seq::<char>::empty() + head + (rest + ")"@) =~= cond);
    assert(search_conds(t, n)[t + j] == cond);
    lemma_cond_in_sql(t, n, t + j, head);
    assert(head =~= "NOT ("@ + "name"@ + " LIKE ?"@ + p + " ESCAPE '\\'"@);
}

/// A search with required terms rules out every excluded term: the LIKE
/// pattern of the excluded term at position `j` is the parameter after
/// those of the required terms, and the statement rejects rows whose name,
/// description, tools or tags match it (the test is negated).
pub proof fn law_search_rules_out_excluded_terms(q: Seq<char>, r: SearchPlan, j: int)
    requires
        plan_matches(r, q),
        positive_terms(q).len() > 0,
        0 <= j < negated_terms(q).len(),
    ensures
        r matches SearchPlan::Query { sql, params } && {
            let t = positive_terms(q).len();
            let p = dec((t + j + 1) as nat);
            &&& params@[t + j]@ == "%"@ + escape_like_spec(negated_terms(q)[j]) + "%"@
            &&& contains_seq(sql@, "NOT ("@ + "name"@ + " LIKE ?"@ + p + " ESCAPE '\\'"@)
            &&& contains_seq(sql@, "description"@ + " LIKE ?"@ + p + " ESCAPE '\\'"@)
            &&& contains_seq(sql@, "tools"@ + " LIKE ?"@ + p + " ESCAPE '\\'"@)
            &&& contains_seq(sql@, "tags"@ + " LIKE ?"@ + p + " ESCAPE '\\'"@)
        },
{
    let pos = positive_terms(q);
    let neg = negated_terms(q);
    if words_of(q).len() == 0 {
        assert(pos =~= Seq::<Seq<char>>::empty());
    }
    let t = pos.len();
    let cols = seq!["name"@, "description"@, "tools"@, "tags"@];
    lemma_excluded_term_columns(t, neg.len(), j, cols[0], 0);
    lemma_excluded_term_columns(t, neg.len(), j, cols[1], 1);
    lemma_excluded_term_columns(t, neg.len(), j, cols[2], 2);
    lemma_excluded_term_columns(t, neg.len(), j, cols[3], 3);
    lemma_excluded_term_negated(t, neg.len(), j);
    let sp = search_params(pos, neg);
    let a = (pos + neg).map_values(|x: Seq<char>| like_param(x));
    assert((pos + neg)[t + j] == neg[j]);
    assert(sp.len() >= a.len());
    assert(sp[t + j] == like_param(neg[j]));
    if let SearchPlan::Query { sql, params } = r {
        assert(texts(params@) == sp);
        assert(params@.len() == texts(params@).len());
        assert(texts(params@)[t + j] == params@[t + j]@);
    }
}

proof fn lemma_any_term_column(n: nat, k: int, col: Seq<char>, c: int)
    requires
        0 <= k < n,
        0 <= c < 5,
        col == seq!["name"@, "description"@, "owner"@, "tools"@, "tags"@][c],
    ensures
        contains_seq(any_sql(n), col + " LIKE ?"@ + dec((k + 1) as nat) + " ESCAPE '\\'"@),
{
    let p = dec((k + 1) as nat);
    let cols = seq![like_on("name"@, p), like_on("description"@, p), like_on("owner"@, p),
        like_on("tools"@, p), like_on("tags"@, p)];
    assert(cols[c] == like_on(col, p));
    lemma_joined_contains(cols, " OR "@, c);
    let cond = any_cond(p);
    lemma_contains_parts("("@, joined(cols, " OR "@), ")"@);
    lemma_contains_trans(cond, joined(cols, " OR "@), like_on(col, p));
    let conds = Seq::new(n, |i: int| any_cond(dec((i + 1) as nat)));
    assert(conds[k] == cond);
    lemma_joined_contains(conds, " OR "@, k);
    lemma_contains_trans(joined(conds, " OR "@), cond, like_on(col, p));
    let front = "SELECT id, owner, name, version, description, author, license, repository,\n                    command, args, transport, tools, resources, prompts, tags, env, homepage, deprecated, deprecated_by, category, downloads, stars, created_at, updated_at\n             FROM servers\n             WHERE "@;
    let back = "\n             ORDER BY downloads DESC\n             LIMIT 50"@;
    lemma_contains_parts(front, joined(conds, " OR "@), back);
    assert(front + joined(conds, " OR "@) + back =~= any_sql(n));
    lemma_contains_trans(any_sql(n), joined(conds, " OR "@), like_on(col, p));
}

/// An any-of search looks for each of its terms (the term at position `k`
/// is parameter `k + 1`) in the name, description, owner, tools and tags of
/// each row.
pub proof fn law_search_any_looks_in_every_column(n: nat, k: int)
    requires
        0 <= k < n,
    ensures
        ({
            let p = dec((k + 1) as nat);
            &&& contains_seq(any_sql(n), "name"@ + " LIKE ?"@ + p + " ESCAPE '\\'"@)
            &&& contains_seq(any_sql(n), "description"@ + " LIKE ?"@ + p + " ESCAPE '\\'"@)
            &&& contains_seq(any_sql(n), "owner"@ + " LIKE ?"@ + p + " ESCAPE '\\'"@)
            &&& contains_seq(any_sql(n), "tools"@ + " LIKE ?"@ + p + " ESCAPE '\\'"@)
            &&& contains_seq(any_sql(n), "tags"@ + " LIKE ?"@ + p + " ESCAPE '\\'"@)
        }),
{
    let cols = seq!["name"@, "description"@, "owner"@, "tools"@, "tags"@];
    lemma_any_term_column(n, k, cols[0], 0);
    lemma_any_term_column(n, k, cols[1], 1);
    lemma_any_term_column(n, k, cols[2], 2);
    lemma_any_term_column(n, k, cols[3], 3);
    lemma_any_term_column(n, k, cols[4], 4);
}

/// Whether a server's name, description, owner, one of its tools or one of
/// its tags contains `t`, ignoring case.
pub open spec fn mentions(s: ServerEntry, t: Seq<char>) -> bool {
    ||| contains_seq(crate::text::lower(s.name@), crate::text::lower(t))
    ||| contains_seq(crate::text::lower(s.description@), crate::text::lower(t))
    ||| contains_seq(crate::text::lower(s.owner@), crate::text::lower(t))
    ||| exists|i: int| 0 <= i < s.tools.len() && contains_seq(crate::text::lower(#[trigger] s.tools@[i]@), crate::text::lower(t))
    ||| exists|i: int| 0 <= i < s.tags.len() && contains_seq(crate::text::lower(#[trigger] s.tags@[i]@), crate::text::lower(t))
}

/// Excluding terms drops exactly the servers that mention one of them: each
/// server kept is a listed server that mentions no excluded term, every
/// listed server that mentions none is kept, and the order is kept.
pub proof fn law_exclusion_drops_mentions(servers: Seq<ServerEntry>, negated: Seq<String>)
    ensures
        ({
            let r = masked(servers, clear_mask(servers, negated));
            &&& forall|k: int| 0 <= k < r.len() ==> servers.contains(#[trigger] r[k])
                && forall|j: int| 0 <= j < negated.len() ==> !mentions(r[k], #[trigger] negated[j]@)
            &&& forall|i: int| 0 <= i < servers.len()
                && (forall|j: int| 0 <= j < negated.len() ==> !mentions(servers[i], #[trigger] negated[j]@))
                ==> r.contains(#[trigger] servers[i])
            &&& r.len() <= servers.len()
        }),
{
    let m = clear_mask(servers, negated);
    let r = masked(servers, m);
    lemma_masked_from(servers, m);
    assert forall|k: int| 0 <= k < r.len() implies servers.contains(#[trigger] r[k])
        && forall|j: int| 0 <= j < negated.len() ==> !mentions(r[k], #[trigger] negated[j]@) by {
        assert(kept_from(servers, m, r[k]));
        let i = choose|i: int| 0 <= i < m.len() && m[i] && servers[i] == r[k];
        assert(clear_of(servers[i], negated));
        assert forall|j: int| 0 <= j < negated.len() implies !mentions(r[k], #[trigger] negated[j]@) by {
            assert(!excluded_by(servers[i], crate::text::lower(negated[j]@)));
        }
    }
    assert forall|i: int| 0 <= i < servers.len()
        && (forall|j: int| 0 <= j < negated.len() ==> !mentions(servers[i], #[trigger] negated[j]@))
        implies r.contains(#[trigger] servers[i]) by {
        assert forall|j: int| 0 <= j < negated.len() implies !excluded_by(servers[i], #[trigger] crate::text::lower(negated[j]@)) by {
            assert(!mentions(servers[i], negated[j]@));
        }
        lemma_masked_contains(servers, m, i);
    }
    lemma_masked_len(servers, m);
}

proof fn lemma_masked_len(s: Seq<ServerEntry>, m: Seq<bool>)
    ensures
        masked(s, m).len() <= m.len(),
    decreases m.len(),
{
    if m.len() > 0 {
        lemma_masked_len(s, m.drop_last());
    }
}

} // verus!
