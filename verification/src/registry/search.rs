//! The filters, orderings and limit that the search route applies to the
//! database's matches, and the fuzzy suggestions it offers when nothing is
//! left.

use vstd::prelude::*;
use vstd::string::StringExecFns;
use crate::fuzzy::{suggest, suggest_spec};
use crate::order::{firsts, kept_from, lemma_masked_from, lemma_sort_by_sorted, lemma_text_order_total, lex_le, masked,
    retain_masked, sort_by, sort_by_text, text_order, zip_keys};
use crate::registry::entry::ServerEntry;
use crate::text::{any_ci_contains, any_contains_ci, chars_eq, chars_of, ci_contains, contains_ci, contains_seq, lower, lower_chars};

verus! {

/// Query parameters of the search route.
pub struct SearchQuery {
    pub q: Option<String>,
    pub category: Option<String>,
    pub sort: Option<String>,
    pub limit: Option<usize>,
    pub min_downloads: Option<i64>,
    pub tool: Option<String>,
    pub transport: Option<String>,
    pub author: Option<String>,
    pub owner: Option<String>,
    pub tag: Option<String>,
    pub min_tools: Option<usize>,
    pub has_prompts: Option<bool>,
    pub resource: Option<String>,
    /// Exclude deprecated servers from results (default: false)
    pub exclude_deprecated: Option<bool>,
    /// Filter by license (e.g. "MIT", "Apache")
    pub license: Option<String>,
    /// Keep only servers with at least this many stars
    pub min_stars: Option<i64>,
}

/// The search route's answer.
pub struct SearchResponse {
    pub servers: Vec<ServerEntry>,
    pub total: usize,
    pub suggestions: Option<Vec<String>>,
}

/// An optional case-insensitive substring filter on one text field.
pub open spec fn opt_ci(field: Seq<char>, p: Option<String>) -> bool {
    match p {
        None => true,
        Some(x) => ci_contains(field, lower(x@)),
    }
}

/// An optional case-insensitive filter over a list of names.
pub open spec fn opt_any_ci(items: Seq<String>, p: Option<String>) -> bool {
    match p {
        None => true,
        Some(x) => any_ci_contains(items, lower(x@)),
    }
}

/// Whether the search route keeps a server, given its category and the
/// query parameters: every filter that is set must pass.
pub open spec fn keep_spec(s: ServerEntry, category: Seq<char>, p: SearchQuery) -> bool {
    &&& opt_ci(category, p.category)
    &&& (p.min_downloads matches Some(m) ==> s.downloads >= m)
    &&& opt_any_ci(s.tools@, p.tool)
    &&& (p.transport matches Some(t) ==> lower(s.transport@) == lower(t@))
    &&& opt_ci(s.author@, p.author)
    &&& opt_ci(s.owner@, p.owner)
    &&& opt_any_ci(s.tags@, p.tag)
    &&& (p.min_tools matches Some(m) ==> s.tools.len() >= m)
    &&& (p.has_prompts == Some(true) ==> s.prompts.len() > 0)
    &&& opt_any_ci(s.resources@, p.resource)
    &&& (p.exclude_deprecated == Some(true) ==> !s.deprecated)
    &&& opt_ci(s.license@, p.license)
    &&& (p.min_stars matches Some(m) ==> s.stars >= m)
}

/// The keep decisions for every server.
pub open spec fn keep_mask(servers: Seq<ServerEntry>, cats: Seq<String>, p: SearchQuery) -> Seq<bool> {
    Seq::new(servers.len(), |i: int| keep_spec(servers[i], cats[i]@, p))
}

fn opt_lower(p: &Option<String>) -> (r: Option<Vec<char>>)
    ensures
        p is None <==> r is None,
        r matches Some(v) ==> p matches Some(x) && v@ == lower(x@),
{
    match p {
        Some(x) => Some(lower_chars(x.as_str())),
        None => None,
    }
}

/// Decides whether the search route keeps one server.
pub fn keep_server(s: &ServerEntry, category: &str, p: &SearchQuery) -> (r: bool)
    ensures
        r == keep_spec(*s, category@, *p),
{
    if let Some(c) = opt_lower(&p.category) {
        if !contains_ci(category, &c) {
            return false;
        }
    }
    if let Some(m) = p.min_downloads {
        if s.downloads < m {
            return false;
        }
    }
    if let Some(t) = opt_lower(&p.tool) {
        if !any_contains_ci(&s.tools, &t) {
            return false;
        }
    }
    if let Some(t) = opt_lower(&p.transport) {
        if !chars_eq(&lower_chars(s.transport.as_str()), &t) {
            return false;
        }
    }
    if let Some(a) = opt_lower(&p.author) {
        if !contains_ci(s.author.as_str(), &a) {
            return false;
        }
    }
    if let Some(o) = opt_lower(&p.owner) {
        if !contains_ci(s.owner.as_str(), &o) {
            return false;
        }
    }
    if let Some(t) = opt_lower(&p.tag) {
        if !any_contains_ci(&s.tags, &t) {
            return false;
        }
    }
    if let Some(m) = p.min_tools {
        if s.tools.len() < m {
            return false;
        }
    }
    if let Some(true) = p.has_prompts {
        if s.prompts.len() == 0 {
            return false;
        }
    }
    if let Some(r) = opt_lower(&p.resource) {
        if !any_contains_ci(&s.resources, &r) {
            return false;
        }
    }
    if let Some(true) = p.exclude_deprecated {
        if s.deprecated {
            return false;
        }
    }
    if let Some(l) = opt_lower(&p.license) {
        if !contains_ci(s.license.as_str(), &l) {
            return false;
        }
    }
    if let Some(m) = p.min_stars {
        if s.stars < m {
            return false;
        }
    }
    true
}

/// Keeps the servers that pass every filter of the query, in order;
/// `categories[i]` is the category of `servers[i]`.
pub fn filter_servers(servers: Vec<ServerEntry>, categories: &Vec<String>, p: &SearchQuery) -> (r: Vec<ServerEntry>)
    requires
        categories.len() == servers.len(),
    ensures
        r@ == masked(servers@, keep_mask(servers@, categories@, *p)),
{
    let mut keep: Vec<bool> = Vec::new();
    let mut i: usize = 0;
    while i < servers.len()
        invariant
            i <= servers.len(),
            categories.len() == servers.len(),
            keep@ =~= keep_mask(servers@, categories@, *p).take(i as int),
        decreases servers.len() - i,
    {
        let k = keep_server(&servers[i], categories[i].as_str(), p);
        keep.push(k);
        i = i + 1;
    }
    assert(keep@ =~= keep_mask(servers@, categories@, *p));
    retain_masked(servers, &keep)
}

/// The sort keys: lowercased names for `"name"`, update times (missing as
/// empty) for `"updated"`.
pub open spec fn name_keys(servers: Seq<ServerEntry>) -> Seq<Seq<char>> {
    Seq::new(servers.len(), |i: int| lower(servers[i].name@))
}

/// Update times, a missing one as the empty string.
pub open spec fn updated_keys(servers: Seq<ServerEntry>) -> Seq<Seq<char>> {
    Seq::new(servers.len(), |i: int| match servers[i].updated_at {
        Some(t) => t@,
        None => Seq::<char>::empty(),
    })
}

/// The order the route's `sort` parameter asks for: by name ascending
/// (case-insensitive), by update time descending, or unchanged.
pub open spec fn sorted_spec(servers: Seq<ServerEntry>, sort: Option<String>) -> Seq<ServerEntry> {
    match sort {
        Some(s) => if s@ == "name"@ {
            firsts(sort_by(zip_keys(servers, name_keys(servers)), text_order(false)))
        } else if s@ == "updated"@ {
            firsts(sort_by(zip_keys(servers, updated_keys(servers)), text_order(true)))
        } else {
            servers
        },
        None => servers,
    }
}

/// Orders servers as the `sort` parameter asks (stable).
pub fn sort_servers(servers: Vec<ServerEntry>, sort: &Option<String>) -> (r: Vec<ServerEntry>)
    ensures
        r@ == sorted_spec(servers@, *sort),
{
    match sort {
        Some(s) => {
            let sc = chars_of(s.as_str());
            if chars_eq(&sc, &chars_of("name")) {
                let mut keys: Vec<Vec<char>> = Vec::new();
                let mut i: usize = 0;
                while i < servers.len()
                    invariant
                        i <= servers.len(),
                        keys@.map_values(|k: Vec<char>| k@) =~= name_keys(servers@).take(i as int),
                    decreases servers.len() - i,
                {
                    let ghost old = keys@;
                    let k = lower_chars(servers[i].name.as_str());
                    let ghost kv = k@;
                    keys.push(k);
                    assert(keys@.map_values(|k: Vec<char>| k@) =~= old.map_values(|k: Vec<char>| k@).push(kv));
                    assert(name_keys(servers@).take(i + 1) =~= name_keys(servers@).take(i as int).push(kv));
                    i = i + 1;
                }
                assert(keys@.map_values(|k: Vec<char>| k@) =~= name_keys(servers@));
                sort_by_text(servers, keys, false)
            } else if chars_eq(&sc, &chars_of("updated")) {
                let mut keys: Vec<Vec<char>> = Vec::new();
                let mut i: usize = 0;
                while i < servers.len()
                    invariant
                        i <= servers.len(),
                        keys@.map_values(|k: Vec<char>| k@) =~= updated_keys(servers@).take(i as int),
                    decreases servers.len() - i,
                {
                    let k = match &servers[i].updated_at {
                        Some(t) => chars_of(t.as_str()),
                        None => Vec::new(),
                    };
                    let ghost old = keys@;
                    let ghost kv = k@;
                    keys.push(k);
                    assert(keys@.map_values(|k: Vec<char>| k@) =~= old.map_values(|k: Vec<char>| k@).push(kv));
                    assert(updated_keys(servers@).take(i + 1) =~= updated_keys(servers@).take(i as int).push(kv));
                    i = i + 1;
                }
                assert(keys@.map_values(|k: Vec<char>| k@) =~= updated_keys(servers@));
                sort_by_text(servers, keys, true)
            } else {
                servers
            }
        },
        None => servers,
    }
}

/// The first `limit` servers when a limit is given.
pub open spec fn limited_spec(servers: Seq<ServerEntry>, limit: Option<usize>) -> Seq<ServerEntry> {
    match limit {
        Some(n) => if n < servers.len() { servers.take(n as int) } else { servers },
        None => servers,
    }
}

/// The servers the search route answers with: the database matches
/// filtered, ordered and limited as the query asks.
pub open spec fn search_results_spec(servers: Seq<ServerEntry>, cats: Seq<String>, p: SearchQuery) -> Seq<ServerEntry> {
    limited_spec(sorted_spec(masked(servers, keep_mask(servers, cats, p)), p.sort), p.limit)
}

/// The names suggested when a non-empty query leaves no server: the fuzzy
/// suggestions (edit distance up to 4, `fbs[i]` the fallback score of
/// `names[i]`) among all names, when there are any.
pub open spec fn suggestions_spec(query: Seq<char>, names: Seq<Seq<char>>, fbs: Seq<Option<usize>>) -> Option<Seq<Seq<char>>> {
    let s = suggest_spec(query, names, 4, fbs);
    if s.len() > 0 {
        Some(s.map_values(|p: (Seq<char>, nat)| p.0))
    } else {
        None
    }
}

/// Applies the search route's filters, ordering and limit to the database
/// matches, and adds fuzzy suggestions from `all_names` when a non-empty
/// query leaves nothing; `name_fallback[i]` is the Jaro-Winkler fallback
/// score of `all_names[i]` (see `suggest`).
pub fn search_response(servers: Vec<ServerEntry>, categories: &Vec<String>, p: &SearchQuery, all_names: &[String],
    name_fallback: &Vec<Option<usize>>) -> (r: SearchResponse)
    requires
        categories.len() == servers.len(),
        name_fallback.len() == all_names.len(),
    ensures
        ({
            let results = search_results_spec(servers@, categories@, *p);
            let query = match p.q { Some(q) => q@, None => Seq::<char>::empty() };
            let sugg = suggestions_spec(query, all_names@.map_values(|c: String| c@), name_fallback@);
            if results.len() == 0 && query.len() > 0 && sugg is Some {
                &&& r.servers@.len() == 0
                &&& r.total == 0
                &&& r.suggestions matches Some(v) && v@.map_values(|s: String| s@) == sugg->0
            } else {
                &&& r.servers@ == results
                &&& r.total == results.len()
                &&& r.suggestions is None
            }
        }),
{
    let filtered = filter_servers(servers, categories, p);
    let sorted = sort_servers(filtered, &p.sort);
    let mut out = sorted;
    if let Some(n) = p.limit {
        out.truncate(n);
    }
    let total = out.len();
    let empty_query = match &p.q {
        Some(q) => q.as_str().is_empty(),
        None => true,
    };
    if total == 0 && !empty_query {
        let q = match &p.q {
            Some(q) => q.as_str(),
            None => "",
        };
        let sugg = suggest(q, all_names, 4, name_fallback);
        if sugg.len() > 0 {
            let mut names: Vec<String> = Vec::new();
            let mut i: usize = 0;
            let mut sugg = sugg;
            let ghost sv = crate::fuzzy::pairs_view(sugg@);
            let n = sugg.len();
            while i < n
                invariant
                    i <= n,
                    n == sv.len(),
                    sugg.len() == n - i,
                    crate::fuzzy::pairs_view(sugg@) =~= sv.skip(i as int),
                    names@.map_values(|s: String| s@) =~= sv.map_values(|p: (Seq<char>, nat)| p.0).take(i as int),
                decreases n - i,
            {
                let ghost old = sugg@;
                assert(crate::fuzzy::pairs_view(old)[0] == sv[i as int]);
                let (name, _score) = sugg.remove(0);
                assert(name@ == sv[i as int].0);
                assert(crate::fuzzy::pairs_view(sugg@) =~= crate::fuzzy::pairs_view(old).skip(1));
                assert(sv.skip(i as int).skip(1) =~= sv.skip(i + 1));
                let ghost nold = names@;
                names.push(name);
                assert(names@.map_values(|s: String| s@) =~= nold.map_values(|s: String| s@).push(sv[i as int].0));
                assert(sv.map_values(|p: (Seq<char>, nat)| p.0).take(i + 1) =~= sv.map_values(|p: (Seq<char>, nat)| p.0).take(i as int).push(sv[i as int].0));
                i = i + 1;
            }
            return SearchResponse { servers: Vec::new(), total: 0, suggestions: Some(names) };
        }
    }
    SearchResponse { servers: out, total, suggestions: None }
}

/// The orders a listing can be sorted in.
#[derive(Debug, Clone, Copy, PartialEq, Eq, Structural)]
pub enum SortOrder {
    /// By relevance and downloads (the default).
    Downloads,
    /// Alphabetically by name.
    Name,
    /// Most recently updated first.
    Updated,
}

impl Default for SortOrder {
    fn default() -> (r: Self)
        ensures
            r == SortOrder::Downloads,
    {
        SortOrder::Downloads
    }
}

/// The `sort` parameter value of an order.
pub open spec fn sort_param_spec(o: SortOrder) -> Seq<char> {
    match o {
        SortOrder::Downloads => "downloads"@,
        SortOrder::Name => "name"@,
        SortOrder::Updated => "updated"@,
    }
}

impl SortOrder {
    /// The value of the search route's `sort` parameter for this order.
    pub fn param(&self) -> (r: String)
        ensures
            r@ == sort_param_spec(*self),
    {
        match self {
            SortOrder::Downloads => String::from_str("downloads"),
            SortOrder::Name => String::from_str("name"),
            SortOrder::Updated => String::from_str("updated"),
        }
    }
}

/// The update time a listing sorts by: a missing one as the empty string.
pub open spec fn updated_key(s: ServerEntry) -> Seq<char> {
    match s.updated_at {
        Some(t) => t@,
        None => Seq::<char>::empty(),
    }
}

/// Every server the search route lists passes each filter the query sets:
/// its category contains the requested one, it has at least the requested
/// downloads, tools and stars, one of its tools, tags and resources
/// contains the requested one, its transport equals the requested one, its
/// author, owner and license contain the requested ones (all text compared
/// lowercased), it has prompts when they are asked for, and it is not
/// deprecated when deprecated servers are excluded. The result is the
/// database match `servers[i]` of category `cats[i]`.
pub proof fn law_search_filters_hold(servers: Seq<ServerEntry>, cats: Seq<String>, p: SearchQuery, k: int) -> (i: int)
    requires
        cats.len() == servers.len(),
        0 <= k < search_results_spec(servers, cats, p).len(),
    ensures
        0 <= i < servers.len(),
        servers[i] == search_results_spec(servers, cats, p)[k],
        ({
            let s = servers[i];
            &&& (p.category matches Some(c) ==> contains_seq(lower(cats[i]@), lower(c@)))
            &&& (p.min_downloads matches Some(m) ==> s.downloads >= m)
            &&& (p.tool matches Some(t) ==> exists|j: int| 0 <= j < s.tools.len() && contains_seq(lower(#[trigger] s.tools@[j]@), lower(t@)))
            &&& (p.transport matches Some(t) ==> lower(s.transport@) == lower(t@))
            &&& (p.author matches Some(a) ==> contains_seq(lower(s.author@), lower(a@)))
            &&& (p.owner matches Some(o) ==> contains_seq(lower(s.owner@), lower(o@)))
            &&& (p.tag matches Some(t) ==> exists|j: int| 0 <= j < s.tags.len() && contains_seq(lower(#[trigger] s.tags@[j]@), lower(t@)))
            &&& (p.min_tools matches Some(m) ==> s.tools.len() >= m)
            &&& (p.has_prompts == Some(true) ==> s.prompts.len() > 0)
            &&& (p.resource matches Some(r) ==> exists|j: int| 0 <= j < s.resources.len() && contains_seq(lower(#[trigger] s.resources@[j]@), lower(r@)))
            &&& (p.exclude_deprecated == Some(true) ==> !s.deprecated)
            &&& (p.license matches Some(l) ==> contains_seq(lower(s.license@), lower(l@)))
            &&& (p.min_stars matches Some(m) ==> s.stars >= m)
        }),
{
    law_search_results(servers, cats, p);
    let res = search_results_spec(servers, cats, p);
    let mask = keep_mask(servers, cats, p);
    assert(kept_from(servers, mask, res[k]));
    let i = choose|i: int| 0 <= i < mask.len() && mask[i] && servers[i] == res[k];
    assert(keep_spec(servers[i], cats[i]@, p));
    i
}

/// A sort by text keys keeps the elements (each comes from the input) and
/// orders them by their keys.
proof fn lemma_text_sorted(m: Seq<ServerEntry>, keys: Seq<Seq<char>>, descending: bool, key: spec_fn(ServerEntry) -> Seq<char>)
    requires
        keys.len() == m.len(),
        forall|i: int| 0 <= i < m.len() ==> #[trigger] keys[i] == key(m[i]),
    ensures
        ({
            let r = firsts(sort_by(zip_keys(m, keys), text_order(descending)));
            &&& r.len() == m.len()
            &&& forall|k: int| 0 <= k < r.len() ==> m.contains(#[trigger] r[k])
            &&& forall|i: int, j: int| 0 <= i < j < r.len() ==> (text_order(descending))(key(#[trigger] r[i]), key(#[trigger] r[j]))
        }),
{
    let le = text_order(descending);
    let z = zip_keys(m, keys);
    lemma_text_order_total(descending);
    lemma_sort_by_sorted(z, le);
    let so = sort_by(z, le);
    let r = firsts(so);
    assert forall|k: int| 0 <= k < so.len() implies (#[trigger] so[k]).1 == key(so[k].0) && m.contains(so[k].0) by {
        assert(so.contains(so[k]));
        assert(z.contains(so[k]));
        let j = choose|j: int| 0 <= j < z.len() && z[j] == so[k];
        assert(keys[j] == key(m[j]));
    }
    assert forall|k: int| 0 <= k < r.len() implies m.contains(#[trigger] r[k]) by {
        assert(r[k] == so[k].0);
    }
    assert forall|i: int, j: int| 0 <= i < j < r.len() implies le(key(#[trigger] r[i]), key(#[trigger] r[j])) by {
        assert(r[i] == so[i].0 && r[j] == so[j].0);
        assert(le(so[i].1, so[j].1));
    }
}

/// Every server the search route lists is a database match that passes all
/// of the query's filters; there are at most `limit` of them; and they come
/// in the order asked for: ascending lowercased name for `sort=name`,
/// newest update first for `sort=updated`.
pub proof fn law_search_results(servers: Seq<ServerEntry>, cats: Seq<String>, p: SearchQuery)
    requires
        cats.len() == servers.len(),
    ensures
        ({
            let res = search_results_spec(servers, cats, p);
            &&& forall|k: int| 0 <= k < res.len() ==> kept_from(servers, keep_mask(servers, cats, p), #[trigger] res[k])
            &&& (p.limit matches Some(n) ==> res.len() <= n)
            &&& (p.sort matches Some(s) && s@ == "name"@ ==>
                forall|i: int, j: int| 0 <= i < j < res.len() ==> lex_le(lower((#[trigger] res[i]).name@), lower((#[trigger] res[j]).name@)))
            &&& (p.sort matches Some(s) && s@ == "updated"@ ==>
                forall|i: int, j: int| 0 <= i < j < res.len() ==> lex_le(updated_key(#[trigger] res[j]), updated_key(#[trigger] res[i])))
        }),
{
    reveal_strlit("name");
    reveal_strlit("updated");
    assert("name"@.len() == 4 && "updated"@.len() == 7);
    let mask = keep_mask(servers, cats, p);
    let m = masked(servers, mask);
    lemma_masked_from(servers, mask);
    let so = sorted_spec(m, p.sort);
    let name_key = |s: ServerEntry| lower(s.name@);
    let upd_key = |s: ServerEntry| updated_key(s);
    let is_name = p.sort matches Some(s) && s@ == "name"@;
    let is_upd = p.sort matches Some(s) && s@ == "updated"@;
    if is_name {
        lemma_text_sorted(m, name_keys(m), false, name_key);
    } else if is_upd {
        assert forall|i: int| 0 <= i < m.len() implies #[trigger] updated_keys(m)[i] == upd_key(m[i]) by {}
        lemma_text_sorted(m, updated_keys(m), true, upd_key);
    }
    assert forall|k: int| 0 <= k < so.len() implies kept_from(servers, mask, #[trigger] so[k]) by {
        if is_name || is_upd {
            assert(m.contains(so[k]));
            let j = choose|j: int| 0 <= j < m.len() && m[j] == so[k];
            assert(kept_from(servers, mask, m[j]));
        } else {
            assert(kept_from(servers, mask, m[k]));
        }
    }
    let res = search_results_spec(servers, cats, p);
    assert(res == limited_spec(so, p.limit));
    assert forall|k: int| 0 <= k < res.len() implies kept_from(servers, mask, #[trigger] res[k]) by {
        assert(res[k] == so[k]);
    }
    if is_name {
        assert forall|i: int, j: int| 0 <= i < j < res.len() implies lex_le(lower((#[trigger] res[i]).name@), lower((#[trigger] res[j]).name@)) by {
            assert(res[i] == so[i] && res[j] == so[j]);
            assert((text_order(false))(name_key(so[i]), name_key(so[j])));
        }
    }
    if is_upd {
        assert forall|i: int, j: int| 0 <= i < j < res.len() implies lex_le(updated_key(#[trigger] res[j]), updated_key(#[trigger] res[i])) by {
            assert(res[i] == so[i] && res[j] == so[j]);
            assert((text_order(true))(upd_key(so[i]), upd_key(so[j])));
        }
    }
}

} // verus!
