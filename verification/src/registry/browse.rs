//! Browsing the registry: trending servers, servers by category, registry
//! statistics, and the client configuration snippet of a server.

use vstd::prelude::*;
use vstd::string::StringExecFns;
use crate::order::{firsts, int_desc, kept_from, lemma_masked_from, lemma_masked_keeps_order, lemma_sort_desc, masked,
    retain_masked, sort_by, sort_by_int_desc, zip_keys};
use crate::registry::compare::at_most;
use crate::registry::entry::{full_name_of, ServerEntry};
use crate::registry::index::{group_by_name, groups_of, index_view, is_index, ordered, rank_occurrences};
use crate::registry::listing::{clamp_limit, limit_of};
use crate::registry::row::pair_texts;
use crate::registry::validate::texts;
use crate::text::{cat, cat3, chars_eq, ci_contains, contains_ci, contains_seq, lower, lower_chars, str_eq};

verus! {

/// Whether the trending route keeps a server of category `cat`: the
/// category contains the requested one and the transport equals the
/// requested one, both ignoring case, when requested.
pub open spec fn trending_keep(s: ServerEntry, cat: Seq<char>, category: Option<String>, transport: Option<String>) -> bool {
    &&& (category matches Some(c) ==> ci_contains(cat, lower(c@)))
    &&& (transport matches Some(t) ==> lower(s.transport@) == lower(t@))
}

/// The trending servers: by downloads, most first (ties keep the listing
/// order), filtered by category and transport, at most `limit` (15 by
/// default, 100 at most); each with its category.
pub open spec fn trending_spec(servers: Seq<(ServerEntry, String)>, category: Option<String>, transport: Option<String>,
    limit: Option<usize>) -> Seq<(ServerEntry, String)> {
    let sorted = firsts(sort_by(zip_keys(servers, servers.map_values(|p: (ServerEntry, String)| p.0.downloads as int)), int_desc()));
    let kept = masked(sorted, Seq::new(sorted.len(), |i: int| trending_keep(sorted[i].0, sorted[i].1@, category, transport)));
    at_most(kept, limit_of(limit, 15, 100))
}

/// Lists the trending servers (see `trending_spec`); each server comes with
/// its category.
pub fn trending(servers: Vec<(ServerEntry, String)>, category: &Option<String>, transport: &Option<String>,
    limit: Option<usize>) -> (r: Vec<(ServerEntry, String)>)
    ensures
        r@ == trending_spec(servers@, *category, *transport, limit),
{
    let ghost sv = servers@;
    let mut keys: Vec<i128> = Vec::new();
    let mut k: usize = 0;
    while k < servers.len()
        invariant
            k <= servers.len(),
            keys@.map_values(|x: i128| x as int) == servers@.map_values(|p: (ServerEntry, String)| p.0.downloads as int).take(k as int),
        decreases servers.len() - k,
    {
        let ghost before = keys@.map_values(|x: i128| x as int);
        keys.push(servers[k].0.downloads as i128);
        assert(keys@.map_values(|x: i128| x as int) =~= before.push(servers@[k as int].0.downloads as int));
        assert(servers@.map_values(|p: (ServerEntry, String)| p.0.downloads as int).take(k + 1)
            =~= servers@.map_values(|p: (ServerEntry, String)| p.0.downloads as int).take(k as int).push(servers@[k as int].0.downloads as int));
        k = k + 1;
    }
    assert(servers@.map_values(|p: (ServerEntry, String)| p.0.downloads as int).take(servers.len() as int)
        =~= servers@.map_values(|p: (ServerEntry, String)| p.0.downloads as int));
    let sorted = sort_by_int_desc(servers, keys);
    let ghost so = sorted@;
    let cat_l = match category {
        Some(c) => Some(lower_chars(c.as_str())),
        None => None,
    };
    let tr_l = match transport {
        Some(t) => Some(lower_chars(t.as_str())),
        None => None,
    };
    let mut keep: Vec<bool> = Vec::new();
    let mut i: usize = 0;
    while i < sorted.len()
        invariant
            i <= sorted.len(),
            so == sorted@,
            category is None <==> cat_l is None,
            cat_l matches Some(x) ==> category matches Some(c) && x@ == lower(c@),
            transport is None <==> tr_l is None,
            tr_l matches Some(x) ==> transport matches Some(t) && x@ == lower(t@),
            keep@ == Seq::new(so.len(), |j: int| trending_keep(so[j].0, so[j].1@, *category, *transport)).take(i as int),
        decreases sorted.len() - i,
    {
        let s = &sorted[i];
        let c_ok = match &cat_l {
            Some(c) => contains_ci(s.1.as_str(), c),
            None => true,
        };
        let t_ok = match &tr_l {
            Some(t) => chars_eq(&lower_chars(s.0.transport.as_str()), t),
            None => true,
        };
        keep.push(c_ok && t_ok);
        assert(keep@ =~= Seq::new(so.len(), |j: int| trending_keep(so[j].0, so[j].1@, *category, *transport)).take(i + 1));
        i = i + 1;
    }
    assert(keep@ =~= Seq::new(so.len(), |j: int| trending_keep(so[j].0, so[j].1@, *category, *transport)));
    let kept = retain_masked(sorted, &keep);
    let lim = clamp_limit(limit, 15, 100);
    let mut out = kept;
    out.truncate(lim);
    proof {
        let kv = masked(so, keep@);
        if (lim as nat) < kv.len() {
            assert(out@ =~= kv.take(lim as int));
        } else {
            assert(out@ =~= kv);
        }
    }
    out
}

/// The (category, server) occurrences of a listing.
pub open spec fn category_occurrences(servers: Seq<ServerEntry>, cats: Seq<String>) -> Seq<(Seq<char>, Seq<char>)> {
    Seq::new(servers.len(), |i: int| (cats[i]@, full_name_of(servers[i].owner@, servers[i].name@)))
}

/// The servers of each category, categories in name order, each with the
/// full names of its servers in listing order; only the categories whose
/// name contains `filter` (ignoring case) when one is given.
pub fn category_groups(servers: &Vec<ServerEntry>, cats: &Vec<String>, filter: &Option<String>) -> (r: Vec<(String, Vec<String>)>)
    requires
        cats.len() == servers.len(),
    ensures
        ({
            let g = index_view(r@);
            let o = category_occurrences(servers@, cats@);
            &&& ordered(g, true)
            &&& forall|i: int| 0 <= i < g.len() ==> (#[trigger] g[i]).1 == crate::registry::index::holders(o, g[i].0) && g[i].1.len() > 0
                && (filter matches Some(f) ==> ci_contains(g[i].0, lower(f@)))
            &&& forall|k: int| 0 <= k < o.len() && (filter matches Some(f) ==> ci_contains((#[trigger] o[k]).0, lower(f@)))
                ==> crate::registry::index::has_key(g, o[k].0)
        }),
{
    let ghost o = category_occurrences(servers@, cats@);
    let mut occ: Vec<(String, String)> = Vec::new();
    let mut i: usize = 0;
    while i < servers.len()
        invariant
            i <= servers.len(),
            cats.len() == servers.len(),
            o == category_occurrences(servers@, cats@),
            pair_texts(occ@) == o.take(i as int),
        decreases servers.len() - i,
    {
        proof {
            reveal_strlit("/");
        }
        assert("/"@ =~= seq!['/']);
        let full = cat3(servers[i].owner.as_str(), "/", servers[i].name.as_str());
        let ghost before = pair_texts(occ@);
        occ.push((cats[i].clone(), full));
        assert(pair_texts(occ@) =~= before.push(o[i as int]));
        assert(o.take(i + 1) =~= o.take(i as int).push(o[i as int]));
        i = i + 1;
    }
    assert(o.take(servers.len() as int) =~= o);
    let groups = group_by_name(&occ);
    let ghost gv = index_view(groups@);
    let needle = match filter {
        Some(f) => Some(lower_chars(f.as_str())),
        None => None,
    };
    let mut keep: Vec<bool> = Vec::new();
    let mut j: usize = 0;
    while j < groups.len()
        invariant
            j <= groups.len(),
            gv == index_view(groups@),
            filter is None <==> needle is None,
            needle matches Some(x) ==> filter matches Some(f) && x@ == lower(f@),
            keep@ == Seq::new(gv.len(), |t: int| filter matches Some(f) ==> ci_contains(gv[t].0, lower(f@))).take(j as int),
        decreases groups.len() - j,
    {
        let k = match &needle {
            Some(x) => contains_ci(groups[j].0.as_str(), x),
            None => true,
        };
        assert(gv[j as int].0 == groups@[j as int].0@);
        keep.push(k);
        assert(keep@ =~= Seq::new(gv.len(), |t: int| filter matches Some(f) ==> ci_contains(gv[t].0, lower(f@))).take(j + 1));
        j = j + 1;
    }
    let ghost mask = Seq::new(gv.len(), |t: int| filter matches Some(f) ==> ci_contains(gv[t].0, lower(f@)));
    assert(keep@ =~= mask);
    let r = retain_masked(groups, &keep);
    proof {
        lemma_view_masked(groups@, keep@);
        lemma_masked_from(gv, mask);
        let rv = index_view(r@);
        assert(rv == masked(gv, mask));
        assert forall|i: int| 0 <= i < rv.len() implies (#[trigger] rv[i]).1 == crate::registry::index::holders(o, rv[i].0) && rv[i].1.len() > 0
            && (filter matches Some(f) ==> ci_contains(rv[i].0, lower(f@))) by {
            assert(kept_from(gv, mask, rv[i]));
            let t = choose|t: int| 0 <= t < mask.len() && mask[t] && gv[t] == rv[i];
        }
        assert forall|i: int, j2: int| 0 <= i < j2 < rv.len() implies crate::registry::index::before(true, #[trigger] rv[i], #[trigger] rv[j2]) by {
            lemma_masked_order(gv, mask, i, j2);
        }
        assert forall|k: int| 0 <= k < o.len() && (filter matches Some(f) ==> ci_contains((#[trigger] o[k]).0, lower(f@)))
            implies crate::registry::index::has_key(rv, o[k].0) by {
            o.lemma_filter_contains(crate::registry::index::of_item(o[k].0), k);
            assert(crate::registry::index::holders(o, o[k].0).len() > 0);
            let t = choose|t: int| 0 <= t < gv.len() && gv[t].0 == o[k].0;
            assert(mask[t]);
            lemma_masked_keeps(gv, mask, t);
        }
    }
    r
}

proof fn lemma_view_masked(v: Seq<(String, Vec<String>)>, m: Seq<bool>)
    requires
        m.len() <= v.len(),
    ensures
        index_view(masked(v, m)) == masked(index_view(v), m),
    decreases m.len(),
{
    if m.len() > 0 {
        lemma_view_masked(v, m.drop_last());
        let rest = masked(v, m.drop_last());
        if m.last() {
            assert(index_view(rest.push(v[m.len() - 1])) =~= index_view(rest).push(index_view(v)[m.len() - 1]));
        }
    } else {
        assert(index_view(masked(v, m)) =~= masked(index_view(v), m));
    }
}

/// A masked sequence keeps the order of the original: its elements are
/// original elements at increasing positions.
proof fn lemma_masked_order(v: Seq<(Seq<char>, Seq<Seq<char>>)>, m: Seq<bool>, i: int, j: int)
    requires
        m.len() <= v.len(),
        ordered(v, true),
        0 <= i < j < masked(v, m).len(),
    ensures
        crate::registry::index::before(true, masked(v, m)[i], masked(v, m)[j]),
    decreases m.len(),
{
    let rest = masked(v, m.drop_last());
    if j < rest.len() {
        assert(ordered(v.take(v.len() as int), true));
        lemma_masked_order(v, m.drop_last(), i, j);
        assert(masked(v, m)[i] == rest[i] && masked(v, m)[j] == rest[j]);
    } else {
        lemma_masked_from(v, m.drop_last());
        assert(masked(v, m)[j] == v[m.len() - 1]);
        assert(masked(v, m)[i] == rest[i]);
        assert(kept_from(v, m.drop_last(), rest[i]));
        let t = choose|t: int| 0 <= t < m.drop_last().len() && m.drop_last()[t] && v[t] == rest[i];
        assert(t < m.len() - 1);
    }
}

/// Keeping an element whose mask bit is set.
proof fn lemma_masked_keeps(v: Seq<(Seq<char>, Seq<Seq<char>>)>, m: Seq<bool>, t: int)
    requires
        m.len() <= v.len(),
        0 <= t < m.len(),
        m[t],
    ensures
        crate::registry::index::has_key(masked(v, m), v[t].0),
    decreases m.len(),
{
    let rest = masked(v, m.drop_last());
    if t < m.len() - 1 {
        lemma_masked_keeps(v, m.drop_last(), t);
        let i = choose|i: int| 0 <= i < rest.len() && rest[i].0 == v[t].0;
        if m.last() {
            assert(masked(v, m)[i] == rest[i]);
        }
    } else {
        assert(masked(v, m)[rest.len() as int] == v[t]);
    }
}

/// The window of a page: `per_page` items (50 by default, 200 at most)
/// after skipping `(page - 1) * per_page` (page 1 by default, 0 read as 1).
pub open spec fn page_spec<T>(v: Seq<T>, page: Option<usize>, per_page: Option<usize>) -> Seq<T> {
    let p: nat = match page { Some(p) => if p == 0 { 0 } else { (p - 1) as nat }, None => 0 };
    let n = limit_of(per_page, 50, 200);
    let start = p * n;
    if start >= v.len() { Seq::empty() } else { at_most(v.skip(start as int), n) }
}

/// Takes one page of a listing (see `page_spec`).
pub fn page_window<T>(v: Vec<T>, page: Option<usize>, per_page: Option<usize>) -> (r: Vec<T>)
    ensures
        r@ == page_spec(v@, page, per_page),
{
    let p: u128 = match page {
        Some(p) => if p == 0 { 0 } else { (p - 1) as u128 },
        None => 0,
    };
    let n = clamp_limit(per_page, 50, 200);
    assert(p * (n as u128) <= 0xffff_ffff_ffff_ffff * 200) by (nonlinear_arith)
        requires
            p <= 0xffff_ffff_ffff_ffff,
            n <= 200,
    ;
    let start: u128 = p * (n as u128);
    if start >= v.len() as u128 {
        return Vec::new();
    }
    let s = start as usize;
    let ghost old = v@;
    let mut v = v;
    let tail = v.split_off(s);
    assert(tail@ =~= old.skip(s as int));
    let mut out = tail;
    out.truncate(n);
    proof {
        let w = old.skip(s as int);
        if (n as nat) < w.len() {
            assert(out@ =~= w.take(n as int));
        } else {
            assert(out@ =~= w);
        }
    }
    out
}

/// The number of tools, prompts and resources declared by the first `n`
/// servers.
pub open spec fn capability_totals(servers: Seq<ServerEntry>, n: nat) -> (nat, nat, nat)
    decreases n,
{
    if n == 0 {
        (0, 0, 0)
    } else {
        let t = capability_totals(servers, (n - 1) as nat);
        let s = servers[n - 1];
        (t.0 + s.tools.len() as nat, t.1 + s.prompts.len() as nat, t.2 + s.resources.len() as nat)
    }
}

/// The number of deprecated servers among the first `n`.
pub open spec fn deprecated_count(servers: Seq<ServerEntry>, n: nat) -> nat
    decreases n,
{
    if n == 0 {
        0
    } else {
        deprecated_count(servers, (n - 1) as nat) + if servers[n - 1].deprecated { 1nat } else { 0nat }
    }
}

/// The tallies of the first `n` servers depend on those servers only.
proof fn lemma_tallies_prefix(a: Seq<ServerEntry>, b: Seq<ServerEntry>, n: nat)
    requires
        n <= a.len(),
        n <= b.len(),
        forall|i: int| 0 <= i < n ==> a[i] == b[i],
    ensures
        capability_totals(a, n) == capability_totals(b, n),
        deprecated_count(a, n) == deprecated_count(b, n),
    decreases n,
{
    if n > 0 {
        lemma_tallies_prefix(a, b, (n - 1) as nat);
    }
}

/// Listing one more server adds its tools, prompts and resources to the
/// registry's totals, and one to the deprecated count exactly when it is
/// deprecated; an empty registry has none.
pub proof fn law_stats_tallies_grow(servers: Seq<ServerEntry>, x: ServerEntry)
    ensures
        capability_totals(Seq::<ServerEntry>::empty(), 0) == (0nat, 0nat, 0nat),
        deprecated_count(Seq::<ServerEntry>::empty(), 0) == 0,
        ({
            let n = servers.len();
            let before = capability_totals(servers, n);
            let after = capability_totals(servers.push(x), n + 1);
            &&& after.0 == before.0 + x.tools.len()
            &&& after.1 == before.1 + x.prompts.len()
            &&& after.2 == before.2 + x.resources.len()
            &&& deprecated_count(servers.push(x), n + 1)
                == deprecated_count(servers, n) + (if x.deprecated { 1int } else { 0int })
        }),
{
    lemma_tallies_prefix(servers, servers.push(x), servers.len());
}

/// The (license, server) occurrences of the servers that declare a license.
pub open spec fn license_occurrences(servers: Seq<ServerEntry>) -> Seq<(Seq<char>, Seq<char>)> {
    servers.filter(|s: ServerEntry| s.license@.len() > 0).map_values(|s: ServerEntry| (s.license@, full_name_of(s.owner@, s.name@)))
}

/// The license tallies only count declared licenses: every license of an
/// index of the license occurrences is non-empty and is the license of some
/// listed server.
pub proof fn law_stats_licenses_declared(servers: Seq<ServerEntry>, all: Seq<(Seq<char>, Seq<Seq<char>>)>, i: int)
    requires
        is_index(all, license_occurrences(servers)),
        0 <= i < all.len(),
    ensures
        all[i].0.len() > 0,
        exists|k: int| 0 <= k < servers.len() && servers[k].license@ == all[i].0,
{
    let occ = license_occurrences(servers);
    let key = all[i].0;
    let f = crate::registry::index::of_item(key);
    assert(all[i].1 == crate::registry::index::holders(occ, key));
    let fl = occ.filter(f);
    assert(fl.len() > 0);
    occ.lemma_filter_pred(f, 0);
    assert(fl.contains(fl[0]));
    occ.lemma_filter_contains_rev(f, fl[0]);
    let x = fl[0];
    assert(x.0 == key);
    let j = choose|j: int| 0 <= j < occ.len() && occ[j] == x;
    let keep = |s: ServerEntry| s.license@.len() > 0;
    let with = servers.filter(keep);
    assert(occ[j] == (with[j].license@, full_name_of(with[j].owner@, with[j].name@)));
    servers.lemma_filter_pred(keep, j);
    assert(with.contains(with[j]));
    servers.lemma_filter_contains_rev(keep, with[j]);
    let k = choose|k: int| 0 <= k < servers.len() && servers[k] == with[j];
    assert(servers[k].license@ == key);
}

/// The registry-wide tallies of the statistics route.
pub struct StatsTallies {
    pub total_tools: u128,
    pub total_prompts: u128,
    pub total_resources: u128,
    pub deprecated: u128,
    /// Each category with its servers, most servers first, ties by name.
    pub categories: Vec<(String, Vec<String>)>,
    /// The ten most used licenses with their servers, most used first,
    /// ties by name.
    pub licenses: Vec<(String, Vec<String>)>,
}

/// Tallies the registry: capabilities declared, deprecated servers, servers
/// per category (`cats[i]` for `servers[i]`) and per license.
pub fn stats_tallies(servers: &Vec<ServerEntry>, cats: &Vec<String>) -> (r: StatsTallies)
    requires
        cats.len() == servers.len(),
    ensures
        ({
            let t = capability_totals(servers@, servers.len() as nat);
            &&& r.total_tools == t.0
            &&& r.total_prompts == t.1
            &&& r.total_resources == t.2
            &&& r.deprecated == deprecated_count(servers@, servers.len() as nat)
            &&& is_index(index_view(r.categories@), category_occurrences(servers@, cats@))
            &&& exists|all: Seq<(Seq<char>, Seq<Seq<char>>)>| is_index(all, license_occurrences(servers@))
                && index_view(r.licenses@) == at_most(all, 10)
        }),
{
    let mut tools: u128 = 0;
    let mut prompts: u128 = 0;
    let mut resources: u128 = 0;
    let mut deprecated: u128 = 0;
    let ghost o = category_occurrences(servers@, cats@);
    let ghost lo_all = license_occurrences(servers@);
    let mut occ: Vec<(String, String)> = Vec::new();
    let mut lic: Vec<(String, String)> = Vec::new();
    let mut i: usize = 0;
    assert(servers@.take(0).filter(|s: ServerEntry| s.license@.len() > 0) =~= Seq::<ServerEntry>::empty());
    while i < servers.len()
        invariant
            i <= servers.len(),
            cats.len() == servers.len(),
            o == category_occurrences(servers@, cats@),
            tools == capability_totals(servers@, i as nat).0,
            prompts == capability_totals(servers@, i as nat).1,
            resources == capability_totals(servers@, i as nat).2,
            tools <= i * 0x1_0000_0000_0000_0000,
            prompts <= i * 0x1_0000_0000_0000_0000,
            resources <= i * 0x1_0000_0000_0000_0000,
            deprecated == deprecated_count(servers@, i as nat),
            deprecated <= i,
            pair_texts(occ@) == o.take(i as int),
            pair_texts(lic@) == license_occurrences(servers@.take(i as int)),
        decreases servers.len() - i,
    {
        let s = &servers[i];
        tools = tools + s.tools.len() as u128;
        prompts = prompts + s.prompts.len() as u128;
        resources = resources + s.resources.len() as u128;
        if s.deprecated {
            deprecated = deprecated + 1;
        }
        proof {
            reveal_strlit("/");
        }
        assert("/"@ =~= seq!['/']);
        let full = cat3(s.owner.as_str(), "/", s.name.as_str());
        let ghost before = pair_texts(occ@);
        occ.push((cats[i].clone(), full.clone()));
        assert(pair_texts(occ@) =~= before.push(o[i as int]));
        assert(o.take(i + 1) =~= o.take(i as int).push(o[i as int]));
        let ghost lbefore = pair_texts(lic@);
        let ghost pre = servers@.take(i as int);
        assert(servers@.take(i + 1) =~= pre.push(*s));
        proof {
            pre.lemma_filter_push(*s, |s: ServerEntry| s.license@.len() > 0);
        }
        if !s.license.as_str().is_empty() {
            lic.push((s.license.clone(), full));
            assert(pair_texts(lic@) =~= lbefore.push((s.license@, full_name_of(s.owner@, s.name@))));
            assert(license_occurrences(servers@.take(i + 1)) =~= license_occurrences(pre).push((s.license@, full_name_of(s.owner@, s.name@))));
        } else {
            assert(license_occurrences(servers@.take(i + 1)) =~= license_occurrences(pre));
        }
        i = i + 1;
    }
    assert(o.take(servers.len() as int) =~= o);
    assert(servers@.take(servers.len() as int) =~= servers@);
    let categories = rank_occurrences(&occ);
    let all_lic = rank_occurrences(&lic);
    let mut licenses = all_lic;
    let ghost full_l = index_view(licenses@);
    licenses.truncate(10);
    proof {
        if 10 < full_l.len() {
            assert(index_view(licenses@) =~= full_l.take(10));
        } else {
            assert(index_view(licenses@) =~= full_l);
        }
        assert(pair_texts(lic@) == license_occurrences(servers@));
        assert(is_index(full_l, license_occurrences(servers@)) && index_view(licenses@) == at_most(full_l, 10));
    }
    StatsTallies {
        total_tools: tools,
        total_prompts: prompts,
        total_resources: resources,
        deprecated,
        categories,
        licenses,
    }
}

/// The text `format!("{:?}", items)` writes for a list of strings.
pub uninterp spec fn debug_list_text(items: Seq<Seq<char>>) -> Seq<char>;

/// Formats a list of strings with its `Debug` implementation.
#[verifier::external_body]
fn debug_list(items: &Vec<String>) -> (r: String)
    ensures
        r@ == debug_list_text(texts(items@)),
{
    format!("{:?}", items)
}

/// What goes into a client configuration entry for a server.
pub struct ConfigSnippet {
    /// The entry's key: `owner-name`.
    pub key: String,
    /// The transport is written only when it is not `stdio`.
    pub include_transport: bool,
    /// The environment is written only when the server declares some.
    pub include_env: bool,
    /// How to add the entry by hand.
    pub instructions: String,
}

/// The instructions that accompany a configuration snippet.
pub open spec fn snippet_instructions(key: Seq<char>, command: Seq<char>, args: Seq<Seq<char>>) -> Seq<char> {
    "Add this to your claude_desktop_config.json under \"mcpServers\":\n\n\""@ + key + "\":\n  command: "@ + command
        + "\n  args: "@ + debug_list_text(args)
}

/// Plans the client configuration entry of a server published by `owner`.
pub fn config_snippet(owner: &str, e: &ServerEntry) -> (r: ConfigSnippet)
    ensures
        r.key@ == owner@ + "-"@ + e.name@,
        r.include_transport == (e.transport@ != "stdio"@),
        r.include_env == (e.env.len() > 0),
        r.instructions@ == snippet_instructions(owner@ + "-"@ + e.name@, e.command@, texts(e.args@)),
{
    let key = cat3(owner, "-", e.name.as_str());
    let mut ins = String::from_str("Add this to your claude_desktop_config.json under \"mcpServers\":\n\n\"");
    ins.append(key.as_str());
    ins.append("\":\n  command: ");
    ins.append(e.command.as_str());
    ins.append("\n  args: ");
    let d = debug_list(&e.args);
    ins.append(d.as_str());
    ConfigSnippet {
        key,
        include_transport: !str_eq(e.transport.as_str(), "stdio"),
        include_env: e.env.len() > 0,
        instructions: ins,
    }
}

/// The (tool, server, downloads) occurrences of the first `n` servers, in
/// listing order.
pub open spec fn tool_uses(all: Seq<ServerEntry>, n: nat) -> Seq<(Seq<char>, Seq<char>, int)>
    decreases n,
{
    if n == 0 {
        Seq::empty()
    } else {
        let s = all[n - 1];
        tool_uses(all, (n - 1) as nat)
            + s.tools@.map_values(|t: String| (t@, full_name_of(s.owner@, s.name@), s.downloads as int))
    }
}

/// The (tool, server) part of tool occurrences.
pub open spec fn uses_pairs(u: Seq<(Seq<char>, Seq<char>, int)>) -> Seq<(Seq<char>, Seq<char>)> {
    u.map_values(|x: (Seq<char>, Seq<char>, int)| (x.0, x.1))
}

/// The downloads summed over the occurrences of `tool`.
pub open spec fn tool_total(u: Seq<(Seq<char>, Seq<char>, int)>, tool: Seq<char>) -> int
    decreases u.len(),
{
    if u.len() == 0 {
        0
    } else {
        tool_total(u.drop_last(), tool) + if u.last().0 == tool { u.last().2 } else { 0 }
    }
}

/// The tool occurrences of the first `n` servers depend on those servers
/// only.
proof fn lemma_tool_uses_prefix(a: Seq<ServerEntry>, b: Seq<ServerEntry>, n: nat)
    requires
        n <= a.len(),
        n <= b.len(),
        forall|i: int| 0 <= i < n ==> a[i] == b[i],
    ensures
        tool_uses(a, n) == tool_uses(b, n),
    decreases n,
{
    if n > 0 {
        lemma_tool_uses_prefix(a, b, (n - 1) as nat);
    }
}

/// Totals over joined occurrences add up.
proof fn lemma_tool_total_concat(u: Seq<(Seq<char>, Seq<char>, int)>, v: Seq<(Seq<char>, Seq<char>, int)>, tool: Seq<char>)
    ensures
        tool_total(u + v, tool) == tool_total(u, tool) + tool_total(v, tool),
    decreases v.len(),
{
    if v.len() > 0 {
        lemma_tool_total_concat(u, v.drop_last(), tool);
        assert((u + v).drop_last() =~= u + v.drop_last());
    } else {
        assert(u + v =~= u);
    }
}

/// Occurrences of other tools add nothing to a tool's total.
proof fn lemma_tool_total_absent(v: Seq<(Seq<char>, Seq<char>, int)>, tool: Seq<char>)
    requires
        forall|k: int| 0 <= k < v.len() ==> (#[trigger] v[k]).0 != tool,
    ensures
        tool_total(v, tool) == 0,
    decreases v.len(),
{
    if v.len() > 0 {
        lemma_tool_total_absent(v.drop_last(), tool);
    }
}

/// A tool's popularity counts downloads: listing one more server adds that
/// server's downloads to the total of a tool it declares once, and nothing
/// to the total of a tool it does not declare.
pub proof fn law_tool_total_grows(all: Seq<ServerEntry>, x: ServerEntry, tool: Seq<char>)
    ensures
        ({
            let before = tool_total(tool_uses(all, all.len()), tool);
            let after = tool_total(tool_uses(all.push(x), all.len() + 1), tool);
            &&& !texts(x.tools@).contains(tool) ==> after == before
            &&& texts(x.tools@) == seq![tool] ==> after == before + x.downloads
        }),
{
    let n = all.len();
    lemma_tool_uses_prefix(all, all.push(x), n);
    let mine = x.tools@.map_values(|t: String| (t@, full_name_of(x.owner@, x.name@), x.downloads as int));
    assert(all.push(x)[n as int] == x);
    assert(tool_uses(all.push(x), n + 1) == tool_uses(all, n) + mine);
    lemma_tool_total_concat(tool_uses(all, n), mine, tool);
    if !texts(x.tools@).contains(tool) {
        assert forall|k: int| 0 <= k < mine.len() implies (#[trigger] mine[k]).0 != tool by {
            assert(texts(x.tools@)[k] == x.tools@[k]@);
        }
        lemma_tool_total_absent(mine, tool);
    }
    if texts(x.tools@) == seq![tool] {
        assert(texts(x.tools@).len() == x.tools@.len());
        assert(x.tools@.len() == 1);
        assert(texts(x.tools@)[0] == x.tools@[0]@);
        assert(mine.last().0 == tool);
        assert(mine.drop_last() =~= Seq::<(Seq<char>, Seq<char>, int)>::empty());
        assert(tool_total(mine.drop_last(), tool) == 0);
    }
}

/// Whether a tool name passes the optional name filter (case-insensitive
/// substring).
pub open spec fn tool_filter(tool: Seq<char>, q: Option<String>) -> bool {
    q matches Some(x) ==> ci_contains(tool, lower(x@))
}

/// `g` ranks the tools of the occurrences that pass the filter: one entry
/// per such tool with its total downloads and its servers, totals
/// non-increasing.
pub open spec fn is_popular(g: Seq<(Seq<char>, int, Seq<Seq<char>>)>, u: Seq<(Seq<char>, Seq<char>, int)>, q: Option<String>) -> bool {
    &&& forall|i: int| 0 <= i < g.len() ==> {
        let e = #[trigger] g[i];
        &&& e.2 == crate::registry::index::holders(uses_pairs(u), e.0)
        &&& e.2.len() > 0
        &&& e.1 == tool_total(u, e.0)
        &&& tool_filter(e.0, q)
    }
    &&& forall|i: int, j: int| 0 <= i < j < g.len() ==> (#[trigger] g[i]).0 != (#[trigger] g[j]).0 && g[i].1 >= g[j].1
    &&& forall|k: int| 0 <= k < u.len() && tool_filter((#[trigger] u[k]).0, q) ==> exists|i: int| 0 <= i < g.len() && g[i].0 == u[k].0
}

/// The view of a ranked tool.
pub open spec fn popular_view(v: Seq<(String, i128, Vec<String>)>) -> Seq<(Seq<char>, int, Seq<Seq<char>>)> {
    v.map_values(|e: (String, i128, Vec<String>)| (e.0@, e.1 as int, texts(e.2@)))
}

/// The views of exec tool occurrences.
pub open spec fn uses_view(v: Seq<(String, String, i64)>) -> Seq<(Seq<char>, Seq<char>, int)> {
    v.map_values(|x: (String, String, i64)| (x.0@, x.1@, x.2 as int))
}

fn sum_for(uses: &Vec<(String, String, i64)>, tool: &String) -> (r: i128)
    ensures
        r == tool_total(uses_view(uses@), tool@),
{
    let ghost u = uses_view(uses@);
    let mut total: i128 = 0;
    let mut k: usize = 0;
    while k < uses.len()
        invariant
            k <= uses.len(),
            u == uses_view(uses@),
            total == tool_total(u.take(k as int), tool@),
            -0x8000_0000_0000_0000 * k <= total <= 0x8000_0000_0000_0000 * k,
        decreases uses.len() - k,
    {
        assert(u.take(k + 1).drop_last() =~= u.take(k as int));
        assert(u.take(k + 1).last() == u[k as int]);
        if uses[k].0 == *tool {
            total = total + uses[k].2 as i128;
        }
        k = k + 1;
    }
    assert(u.take(uses.len() as int) =~= u);
    total
}

fn collect_uses(all: &Vec<ServerEntry>) -> (r: (Vec<(String, String, i64)>, Vec<(String, String)>))
    ensures
        uses_view(r.0@) == tool_uses(all@, all.len() as nat),
        pair_texts(r.1@) == uses_pairs(tool_uses(all@, all.len() as nat)),
{
    let mut uses: Vec<(String, String, i64)> = Vec::new();
    let mut pairs: Vec<(String, String)> = Vec::new();
    let mut i: usize = 0;
    while i < all.len()
        invariant
            i <= all.len(),
            uses_view(uses@) == tool_uses(all@, i as nat),
            pair_texts(pairs@) == uses_pairs(tool_uses(all@, i as nat)),
        decreases all.len() - i,
    {
        let s = &all[i];
        let full = s.full_name();
        let ghost base = uses_view(uses@);
        let ghost add = s.tools@.map_values(|t: String| (t@, full_name_of(s.owner@, s.name@), s.downloads as int));
        let mut j: usize = 0;
        while j < s.tools.len()
            invariant
                j <= s.tools.len(),
                s == &all[i as int],
                full@ == full_name_of(s.owner@, s.name@),
                add == s.tools@.map_values(|t: String| (t@, full_name_of(s.owner@, s.name@), s.downloads as int)),
                uses_view(uses@) == base + add.take(j as int),
                pair_texts(pairs@) == uses_pairs(base + add.take(j as int)),
            decreases s.tools.len() - j,
        {
            let ghost b1 = uses_view(uses@);
            let ghost b2 = pair_texts(pairs@);
            uses.push((s.tools[j].clone(), full.clone(), s.downloads));
            pairs.push((s.tools[j].clone(), full.clone()));
            assert(add.take(j + 1) =~= add.take(j as int).push(add[j as int]));
            assert(uses_view(uses@) =~= b1.push(add[j as int]));
            assert(pair_texts(pairs@) =~= b2.push((add[j as int].0, add[j as int].1)));
            assert(uses_pairs(base + add.take(j + 1)) =~= uses_pairs(base + add.take(j as int)).push((add[j as int].0, add[j as int].1)));
            j = j + 1;
        }
        assert(add.take(s.tools.len() as int) =~= add);
        i = i + 1;
    }
    (uses, pairs)
}

/// Index entries with the total downloads of their item attached.
pub open spec fn with_totals(sv: Seq<(Seq<char>, Seq<Seq<char>>)>, u: Seq<(Seq<char>, Seq<char>, int)>) -> Seq<(Seq<char>, int, Seq<Seq<char>>)> {
    sv.map_values(|g: (Seq<char>, Seq<Seq<char>>)| (g.0, tool_total(u, g.0), g.1))
}

/// The view of one ranked tool, as a function.
pub open spec fn popular_elem_view() -> spec_fn((String, i128, Vec<String>)) -> (Seq<char>, int, Seq<Seq<char>>) {
    |e: (String, i128, Vec<String>)| (e.0@, e.1 as int, texts(e.2@))
}

proof fn lemma_popular_sorted(v: Seq<(String, i128, Vec<String>)>, keys: Seq<i128>)
    requires
        keys.len() == v.len(),
        forall|t: int| 0 <= t < v.len() ==> #[trigger] keys[t] == v[t].1,
    ensures
        popular_view(firsts(sort_by(zip_keys(v, keys.map_values(|k: i128| k as int)), int_desc())))
            == firsts(sort_by(zip_keys(popular_view(v), popular_view(v).map_values(|e: (Seq<char>, int, Seq<Seq<char>>)| e.1)), int_desc())),
{
    let f = popular_elem_view();
    let kz = keys.map_values(|k: i128| k as int);
    let z = zip_keys(v, kz);
    let pv = popular_view(v);
    crate::order::lemma_sort_by_map(z, int_desc(), f);
    assert(z.map_values(crate::order::on_first(f)) =~= zip_keys(pv, pv.map_values(|e: (Seq<char>, int, Seq<Seq<char>>)| e.1)));
    let sz = sort_by(z, int_desc());
    assert(popular_view(firsts(sz)) =~= firsts(sz.map_values(crate::order::on_first(f))));
}

/// Ranks the tools of a listing by the downloads of the servers declaring
/// them (each declaration counts): only tools whose name contains `q`
/// (ignoring case) when given, most downloaded first, at most `limit` (50
/// by default, 200 at most), each with its total and its servers. The
/// order of tools with equal totals is not stated.
pub fn popular_tools(all: &Vec<ServerEntry>, q: &Option<String>, limit: Option<usize>) -> (r: Vec<(String, i128, Vec<String>)>)
    ensures
        exists|g: Seq<(Seq<char>, int, Seq<Seq<char>>)>|
            is_popular(g, tool_uses(all@, all.len() as nat), *q) && popular_view(r@) == at_most(g, limit_of(limit, 50, 200)),
{
    let (uses, pairs) = collect_uses(all);
    let ghost u = uses_view(uses@);
    let ghost o = pair_texts(pairs@);
    let groups = group_by_name(&pairs);
    let ghost gv = index_view(groups@);
    let needle = match q {
        Some(x) => Some(lower_chars(x.as_str())),
        None => None,
    };
    let ghost mask = Seq::new(gv.len(), |t: int| tool_filter(gv[t].0, *q));
    let mut keep: Vec<bool> = Vec::new();
    let mut j: usize = 0;
    while j < groups.len()
        invariant
            j <= groups.len(),
            gv == index_view(groups@),
            mask == Seq::new(gv.len(), |t: int| tool_filter(gv[t].0, *q)),
            q is None <==> needle is None,
            needle matches Some(x) ==> q matches Some(c) && x@ == lower(c@),
            keep@ == mask.take(j as int),
        decreases groups.len() - j,
    {
        let k = match &needle {
            Some(x) => contains_ci(groups[j].0.as_str(), x),
            None => true,
        };
        assert(gv[j as int].0 == groups@[j as int].0@);
        keep.push(k);
        assert(keep@ =~= mask.take(j + 1));
        j = j + 1;
    }
    assert(keep@ =~= mask);
    let sel = retain_masked(groups, &keep);
    proof {
        lemma_view_masked(groups@, keep@);
    }
    let ghost sv = index_view(sel@);
    let ghost att = with_totals(sv, u);
    let mut kept: Vec<(String, i128, Vec<String>)> = Vec::new();
    let mut keys: Vec<i128> = Vec::new();
    let ghost orig = sel@;
    let mut rest = sel;
    let n = rest.len();
    let mut i: usize = 0;
    while i < n
        invariant
            n == orig.len(),
            i <= n,
            sv == index_view(orig),
            att == with_totals(sv, u),
            u == uses_view(uses@),
            rest@ == orig.skip(i as int),
            keys.len() == kept.len(),
            forall|t: int| 0 <= t < kept.len() ==> #[trigger] keys@[t] == kept@[t].1,
            popular_view(kept@) == att.take(i as int),
        decreases n - i,
    {
        let (name, servers) = rest.remove(0);
        assert(orig.skip(i as int).remove(0) =~= orig.skip(i + 1));
        let t = sum_for(&uses, &name);
        let ghost before = popular_view(kept@);
        keys.push(t);
        kept.push((name, t, servers));
        assert(popular_view(kept@) =~= before.push(att[i as int]));
        assert(att.take(i + 1) =~= att.take(i as int).push(att[i as int]));
        i = i + 1;
    }
    assert(att.take(n as int) =~= att);
    let ghost kv = kept@;
    let sorted = sort_by_int_desc(kept, keys);
    proof {
        lemma_popular_sorted(kv, keys@);
    }
    let lim = clamp_limit(limit, 50, 200);
    let mut out = sorted;
    let ghost full = popular_view(out@);
    out.truncate(lim);
    proof {
        if (lim as nat) < full.len() {
            assert(popular_view(out@) =~= full.take(lim as int));
        } else {
            assert(popular_view(out@) =~= full);
        }
        lemma_popular_props(gv, mask, sv, u, o, *q, all@);
        assert(is_popular(full, tool_uses(all@, all.len() as nat), *q));
        assert(popular_view(out@) == at_most(full, limit_of(limit, 50, 200)));
    }
    out
}

proof fn lemma_popular_props(gv: Seq<(Seq<char>, Seq<Seq<char>>)>, mask: Seq<bool>, sv: Seq<(Seq<char>, Seq<Seq<char>>)>,
    u: Seq<(Seq<char>, Seq<char>, int)>, o: Seq<(Seq<char>, Seq<char>)>, q: Option<String>, all: Seq<ServerEntry>)
    requires
        groups_of(gv, o),
        ordered(gv, true),
        mask == Seq::new(gv.len(), |t: int| tool_filter(gv[t].0, q)),
        sv == masked(gv, mask),
        o == uses_pairs(u),
        u == tool_uses(all, all.len() as nat),
    ensures
        ({
            let att = with_totals(sv, u);
            is_popular(firsts(sort_by(zip_keys(att, att.map_values(|e: (Seq<char>, int, Seq<Seq<char>>)| e.1)), int_desc())), u, q)
        }),
{
    let att = with_totals(sv, u);
    let z = zip_keys(att, att.map_values(|e: (Seq<char>, int, Seq<Seq<char>>)| e.1));
    let st = sort_by(z, int_desc());
    let g = firsts(st);
    lemma_masked_from(gv, mask);
    // every attached entry is valid
    assert forall|k: int| 0 <= k < z.len() implies {
        let e = (#[trigger] z[k]).0;
        &&& e.2 == crate::registry::index::holders(o, e.0)
        &&& e.2.len() > 0
        &&& e.1 == tool_total(u, e.0)
        &&& tool_filter(e.0, q)
        &&& z[k].1 == e.1
    } by {
        assert(kept_from(gv, mask, sv[k]));
        let t = choose|t: int| 0 <= t < mask.len() && mask[t] && gv[t] == sv[k];
    }
    // no repeated elements before sorting
    assert(z.no_duplicates()) by {
        assert forall|a: int, b: int| 0 <= a < z.len() && 0 <= b < z.len() && a != b implies z[a] != z[b] by {
            if a < b {
                lemma_masked_order(gv, mask, a, b);
            } else {
                lemma_masked_order(gv, mask, b, a);
            }
        }
    }
    crate::order::lemma_sort_desc(z);
    crate::order::lemma_sort_desc_nodup(z);
    assert forall|i: int| 0 <= i < g.len() implies {
        let e = #[trigger] g[i];
        &&& e.2 == crate::registry::index::holders(o, e.0)
        &&& e.2.len() > 0
        &&& e.1 == tool_total(u, e.0)
        &&& tool_filter(e.0, q)
    } by {
        assert(st.contains(st[i]));
        let k = choose|k: int| 0 <= k < z.len() && z[k] == st[i];
    }
    assert forall|i: int, j: int| 0 <= i < j < g.len() implies (#[trigger] g[i]).0 != (#[trigger] g[j]).0 && g[i].1 >= g[j].1 by {
        assert(st.contains(st[i]));
        assert(st.contains(st[j]));
        let ki = choose|k: int| 0 <= k < z.len() && z[k] == st[i];
        let kj = choose|k: int| 0 <= k < z.len() && z[k] == st[j];
        assert(st[i].1 >= st[j].1);
        if g[i].0 == g[j].0 {
            assert(st[i] == st[j]);
        }
    }
    assert forall|k: int| 0 <= k < u.len() && tool_filter((#[trigger] u[k]).0, q) implies exists|i: int| 0 <= i < g.len() && g[i].0 == u[k].0 by {
        let key = u[k].0;
        assert(o[k] == (u[k].0, u[k].1));
        o.lemma_filter_contains(crate::registry::index::of_item(key), k);
        assert(crate::registry::index::holders(o, key).len() > 0);
        let t = choose|t: int| 0 <= t < gv.len() && gv[t].0 == key;
        assert(mask[t]);
        lemma_masked_keeps(gv, mask, t);
        let a = choose|a: int| 0 <= a < sv.len() && sv[a].0 == key;
        assert(st.contains(z[a]));
        let i = choose|i: int| 0 <= i < st.len() && st[i] == z[a];
        assert(g[i].0 == key);
    }
}

/// The trending list holds listed servers only, each passing the category
/// and transport filters and with its own category: with a transport
/// filter every server's transport equals it, with a category filter every
/// server's category contains it, both ignoring case; it runs from most to
/// fewest downloads; and it is no longer than the limit (15 by default, 100
/// at most).
pub proof fn law_trending(servers: Seq<(ServerEntry, String)>, category: Option<String>, transport: Option<String>,
    limit: Option<usize>)
    ensures
        ({
            let t = trending_spec(servers, category, transport, limit);
            &&& t.len() <= limit_of(limit, 15, 100)
            &&& forall|k: int| 0 <= k < t.len() ==> servers.contains(#[trigger] t[k])
                && trending_keep(t[k].0, t[k].1@, category, transport)
            &&& forall|k: int| 0 <= k < t.len() ==> (transport matches Some(x) ==> lower((#[trigger] t[k]).0.transport@) == lower(x@))
            &&& forall|k: int| 0 <= k < t.len() ==> (category matches Some(c) ==> contains_seq(lower((#[trigger] t[k]).1@), lower(c@)))
            &&& forall|a: int, b: int| 0 <= a < b < t.len() ==> (#[trigger] t[a]).0.downloads >= (#[trigger] t[b]).0.downloads
        }),
{
    let z = zip_keys(servers, servers.map_values(|p: (ServerEntry, String)| p.0.downloads as int));
    lemma_sort_desc(z);
    let sz = sort_by(z, int_desc());
    let sorted = firsts(sz);
    assert forall|k: int| 0 <= k < sz.len() implies servers.contains((#[trigger] sz[k]).0) && sz[k].1 == sz[k].0.0.downloads by {
        assert(sz.contains(sz[k]));
        assert(z.contains(sz[k]));
        let j = choose|j: int| 0 <= j < z.len() && z[j] == sz[k];
        assert(servers[j] == sz[k].0);
    }
    let mask = Seq::new(sorted.len(), |i: int| trending_keep(sorted[i].0, sorted[i].1@, category, transport));
    let kept = masked(sorted, mask);
    let before = |x: (ServerEntry, String), y: (ServerEntry, String)| x.0.downloads >= y.0.downloads && servers.contains(x) && servers.contains(y);
    assert forall|i: int, j: int| 0 <= i < j < sorted.len() implies before(#[trigger] sorted[i], #[trigger] sorted[j]) by {
        assert(sorted[i] == sz[i].0 && sorted[j] == sz[j].0);
        assert(sz[i].1 >= sz[j].1);
    }
    lemma_masked_keeps_order(sorted, mask, before);
    lemma_masked_from(sorted, mask);
    let t = trending_spec(servers, category, transport, limit);
    assert(t == at_most(kept, limit_of(limit, 15, 100)));
    assert forall|k: int| 0 <= k < t.len() implies servers.contains(#[trigger] t[k]) && trending_keep(t[k].0, t[k].1@, category, transport) by {
        assert(t[k] == kept[k]);
        assert(kept_from(sorted, mask, kept[k]));
        let i = choose|i: int| 0 <= i < mask.len() && mask[i] && sorted[i] == kept[k];
        assert(sorted[i] == sz[i].0);
    }
    assert forall|a: int, b: int| 0 <= a < b < t.len() implies (#[trigger] t[a]).0.downloads >= (#[trigger] t[b]).0.downloads by {
        assert(t[a] == kept[a] && t[b] == kept[b]);
        assert(before(kept[a], kept[b]));
    }
}

} // verus!
