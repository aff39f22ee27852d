//! The small decisions of the registry's listing routes: limits and pages,
//! filtering of indexes, `owner/name` references, version lookups, and the
//! schema upgrades of an older database.

use vstd::prelude::*;
use vstd::string::StringExecFns;
use crate::error::McpRegError;
use crate::order::{masked, retain_masked};
use crate::registry::compare::at_most;
use crate::registry::entry::{full_name_of, ServerEntry};
use crate::registry::index::{index_view, lex_lt};
use crate::order::{lemma_lex_total, lemma_lex_trans, lex_le, lex_le_exec};
use crate::registry::validate::texts;
use crate::text::{chars_of, ci_contains, contains_ci, lower, lower_chars, string_of};

verus! {

/// A requested limit: the default when none is given, never above `max`.
pub open spec fn limit_of(limit: Option<usize>, default: nat, max: nat) -> nat {
    let l: nat = match limit { Some(l) => l as nat, None => default };
    if l < max { l } else { max }
}

/// `limit.unwrap_or(default).min(max)`.
pub fn clamp_limit(limit: Option<usize>, default: usize, max: usize) -> (r: usize)
    ensures
        r == limit_of(limit, default as nat, max as nat),
{
    let l = match limit {
        Some(l) => l,
        None => default,
    };
    if l < max { l } else { max }
}

/// The page and page size of a listing: page 1 by default and at least 1,
/// 20 per page by default and at most 100.
pub fn page_bounds(page: Option<usize>, per_page: Option<usize>) -> (r: (usize, usize))
    ensures
        r.0 == (match page { Some(p) => if p < 1 { 1 } else { p as int }, None => 1 }),
        r.1 == limit_of(per_page, 20, 100),
{
    let p = match page {
        Some(p) => if p < 1 { 1 } else { p },
        None => 1,
    };
    (p, clamp_limit(per_page, 20, 100))
}

/// How many rows a page skips: `(page - 1) * per_page`, page 0 read as 1.
pub fn page_offset(page: usize, per_page: usize) -> (r: usize)
    requires
        (if page == 0 { 0 } else { page - 1 }) * per_page <= usize::MAX,
    ensures
        r == (if page == 0 { 0 } else { page - 1 }) * per_page,
{
    let before = if page == 0 { 0 } else { page - 1 };
    before * per_page
}

/// Whether an index entry's name matches the optional filter
/// (case-insensitive substring).
pub open spec fn name_filter(name: Seq<char>, q: Option<String>) -> bool {
    match q {
        Some(x) => ci_contains(name, lower(x@)),
        None => true,
    }
}

/// The filter decisions over an index.
pub open spec fn index_mask(idx: Seq<(Seq<char>, Seq<Seq<char>>)>, q: Option<String>) -> Seq<bool> {
    Seq::new(idx.len(), |i: int| name_filter(idx[i].0, q))
}

/// Narrows an index listing to names containing `q` (if given, ignoring
/// case), and returns the page of at most `limit` entries (100 by default,
/// 500 at most) with the number that matched.
pub fn filter_index(idx: Vec<(String, Vec<String>)>, q: &Option<String>, limit: Option<usize>) -> (r: (Vec<(String, Vec<String>)>, usize))
    ensures
        ({
            let kept = masked(index_view(idx@), index_mask(index_view(idx@), *q));
            &&& r.1 == kept.len()
            &&& index_view(r.0@) == at_most(kept, limit_of(limit, 100, 500))
        }),
{
    let ghost iv = index_view(idx@);
    let needle = match q {
        Some(x) => Some(lower_chars(x.as_str())),
        None => None,
    };
    let mut keep: Vec<bool> = Vec::new();
    let mut i: usize = 0;
    while i < idx.len()
        invariant
            i <= idx.len(),
            iv == index_view(idx@),
            q is None <==> needle is None,
            needle matches Some(n) ==> q matches Some(x) && n@ == lower(x@),
            keep@ == index_mask(iv, *q).take(i as int),
        decreases idx.len() - i,
    {
        let k = match &needle {
            Some(n) => contains_ci(idx[i].0.as_str(), n),
            None => true,
        };
        assert(iv[i as int].0 == idx@[i as int].0@);
        keep.push(k);
        assert(keep@ =~= index_mask(iv, *q).take(i + 1));
        i = i + 1;
    }
    assert(keep@ =~= index_mask(iv, *q));
    let kept = retain_masked(idx, &keep);
    proof {
        lemma_index_view_masked(idx@, keep@);
    }
    let total = kept.len();
    let lim = clamp_limit(limit, 100, 500);
    let mut out = kept;
    out.truncate(lim);
    proof {
        let kv = masked(iv, keep@);
        if (lim as nat) < kv.len() {
            assert(index_view(out@) =~= kv.take(lim as int));
        } else {
            assert(index_view(out@) =~= kv);
        }
    }
    (out, total)
}

proof fn lemma_index_view_masked(v: Seq<(String, Vec<String>)>, m: Seq<bool>)
    requires
        m.len() <= v.len(),
    ensures
        index_view(masked(v, m)) == masked(index_view(v), m),
        masked(index_view(v), m).len() == masked(v, m).len(),
    decreases m.len(),
{
    if m.len() > 0 {
        lemma_index_view_masked(v, m.drop_last());
        let rest = masked(v, m.drop_last());
        if m.last() {
            assert(index_view(rest.push(v[m.len() - 1])) =~= index_view(rest).push(index_view(v)[m.len() - 1]));
        }
    } else {
        assert(index_view(masked(v, m)) =~= masked(index_view(v), m));
    }
}

/// The first `/` of `s`, if any.
pub open spec fn first_slash(s: Seq<char>) -> Option<int> {
    if exists|i: int| 0 <= i < s.len() && s[i] == '/' {
        Some(choose|i: int| 0 <= i < s.len() && s[i] == '/' && forall|k: int| 0 <= k < i ==> s[k] != '/')
    } else {
        None
    }
}

/// An `owner/name` reference split at its first `/` (`splitn(2, '/')`); the
/// name may itself hold further slashes.
pub open spec fn split_ref_spec(s: Seq<char>) -> Option<(Seq<char>, Seq<char>)> {
    match first_slash(s) {
        Some(i) => Some((s.take(i), s.skip(i + 1))),
        None => None,
    }
}

/// Splits an `owner/name` reference at its first `/`; `None` without one.
pub fn split_ref(s: &str) -> (r: Option<(String, String)>)
    ensures
        match split_ref_spec(s@) {
            Some(p) => r matches Some(x) && x.0@ == p.0 && x.1@ == p.1,
            None => r is None,
        },
{
    let c = chars_of(s);
    let mut i: usize = 0;
    while i < c.len()
        invariant
            i <= c.len(),
            c@ == s@,
            forall|k: int| 0 <= k < i ==> c@[k] != '/',
        decreases c.len() - i,
    {
        if c[i] == '/' {
            let ghost w = i as int;
            assert(forall|k: int| 0 <= k < w ==> s@[k] != '/');
            assert(exists|j: int| 0 <= j < s@.len() && s@[j] == '/');
            let ghost f = choose|j: int| 0 <= j < s@.len() && s@[j] == '/' && forall|k: int| 0 <= k < j ==> s@[k] != '/';
            assert(f == w) by {
                if f < w {
                    assert(s@[f] != '/');
                } else if f > w {
                    assert(s@[w] != '/');
                }
            }
            let mut owner: Vec<char> = Vec::new();
            let mut k: usize = 0;
            while k < i
                invariant
                    k <= i,
                    i < c.len(),
                    owner@ == c@.take(k as int),
                decreases i - k,
            {
                owner.push(c[k]);
                assert(c@.take(k + 1) =~= c@.take(k as int).push(c@[k as int]));
                k = k + 1;
            }
            let mut name: Vec<char> = Vec::new();
            let mut m: usize = i + 1;
            while m < c.len()
                invariant
                    i + 1 <= m <= c.len(),
                    name@ == c@.subrange(i + 1, m as int),
                decreases c.len() - m,
            {
                name.push(c[m]);
                assert(c@.subrange(i + 1, m + 1) =~= c@.subrange(i + 1, m as int).push(c@[m as int]));
                m = m + 1;
            }
            assert(name@ =~= s@.skip(i + 1));
            return Some((string_of(owner.as_slice()), string_of(name.as_slice())));
        }
        i = i + 1;
    }
    None
}

/// A `/` at `j` means there is a first one.
proof fn lemma_first_slash_exists(s: Seq<char>, j: int)
    requires
        0 <= j < s.len(),
        s[j] == '/',
    ensures
        exists|i: int| 0 <= i < s.len() && s[i] == '/' && forall|k: int| 0 <= k < i ==> s[k] != '/',
    decreases j,
{
    if exists|k: int| 0 <= k < j && s[k] == '/' {
        let k = choose|k: int| 0 <= k < j && s[k] == '/';
        lemma_first_slash_exists(s, k);
    } else {
        assert(forall|k: int| 0 <= k < j ==> s[k] != '/');
    }
}

proof fn lemma_split_ref_parts(s: Seq<char>)
    ensures
        split_ref_spec(s) is None <==> !s.contains('/'),
        split_ref_spec(s) matches Some(p) ==> s == full_name_of(p.0, p.1) && !p.0.contains('/'),
{
    if exists|j: int| 0 <= j < s.len() && s[j] == '/' {
        let j = choose|j: int| 0 <= j < s.len() && s[j] == '/';
        lemma_first_slash_exists(s, j);
        let i = choose|i: int| 0 <= i < s.len() && s[i] == '/' && forall|k: int| 0 <= k < i ==> s[k] != '/';
        assert(first_slash(s) == Some(i));
        let o = s.take(i);
        let n = s.skip(i + 1);
        assert(full_name_of(o, n) =~= s);
        assert forall|k: int| 0 <= k < o.len() implies o[k] != '/' by {
            assert(o[k] == s[k]);
        }
    }
}

proof fn lemma_split_ref_join(owner: Seq<char>, name: Seq<char>)
    requires
        !owner.contains('/'),
    ensures
        split_ref_spec(full_name_of(owner, name)) == Some((owner, name)),
{
    let t = full_name_of(owner, name);
    let w = owner.len() as int;
    assert(t[w] == '/');
    assert(exists|i: int| 0 <= i < t.len() && t[i] == '/');
    let i = choose|i: int| 0 <= i < t.len() && t[i] == '/' && forall|k: int| 0 <= k < i ==> t[k] != '/';
    if i < w {
        assert(t[i] == owner[i]);
        assert(owner.contains(owner[i]));
    } else if i > w {
        assert(t[w] != '/');
    }
    assert(t.take(w) =~= owner);
    assert(t.skip(w + 1) =~= name);
}

/// Splitting a reference and joining it back agree: a reference splits
/// exactly when it holds a `/`, into an owner without `/` and the rest, with
/// `owner + "/" + name` giving back the reference; and joining an owner
/// without `/` to any name splits back into those two parts.
pub proof fn law_split_ref_roundtrip(s: Seq<char>, owner: Seq<char>, name: Seq<char>)
    ensures
        split_ref_spec(s) is None <==> !s.contains('/'),
        split_ref_spec(s) matches Some(p) ==> s == full_name_of(p.0, p.1) && !p.0.contains('/'),
        !owner.contains('/') ==> split_ref_spec(full_name_of(owner, name)) == Some((owner, name)),
{
    lemma_split_ref_parts(s);
    if !owner.contains('/') {
        lemma_split_ref_join(owner, name);
    }
}

/// The references of a batch request, each split or `None` if it is not of
/// the form `owner/name`: at most 50 per request.
pub fn parse_refs(refs: &Vec<String>) -> (r: Result<Vec<Option<(String, String)>>, McpRegError>)
    ensures
        refs.len() > 50 ==> (r matches Err(McpRegError::Validation(m)) && m@ == "Maximum 50 servers per batch request"@),
        refs.len() <= 50 ==> (r matches Ok(v) && v.len() == refs.len() && (forall|i: int| 0 <= i < v.len() ==>
            match split_ref_spec(#[trigger] refs@[i]@) {
                Some(p) => v@[i] matches Some(x) && x.0@ == p.0 && x.1@ == p.1,
                None => v@[i] is None,
            })),
{
    if refs.len() > 50 {
        return Err(McpRegError::Validation(String::from_str("Maximum 50 servers per batch request")));
    }
    let mut out: Vec<Option<(String, String)>> = Vec::new();
    let mut i: usize = 0;
    while i < refs.len()
        invariant
            i <= refs.len(),
            out.len() == i,
            forall|k: int| 0 <= k < i ==>
                match split_ref_spec(#[trigger] refs@[k]@) {
                    Some(p) => out@[k] matches Some(x) && x.0@ == p.0 && x.1@ == p.1,
                    None => out@[k] is None,
                },
        decreases refs.len() - i,
    {
        out.push(split_ref(refs[i].as_str()));
        i = i + 1;
    }
    Ok(out)
}

/// The version a diff is taken from: the requested one when it is non-empty
/// and among the server's published versions, otherwise `unknown`.
pub fn diff_from_version(from: &Option<String>, versions: &Vec<String>) -> (r: String)
    ensures
        r@ == (match from {
            Some(f) => if f@.len() > 0 && texts(versions@).contains(f@) { f@ } else { "unknown"@ },
            None => "unknown"@,
        }),
{
    match from {
        Some(f) => {
            if !f.as_str().is_empty() && crate::registry::compare::contains_text(versions, f) {
                f.clone()
            } else {
                String::from_str("unknown")
            }
        },
        None => String::from_str("unknown"),
    }
}

/// The deprecated servers of a listing, in order.
pub fn deprecated_servers(all: Vec<ServerEntry>) -> (r: Vec<ServerEntry>)
    ensures
        r@ == all@.filter(|s: ServerEntry| s.deprecated),
{
    let ghost a = all@;
    let ghost pred = |s: ServerEntry| s.deprecated;
    let mut keep: Vec<bool> = Vec::new();
    let mut i: usize = 0;
    while i < all.len()
        invariant
            i <= all.len(),
            keep.len() == i,
            forall|k: int| 0 <= k < i ==> keep[k] == all@[k].deprecated,
        decreases all.len() - i,
    {
        keep.push(all[i].deprecated);
        i = i + 1;
    }
    let r = retain_masked(all, &keep);
    proof {
        lemma_masked_filter(a, keep@, pred);
    }
    r
}

proof fn lemma_masked_filter(s: Seq<ServerEntry>, m: Seq<bool>, pred: spec_fn(ServerEntry) -> bool)
    requires
        m.len() == s.len(),
        forall|k: int| 0 <= k < m.len() ==> m[k] == pred(#[trigger] s[k]),
    ensures
        masked(s, m) == s.filter(pred),
    decreases m.len(),
{
    if m.len() > 0 {
        let s0 = s.drop_last();
        let m0 = m.drop_last();
        lemma_masked_filter(s0, m0, pred);
        assert(masked(s0, m0) == masked(s, m0)) by {
            lemma_masked_prefix(s, m0);
        }
        s0.lemma_filter_push(s.last(), pred);
        assert(s0.push(s.last()) =~= s);
    } else {
        assert(s =~= Seq::<ServerEntry>::empty());
    }
}

proof fn lemma_masked_prefix(s: Seq<ServerEntry>, m: Seq<bool>)
    requires
        m.len() < s.len(),
    ensures
        masked(s.drop_last(), m) == masked(s, m),
    decreases m.len(),
{
    if m.len() > 0 {
        lemma_masked_prefix(s, m.drop_last());
    }
}

/// A bulk import takes at most 500 entries.
pub fn check_import_size(n: usize) -> (r: Result<(), McpRegError>)
    ensures
        n <= 500 ==> r is Ok,
        n > 500 ==> (r matches Err(McpRegError::Validation(m)) && m@ == "maximum 500 servers per import"@),
{
    if n > 500 {
        Err(McpRegError::Validation(String::from_str("maximum 500 servers per import")))
    } else {
        Ok(())
    }
}

/// Whether an imported entry can be stored: it needs an owner and a name.
pub fn import_entry_ok(e: &ServerEntry) -> (r: bool)
    ensures
        r == (e.owner@.len() > 0 && e.name@.len() > 0),
{
    !e.owner.as_str().is_empty() && !e.name.as_str().is_empty()
}

/// Whether a server uses transport `t`.
pub open spec fn uses_transport(t: Seq<char>) -> spec_fn(ServerEntry) -> bool {
    |s: ServerEntry| s.transport@ == t
}

/// Some group of a grouping is named `t`.
pub open spec fn group_named(r: Seq<(String, Vec<ServerEntry>)>, t: Seq<char>) -> bool {
    exists|k: int| 0 <= k < r.len() && (#[trigger] r[k]).0@ == t
}

/// Some group is named `t`.
pub open spec fn has_group(keys: Seq<String>, t: Seq<char>) -> bool {
    exists|k: int| 0 <= k < keys.len() && (#[trigger] keys[k])@ == t
}

proof fn lemma_filter_none(s: Seq<ServerEntry>, t: Seq<char>)
    requires
        forall|q: int| 0 <= q < s.len() ==> (#[trigger] s[q]).transport@ != t,
    ensures
        s.filter(uses_transport(t)) == Seq::<ServerEntry>::empty(),
    decreases s.len(),
{
    if s.len() > 0 {
        let s0 = s.drop_last();
        assert forall|q: int| 0 <= q < s0.len() implies (#[trigger] s0[q]).transport@ != t by {
            assert(s0[q] == s[q]);
        }
        lemma_filter_none(s0, t);
        s0.lemma_filter_push(s.last(), uses_transport(t));
        assert(s0.push(s.last()) =~= s);
    } else {
        assert(s.filter(uses_transport(t)) =~= Seq::<ServerEntry>::empty());
    }
}

/// Groups a listing by transport: one group per transport used, groups in
/// ascending order of their transport, each holding every server of that
/// transport in listing order.
pub fn group_by_transport(all: Vec<ServerEntry>) -> (r: Vec<(String, Vec<ServerEntry>)>)
    ensures
        forall|a: int, b: int| 0 <= a < b < r.len() ==> lex_lt((#[trigger] r[a]).0@, (#[trigger] r[b]).0@),
        forall|k: int| 0 <= k < r.len() ==> (#[trigger] r[k]).1@ == all@.filter(uses_transport(r[k].0@)) && r[k].1.len() > 0,
        forall|q: int| 0 <= q < all.len() ==> group_named(r@, (#[trigger] all@[q]).transport@),
{
    let ghost all0 = all@;
    let n = all.len();
    let mut all = all;
    let mut keys: Vec<String> = Vec::new();
    let mut groups: Vec<Vec<ServerEntry>> = Vec::new();
    let mut i: usize = 0;
    while i < n
        invariant
            n == all0.len(),
            i <= n,
            all@ =~= all0.skip(i as int),
            keys.len() == groups.len(),
            forall|a: int, b: int| 0 <= a < b < keys.len() ==> lex_lt((#[trigger] keys[a])@, (#[trigger] keys[b])@),
            forall|k: int| 0 <= k < keys.len() ==> (#[trigger] groups[k])@ == all0.take(i as int).filter(uses_transport(keys[k]@))
                && groups[k].len() > 0,
            forall|q: int| 0 <= q < i ==> has_group(keys@, (#[trigger] all0[q]).transport@),
        decreases n - i,
    {
        let s = all.remove(0);
        assert(all0.skip(i as int).remove(0) =~= all0.skip(i + 1));
        assert(s == all0[i as int]);
        let ghost t = s.transport@;
        let ghost done = all0.take(i as int);
        assert(all0.take(i + 1) =~= done.push(s));
        let tc = crate::text::chars_of(s.transport.as_str());
        let mut pos: usize = 0;
        let mut found = false;
        while pos < keys.len()
            invariant_except_break
                !found,
            invariant
                pos <= keys.len(),
                tc@ == t,
                forall|a: int| 0 <= a < pos ==> lex_lt((#[trigger] keys[a])@, t),
            ensures
                found ==> pos < keys.len() && keys[pos as int]@ == t,
                !found ==> pos == keys.len() || (lex_le(t, keys[pos as int]@) && keys[pos as int]@ != t),
            decreases keys.len() - pos,
        {
            let kc = crate::text::chars_of(keys[pos].as_str());
            if crate::text::chars_eq(&kc, &tc) {
                found = true;
                break;
            }
            if !lex_le_exec(&kc, &tc) {
                proof {
                    lemma_lex_total(kc@, tc@);
                }
                break;
            }
            pos = pos + 1;
        }
        let ghost keys0 = keys@;
        let ghost groups0 = groups@;
        if found {
            let mut g = groups.remove(pos);
            g.push(s);
            groups.insert(pos, g);
            proof {
                assert forall|k: int| 0 <= k < keys.len() implies (#[trigger] groups[k])@ == all0.take(i + 1).filter(uses_transport(keys[k]@))
                    && groups[k].len() > 0 by {
                    done.lemma_filter_push(s, uses_transport(keys[k]@));
                    if k != pos {
                        assert(groups[k] == groups0[k]);
                        if keys[k]@ == t {
                            if k < pos {
                                assert(lex_lt(keys[k]@, keys[pos as int]@));
                            } else {
                                assert(lex_lt(keys[pos as int]@, keys[k]@));
                            }
                        }
                    }
                }
                assert forall|q: int| 0 <= q < i + 1 implies has_group(keys@, (#[trigger] all0[q]).transport@) by {
                    if q == i {
                        assert(keys[pos as int]@ == all0[q].transport@);
                    }
                }
            }
        } else {
            proof {
                assert forall|q: int| 0 <= q < done.len() implies (#[trigger] done[q]).transport@ != t by {
                    assert(done[q] == all0[q]);
                    assert(has_group(keys@, all0[q].transport@));
                    let k = choose|k: int| 0 <= k < keys.len() && (#[trigger] keys[k])@ == all0[q].transport@;
                    if keys[k]@ == t {
                        if k < pos {
                            assert(lex_lt(keys[k]@, t));
                        } else {
                            if k > pos {
                                assert(lex_lt(keys[pos as int]@, keys[k]@));
                                lemma_lex_trans(t, keys[pos as int]@, keys[k]@);
                                lemma_lex_total(t, keys[pos as int]@);
                            }
                        }
                    }
                }
                lemma_filter_none(done, t);
                done.lemma_filter_push(s, uses_transport(t));
            }
            let key = s.transport.clone();
            let mut g: Vec<ServerEntry> = Vec::new();
            g.push(s);
            keys.insert(pos, key);
            groups.insert(pos, g);
            proof {
                assert(keys[pos as int]@ == t);
                assert forall|a: int, b: int| 0 <= a < b < keys.len() implies lex_lt((#[trigger] keys[a])@, (#[trigger] keys[b])@) by {
                    if b < pos {
                        assert(keys[a] == keys0[a] && keys[b] == keys0[b]);
                    } else if b == pos {
                        assert(keys[a] == keys0[a]);
                    } else if a == pos {
                        assert(keys[b] == keys0[b - 1]);
                        if b - 1 > pos {
                            assert(lex_lt(keys0[pos as int]@, keys0[b - 1]@));
                            lemma_lex_trans(t, keys0[pos as int]@, keys0[b - 1]@);
                            lemma_lex_total(t, keys0[pos as int]@);
                        }
                    } else if a < pos {
                        assert(keys[a] == keys0[a] && keys[b] == keys0[b - 1]);
                    } else {
                        assert(keys[a] == keys0[a - 1] && keys[b] == keys0[b - 1]);
                    }
                }
                assert forall|k: int| 0 <= k < keys.len() implies (#[trigger] groups[k])@ == all0.take(i + 1).filter(uses_transport(keys[k]@))
                    && groups[k].len() > 0 by {
                    if k == pos {
                        assert(groups[k]@ =~= seq![s]);
                        assert(Seq::<ServerEntry>::empty().push(s) =~= seq![s]);
                    } else {
                        let k0 = if k < pos { k } else { k - 1 };
                        assert(keys[k] == keys0[k0] && groups[k] == groups0[k0]);
                        done.lemma_filter_push(s, uses_transport(keys0[k0]@));
                        assert(keys0[k0]@ != t);
                    }
                }
                assert forall|q: int| 0 <= q < i + 1 implies has_group(keys@, (#[trigger] all0[q]).transport@) by {
                    if q == i {
                        assert(keys[pos as int]@ == all0[q].transport@);
                    } else {
                        let k = choose|k: int| 0 <= k < keys0.len() && (#[trigger] keys0[k])@ == all0[q].transport@;
                        if k < pos {
                            assert(keys[k] == keys0[k]);
                        } else {
                            assert(keys[k + 1] == keys0[k]);
                        }
                    }
                }
            }
        }
        i = i + 1;
    }
    assert(all0.take(n as int) =~= all0);
    let mut r: Vec<(String, Vec<ServerEntry>)> = Vec::new();
    let ghost keys_f = keys@;
    let ghost groups_f = groups@;
    let mut keys = keys;
    let mut groups = groups;
    let m = keys.len();
    let mut j: usize = 0;
    while j < m
        invariant
            m == keys_f.len(),
            keys_f.len() == groups_f.len(),
            j <= m,
            keys@ =~= keys_f.skip(j as int),
            groups@ =~= groups_f.skip(j as int),
            r.len() == j,
            forall|k: int| 0 <= k < j ==> (#[trigger] r[k]).0 == keys_f[k] && r[k].1 == groups_f[k],
        decreases m - j,
    {
        let k = keys.remove(0);
        let g = groups.remove(0);
        assert(keys_f.skip(j as int).remove(0) =~= keys_f.skip(j + 1));
        assert(groups_f.skip(j as int).remove(0) =~= groups_f.skip(j + 1));
        r.push((k, g));
        j = j + 1;
    }
    proof {
        assert forall|q: int| 0 <= q < all0.len() implies group_named(r@, (#[trigger] all0[q]).transport@) by {
            assert(has_group(keys_f, all0[q].transport@));
            let k = choose|k: int| 0 <= k < keys_f.len() && (#[trigger] keys_f[k])@ == all0[q].transport@;
            assert(r[k].0 == keys_f[k]);
        }
    }
    r
}

} // verus!
