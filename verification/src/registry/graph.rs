//! The tool-sharing graph: pairs of servers that declare the same tool
//! names.

use vstd::prelude::*;
use crate::order::{firsts, int_desc, lemma_sort_desc, on_first, sort_by, sort_by_int_desc, zip_keys};
use crate::registry::compare::{at_most, common, common_texts, distinct, distinct_texts};
use crate::registry::entry::{full_name_of, ServerEntry};
use crate::registry::index::{group_by_name, holders, index_view, ordered};
use crate::registry::listing::{clamp_limit, limit_of};
use crate::registry::row::pair_texts;
use crate::registry::validate::texts;

verus! {

/// An edge of the graph: two servers by full name and the tool names they
/// share.
pub open spec fn edge_of(servers: Seq<ServerEntry>, i: int, j: int) -> (Seq<char>, Seq<char>, Seq<Seq<char>>) {
    (full_name_of(servers[i].owner@, servers[i].name@), full_name_of(servers[j].owner@, servers[j].name@),
        common(texts(servers[i].tools@), texts(servers[j].tools@)))
}

/// Whether servers `i` and `j` are joined: `i` declares some tool and they
/// share at least `min_shared` tool names.
pub open spec fn joined_pair(servers: Seq<ServerEntry>, min_shared: nat, i: int, j: int) -> bool {
    distinct(texts(servers[i].tools@)).len() > 0
        && common(texts(servers[i].tools@), texts(servers[j].tools@)).len() >= min_shared
}

/// The edges from server `i` to the later servers `i + 1 .. i + 1 + m`.
pub open spec fn row_edges(servers: Seq<ServerEntry>, min_shared: nat, i: int, m: nat) -> Seq<(Seq<char>, Seq<char>, Seq<Seq<char>>)>
    decreases m,
{
    if m == 0 {
        Seq::empty()
    } else {
        let j = i + m;
        row_edges(servers, min_shared, i, (m - 1) as nat)
            + if joined_pair(servers, min_shared, i, j) { seq![edge_of(servers, i, j)] } else { Seq::empty() }
    }
}

/// Every edge from the first `n` servers, in scan order (by first server,
/// then by second).
pub open spec fn all_edges(servers: Seq<ServerEntry>, min_shared: nat, n: nat) -> Seq<(Seq<char>, Seq<char>, Seq<Seq<char>>)>
    decreases n,
{
    if n == 0 {
        Seq::empty()
    } else {
        let i = n - 1;
        all_edges(servers, min_shared, (n - 1) as nat) + row_edges(servers, min_shared, i, (servers.len() - 1 - i) as nat)
    }
}

/// The edges of the graph: the first `limit` (50 by default, 200 at most)
/// in scan order, then ordered by shared tools, most first (ties keep the
/// scan order). Pairs need `min_shared` (1 by default) shared tool names.
pub open spec fn graph_edges(servers: Seq<ServerEntry>, min_shared: Option<usize>, limit: Option<usize>) -> Seq<(Seq<char>, Seq<char>, Seq<Seq<char>>)> {
    let m: nat = match min_shared { Some(x) => x as nat, None => 1 };
    let raw = at_most(all_edges(servers, m, servers.len()), limit_of(limit, 50, 200));
    firsts(sort_by(zip_keys(raw, raw.map_values(|e: (Seq<char>, Seq<char>, Seq<Seq<char>>)| e.2.len() as int)), int_desc()))
}

/// The view of an edge.
pub open spec fn edge_view(e: (String, String, Vec<String>)) -> (Seq<char>, Seq<char>, Seq<Seq<char>>) {
    (e.0@, e.1@, texts(e.2@))
}

/// The view of edges.
pub open spec fn edges_view(v: Seq<(String, String, Vec<String>)>) -> Seq<(Seq<char>, Seq<char>, Seq<Seq<char>>)> {
    v.map_values(|e: (String, String, Vec<String>)| edge_view(e))
}

/// The view of one edge, as a function.
pub open spec fn edge_view_fn() -> spec_fn((String, String, Vec<String>)) -> (Seq<char>, Seq<char>, Seq<Seq<char>>) {
    |e: (String, String, Vec<String>)| edge_view(e)
}

proof fn lemma_edges_sorted(v: Seq<(String, String, Vec<String>)>, keys: Seq<i128>)
    requires
        keys.len() == v.len(),
        forall|t: int| 0 <= t < v.len() ==> #[trigger] keys[t] == v[t].2.len(),
    ensures
        edges_view(firsts(sort_by(zip_keys(v, keys.map_values(|k: i128| k as int)), int_desc())))
            == firsts(sort_by(zip_keys(edges_view(v), edges_view(v).map_values(|e: (Seq<char>, Seq<char>, Seq<Seq<char>>)| e.2.len() as int)), int_desc())),
{
    let f = edge_view_fn();
    let kz = keys.map_values(|k: i128| k as int);
    let z = zip_keys(v, kz);
    let ev = edges_view(v);
    crate::order::lemma_sort_by_map(z, int_desc(), f);
    assert(z.map_values(on_first(f)) =~= zip_keys(ev, ev.map_values(|e: (Seq<char>, Seq<char>, Seq<Seq<char>>)| e.2.len() as int)));
    let sz = sort_by(z, int_desc());
    assert(edges_view(firsts(sz)) =~= firsts(sz.map_values(on_first(f))));
}

/// Some occurrence has `x` as its item.
pub open spec fn has_first(o: Seq<(Seq<char>, Seq<char>)>, x: Seq<char>) -> bool {
    exists|q: int| 0 <= q < o.len() && o[q].0 == x
}

/// `x` is an endpoint of one of the first `n` edges.
pub open spec fn is_endpoint(ev: Seq<(Seq<char>, Seq<char>, Seq<Seq<char>>)>, n: int, x: Seq<char>) -> bool {
    exists|k: int| 0 <= k < n && (ev[k].0 == x || ev[k].1 == x)
}

fn full_name_exec(s: &ServerEntry) -> (r: String)
    ensures
        r@ == full_name_of(s.owner@, s.name@),
{
    s.full_name()
}

/// Builds the tool-sharing graph over a listing (see `graph_edges`); the
/// nodes are the servers on some edge, in name order, each once.
pub fn tool_graph(servers: &Vec<ServerEntry>, min_shared: Option<usize>, limit: Option<usize>) -> (r: (Vec<(String, String, Vec<String>)>, Vec<String>))
    ensures
        edges_view(r.0@) == graph_edges(servers@, min_shared, limit),
        ({
            let nodes = texts(r.1@);
            let ev = edges_view(r.0@);
            &&& forall|a: int, b: int| 0 <= a < b < nodes.len() ==> crate::registry::index::lex_lt(#[trigger] nodes[a], #[trigger] nodes[b])
            &&& forall|x: Seq<char>| nodes.contains(x) <==> #[trigger] is_endpoint(ev, ev.len() as int, x)
        }),
{
    let n = servers.len();
    let m: usize = match min_shared {
        Some(x) => x,
        None => 1,
    };
    let mut edges: Vec<(String, String, Vec<String>)> = Vec::new();
    let mut i: usize = 0;
    while i < n
        invariant
            n == servers.len(),
            i <= n,
            edges_view(edges@) == all_edges(servers@, m as nat, i as nat),
        decreases n - i,
    {
        let ghost base = edges_view(edges@);
        let di = distinct_texts(&servers[i].tools);
        let mut j: usize = i + 1;
        while j < n
            invariant
                n == servers.len(),
                i < n,
                i + 1 <= j <= n,
                texts(di@) == distinct(texts(servers@[i as int].tools@)),
                edges_view(edges@) == base + row_edges(servers@, m as nat, i as int, (j - i - 1) as nat),
            decreases n - j,
        {
            let shared = common_texts(&servers[i].tools, &servers[j].tools);
            let ghost before = edges_view(edges@);
            if di.len() > 0 && shared.len() >= m {
                let a = full_name_exec(&servers[i]);
                let b = full_name_exec(&servers[j]);
                edges.push((a, b, shared));
                assert(edges_view(edges@) =~= before.push(edge_of(servers@, i as int, j as int)));
                assert(base + row_edges(servers@, m as nat, i as int, (j - i) as nat)
                    =~= base + row_edges(servers@, m as nat, i as int, (j - i - 1) as nat) + seq![edge_of(servers@, i as int, j as int)]);
            } else {
                assert(base + row_edges(servers@, m as nat, i as int, (j - i) as nat)
                    =~= base + row_edges(servers@, m as nat, i as int, (j - i - 1) as nat));
            }
            j = j + 1;
        }
        assert(all_edges(servers@, m as nat, (i + 1) as nat) =~= base + row_edges(servers@, m as nat, i as int, (n - 1 - i) as nat));
        i = i + 1;
    }
    let lim = clamp_limit(limit, 50, 200);
    let ghost whole = edges_view(edges@);
    edges.truncate(lim);
    proof {
        if (lim as nat) < whole.len() {
            assert(edges_view(edges@) =~= whole.take(lim as int));
        } else {
            assert(edges_view(edges@) =~= whole);
        }
    }
    let mut keys: Vec<i128> = Vec::new();
    let mut k: usize = 0;
    while k < edges.len()
        invariant
            k <= edges.len(),
            keys.len() == k,
            forall|t: int| 0 <= t < k ==> #[trigger] keys@[t] == edges@[t].2.len(),
        decreases edges.len() - k,
    {
        keys.push(edges[k].2.len() as i128);
        k = k + 1;
    }
    let ghost raw = edges@;
    let sorted = sort_by_int_desc(edges, keys);
    proof {
        lemma_edges_sorted(raw, keys@);
        let rv = edges_view(raw);
        assert(rv.map_values(|e: (Seq<char>, Seq<char>, Seq<Seq<char>>)| e.2.len() as int)
            =~= rv.map_values(|e: (Seq<char>, Seq<char>, Seq<Seq<char>>)| e.2.len() as int));
    }
    // the nodes: every endpoint once, in name order
    let mut occ: Vec<(String, String)> = Vec::new();
    let mut t: usize = 0;
    let ghost sv = edges_view(sorted@);
    while t < sorted.len()
        invariant
            t <= sorted.len(),
            sv == edges_view(sorted@),
            forall|q: int| 0 <= q < occ.len() ==> (#[trigger] pair_texts(occ@)[q]).0 == pair_texts(occ@)[q].1,
            forall|x: Seq<char>| #[trigger] has_first(pair_texts(occ@), x) <==> is_endpoint(sv, t as int, x),
        decreases sorted.len() - t,
    {
        let ghost before = pair_texts(occ@);
        let a = sorted[t].0.clone();
        let b = sorted[t].1.clone();
        occ.push((a.clone(), a));
        occ.push((b.clone(), b));
        proof {
            let now = pair_texts(occ@);
            assert(now =~= before.push((sv[t as int].0, sv[t as int].0)).push((sv[t as int].1, sv[t as int].1)));
            assert forall|x: Seq<char>| #[trigger] has_first(now, x) <==> is_endpoint(sv, t + 1, x) by {
                if has_first(now, x) {
                    let q = choose|q: int| 0 <= q < now.len() && now[q].0 == x;
                    if q < before.len() {
                        assert(before[q].0 == x);
                        assert(has_first(before, x));
                        let k = choose|k: int| 0 <= k < t && (sv[k].0 == x || sv[k].1 == x);
                        assert(0 <= k < t + 1 && (sv[k].0 == x || sv[k].1 == x));
                    } else {
                        assert(sv[t as int].0 == x || sv[t as int].1 == x);
                    }
                }
                if is_endpoint(sv, t + 1, x) {
                    let k = choose|k: int| 0 <= k < t + 1 && (sv[k].0 == x || sv[k].1 == x);
                    if k < t {
                        assert(is_endpoint(sv, t as int, x));
                        assert(has_first(before, x));
                        let q = choose|q: int| 0 <= q < before.len() && before[q].0 == x;
                        assert(now[q] == before[q]);
                    } else if sv[k].0 == x {
                        assert(now[before.len() as int].0 == x);
                    } else {
                        assert(now[before.len() + 1int].0 == x);
                    }
                }
            }
        }
        t = t + 1;
    }
    let groups = group_by_name(&occ);
    let mut nodes: Vec<String> = Vec::new();
    let mut g: usize = 0;
    let ghost gv = index_view(groups@);
    while g < groups.len()
        invariant
            g <= groups.len(),
            gv == index_view(groups@),
            texts(nodes@) == gv.map_values(|p: (Seq<char>, Seq<Seq<char>>)| p.0).take(g as int),
        decreases groups.len() - g,
    {
        let ghost before = texts(nodes@);
        nodes.push(groups[g].0.clone());
        assert(texts(nodes@) =~= before.push(gv[g as int].0));
        assert(gv.map_values(|p: (Seq<char>, Seq<Seq<char>>)| p.0).take(g + 1)
            =~= gv.map_values(|p: (Seq<char>, Seq<Seq<char>>)| p.0).take(g as int).push(gv[g as int].0));
        g = g + 1;
    }
    proof {
        let nv = texts(nodes@);
        let o = pair_texts(occ@);
        assert(nv =~= gv.map_values(|p: (Seq<char>, Seq<Seq<char>>)| p.0));
        assert forall|a: int, b: int| 0 <= a < b < nv.len() implies crate::registry::index::lex_lt(#[trigger] nv[a], #[trigger] nv[b]) by {
            assert(crate::registry::index::before(true, gv[a], gv[b]));
        }
        assert forall|x: Seq<char>| nv.contains(x) <==> #[trigger] is_endpoint(sv, sv.len() as int, x) by {
            if nv.contains(x) {
                let a = choose|a: int| 0 <= a < nv.len() && nv[a] == x;
                assert(gv[a].0 == x);
                assert(holders(o, x).len() > 0);
                assert(o.filter(crate::registry::index::of_item(x)).len() > 0);
                lemma_filter_witness(o, x);
                assert(has_first(o, x));
            }
            if is_endpoint(sv, sv.len() as int, x) {
                assert(has_first(o, x));
                let q = choose|q: int| 0 <= q < o.len() && o[q].0 == x;
                o.lemma_filter_contains(crate::registry::index::of_item(x), q);
                assert(holders(o, x).len() > 0);
                let a = choose|a: int| 0 <= a < gv.len() && gv[a].0 == x;
                assert(nv[a] == x);
            }
        }
    }
    (sorted, nodes)
}

proof fn lemma_filter_witness(o: Seq<(Seq<char>, Seq<char>)>, x: Seq<char>)
    requires
        o.filter(crate::registry::index::of_item(x)).len() > 0,
    ensures
        has_first(o, x),
    decreases o.len(),
{
    let p = crate::registry::index::of_item(x);
    if o.len() > 0 {
        o.drop_last().lemma_filter_push(o.last(), p);
        assert(o.drop_last().push(o.last()) =~= o);
        if p(o.last()) {
            assert(o[o.len() - 1].0 == x);
        } else {
            lemma_filter_witness(o.drop_last(), x);
            let q = choose|q: int| 0 <= q < o.drop_last().len() && o.drop_last()[q].0 == x;
            assert(o[q].0 == x);
        }
    } else {
        assert(o.filter(p) =~= o);
    }
}

proof fn lemma_row_edges_shared(servers: Seq<ServerEntry>, min_shared: nat, i: int, m: nat)
    ensures
        forall|k: int| 0 <= k < row_edges(servers, min_shared, i, m).len()
            ==> (#[trigger] row_edges(servers, min_shared, i, m)[k]).2.len() >= min_shared,
    decreases m,
{
    if m > 0 {
        lemma_row_edges_shared(servers, min_shared, i, (m - 1) as nat);
        let prev = row_edges(servers, min_shared, i, (m - 1) as nat);
        let r = row_edges(servers, min_shared, i, m);
        assert forall|k: int| 0 <= k < r.len() implies (#[trigger] r[k]).2.len() >= min_shared by {
            if k < prev.len() {
                assert(r[k] == prev[k]);
            }
        }
    }
}

proof fn lemma_all_edges_shared(servers: Seq<ServerEntry>, min_shared: nat, n: nat)
    ensures
        forall|k: int| 0 <= k < all_edges(servers, min_shared, n).len()
            ==> (#[trigger] all_edges(servers, min_shared, n)[k]).2.len() >= min_shared,
    decreases n,
{
    if n > 0 {
        lemma_all_edges_shared(servers, min_shared, (n - 1) as nat);
        let i = n - 1;
        let prev = all_edges(servers, min_shared, (n - 1) as nat);
        let row = row_edges(servers, min_shared, i, (servers.len() - 1 - i) as nat);
        lemma_row_edges_shared(servers, min_shared, i, (servers.len() - 1 - i) as nat);
        let r = all_edges(servers, min_shared, n);
        assert forall|k: int| 0 <= k < r.len() implies (#[trigger] r[k]).2.len() >= min_shared by {
            if k < prev.len() {
                assert(r[k] == prev[k]);
            } else {
                assert(r[k] == row[k - prev.len()]);
            }
        }
    }
}

/// Every edge of the tool graph joins servers sharing at least `min_shared`
/// tool names (1 by default); the edges run from most to fewest shared
/// tools; and there are no more than the limit (50 by default, 200 at
/// most).
pub proof fn law_graph_edges(servers: Seq<ServerEntry>, min_shared: Option<usize>, limit: Option<usize>)
    ensures
        ({
            let g = graph_edges(servers, min_shared, limit);
            let m: nat = match min_shared { Some(x) => x as nat, None => 1 };
            &&& g.len() <= limit_of(limit, 50, 200)
            &&& forall|k: int| 0 <= k < g.len() ==> (#[trigger] g[k]).2.len() >= m
            &&& forall|a: int, b: int| 0 <= a < b < g.len() ==> (#[trigger] g[a]).2.len() >= (#[trigger] g[b]).2.len()
        }),
{
    let m: nat = match min_shared { Some(x) => x as nat, None => 1 };
    let all = all_edges(servers, m, servers.len());
    lemma_all_edges_shared(servers, m, servers.len());
    let raw = at_most(all, limit_of(limit, 50, 200));
    assert forall|k: int| 0 <= k < raw.len() implies (#[trigger] raw[k]).2.len() >= m by {
        assert(raw[k] == all[k]);
    }
    let z = zip_keys(raw, raw.map_values(|e: (Seq<char>, Seq<char>, Seq<Seq<char>>)| e.2.len() as int));
    lemma_sort_desc(z);
    let sz = sort_by(z, int_desc());
    let g = graph_edges(servers, min_shared, limit);
    assert(g == firsts(sz));
    assert forall|k: int| 0 <= k < sz.len() implies (#[trigger] sz[k]).0.2.len() >= m && sz[k].1 == sz[k].0.2.len() by {
        assert(sz.contains(sz[k]));
        assert(z.contains(sz[k]));
        let j = choose|j: int| 0 <= j < z.len() && z[j] == sz[k];
        assert(raw[j] == sz[k].0);
    }
    assert forall|k: int| 0 <= k < g.len() implies (#[trigger] g[k]).2.len() >= m by {
        assert(g[k] == sz[k].0);
    }
    assert forall|a: int, b: int| 0 <= a < b < g.len() implies (#[trigger] g[a]).2.len() >= (#[trigger] g[b]).2.len() by {
        assert(g[a] == sz[a].0 && g[b] == sz[b].0);
        assert(sz[a].1 >= sz[b].1);
    }
}

} // verus!
