//! Registry-wide indexes: every tool (or prompt, tag, resource) name with
//! the servers that declare it, most widely declared first.

use vstd::prelude::*;
use crate::order::{lemma_lex_total, lemma_lex_trans, lex_le, lex_le_exec};
use crate::registry::entry::full_name_of;
use crate::registry::row::{list_column, pair_texts, stored_list};
use crate::registry::validate::texts;
use crate::text::{cat3, chars_of};

verus! {

/// Every (item, server) occurrence of a listing, in row order: each row
/// is an owner, a name and the JSON list of its items.
pub open spec fn occurrences(rows: Seq<(String, String, String)>) -> Seq<(Seq<char>, Seq<char>)> {
    rows.flat_map(|row: (String, String, String)| row_occurrences(row))
}

/// The (item, server) occurrences of one row.
pub open spec fn row_occurrences(row: (String, String, String)) -> Seq<(Seq<char>, Seq<char>)> {
    stored_list(row.2@).map_values(|it: Seq<char>| (it, full_name_of(row.0@, row.1@)))
}

/// Is an occurrence one of `item`?
pub open spec fn of_item(item: Seq<char>) -> spec_fn((Seq<char>, Seq<char>)) -> bool {
    |p: (Seq<char>, Seq<char>)| p.0 == item
}

/// The server of an occurrence.
pub open spec fn server_part() -> spec_fn((Seq<char>, Seq<char>)) -> Seq<char> {
    |p: (Seq<char>, Seq<char>)| p.1
}

/// The servers declaring `item`, once per declaration, in row order.
pub open spec fn holders(occ: Seq<(Seq<char>, Seq<char>)>, item: Seq<char>) -> Seq<Seq<char>> {
    occ.filter(of_item(item)).map_values(server_part())
}

/// Strict lexicographic order.
pub open spec fn lex_lt(a: Seq<char>, b: Seq<char>) -> bool {
    lex_le(a, b) && a != b
}

/// The index order: more servers first, then by name.
pub open spec fn ranked_before(a: (Seq<char>, Seq<Seq<char>>), b: (Seq<char>, Seq<Seq<char>>)) -> bool {
    a.1.len() > b.1.len() || (a.1.len() == b.1.len() && lex_lt(a.0, b.0))
}

/// `r` indexes the occurrences: one entry per distinct item, holding the
/// servers that declare it, ordered by `ranked_before`.
pub open spec fn is_index(r: Seq<(Seq<char>, Seq<Seq<char>>)>, occ: Seq<(Seq<char>, Seq<char>)>) -> bool {
    &&& forall|i: int| 0 <= i < r.len() ==> (#[trigger] r[i]).1 == holders(occ, r[i].0) && r[i].1.len() > 0
    &&& forall|i: int, j: int| 0 <= i < j < r.len() ==> ranked_before(#[trigger] r[i], #[trigger] r[j])
    &&& forall|k: int| 0 <= k < occ.len() ==> has_key(r, (#[trigger] occ[k]).0)
}

/// Some entry of the index is for `key`.
pub open spec fn has_key(r: Seq<(Seq<char>, Seq<Seq<char>>)>, key: Seq<char>) -> bool {
    exists|i: int| 0 <= i < r.len() && r[i].0 == key
}

/// The view of an index entry.
pub open spec fn entry_view(g: (String, Vec<String>)) -> (Seq<char>, Seq<Seq<char>>) {
    (g.0@, texts(g.1@))
}

/// The view of an index.
pub open spec fn index_view(v: Seq<(String, Vec<String>)>) -> Seq<(Seq<char>, Seq<Seq<char>>)> {
    v.map_values(|g: (String, Vec<String>)| entry_view(g))
}

proof fn lemma_ranked_trans(a: (Seq<char>, Seq<Seq<char>>), b: (Seq<char>, Seq<Seq<char>>), c: (Seq<char>, Seq<Seq<char>>))
    requires
        ranked_before(a, b),
        ranked_before(b, c),
    ensures
        ranked_before(a, c),
{
    if a.1.len() == b.1.len() && b.1.len() == c.1.len() {
        lemma_lex_trans(a.0, b.0, c.0);
        lemma_lex_total(a.0, b.0);
        lemma_lex_total(b.0, c.0);
        if a.0 == c.0 {
            lemma_lex_total(a.0, b.0);
        }
    }
}

proof fn lemma_ranked_total(a: (Seq<char>, Seq<Seq<char>>), b: (Seq<char>, Seq<Seq<char>>))
    requires
        a.0 != b.0,
    ensures
        ranked_before(a, b) || ranked_before(b, a),
        !(ranked_before(a, b) && ranked_before(b, a)),
{
    lemma_lex_total(a.0, b.0);
}

/// The order of a listing: by name when `by_name`, else by `ranked_before`.
pub open spec fn before(by_name: bool, a: (Seq<char>, Seq<Seq<char>>), b: (Seq<char>, Seq<Seq<char>>)) -> bool {
    if by_name { lex_lt(a.0, b.0) } else { ranked_before(a, b) }
}

proof fn lemma_before_trans(by_name: bool, a: (Seq<char>, Seq<Seq<char>>), b: (Seq<char>, Seq<Seq<char>>), c: (Seq<char>, Seq<Seq<char>>))
    requires
        before(by_name, a, b),
        before(by_name, b, c),
    ensures
        before(by_name, a, c),
{
    if by_name {
        lemma_lex_trans(a.0, b.0, c.0);
        lemma_lex_total(a.0, b.0);
        lemma_lex_total(b.0, c.0);
        if a.0 == c.0 {
            lemma_lex_total(a.0, b.0);
        }
    } else {
        lemma_ranked_trans(a, b, c);
    }
}

proof fn lemma_before_total(by_name: bool, a: (Seq<char>, Seq<Seq<char>>), b: (Seq<char>, Seq<Seq<char>>))
    requires
        a.0 != b.0,
    ensures
        before(by_name, a, b) || before(by_name, b, a),
{
    lemma_ranked_total(a, b);
    lemma_lex_total(a.0, b.0);
}

fn before_exec(by_name: bool, a: &(String, Vec<String>), b: &(String, Vec<String>)) -> (r: bool)
    ensures
        r == before(by_name, entry_view(*a), entry_view(*b)),
{
    if by_name {
        let ka = chars_of(a.0.as_str());
        let kb = chars_of(b.0.as_str());
        lex_le_exec(&ka, &kb) && !(a.0 == b.0)
    } else {
        ranked_before_exec(a, b)
    }
}

fn ranked_before_exec(a: &(String, Vec<String>), b: &(String, Vec<String>)) -> (r: bool)
    ensures
        r == ranked_before(entry_view(*a), entry_view(*b)),
{
    if a.1.len() != b.1.len() {
        return a.1.len() > b.1.len();
    }
    let ka = chars_of(a.0.as_str());
    let kb = chars_of(b.0.as_str());
    lex_le_exec(&ka, &kb) && !(a.0 == b.0)
}

fn collect_occurrences(rows: &Vec<(String, String, String)>) -> (r: Vec<(String, String)>)
    ensures
        pair_texts(r@) == occurrences(rows@),
{
    let mut out: Vec<(String, String)> = Vec::new();
    let mut i: usize = 0;
    assert(rows@.take(0).flat_map(|row: (String, String, String)| row_occurrences(row)) =~= Seq::<(Seq<char>, Seq<char>)>::empty());
    while i < rows.len()
        invariant
            i <= rows.len(),
            pair_texts(out@) == rows@.take(i as int).flat_map(|row: (String, String, String)| row_occurrences(row)),
        decreases rows.len() - i,
    {
        let row = &rows[i];
        proof {
            reveal_strlit("/");
        }
        let full = cat3(row.0.as_str(), "/", row.1.as_str());
        let items = list_column(row.2.as_str());
        let ghost base = pair_texts(out@);
        let ghost ro = row_occurrences(*row);
        assert(ro.len() == items.len());
        let mut j: usize = 0;
        assert(base + ro.take(0) =~= base);
        while j < items.len()
            invariant
                j <= items.len(),
                ro.len() == items.len(),
                ro == row_occurrences(rows@[i as int]),
                texts(items@) == stored_list(rows@[i as int].2@),
                full@ == full_name_of(rows@[i as int].0@, rows@[i as int].1@),
                pair_texts(out@) == base + ro.take(j as int),
            decreases items.len() - j,
        {
            let ghost before = pair_texts(out@);
            out.push((items[j].clone(), full.clone()));
            assert(ro[j as int] == (items[j as int]@, full@));
            assert(pair_texts(out@) =~= before.push(ro[j as int]));
            assert(ro.take(j + 1) =~= ro.take(j as int).push(ro[j as int]));
            j = j + 1;
        }
        proof {
            assert(ro.take(items.len() as int) =~= ro);
            rows@.lemma_flat_map_take_append(|row: (String, String, String)| row_occurrences(row), i as int);
        }
        i = i + 1;
    }
    assert(rows@.take(rows.len() as int) =~= rows@);
    out
}

proof fn lemma_holders_push(o: Seq<(Seq<char>, Seq<char>)>, x: (Seq<char>, Seq<char>), item: Seq<char>)
    ensures
        holders(o.push(x), item) == if x.0 == item { holders(o, item).push(x.1) } else { holders(o, item) },
{
    o.lemma_filter_push(x, of_item(item));
    if x.0 == item {
        assert(o.filter(of_item(item)).push(x).map_values(server_part()) =~= o.filter(of_item(item)).map_values(server_part()).push(x.1));
    }
}

/// The groups of occurrences by item, in order of first occurrence.
pub open spec fn groups_of(v: Seq<(Seq<char>, Seq<Seq<char>>)>, o: Seq<(Seq<char>, Seq<char>)>) -> bool {
    &&& forall|i: int| 0 <= i < v.len() ==> (#[trigger] v[i]).1 == holders(o, v[i].0) && v[i].1.len() > 0
    &&& forall|i: int, j: int| 0 <= i < j < v.len() ==> (#[trigger] v[i]).0 != (#[trigger] v[j]).0
    &&& forall|key: Seq<char>| #[trigger] holders(o, key).len() > 0 ==> exists|i: int| 0 <= i < v.len() && v[i].0 == key
}

pub(crate) fn group_occurrences(occ: &Vec<(String, String)>) -> (g: Vec<(String, Vec<String>)>)
    ensures
        groups_of(index_view(g@), pair_texts(occ@)),
{
    let ghost o = pair_texts(occ@);
    let mut groups: Vec<(String, Vec<String>)> = Vec::new();
    let mut m: usize = 0;
    assert(index_view(groups@) =~= Seq::<(Seq<char>, Seq<Seq<char>>)>::empty());
    assert forall|key: Seq<char>| #[trigger] holders(o.take(0), key).len() == 0 by {
        assert(o.take(0).filter(of_item(key)) =~= Seq::<(Seq<char>, Seq<char>)>::empty());
    }
    while m < occ.len()
        invariant
            m <= occ.len(),
            o == pair_texts(occ@),
            groups_of(index_view(groups@), o.take(m as int)),
        decreases occ.len() - m,
    {
        let ghost before = index_view(groups@);
        let ghost x = o[m as int];
        proof {
            assert(o.take(m + 1) =~= o.take(m as int).push(x));
            assert forall|key: Seq<char>| #[trigger] holders(o.take(m + 1), key) == if x.0 == key { holders(o.take(m as int), key).push(x.1) } else { holders(o.take(m as int), key) } by {
                lemma_holders_push(o.take(m as int), x, key);
            }
        }
        let mut j: usize = 0;
        while j < groups.len() && !(groups[j].0 == occ[m].0)
            invariant
                j <= groups.len(),
                before == index_view(groups@),
                x == o[m as int],
                o == pair_texts(occ@),
                m < occ.len(),
                forall|t: int| 0 <= t < j ==> (#[trigger] before[t]).0 != x.0,
            decreases groups.len() - j,
        {
            j = j + 1;
        }
        if j < groups.len() {
            let (k, mut list) = groups.remove(j);
            list.push(occ[m].1.clone());
            let ghost nv = (k@, texts(list@));
            assert(texts(list@) =~= before[j as int].1.push(x.1));
            groups.insert(j, (k, list));
            assert(index_view(groups@) =~= before.update(j as int, nv));
            proof {
                let v = index_view(groups@);
                assert forall|key: Seq<char>| #[trigger] holders(o.take(m + 1), key).len() > 0 implies exists|i: int| 0 <= i < v.len() && v[i].0 == key by {
                    if key == x.0 {
                        assert(v[j as int].0 == key);
                    } else {
                        assert(holders(o.take(m as int), key).len() > 0);
                        let i = choose|i: int| 0 <= i < before.len() && before[i].0 == key;
                        assert(v[i].0 == before[i].0);
                    }
                }
            }
        } else {
            let mut list: Vec<String> = Vec::new();
            list.push(occ[m].1.clone());
            let ghost nv = (x.0, seq![x.1]);
            assert(texts(list@) =~= seq![x.1]);
            groups.push((occ[m].0.clone(), list));
            assert(index_view(groups@) =~= before.push(nv));
            proof {
                let v = index_view(groups@);
                if holders(o.take(m as int), x.0).len() > 0 {
                    let i = choose|i: int| 0 <= i < before.len() && before[i].0 == x.0;
                    assert(before[i].0 != x.0);
                }
                assert(holders(o.take(m as int), x.0) =~= Seq::<Seq<char>>::empty());
                assert forall|key: Seq<char>| #[trigger] holders(o.take(m + 1), key).len() > 0 implies exists|i: int| 0 <= i < v.len() && v[i].0 == key by {
                    if key == x.0 {
                        assert(v[before.len() as int].0 == key);
                    } else {
                        assert(holders(o.take(m as int), key).len() > 0);
                        let i = choose|i: int| 0 <= i < before.len() && before[i].0 == key;
                        assert(v[i].0 == before[i].0);
                    }
                }
            }
        }
        m = m + 1;
    }
    assert(o.take(occ.len() as int) =~= o);
    groups
}

/// `a` holds the same elements as `b` (both without repeats of a key).
pub open spec fn same_elements(a: Seq<(Seq<char>, Seq<Seq<char>>)>, b: Seq<(Seq<char>, Seq<Seq<char>>)>) -> bool {
    &&& forall|i: int| 0 <= i < a.len() ==> b.contains(#[trigger] a[i])
    &&& forall|t: int| 0 <= t < b.len() ==> a.contains(#[trigger] b[t])
}

/// Strictly increasing under `before(by_name, ..)`.
pub open spec fn ordered(a: Seq<(Seq<char>, Seq<Seq<char>>)>, by_name: bool) -> bool {
    forall|i: int, j: int| 0 <= i < j < a.len() ==> before(by_name, #[trigger] a[i], #[trigger] a[j])
}

proof fn lemma_insert_ordered(ov: Seq<(Seq<char>, Seq<Seq<char>>)>, x: (Seq<char>, Seq<Seq<char>>), pos: int, by_name: bool)
    requires
        0 <= pos <= ov.len(),
        ordered(ov, by_name),
        forall|k: int| 0 <= k < ov.len() ==> (#[trigger] ov[k]).0 != x.0,
        forall|k: int| pos <= k < ov.len() ==> !before(by_name, #[trigger] ov[k], x),
        pos > 0 ==> before(by_name, ov[pos - 1], x),
    ensures
        ordered(ov.insert(pos, x), by_name),
{
    let nv = ov.insert(pos, x);
    assert forall|k: int| pos <= k < ov.len() implies before(by_name, x, #[trigger] ov[k]) by {
        lemma_before_total(by_name, x, ov[k]);
    }
    assert forall|k: int| 0 <= k < pos implies before(by_name, #[trigger] ov[k], x) by {
        if k < pos - 1 {
            lemma_before_trans(by_name, ov[k], ov[pos - 1], x);
        }
    }
    assert forall|i: int, j: int| 0 <= i < j < nv.len() implies before(by_name, #[trigger] nv[i], #[trigger] nv[j]) by {
        if j < pos {
            assert(nv[i] == ov[i] && nv[j] == ov[j]);
        } else if j == pos {
            assert(nv[i] == ov[i] && nv[j] == x);
        } else if i < pos {
            assert(nv[i] == ov[i] && nv[j] == ov[j - 1]);
            lemma_before_trans(by_name, ov[i], x, ov[j - 1]);
        } else if i == pos {
            assert(nv[i] == x && nv[j] == ov[j - 1]);
        } else {
            assert(nv[i] == ov[i - 1] && nv[j] == ov[j - 1]);
        }
    }
}

proof fn lemma_insert_same(ov: Seq<(Seq<char>, Seq<Seq<char>>)>, gm: Seq<(Seq<char>, Seq<Seq<char>>)>, x: (Seq<char>, Seq<Seq<char>>), pos: int)
    requires
        0 <= pos <= ov.len(),
        same_elements(ov, gm),
    ensures
        same_elements(ov.insert(pos, x), gm.push(x)),
{
    let nv = ov.insert(pos, x);
    let gp = gm.push(x);
    assert forall|i: int| 0 <= i < nv.len() implies gp.contains(#[trigger] nv[i]) by {
        if i < pos {
            assert(gm.contains(ov[i]));
            let t = choose|t: int| 0 <= t < gm.len() && gm[t] == ov[i];
            assert(gp[t] == gm[t]);
        } else if i == pos {
            assert(nv[i] == gp[gm.len() as int]);
        } else {
            assert(gm.contains(ov[i - 1]));
            let t = choose|t: int| 0 <= t < gm.len() && gm[t] == ov[i - 1];
            assert(gp[t] == gm[t]);
        }
    }
    assert forall|t: int| 0 <= t < gp.len() implies nv.contains(#[trigger] gp[t]) by {
        if t < gm.len() {
            assert(gp[t] == gm[t]);
            assert(ov.contains(gm[t]));
            let i = choose|i: int| 0 <= i < ov.len() && ov[i] == gm[t];
            if i < pos {
                assert(nv[i] == ov[i]);
            } else {
                assert(nv[i + 1] == ov[i]);
            }
        } else {
            assert(nv[pos] == gp[t]);
        }
    }
}

fn rank_groups(groups: Vec<(String, Vec<String>)>, by_name: bool) -> (r: Vec<(String, Vec<String>)>)
    requires
        forall|i: int, j: int| 0 <= i < j < groups.len() ==> (#[trigger] index_view(groups@)[i]).0 != (#[trigger] index_view(groups@)[j]).0,
    ensures
        same_elements(index_view(r@), index_view(groups@)),
        ordered(index_view(r@), by_name),
{
    let ghost gv = index_view(groups@);
    let ghost orig = groups@;
    let n = groups.len();
    let mut rest = groups;
    let mut out: Vec<(String, Vec<String>)> = Vec::new();
    let mut m: usize = 0;
    while m < n
        invariant
            n == gv.len(),
            m <= n,
            gv == index_view(orig),
            rest@ == orig.skip(m as int),
            forall|i: int, j: int| 0 <= i < j < n ==> (#[trigger] gv[i]).0 != (#[trigger] gv[j]).0,
            out.len() == m,
            same_elements(index_view(out@), gv.take(m as int)),
            ordered(index_view(out@), by_name),
        decreases n - m,
    {
        let g = rest.remove(0);
        assert(orig.skip(m as int).remove(0) =~= orig.skip(m + 1));
        let ghost x = entry_view(g);
        assert(x == gv[m as int]);
        let ghost ov = index_view(out@);
        proof {
            assert forall|k: int| 0 <= k < ov.len() implies (#[trigger] ov[k]).0 != x.0 by {
                assert(gv.take(m as int).contains(ov[k]));
                let t = choose|t: int| 0 <= t < m && gv.take(m as int)[t] == ov[k];
                assert(gv.take(m as int)[t] == gv[t]);
            }
        }
        let mut pos = out.len();
        while pos > 0 && !before_exec(by_name, &out[pos - 1], &g)
            invariant
                pos <= out.len(),
                ov == index_view(out@),
                x == entry_view(g),
                forall|k: int| pos <= k < ov.len() ==> !before(by_name, #[trigger] ov[k], x),
            decreases pos,
        {
            pos = pos - 1;
        }
        out.insert(pos, g);
        proof {
            assert(index_view(out@) =~= ov.insert(pos as int, x));
            lemma_insert_ordered(ov, x, pos as int, by_name);
            lemma_insert_same(ov, gv.take(m as int), x, pos as int);
            assert(gv.take(m + 1) =~= gv.take(m as int).push(x));
        }
        m = m + 1;
    }
    assert(gv.take(n as int) =~= gv);
    out
}

/// Groups (item, server) occurrences by item: every distinct item comes
/// once, with its servers in order of occurrence, most servers first and
/// ties by name.
pub fn rank_occurrences(occ: &Vec<(String, String)>) -> (r: Vec<(String, Vec<String>)>)
    ensures
        is_index(index_view(r@), pair_texts(occ@)),
{
    let groups = group_occurrences(occ);
    let r = rank_groups(groups, false);
    proof {
        let o = pair_texts(occ@);
        let gv = index_view(groups@);
        let rv = index_view(r@);
        assert forall|i: int| 0 <= i < rv.len() implies (#[trigger] rv[i]).1 == holders(o, rv[i].0) && rv[i].1.len() > 0 by {
            assert(gv.contains(rv[i]));
            let t = choose|t: int| 0 <= t < gv.len() && gv[t] == rv[i];
            assert(gv[t].1 == holders(o, gv[t].0));
        }
        assert forall|k: int| 0 <= k < o.len() implies has_key(rv, (#[trigger] o[k]).0) by {
            o.lemma_filter_contains(of_item(o[k].0), k);
            assert(holders(o, o[k].0).len() > 0);
            let t = choose|t: int| 0 <= t < gv.len() && gv[t].0 == o[k].0;
            assert(rv.contains(gv[t]));
            let i = choose|i: int| 0 <= i < rv.len() && rv[i] == gv[t];
            assert(rv[i].0 == o[k].0);
        }
    }
    r
}

/// Indexes the items of a listing: each row is an owner, a name and the
/// JSON list of the server's items (tools, prompts, tags or resources; a
/// column that does not parse counts as empty). Every distinct item comes
/// once, with the `owner/name` of each server declaring it, most declared
/// first and ties by name.
pub fn build_index(rows: &Vec<(String, String, String)>) -> (r: Vec<(String, Vec<String>)>)
    ensures
        is_index(index_view(r@), occurrences(rows@)),
{
    let occ = collect_occurrences(rows);
    rank_occurrences(&occ)
}

/// Groups (item, server) occurrences by item: every distinct item comes
/// once, with its servers in order of occurrence, in name order.
pub fn group_by_name(occ: &Vec<(String, String)>) -> (r: Vec<(String, Vec<String>)>)
    ensures
        groups_of(index_view(r@), pair_texts(occ@)),
        ordered(index_view(r@), true),
{
    let groups = group_occurrences(occ);
    let r = rank_groups(groups, true);
    proof {
        let o = pair_texts(occ@);
        let gv = index_view(groups@);
        let rv = index_view(r@);
        assert forall|i: int| 0 <= i < rv.len() implies (#[trigger] rv[i]).1 == holders(o, rv[i].0) && rv[i].1.len() > 0 by {
            assert(gv.contains(rv[i]));
            let t = choose|t: int| 0 <= t < gv.len() && gv[t] == rv[i];
        }
        assert forall|i: int, j: int| 0 <= i < j < rv.len() implies (#[trigger] rv[i]).0 != (#[trigger] rv[j]).0 by {
            lemma_lex_total(rv[i].0, rv[j].0);
        }
        assert forall|key: Seq<char>| #[trigger] holders(o, key).len() > 0 implies exists|i: int| 0 <= i < rv.len() && rv[i].0 == key by {
            let t = choose|t: int| 0 <= t < gv.len() && gv[t].0 == key;
            assert(rv.contains(gv[t]));
            let i = choose|i: int| 0 <= i < rv.len() && rv[i] == gv[t];
        }
    }
    r
}

} // verus!
