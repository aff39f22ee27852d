//! Comparisons between servers: what two servers share, whether they can run
//! side by side, which servers complement or depend on one, and a metadata
//! quality score. Name sets are kept as lists of their distinct names in
//! order of first appearance.

use vstd::prelude::*;
use vstd::string::StringExecFns;
use crate::registry::entry::ServerEntry;
use crate::registry::store::{join_strings, joined};
use crate::registry::validate::{msg_if, push_text, texts};
use crate::order::{firsts, kept_from, lemma_masked_from, lemma_sort_desc, masked, retain_masked, sort_by, sort_by_int_desc, int_desc,
    zip_keys};
use crate::text::{cat, cat3, chars_eq, dec, lower, lower_chars, to_lower, u64_to_string};

verus! {

/// The distinct names of `s`, each at its first appearance.
pub open spec fn distinct(s: Seq<Seq<char>>) -> Seq<Seq<char>>
    decreases s.len(),
{
    if s.len() == 0 {
        Seq::empty()
    } else {
        let d = distinct(s.drop_last());
        if d.contains(s.last()) { d } else { d.push(s.last()) }
    }
}

/// Membership in `b`.
pub open spec fn in_seq(b: Seq<Seq<char>>) -> spec_fn(Seq<char>) -> bool {
    |x: Seq<char>| b.contains(x)
}

/// Absence from `b`.
pub open spec fn not_in_seq(b: Seq<Seq<char>>) -> spec_fn(Seq<char>) -> bool {
    |x: Seq<char>| !b.contains(x)
}

/// The distinct names of `a` that `b` also has.
pub open spec fn common(a: Seq<Seq<char>>, b: Seq<Seq<char>>) -> Seq<Seq<char>> {
    distinct(a).filter(in_seq(b))
}

/// The distinct names of `a` that `b` lacks.
pub open spec fn only_in(a: Seq<Seq<char>>, b: Seq<Seq<char>>) -> Seq<Seq<char>> {
    distinct(a).filter(not_in_seq(b))
}

/// Does `v` hold a string equal to `x`?
pub fn contains_text(v: &Vec<String>, x: &String) -> (r: bool)
    ensures
        r == texts(v@).contains(x@),
{
    let mut i: usize = 0;
    while i < v.len()
        invariant
            i <= v.len(),
            forall|k: int| 0 <= k < i ==> texts(v@)[k] != x@,
        decreases v.len() - i,
    {
        if v[i] == *x {
            assert(texts(v@)[i as int] == x@);
            return true;
        }
        i = i + 1;
    }
    false
}

/// The distinct strings of `v`, each at its first appearance.
pub fn distinct_texts(v: &Vec<String>) -> (r: Vec<String>)
    ensures
        texts(r@) == distinct(texts(v@)),
{
    let mut out: Vec<String> = Vec::new();
    let mut i: usize = 0;
    assert(texts(v@).take(0) =~= Seq::<Seq<char>>::empty());
    assert(texts(out@) =~= Seq::<Seq<char>>::empty());
    while i < v.len()
        invariant
            i <= v.len(),
            texts(out@) == distinct(texts(v@).take(i as int)),
        decreases v.len() - i,
    {
        let ghost t = texts(v@);
        assert(t.take(i + 1).drop_last() =~= t.take(i as int));
        assert(t.take(i + 1).last() == v[i as int]@);
        if !contains_text(&out, &v[i]) {
            let ghost before = texts(out@);
            out.push(v[i].clone());
            assert(texts(out@) =~= before.push(v[i as int]@));
        }
        i = i + 1;
    }
    assert(texts(v@).take(v.len() as int) =~= texts(v@));
    out
}

/// The strings of `a` kept or dropped by their presence in `b`.
fn split_by_presence(a: &Vec<String>, b: &Vec<String>, keep_present: bool) -> (r: Vec<String>)
    ensures
        keep_present ==> texts(r@) == texts(a@).filter(in_seq(texts(b@))),
        !keep_present ==> texts(r@) == texts(a@).filter(not_in_seq(texts(b@))),
{
    let ghost ta = texts(a@);
    let ghost tb = texts(b@);
    let ghost pred = if keep_present { in_seq(tb) } else { not_in_seq(tb) };
    let mut out: Vec<String> = Vec::new();
    let mut i: usize = 0;
    assert(ta.take(0) =~= Seq::<Seq<char>>::empty());
    assert(texts(out@) =~= Seq::<Seq<char>>::empty());
    while i < a.len()
        invariant
            i <= a.len(),
            ta == texts(a@),
            tb == texts(b@),
            pred == if keep_present { in_seq(tb) } else { not_in_seq(tb) },
            texts(out@) == ta.take(i as int).filter(pred),
        decreases a.len() - i,
    {
        assert(ta.take(i + 1).drop_last() =~= ta.take(i as int));
        assert(ta.take(i + 1).last() == a[i as int]@);
        let present = contains_text(b, &a[i]);
        assert(pred(a[i as int]@) == (present == keep_present));
        assert(ta.take(i + 1) =~= ta.take(i as int).push(a[i as int]@));
        proof {
            ta.take(i as int).lemma_filter_push(a[i as int]@, pred);
        }
        assert(ta.take(i + 1).filter(pred) == if pred(a[i as int]@) {
            ta.take(i as int).filter(pred).push(a[i as int]@)
        } else {
            ta.take(i as int).filter(pred)
        });
        if present == keep_present {
            let ghost before = texts(out@);
            out.push(a[i].clone());
            assert(texts(out@) =~= before.push(a[i as int]@));
        }
        i = i + 1;
    }
    assert(ta.take(a.len() as int) =~= ta);
    out
}

/// The distinct strings of `a` that `b` also holds, in first-appearance order.
pub fn common_texts(a: &Vec<String>, b: &Vec<String>) -> (r: Vec<String>)
    ensures
        texts(r@) == common(texts(a@), texts(b@)),
{
    let d = distinct_texts(a);
    split_by_presence(&d, b, true)
}

/// The distinct strings of `a` that `b` lacks, in first-appearance order.
pub fn only_in_texts(a: &Vec<String>, b: &Vec<String>) -> (r: Vec<String>)
    ensures
        texts(r@) == only_in(texts(a@), texts(b@)),
{
    let d = distinct_texts(a);
    split_by_presence(&d, b, false)
}

/// The keys of key/value pairs.
pub open spec fn env_keys(env: Seq<(String, String)>) -> Seq<Seq<char>> {
    env.map_values(|p: (String, String)| p.0@)
}

/// The penalty for `n` conflicts at `per` points each, capped at `cap`.
pub open spec fn penalty(n: nat, per: nat, cap: nat) -> nat {
    if n * per < cap { n * per } else { cap }
}

/// The compatibility score of two servers with `c` conflicting tool names
/// and `e` shared environment keys.
pub open spec fn compat_score(c: nat, e: nat) -> int {
    100 - penalty(c, 10, 40) - penalty(e, 5, 20)
}

/// The problems found when running two servers side by side.
pub open spec fn compat_issues(conflicts: Seq<Seq<char>>, shared_env: Seq<Seq<char>>) -> Seq<Seq<char>> {
    msg_if(conflicts.len() > 0, dec(conflicts.len()) + " conflicting tool name(s): "@ + joined(conflicts, ", "@))
        + msg_if(shared_env.len() > 0, dec(shared_env.len()) + " shared env variable(s): "@ + joined(shared_env, ", "@)
            + " — may need different values"@)
}

/// The remarks on two servers' transports and shared resources.
pub open spec fn compat_notes(ta: Seq<char>, tb: Seq<char>, shared_res: Seq<Seq<char>>) -> Seq<Seq<char>> {
    seq![if ta != tb {
        "Different transports: "@ + ta + " vs "@ + tb + " — both supported by most clients"@
    } else {
        "Same transport: "@ + ta
    }] + msg_if(shared_res.len() > 0, "Shared resource types: "@ + joined(shared_res, ", "@) + " — may complement each other"@)
}

/// Whether two servers can be installed together, and why.
pub struct CompatReport {
    pub compatible: bool,
    pub score: i32,
    pub issues: Vec<String>,
    pub notes: Vec<String>,
    pub conflicting_tools: Vec<String>,
    pub shared_env_keys: Vec<String>,
    pub shared_resources: Vec<String>,
    pub transport_match: bool,
    pub combined_tool_count: usize,
}

fn env_key_list(env: &Vec<(String, String)>) -> (r: Vec<String>)
    ensures
        texts(r@) == env_keys(env@),
{
    let mut r: Vec<String> = Vec::new();
    let mut i: usize = 0;
    while i < env.len()
        invariant
            i <= env.len(),
            texts(r@) == env_keys(env@).take(i as int),
        decreases env.len() - i,
    {
        let ghost before = texts(r@);
        r.push(env[i].0.clone());
        assert(texts(r@) =~= before.push(env@[i as int].0@));
        assert(env_keys(env@).take(i + 1) =~= env_keys(env@).take(i as int).push(env@[i as int].0@));
        i = i + 1;
    }
    assert(env_keys(env@).take(env.len() as int) =~= env_keys(env@));
    r
}

fn capped(n: usize, per: u64, cap: u64) -> (r: u64)
    requires
        0 < per <= 10,
        cap <= 100,
    ensures
        r == penalty(n as nat, per as nat, cap as nat),
{
    let k = n as u64;
    if k >= cap {
        assert((k as nat) * (per as nat) >= k) by (nonlinear_arith)
            requires
                per >= 1,
        ;
        cap
    } else {
        assert(k * per <= 1000) by (nonlinear_arith)
            requires
                k < cap,
                cap <= 100,
                per <= 10,
        ;
        let p = k * per;
        if p < cap { p } else { cap }
    }
}

/// Checks whether two servers can run side by side: tool names both
/// declare conflict (10 points each, at most 40), shared environment keys
/// may need different values (5 points each, at most 20); the pair is
/// compatible with a score of at least 70 out of 100.
pub fn compatibility(a: &ServerEntry, b: &ServerEntry) -> (r: CompatReport)
    requires
        a.tools.len() + b.tools.len() <= usize::MAX,
    ensures
        ({
            let conflicts = common(texts(a.tools@), texts(b.tools@));
            let shared_env = common(env_keys(a.env@), env_keys(b.env@));
            let shared_res = common(texts(a.resources@), texts(b.resources@));
            let score = compat_score(conflicts.len(), shared_env.len());
            &&& texts(r.conflicting_tools@) == conflicts
            &&& texts(r.shared_env_keys@) == shared_env
            &&& texts(r.shared_resources@) == shared_res
            &&& r.score == score
            &&& r.compatible == (score >= 70)
            &&& texts(r.issues@) == compat_issues(conflicts, shared_env)
            &&& texts(r.notes@) == compat_notes(a.transport@, b.transport@, shared_res)
            &&& r.transport_match == (a.transport@ == b.transport@)
            &&& r.combined_tool_count == distinct(texts(a.tools@)).len() + distinct(texts(b.tools@)).len() - conflicts.len()
        }),
{
    let conflicting_tools = common_texts(&a.tools, &b.tools);
    let ka = env_key_list(&a.env);
    let kb = env_key_list(&b.env);
    let shared_env_keys = common_texts(&ka, &kb);
    let shared_resources = common_texts(&a.resources, &b.resources);
    let c = conflicting_tools.len();
    let e = shared_env_keys.len();
    let score_u = 100 - capped(c, 10, 40) - capped(e, 5, 20);
    let score = score_u as i32;

    let mut issues: Vec<String> = Vec::new();
    assert(texts(issues@) =~= Seq::<Seq<char>>::empty());
    if c > 0 {
        let mut m = u64_to_string(c as u64);
        m.append(" conflicting tool name(s): ");
        let j = join_strings(&conflicting_tools, ", ");
        m.append(j.as_str());
        push_text(&mut issues, m);
    }
    let ghost mid = texts(issues@);
    if e > 0 {
        let mut m = u64_to_string(e as u64);
        m.append(" shared env variable(s): ");
        let j = join_strings(&shared_env_keys, ", ");
        m.append(j.as_str());
        m.append(" — may need different values");
        push_text(&mut issues, m);
    }
    assert(texts(issues@) =~= compat_issues(texts(conflicting_tools@), texts(shared_env_keys@)));

    let mut notes: Vec<String> = Vec::new();
    let same = a.transport == b.transport;
    if !same {
        let mut m = cat3("Different transports: ", a.transport.as_str(), " vs ");
        m.append(b.transport.as_str());
        m.append(" — both supported by most clients");
        notes.push(m);
    } else {
        notes.push(cat("Same transport: ", a.transport.as_str()));
    }
    if shared_resources.len() > 0 {
        let j = join_strings(&shared_resources, ", ");
        let m = cat3("Shared resource types: ", j.as_str(), " — may complement each other");
        push_text(&mut notes, m);
    }
    assert(texts(notes@) =~= compat_notes(a.transport@, b.transport@, texts(shared_resources@)));

    let da = distinct_texts(&a.tools);
    let db = distinct_texts(&b.tools);
    proof {
        lemma_common_len(texts(a.tools@), texts(b.tools@));
        lemma_distinct_len(texts(a.tools@));
        lemma_distinct_len(texts(b.tools@));
    }
    let combined = da.len() + db.len() - c;
    CompatReport {
        compatible: score >= 70,
        score,
        issues,
        notes,
        conflicting_tools,
        shared_env_keys,
        shared_resources,
        transport_match: same,
        combined_tool_count: combined,
    }
}

proof fn lemma_distinct_len(s: Seq<Seq<char>>)
    ensures
        distinct(s).len() <= s.len(),
    decreases s.len(),
{
    if s.len() > 0 {
        lemma_distinct_len(s.drop_last());
    }
}

proof fn lemma_common_len(a: Seq<Seq<char>>, b: Seq<Seq<char>>)
    ensures
        common(a, b).len() <= distinct(a).len(),
{
    distinct(a).lemma_filter_len(in_seq(b));
}

/// Each name lowercased.
pub open spec fn lowered(s: Seq<Seq<char>>) -> Seq<Seq<char>> {
    s.map_values(|x: Seq<char>| lower(x))
}

fn lower_all(v: &Vec<String>) -> (r: Vec<String>)
    ensures
        texts(r@) == lowered(texts(v@)),
{
    let mut r: Vec<String> = Vec::new();
    let mut i: usize = 0;
    while i < v.len()
        invariant
            i <= v.len(),
            texts(r@) == lowered(texts(v@)).take(i as int),
        decreases v.len() - i,
    {
        let ghost before = texts(r@);
        r.push(to_lower(v[i].as_str()));
        assert(texts(r@) =~= before.push(lower(v[i as int]@)));
        assert(lowered(texts(v@)).take(i + 1) =~= lowered(texts(v@)).take(i as int).push(lower(v[i as int]@)));
        i = i + 1;
    }
    assert(lowered(texts(v@)).take(v.len() as int) =~= lowered(texts(v@)));
    r
}

/// How well `s` complements `seed` in a bundle: 10 per tool the seed lacks,
/// 5 for a small overlap (one or two tools), minus 20 when more than half
/// of its (more than two) tools overlap, 15 for the same category, 5 per
/// resource the seed lacks, plus a popularity bonus. Names compare
/// case-insensitively.
pub open spec fn bundle_score(s: ServerEntry, seed: ServerEntry, same_category: bool, popularity: int) -> int {
    let st = lowered(texts(s.tools@));
    let sd = lowered(texts(seed.tools@));
    let unique = only_in(st, sd).len();
    let shared = common(st, sd).len();
    let n = distinct(st).len();
    10 * unique
        + (if 0 < shared && shared <= 2 { 5int } else { 0int })
        - (if shared > n / 2 && n > 2 { 20int } else { 0int })
        + (if same_category { 15int } else { 0int })
        + 5 * only_in(lowered(texts(s.resources@)), lowered(texts(seed.resources@))).len()
        + popularity
}

/// Candidates for a bundle: every other server that is not deprecated.
pub open spec fn bundle_candidate(s: ServerEntry, seed: ServerEntry) -> bool {
    s.full_name_spec() != seed.full_name_spec() && !s.deprecated
}

/// The candidate mask over all servers.
pub open spec fn bundle_mask(all: Seq<ServerEntry>, seed: ServerEntry) -> Seq<bool> {
    Seq::new(all.len(), |i: int| bundle_candidate(all[i], seed))
}

/// The score of each server.
pub open spec fn bundle_scores(all: Seq<ServerEntry>, seed: ServerEntry, cats: Seq<String>, seed_cat: Seq<char>, pops: Seq<i64>) -> Seq<int> {
    Seq::new(all.len(), |i: int| bundle_score(all[i], seed, lower(cats[i]@) == lower(seed_cat), pops[i] as int))
}

/// The bundle: candidates with their scores, best first (ties keep the
/// listing order), at most `limit` (5 by default, 20 at most).
pub open spec fn bundle_spec(all: Seq<ServerEntry>, seed: ServerEntry, cats: Seq<String>, seed_cat: Seq<char>, pops: Seq<i64>, limit: Option<usize>) -> Seq<(ServerEntry, int)> {
    let m = bundle_mask(all, seed);
    let pairs = masked(zip_keys(all, bundle_scores(all, seed, cats, seed_cat, pops)), m);
    let sorted = firsts(sort_by(zip_keys(pairs, pairs.map_values(|p: (ServerEntry, int)| p.1)), int_desc()));
    let lim: nat = match limit { Some(l) => if l < 20 { l as nat } else { 20 }, None => 5 };
    if lim < sorted.len() { sorted.take(lim as int) } else { sorted }
}

/// The view of scored servers.
pub open spec fn scored_view(v: Seq<(ServerEntry, i128)>) -> Seq<(ServerEntry, int)> {
    v.map_values(|p: (ServerEntry, i128)| (p.0, p.1 as int))
}

fn count_len(v: &Vec<String>) -> (r: i128)
    ensures
        r == v.len(),
{
    v.len() as i128
}

fn bundle_score_exec(s: &ServerEntry, seed_tools: &Vec<String>, seed_res: &Vec<String>, same_category: bool, popularity: i64) -> (r: i128)
    ensures
        forall|seed: ServerEntry| texts(seed_tools@) == lowered(texts(seed.tools@)) && texts(seed_res@) == lowered(texts(seed.resources@))
            ==> r == bundle_score(*s, seed, same_category, popularity as int),
{
    let st = lower_all(&s.tools);
    let sr = lower_all(&s.resources);
    let unique = only_in_texts(&st, seed_tools);
    let shared = common_texts(&st, seed_tools);
    let d = distinct_texts(&st);
    let new_res = only_in_texts(&sr, seed_res);
    let u = count_len(&unique);
    let sh = count_len(&shared);
    let n = count_len(&d);
    let nr = count_len(&new_res);
    assert(u <= usize::MAX && sh <= usize::MAX && n <= usize::MAX && nr <= usize::MAX);
    let mut score: i128 = 10 * u;
    if 0 < sh && sh <= 2 {
        score = score + 5;
    }
    if sh > n / 2 && n > 2 {
        score = score - 20;
    }
    if same_category {
        score = score + 15;
    }
    score = score + 5 * nr + popularity as i128;
    score
}

/// The reason shown for a bundle score.
pub open spec fn bundle_reason_spec(score: int) -> Seq<char> {
    if score > 30 {
        "highly complementary"@
    } else if score > 15 {
        "good addition"@
    } else {
        "related"@
    }
}

/// Describes a bundle score: above 30 highly complementary, above 15 a good
/// addition, otherwise related.
pub fn bundle_reason(score: i128) -> (r: String)
    ensures
        r@ == bundle_reason_spec(score as int),
{
    if score > 30 {
        String::from_str("highly complementary")
    } else if score > 15 {
        String::from_str("good addition")
    } else {
        String::from_str("related")
    }
}

/// Recommends servers to install alongside `seed`: every other
/// non-deprecated server scored by `bundle_score`, best first, at most
/// `limit` of them (5 by default, 20 at most). `categories[i]` is the
/// category of `all[i]` and `popularity[i]` its popularity bonus.
pub fn recommend_bundle(seed: &ServerEntry, all: Vec<ServerEntry>, categories: &Vec<String>, seed_category: &str,
    popularity: &Vec<i64>, limit: Option<usize>) -> (r: Vec<(ServerEntry, i128)>)
    requires
        categories.len() == all.len(),
        popularity.len() == all.len(),
    ensures
        scored_view(r@) == bundle_spec(all@, *seed, categories@, seed_category@, popularity@, limit),
{
    let ghost all0 = all@;
    let ghost scores = bundle_scores(all0, *seed, categories@, seed_category@, popularity@);
    let seed_tools = lower_all(&seed.tools);
    let seed_res = lower_all(&seed.resources);
    let seed_cat = lower_chars(seed_category);
    let seed_name = seed.full_name();
    let mut keep: Vec<bool> = Vec::new();
    let mut score_list: Vec<i128> = Vec::new();
    let mut i: usize = 0;
    while i < all.len()
        invariant
            i <= all.len(),
            all@ == all0,
            categories.len() == all.len(),
            popularity.len() == all.len(),
            scores == bundle_scores(all0, *seed, categories@, seed_category@, popularity@),
            texts(seed_tools@) == lowered(texts(seed.tools@)),
            texts(seed_res@) == lowered(texts(seed.resources@)),
            seed_cat@ == lower(seed_category@),
            seed_name@ == seed.full_name_spec(),
            keep@ == bundle_mask(all0, *seed).take(i as int),
            score_list.len() == i,
            forall|k: int| 0 <= k < i ==> score_list@[k] as int == #[trigger] scores[k],
        decreases all.len() - i,
    {
        let s = &all[i];
        let name = s.full_name();
        let cand = !(name == seed_name) && !s.deprecated;
        keep.push(cand);
        assert(keep@ =~= bundle_mask(all0, *seed).take(i + 1));
        let same_cat = chars_eq(&lower_chars(categories[i].as_str()), &seed_cat);
        let sc = bundle_score_exec(s, &seed_tools, &seed_res, same_cat, popularity[i]);
        score_list.push(sc);
        i = i + 1;
    }
    assert(keep@ =~= bundle_mask(all0, *seed));
    // pair each server with its score
    let mut pairs: Vec<(ServerEntry, i128)> = Vec::new();
    let mut rest = all;
    let mut j: usize = 0;
    let n = rest.len();
    while j < n
        invariant
            n == all0.len(),
            j <= n,
            rest@ == all0.skip(j as int),
            score_list.len() == n,
            forall|k: int| 0 <= k < n ==> score_list@[k] as int == #[trigger] scores[k],
            scores.len() == n,
            scored_view(pairs@) == zip_keys(all0, scores).take(j as int),
        decreases n - j,
    {
        let e = rest.remove(0);
        assert(all0.skip(j as int).remove(0) =~= all0.skip(j + 1));
        let ghost before = scored_view(pairs@);
        pairs.push((e, score_list[j]));
        assert(scored_view(pairs@) =~= before.push((all0[j as int], scores[j as int])));
        assert(zip_keys(all0, scores).take(j + 1) =~= zip_keys(all0, scores).take(j as int).push((all0[j as int], scores[j as int])));
        j = j + 1;
    }
    assert(zip_keys(all0, scores).take(n as int) =~= zip_keys(all0, scores));
    let cands = retain_masked(pairs, &keep);
    proof {
        lemma_masked_view(pairs@, keep@);
    }
    let mut keys: Vec<i128> = Vec::new();
    let mut k: usize = 0;
    while k < cands.len()
        invariant
            k <= cands.len(),
            keys.len() == k,
            forall|t: int| 0 <= t < k ==> #[trigger] keys@[t] == cands@[t].1,
        decreases cands.len() - k,
    {
        keys.push(cands[k].1);
        k = k + 1;
    }
    let ghost cv = scored_view(cands@);
    assert(keys@.map_values(|x: i128| x as int) =~= cv.map_values(|p: (ServerEntry, int)| p.1));
    let sorted = sort_by_int_desc(cands, keys);
    proof {
        lemma_sorted_view(cands@, keys@);
    }
    let lim: usize = match limit {
        Some(l) => if l < 20 { l } else { 20 },
        None => 5,
    };
    let mut out = sorted;
    out.truncate(lim);
    let ghost sv = scored_view(out@);
    proof {
        let full = firsts(sort_by(zip_keys(cv, cv.map_values(|p: (ServerEntry, int)| p.1)), int_desc()));
        if (lim as nat) < full.len() {
            assert(sv =~= full.take(lim as int));
        } else {
            assert(sv =~= full);
        }
    }
    out
}

proof fn lemma_masked_view(v: Seq<(ServerEntry, i128)>, m: Seq<bool>)
    requires
        m.len() <= v.len(),
    ensures
        scored_view(masked(v, m)) == masked(scored_view(v), m),
    decreases m.len(),
{
    if m.len() > 0 {
        lemma_masked_view(v, m.drop_last());
        let rest = masked(v, m.drop_last());
        if m.last() {
            assert(scored_view(rest.push(v[m.len() - 1])) =~= scored_view(rest).push(scored_view(v)[m.len() - 1]));
        }
    } else {
        assert(scored_view(masked(v, m)) =~= masked(scored_view(v), m));
    }
}

/// The view of one scored server.
pub open spec fn score_pair_view() -> spec_fn((ServerEntry, i128)) -> (ServerEntry, int) {
    |p: (ServerEntry, i128)| (p.0, p.1 as int)
}

proof fn lemma_sorted_view(v: Seq<(ServerEntry, i128)>, keys: Seq<i128>)
    requires
        keys.len() == v.len(),
        forall|t: int| 0 <= t < v.len() ==> #[trigger] keys[t] == v[t].1,
    ensures
        scored_view(firsts(sort_by(zip_keys(v, keys.map_values(|k: i128| k as int)), int_desc())))
            == firsts(sort_by(zip_keys(scored_view(v), scored_view(v).map_values(|p: (ServerEntry, int)| p.1)), int_desc())),
{
    let f = score_pair_view();
    let kz = keys.map_values(|k: i128| k as int);
    let z = zip_keys(v, kz);
    let sv = scored_view(v);
    crate::order::lemma_sort_by_map(z, int_desc(), f);
    assert(z.map_values(crate::order::on_first(f)) =~= zip_keys(sv, sv.map_values(|p: (ServerEntry, int)| p.1)));
    let sz = sort_by(z, int_desc());
    assert(scored_view(firsts(sz)) =~= firsts(sz.map_values(crate::order::on_first(f))));
}

/// One metadata check of the quality score.
pub struct ScoreCheck {
    pub check: String,
    pub pass: bool,
    pub points: u32,
    pub max_points: u32,
}

/// The quality score of a server's metadata.
pub struct ServerScore {
    pub score: u32,
    pub max_score: u32,
    pub percentage: u32,
    pub grade: String,
    pub checks: Vec<ScoreCheck>,
}

/// The checks of the quality score: name, whether it passes, its weight.
pub open spec fn score_checks(s: ServerEntry) -> Seq<(Seq<char>, bool, nat)> {
    seq![
        ("has_description"@, s.description@.len() > 0, 15nat),
        ("has_author"@, s.author@.len() > 0, 10nat),
        ("has_license"@, s.license@.len() > 0, 10nat),
        ("has_repository"@, s.repository@.len() > 0, 10nat),
        ("has_homepage"@, s.homepage@.len() > 0, 5nat),
        ("has_tools"@, s.tools.len() > 0, 15nat),
        ("has_resources"@, s.resources.len() > 0, 5nat),
        ("has_prompts"@, s.prompts.len() > 0, 5nat),
        ("has_tags"@, s.tags.len() > 0, 5nat),
        ("multiple_tools"@, s.tools.len() >= 2, 5nat),
        ("not_deprecated"@, !s.deprecated, 10nat),
        ("has_downloads"@, s.downloads > 0, 5nat),
    ]
}

/// The points a check earns.
pub open spec fn pts(pass: bool, weight: nat) -> nat {
    if pass { weight } else { 0 }
}

/// The points earned by a list of checks.
pub open spec fn earned(c: Seq<(Seq<char>, bool, nat)>) -> nat
    decreases c.len(),
{
    if c.len() == 0 {
        0
    } else {
        earned(c.drop_last()) + pts(c.last().1, c.last().2)
    }
}

/// The quality score: the weights of the checks that pass.
pub open spec fn total_points(s: ServerEntry) -> nat {
    pts(s.description@.len() > 0, 15) + pts(s.author@.len() > 0, 10) + pts(s.license@.len() > 0, 10)
        + pts(s.repository@.len() > 0, 10) + pts(s.homepage@.len() > 0, 5) + pts(s.tools.len() > 0, 15)
        + pts(s.resources.len() > 0, 5) + pts(s.prompts.len() > 0, 5) + pts(s.tags.len() > 0, 5)
        + pts(s.tools.len() >= 2, 5) + pts(!s.deprecated, 10) + pts(s.downloads > 0, 5)
}

/// The quality score is what the reported checks earn, and at most 100.
pub proof fn law_score_sums_checks(s: ServerEntry)
    ensures
        earned(score_checks(s)) == total_points(s),
        total_points(s) <= 100,
{
    reveal_with_fuel(earned, 13);
    let c = score_checks(s);
    assert(c.drop_last().drop_last().drop_last().drop_last().drop_last().drop_last().drop_last().drop_last()
        .drop_last().drop_last().drop_last().drop_last() =~= Seq::<(Seq<char>, bool, nat)>::empty());
}

/// The prompts check: it is reported eighth, as `has_prompts` worth 5
/// points, and passes exactly when the server declares prompts. Two entries
/// that differ only in their prompts score the same but for those 5 points,
/// which only the one with prompts earns.
pub proof fn law_score_prompts(s: ServerEntry, t: ServerEntry)
    requires
        t == (ServerEntry { prompts: t.prompts, ..s }),
    ensures
        score_checks(s)[7] == ("has_prompts"@, s.prompts.len() > 0, 5nat),
        total_points(t) + (if s.prompts.len() > 0 { 5int } else { 0int })
            == total_points(s) + (if t.prompts.len() > 0 { 5int } else { 0int }),
        s.prompts.len() == 0 && t.prompts.len() > 0 ==> total_points(t) == total_points(s) + 5,
        forall|j: int| 0 <= j < 12 && j != 7 ==> #[trigger] score_checks(t)[j] == score_checks(s)[j],
{
}

/// The checks are reported under these names, in this order.
pub proof fn law_score_check_names(s: ServerEntry)
    ensures
        score_checks(s).map_values(|c: (Seq<char>, bool, nat)| c.0) == seq!["has_description"@, "has_author"@,
            "has_license"@, "has_repository"@, "has_homepage"@, "has_tools"@, "has_resources"@, "has_prompts"@,
            "has_tags"@, "multiple_tools"@, "not_deprecated"@, "has_downloads"@],
{
    let names = score_checks(s).map_values(|c: (Seq<char>, bool, nat)| c.0);
    assert forall|i: int| 0 <= i < 12 implies #[trigger] names[i] == score_checks(s)[i].0 by {}
    assert(names =~= seq!["has_description"@, "has_author"@,
        "has_license"@, "has_repository"@, "has_homepage"@, "has_tools"@, "has_resources"@, "has_prompts"@,
        "has_tags"@, "multiple_tools"@, "not_deprecated"@, "has_downloads"@]);
}

/// What each piece of metadata is worth: supplying a missing description
/// adds 15 points, an author, license or repository 10 each, a homepage,
/// resources, prompts or tags 5 each, a first tool 15 and a second one 5
/// more, lifting the deprecation 10, and a first download 5.
pub proof fn law_score_weights(s: ServerEntry, text: String, list: Vec<String>)
    ensures
        s.description@.len() == 0 && text@.len() > 0
            ==> total_points(ServerEntry { description: text, ..s }) == total_points(s) + 15,
        s.author@.len() == 0 && text@.len() > 0
            ==> total_points(ServerEntry { author: text, ..s }) == total_points(s) + 10,
        s.license@.len() == 0 && text@.len() > 0
            ==> total_points(ServerEntry { license: text, ..s }) == total_points(s) + 10,
        s.repository@.len() == 0 && text@.len() > 0
            ==> total_points(ServerEntry { repository: text, ..s }) == total_points(s) + 10,
        s.homepage@.len() == 0 && text@.len() > 0
            ==> total_points(ServerEntry { homepage: text, ..s }) == total_points(s) + 5,
        s.resources.len() == 0 && list.len() > 0
            ==> total_points(ServerEntry { resources: list, ..s }) == total_points(s) + 5,
        s.prompts.len() == 0 && list.len() > 0
            ==> total_points(ServerEntry { prompts: list, ..s }) == total_points(s) + 5,
        s.tags.len() == 0 && list.len() > 0
            ==> total_points(ServerEntry { tags: list, ..s }) == total_points(s) + 5,
        s.tools.len() == 0 && list.len() == 1
            ==> total_points(ServerEntry { tools: list, ..s }) == total_points(s) + 15,
        s.tools.len() == 1 && list.len() >= 2
            ==> total_points(ServerEntry { tools: list, ..s }) == total_points(s) + 5,
        s.deprecated ==> total_points(ServerEntry { deprecated: false, ..s }) == total_points(s) + 10,
        s.downloads <= 0 ==> total_points(ServerEntry { downloads: 1, ..s }) == total_points(s) + 5,
{
}

/// A reported check: its name, outcome and weight.
pub open spec fn check_view(c: ScoreCheck) -> (Seq<char>, bool, nat) {
    (c.check@, c.pass, c.max_points as nat)
}

/// The letter grade of a percentage.
pub open spec fn grade_of(p: nat) -> Seq<char> {
    if 90 <= p && p <= 100 {
        "A"@
    } else if 80 <= p && p <= 89 {
        "B"@
    } else if 70 <= p && p <= 79 {
        "C"@
    } else if 60 <= p && p <= 69 {
        "D"@
    } else {
        "F"@
    }
}

/// The letter grade of a percentage: A exactly from 90 to 100, B from 80
/// to 89, C from 70 to 79, D from 60 to 69, and F for anything else.
pub proof fn law_grade_bands(p: nat)
    ensures
        grade_of(p) == "A"@ <==> 90 <= p <= 100,
        grade_of(p) == "B"@ <==> 80 <= p <= 89,
        grade_of(p) == "C"@ <==> 70 <= p <= 79,
        grade_of(p) == "D"@ <==> 60 <= p <= 69,
        grade_of(p) == "F"@ <==> p < 60 || p > 100,
{
    reveal_strlit("A");
    reveal_strlit("B");
    reveal_strlit("C");
    reveal_strlit("D");
    reveal_strlit("F");
    assert("A"@[0] == 'A' && "B"@[0] == 'B' && "C"@[0] == 'C' && "D"@[0] == 'D' && "F"@[0] == 'F');
}

fn mk_check(name: &str, pass: bool, weight: u32) -> (r: ScoreCheck)
    ensures
        r.check@ == name@,
        r.pass == pass,
        r.max_points == weight,
        r.points == pts(pass, weight as nat),
{
    ScoreCheck { check: String::from_str(name), pass, points: if pass { weight } else { 0 }, max_points: weight }
}

/// The grade of a percentage: A from 90, B from 80, C from 70, D from 60,
/// F below.
pub fn grade(p: u32) -> (r: String)
    ensures
        r@ == grade_of(p as nat),
{
    if 90 <= p && p <= 100 {
        String::from_str("A")
    } else if 80 <= p && p <= 89 {
        String::from_str("B")
    } else if 70 <= p && p <= 79 {
        String::from_str("C")
    } else if 60 <= p && p <= 69 {
        String::from_str("D")
    } else {
        String::from_str("F")
    }
}

fn build_checks(s: &ServerEntry) -> (checks: Vec<ScoreCheck>)
    ensures
        checks@.map_values(|c: ScoreCheck| check_view(c)) == score_checks(*s),
        forall|i: int| 0 <= i < checks.len() ==> (#[trigger] checks@[i]).points == pts(checks@[i].pass, checks@[i].max_points as nat),
{
    let mut checks: Vec<ScoreCheck> = Vec::new();
    checks.push(mk_check("has_description", !s.description.as_str().is_empty(), 15));
    checks.push(mk_check("has_author", !s.author.as_str().is_empty(), 10));
    checks.push(mk_check("has_license", !s.license.as_str().is_empty(), 10));
    checks.push(mk_check("has_repository", !s.repository.as_str().is_empty(), 10));
    checks.push(mk_check("has_homepage", !s.homepage.as_str().is_empty(), 5));
    checks.push(mk_check("has_tools", s.tools.len() > 0, 15));
    checks.push(mk_check("has_resources", s.resources.len() > 0, 5));
    checks.push(mk_check("has_prompts", s.prompts.len() > 0, 5));
    checks.push(mk_check("has_tags", s.tags.len() > 0, 5));
    checks.push(mk_check("multiple_tools", s.tools.len() >= 2, 5));
    checks.push(mk_check("not_deprecated", !s.deprecated, 10));
    checks.push(mk_check("has_downloads", s.downloads > 0, 5));
    assert(checks@.map_values(|c: ScoreCheck| check_view(c)) =~= score_checks(*s));
    checks
}

fn pts_exec(pass: bool, weight: u32) -> (r: u32)
    ensures
        r == pts(pass, weight as nat),
        r <= weight,
{
    if pass { weight } else { 0 }
}

#[verifier::spinoff_prover]
#[verifier::rlimit(80)]
fn points_total(s: &ServerEntry) -> (r: u32)
    ensures
        r == total_points(*s),
{
    let p0 = pts_exec(!s.description.as_str().is_empty(), 15);
    let p1 = pts_exec(!s.author.as_str().is_empty(), 10);
    let p2 = pts_exec(!s.license.as_str().is_empty(), 10);
    let p3 = pts_exec(!s.repository.as_str().is_empty(), 10);
    let p4 = pts_exec(!s.homepage.as_str().is_empty(), 5);
    let p5 = pts_exec(s.tools.len() > 0, 15);
    let p6 = pts_exec(s.resources.len() > 0, 5);
    let p7 = pts_exec(s.prompts.len() > 0, 5);
    let p8 = pts_exec(s.tags.len() > 0, 5);
    let p9 = pts_exec(s.tools.len() >= 2, 5);
    let p10 = pts_exec(!s.deprecated, 10);
    let p11 = pts_exec(s.downloads > 0, 5);
    let a = p0 + p1 + p2 + p3;
    let b = p4 + p5 + p6 + p7;
    let c = p8 + p9 + p10 + p11;
    a + b + c
}

/// Scores the completeness of a server's metadata out of 100: twelve
/// weighted checks (description, author, license, repository, homepage,
/// tools, resources, prompts, tags, several tools, not deprecated, some
/// downloads); the percentage is the score and sets the grade.
pub fn server_score(s: &ServerEntry) -> (r: ServerScore)
    ensures
        r.checks@.map_values(|c: ScoreCheck| check_view(c)) == score_checks(*s),
        forall|i: int| 0 <= i < r.checks.len() ==> (#[trigger] r.checks@[i]).points == pts(r.checks@[i].pass, r.checks@[i].max_points as nat),
        r.score == total_points(*s),
        r.max_score == 100,
        r.percentage == r.score,
        r.grade@ == grade_of(r.score as nat),
{
    let checks = build_checks(s);
    let score = points_total(s);
    let g = grade(score);
    ServerScore { score, max_score: 100, percentage: score, grade: g, checks }
}

/// At most `n` elements from the front.
pub open spec fn at_most<T>(s: Seq<T>, n: nat) -> Seq<T> {
    if n < s.len() { s.take(n as int) } else { s }
}

/// The tool names `s` shares with `target`, in the target's order.
pub open spec fn shared_tools(target: ServerEntry, s: ServerEntry) -> Seq<Seq<char>> {
    common(texts(target.tools@), texts(s.tools@))
}

/// The servers that depend on the same tools as `target`: every other
/// server sharing at least one tool name, with those names, most shared
/// first (ties keep the listing order), at most `limit` (10 by default,
/// 50 at most).
pub open spec fn dependents_spec(target: ServerEntry, all: Seq<ServerEntry>, limit: Option<usize>) -> Seq<(ServerEntry, Seq<Seq<char>>)> {
    let shared = Seq::new(all.len(), |i: int| shared_tools(target, all[i]));
    let keep = Seq::new(all.len(), |i: int|
        !(all[i].owner@ == target.owner@ && all[i].name@ == target.name@) && shared[i].len() > 0);
    let pairs = masked(zip_keys(all, shared), keep);
    let sorted = firsts(sort_by(zip_keys(pairs, pairs.map_values(|p: (ServerEntry, Seq<Seq<char>>)| p.1.len() as int)), int_desc()));
    let lim: nat = match limit { Some(l) => if l < 50 { l as nat } else { 50 }, None => 10 };
    at_most(sorted, lim)
}

/// The view of servers with name lists.
pub open spec fn named_view(v: Seq<(ServerEntry, Vec<String>)>) -> Seq<(ServerEntry, Seq<Seq<char>>)> {
    v.map_values(|p: (ServerEntry, Vec<String>)| (p.0, texts(p.1@)))
}

/// The view of one server with a name list.
pub open spec fn named_pair_view() -> spec_fn((ServerEntry, Vec<String>)) -> (ServerEntry, Seq<Seq<char>>) {
    |p: (ServerEntry, Vec<String>)| (p.0, texts(p.1@))
}

proof fn lemma_named_masked(v: Seq<(ServerEntry, Vec<String>)>, m: Seq<bool>)
    requires
        m.len() <= v.len(),
    ensures
        named_view(masked(v, m)) == masked(named_view(v), m),
    decreases m.len(),
{
    if m.len() > 0 {
        lemma_named_masked(v, m.drop_last());
        let rest = masked(v, m.drop_last());
        if m.last() {
            assert(named_view(rest.push(v[m.len() - 1])) =~= named_view(rest).push(named_view(v)[m.len() - 1]));
        }
    } else {
        assert(named_view(masked(v, m)) =~= masked(named_view(v), m));
    }
}

proof fn lemma_named_sorted(v: Seq<(ServerEntry, Vec<String>)>, keys: Seq<i128>)
    requires
        keys.len() == v.len(),
        forall|t: int| 0 <= t < v.len() ==> #[trigger] keys[t] == v[t].1.len(),
    ensures
        named_view(firsts(sort_by(zip_keys(v, keys.map_values(|k: i128| k as int)), int_desc())))
            == firsts(sort_by(zip_keys(named_view(v), named_view(v).map_values(|p: (ServerEntry, Seq<Seq<char>>)| p.1.len() as int)), int_desc())),
{
    let f = named_pair_view();
    let kz = keys.map_values(|k: i128| k as int);
    let z = zip_keys(v, kz);
    let nv = named_view(v);
    crate::order::lemma_sort_by_map(z, int_desc(), f);
    assert(z.map_values(crate::order::on_first(f)) =~= zip_keys(nv, nv.map_values(|p: (ServerEntry, Seq<Seq<char>>)| p.1.len() as int)));
    let sz = sort_by(z, int_desc());
    assert(named_view(firsts(sz)) =~= firsts(sz.map_values(crate::order::on_first(f))));
}

/// Finds the servers that share tool names with `target` (see
/// `dependents_spec`); none when the target declares no tools.
pub fn dependents(target: &ServerEntry, all: Vec<ServerEntry>, limit: Option<usize>) -> (r: Vec<(ServerEntry, Vec<String>)>)
    ensures
        named_view(r@) == dependents_spec(*target, all@, limit),
{
    let ghost all0 = all@;
    let ghost shared = Seq::new(all0.len(), |i: int| shared_tools(*target, all0[i]));
    let ghost keep_s = Seq::new(all0.len(), |i: int|
        !(all0[i].owner@ == target.owner@ && all0[i].name@ == target.name@) && shared[i].len() > 0);
    let mut pairs: Vec<(ServerEntry, Vec<String>)> = Vec::new();
    let mut keep: Vec<bool> = Vec::new();
    let mut rest = all;
    let n = rest.len();
    let mut j: usize = 0;
    while j < n
        invariant
            n == all0.len(),
            j <= n,
            rest@ == all0.skip(j as int),
            shared == Seq::new(all0.len(), |i: int| shared_tools(*target, all0[i])),
            keep_s == Seq::new(all0.len(), |i: int|
                !(all0[i].owner@ == target.owner@ && all0[i].name@ == target.name@) && shared[i].len() > 0),
            named_view(pairs@) == zip_keys(all0, shared).take(j as int),
            keep@ == keep_s.take(j as int),
        decreases n - j,
    {
        let e = rest.remove(0);
        assert(all0.skip(j as int).remove(0) =~= all0.skip(j + 1));
        assert(e == all0[j as int]);
        let sh = common_texts(&target.tools, &e.tools);
        let k = !(e.owner == target.owner && e.name == target.name) && sh.len() > 0;
        keep.push(k);
        assert(keep@ =~= keep_s.take(j + 1));
        let ghost before = named_view(pairs@);
        pairs.push((e, sh));
        assert(named_view(pairs@) =~= before.push((all0[j as int], shared[j as int])));
        assert(zip_keys(all0, shared).take(j + 1) =~= zip_keys(all0, shared).take(j as int).push((all0[j as int], shared[j as int])));
        j = j + 1;
    }
    assert(zip_keys(all0, shared).take(n as int) =~= zip_keys(all0, shared));
    assert(keep_s.take(n as int) =~= keep_s);
    let cands = retain_masked(pairs, &keep);
    proof {
        lemma_named_masked(pairs@, keep@);
    }
    let mut keys: Vec<i128> = Vec::new();
    let mut k: usize = 0;
    while k < cands.len()
        invariant
            k <= cands.len(),
            keys.len() == k,
            forall|t: int| 0 <= t < k ==> #[trigger] keys@[t] == cands@[t].1.len(),
        decreases cands.len() - k,
    {
        keys.push(cands[k].1.len() as i128);
        k = k + 1;
    }
    let ghost cv = named_view(cands@);
    let sorted = sort_by_int_desc(cands, keys);
    proof {
        lemma_named_sorted(cands@, keys@);
    }
    let lim: usize = match limit {
        Some(l) => if l < 50 { l } else { 50 },
        None => 10,
    };
    let mut out = sorted;
    out.truncate(lim);
    proof {
        let full = firsts(sort_by(zip_keys(cv, cv.map_values(|p: (ServerEntry, Seq<Seq<char>>)| p.1.len() as int)), int_desc()));
        if (lim as nat) < full.len() {
            assert(named_view(out@) =~= full.take(lim as int));
        } else {
            assert(named_view(out@) =~= full);
        }
    }
    out
}

/// What two servers have in common and what sets them apart.
pub struct Comparison {
    pub shared_tools: Vec<String>,
    pub only_a_tools: Vec<String>,
    pub only_b_tools: Vec<String>,
    pub shared_resources: Vec<String>,
    pub shared_prompts: Vec<String>,
    pub same_transport: bool,
}

/// Compares two servers: the tool names both declare and those only one
/// does, the shared resources and prompts, and whether the transports match.
pub fn compare_servers(a: &ServerEntry, b: &ServerEntry) -> (r: Comparison)
    ensures
        texts(r.shared_tools@) == common(texts(a.tools@), texts(b.tools@)),
        texts(r.only_a_tools@) == only_in(texts(a.tools@), texts(b.tools@)),
        texts(r.only_b_tools@) == only_in(texts(b.tools@), texts(a.tools@)),
        texts(r.shared_resources@) == common(texts(a.resources@), texts(b.resources@)),
        texts(r.shared_prompts@) == common(texts(a.prompts@), texts(b.prompts@)),
        r.same_transport == (a.transport@ == b.transport@),
{
    Comparison {
        shared_tools: common_texts(&a.tools, &b.tools),
        only_a_tools: only_in_texts(&a.tools, &b.tools),
        only_b_tools: only_in_texts(&b.tools, &a.tools),
        shared_resources: common_texts(&a.resources, &b.resources),
        shared_prompts: common_texts(&a.prompts, &b.prompts),
        same_transport: a.transport == b.transport,
    }
}

proof fn lemma_push_contains(d: Seq<Seq<char>>, y: Seq<char>, x: Seq<char>)
    ensures
        d.push(y).contains(x) <==> (d.contains(x) || x == y),
{
    if d.contains(x) {
        let k = choose|k: int| 0 <= k < d.len() && d[k] == x;
        assert(d.push(y)[k] == x);
    }
    if x == y {
        assert(d.push(y)[d.len() as int] == x);
    }
    if d.push(y).contains(x) {
        let k = choose|k: int| 0 <= k < d.len() + 1 && d.push(y)[k] == x;
        if k < d.len() {
            assert(d[k] == x);
        }
    }
}

proof fn lemma_drop_last_contains(s: Seq<Seq<char>>, x: Seq<char>)
    requires
        s.len() > 0,
    ensures
        s.contains(x) <==> (s.drop_last().contains(x) || x == s.last()),
{
    assert(s.drop_last().push(s.last()) =~= s);
    lemma_push_contains(s.drop_last(), s.last(), x);
}

proof fn lemma_distinct_props(s: Seq<Seq<char>>)
    ensures
        distinct(s).no_duplicates(),
        forall|x: Seq<char>| distinct(s).contains(x) <==> s.contains(x),
    decreases s.len(),
{
    if s.len() > 0 {
        let p = s.drop_last();
        lemma_distinct_props(p);
        let d = distinct(p);
        assert forall|x: Seq<char>| distinct(s).contains(x) <==> s.contains(x) by {
            lemma_drop_last_contains(s, x);
            lemma_push_contains(d, s.last(), x);
            assert(d.contains(x) <==> p.contains(x));
        }
        if !d.contains(s.last()) {
            let g = d.push(s.last());
            assert forall|i: int, j: int| 0 <= i < g.len() && 0 <= j < g.len() && i != j implies g[i] != g[j] by {
                if i < d.len() && j < d.len() {
                    assert(g[i] == d[i] && g[j] == d[j]);
                } else if i < d.len() {
                    assert(g[i] == d[i]);
                    assert(d.contains(d[i]));
                } else {
                    assert(g[j] == d[j]);
                    assert(d.contains(d[j]));
                }
            }
        }
    } else {
        assert forall|x: Seq<char>| distinct(s).contains(x) <==> s.contains(x) by {
            assert(distinct(s) =~= Seq::<Seq<char>>::empty());
        }
    }
}

proof fn lemma_filter_props(s: Seq<Seq<char>>, pred: spec_fn(Seq<char>) -> bool)
    ensures
        s.no_duplicates() ==> s.filter(pred).no_duplicates(),
        forall|x: Seq<char>| s.filter(pred).contains(x) <==> (s.contains(x) && pred(x)),
    decreases s.len(),
{
    if s.len() > 0 {
        let p = s.drop_last();
        lemma_filter_props(p, pred);
        p.lemma_filter_push(s.last(), pred);
        assert(p.push(s.last()) =~= s);
        let f = p.filter(pred);
        assert forall|x: Seq<char>| s.filter(pred).contains(x) <==> (s.contains(x) && pred(x)) by {
            lemma_drop_last_contains(s, x);
            lemma_push_contains(f, s.last(), x);
            assert(f.contains(x) <==> (p.contains(x) && pred(x)));
        }
        if s.no_duplicates() {
            assert(p.no_duplicates()) by {
                assert forall|i: int, j: int| 0 <= i < p.len() && 0 <= j < p.len() && i != j implies p[i] != p[j] by {
                    assert(s[i] == p[i] && s[j] == p[j]);
                }
            }
            if pred(s.last()) {
                assert(!p.contains(s.last())) by {
                    if p.contains(s.last()) {
                        let k = choose|k: int| 0 <= k < p.len() && p[k] == s.last();
                        assert(s[k] == s[s.len() - 1]);
                    }
                }
                assert(!f.contains(s.last()));
                let g = f.push(s.last());
                assert forall|i: int, j: int| 0 <= i < g.len() && 0 <= j < g.len() && i != j implies g[i] != g[j] by {
                    if i < f.len() && j < f.len() {
                        assert(g[i] == f[i] && g[j] == f[j]);
                    } else if i < f.len() {
                        assert(g[i] == f[i]);
                        assert(f.contains(f[i]));
                    } else {
                        assert(g[j] == f[j]);
                        assert(f.contains(f[j]));
                    }
                }
            }
        }
    } else {
        assert forall|x: Seq<char>| s.filter(pred).contains(x) <==> (s.contains(x) && pred(x)) by {
            assert(s.filter(pred) =~= Seq::<Seq<char>>::empty());
        }
    }
}

proof fn lemma_common_set(a: Seq<Seq<char>>, b: Seq<Seq<char>>)
    ensures
        common(a, b).no_duplicates(),
        common(a, b).to_set() == a.to_set().intersect(b.to_set()),
{
    lemma_distinct_props(a);
    lemma_filter_props(distinct(a), in_seq(b));
    assert(common(a, b).to_set() =~= a.to_set().intersect(b.to_set()));
}

/// Two servers share as many distinct names one way as the other: the
/// number of common names does not depend on the order of the pair.
pub proof fn law_common_count_symmetric(a: Seq<Seq<char>>, b: Seq<Seq<char>>)
    ensures
        common(a, b).len() == common(b, a).len(),
{
    lemma_common_set(a, b);
    lemma_common_set(b, a);
    assert(a.to_set().intersect(b.to_set()) =~= b.to_set().intersect(a.to_set()));
    common(a, b).unique_seq_to_set();
    common(b, a).unique_seq_to_set();
}

/// The compatibility of two servers does not depend on their order: the
/// same score, and the same verdict, either way round.
pub proof fn law_compatibility_symmetric(a: ServerEntry, b: ServerEntry)
    ensures
        compat_score(common(texts(a.tools@), texts(b.tools@)).len(), common(env_keys(a.env@), env_keys(b.env@)).len())
            == compat_score(common(texts(b.tools@), texts(a.tools@)).len(), common(env_keys(b.env@), env_keys(a.env@)).len()),
{
    law_common_count_symmetric(texts(a.tools@), texts(b.tools@));
    law_common_count_symmetric(env_keys(a.env@), env_keys(b.env@));
}

/// A compatibility score lies between 40 and 100.
pub proof fn law_compatibility_score_range(c: nat, e: nat)
    ensures
        40 <= compat_score(c, e) <= 100,
{
}

/// The shared and the missing names of `a` partition its distinct names.
pub proof fn law_common_only_partition(a: Seq<Seq<char>>, b: Seq<Seq<char>>)
    ensures
        common(a, b).len() + only_in(a, b).len() == distinct(a).len(),
        forall|x: Seq<char>| distinct(a).contains(x) ==> (common(a, b).contains(x) <==> !only_in(a, b).contains(x)),
{
    lemma_filter_props(distinct(a), in_seq(b));
    lemma_filter_props(distinct(a), not_in_seq(b));
    lemma_partition_len(distinct(a), b);
}

proof fn lemma_partition_len(d: Seq<Seq<char>>, b: Seq<Seq<char>>)
    ensures
        d.filter(in_seq(b)).len() + d.filter(not_in_seq(b)).len() == d.len(),
    decreases d.len(),
{
    if d.len() > 0 {
        lemma_partition_len(d.drop_last(), b);
        d.drop_last().lemma_filter_push(d.last(), in_seq(b));
        d.drop_last().lemma_filter_push(d.last(), not_in_seq(b));
        assert(d.drop_last().push(d.last()) =~= d);
    }
}

/// Sorting keyed pairs by their own key, most first: every result is one of
/// the pairs, and the keys do not increase.
proof fn lemma_sorted_pairs<T>(pairs: Seq<(T, int)>)
    ensures
        ({
            let r = firsts(sort_by(zip_keys(pairs, pairs.map_values(|p: (T, int)| p.1)), int_desc()));
            &&& r.len() == pairs.len()
            &&& forall|k: int| 0 <= k < r.len() ==> pairs.contains(#[trigger] r[k])
            &&& forall|a: int, b: int| 0 <= a < b < r.len() ==> (#[trigger] r[a]).1 >= (#[trigger] r[b]).1
        }),
{
    let z = zip_keys(pairs, pairs.map_values(|p: (T, int)| p.1));
    lemma_sort_desc(z);
    let sz = sort_by(z, int_desc());
    let r = firsts(sz);
    assert forall|k: int| 0 <= k < sz.len() implies pairs.contains((#[trigger] sz[k]).0) && sz[k].1 == sz[k].0.1 by {
        assert(sz.contains(sz[k]));
        assert(z.contains(sz[k]));
        let j = choose|j: int| 0 <= j < z.len() && z[j] == sz[k];
        assert(pairs[j] == sz[k].0);
    }
    assert forall|k: int| 0 <= k < r.len() implies pairs.contains(#[trigger] r[k]) by {
        assert(r[k] == sz[k].0);
    }
    assert forall|a: int, b: int| 0 <= a < b < r.len() implies (#[trigger] r[a]).1 >= (#[trigger] r[b]).1 by {
        assert(r[a] == sz[a].0 && r[b] == sz[b].0);
        assert(sz[a].1 >= sz[b].1);
    }
}

/// A recommended bundle holds only candidates (other servers, not
/// deprecated), each with its own score; scores run from best to worst;
/// and there are at most `limit` (5 by default, 20 at most).
pub proof fn law_bundle(all: Seq<ServerEntry>, seed: ServerEntry, cats: Seq<String>, seed_cat: Seq<char>, pops: Seq<i64>,
    limit: Option<usize>)
    requires
        cats.len() == all.len(),
        pops.len() == all.len(),
    ensures
        ({
            let b = bundle_spec(all, seed, cats, seed_cat, pops, limit);
            let scores = bundle_scores(all, seed, cats, seed_cat, pops);
            &&& b.len() <= (match limit { Some(l) => if l < 20 { l as nat } else { 20 }, None => 5 })
            &&& forall|k: int| 0 <= k < b.len() ==> exists|i: int| 0 <= i < all.len() && all[i] == (#[trigger] b[k]).0
                && bundle_candidate(all[i], seed) && b[k].1 == scores[i]
            &&& forall|x: int, y: int| 0 <= x < y < b.len() ==> (#[trigger] b[x]).1 >= (#[trigger] b[y]).1
        }),
{
    let scores = bundle_scores(all, seed, cats, seed_cat, pops);
    let m = bundle_mask(all, seed);
    let z = zip_keys(all, scores);
    let pairs = masked(z, m);
    lemma_masked_from(z, m);
    lemma_sorted_pairs(pairs);
    let sorted = firsts(sort_by(zip_keys(pairs, pairs.map_values(|p: (ServerEntry, int)| p.1)), int_desc()));
    let b = bundle_spec(all, seed, cats, seed_cat, pops, limit);
    assert forall|k: int| 0 <= k < b.len() implies exists|i: int| 0 <= i < all.len() && all[i] == (#[trigger] b[k]).0
        && bundle_candidate(all[i], seed) && b[k].1 == scores[i] by {
        assert(b[k] == sorted[k]);
        assert(pairs.contains(sorted[k]));
        let j = choose|j: int| 0 <= j < pairs.len() && pairs[j] == sorted[k];
        assert(kept_from(z, m, pairs[j]));
        let i = choose|i: int| 0 <= i < m.len() && m[i] && z[i] == pairs[j];
        assert(all[i] == b[k].0);
    }
    assert forall|x: int, y: int| 0 <= x < y < b.len() implies (#[trigger] b[x]).1 >= (#[trigger] b[y]).1 by {
        assert(b[x] == sorted[x] && b[y] == sorted[y]);
    }
}

/// The dependents of a server are other servers, each listed with exactly
/// the tool names it shares with the target (at least one); those with the
/// most shared tools come first; and there are at most `limit` (10 by
/// default, 50 at most).
pub proof fn law_dependents(target: ServerEntry, all: Seq<ServerEntry>, limit: Option<usize>)
    ensures
        ({
            let d = dependents_spec(target, all, limit);
            &&& d.len() <= (match limit { Some(l) => if l < 50 { l as nat } else { 50 }, None => 10 })
            &&& forall|k: int| 0 <= k < d.len() ==> all.contains((#[trigger] d[k]).0)
                && !(d[k].0.owner@ == target.owner@ && d[k].0.name@ == target.name@)
                && d[k].1 == shared_tools(target, d[k].0) && d[k].1.len() > 0
            &&& forall|x: int, y: int| 0 <= x < y < d.len() ==> (#[trigger] d[x]).1.len() >= (#[trigger] d[y]).1.len()
        }),
{
    let shared = Seq::new(all.len(), |i: int| shared_tools(target, all[i]));
    let keep = Seq::new(all.len(), |i: int|
        !(all[i].owner@ == target.owner@ && all[i].name@ == target.name@) && shared[i].len() > 0);
    let z = zip_keys(all, shared);
    let pairs = masked(z, keep);
    lemma_masked_from(z, keep);
    let zk = zip_keys(pairs, pairs.map_values(|p: (ServerEntry, Seq<Seq<char>>)| p.1.len() as int));
    lemma_sort_desc(zk);
    let sz = sort_by(zk, int_desc());
    let sorted = firsts(sz);
    let d = dependents_spec(target, all, limit);
    assert forall|k: int| 0 <= k < sz.len() implies (#[trigger] sz[k]).1 == sz[k].0.1.len() && pairs.contains(sz[k].0) by {
        assert(sz.contains(sz[k]));
        assert(zk.contains(sz[k]));
        let j = choose|j: int| 0 <= j < zk.len() && zk[j] == sz[k];
        assert(pairs[j] == sz[k].0);
    }
    assert forall|k: int| 0 <= k < d.len() implies all.contains((#[trigger] d[k]).0)
        && !(d[k].0.owner@ == target.owner@ && d[k].0.name@ == target.name@)
        && d[k].1 == shared_tools(target, d[k].0) && d[k].1.len() > 0 by {
        assert(d[k] == sorted[k]);
        assert(sorted[k] == sz[k].0);
        let j = choose|j: int| 0 <= j < pairs.len() && pairs[j] == sz[k].0;
        assert(kept_from(z, keep, pairs[j]));
        let i = choose|i: int| 0 <= i < keep.len() && keep[i] && z[i] == pairs[j];
        assert(all[i] == d[k].0);
    }
    assert forall|x: int, y: int| 0 <= x < y < d.len() implies (#[trigger] d[x]).1.len() >= (#[trigger] d[y]).1.len() by {
        assert(d[x] == sorted[x] && d[y] == sorted[y]);
        assert(sorted[x] == sz[x].0 && sorted[y] == sz[y].0);
        assert(sz[x].1 >= sz[y].1);
    }
}

} // verus!
