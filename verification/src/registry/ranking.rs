//! What the relevance rankings count. The similarity of two servers rests
//! on the tool names they share and the long description words they share;
//! the weighted search on which fields of a server mention each query word.
//! The weights themselves are floating point and are applied by the caller.

use vstd::prelude::*;
use crate::registry::compare::{common, common_texts, distinct, distinct_texts, law_common_count_symmetric,
    law_common_only_partition, only_in, only_in_texts};
use crate::registry::entry::ServerEntry;
use crate::registry::validate::texts;
use crate::text::{contains_seq, lower, lower_chars, split_whitespace, to_lower, words_of};

verus! {

/// Bytes of a character in UTF-8 (what `char::len_utf8` returns).
pub open spec fn utf8_width(c: char) -> nat {
    if (c as u32) < 0x80 {
        1
    } else if (c as u32) < 0x800 {
        2
    } else if (c as u32) < 0x10000 {
        3
    } else {
        4
    }
}

/// Length in bytes of the UTF-8 encoding of `s` (what `str::len` returns).
pub open spec fn utf8_len(s: Seq<char>) -> nat
    decreases s.len(),
{
    if s.len() == 0 {
        0
    } else {
        utf8_len(s.drop_last()) + utf8_width(s.last())
    }
}

proof fn lemma_utf8_len_prefix(s: Seq<char>, i: int)
    requires
        0 <= i <= s.len(),
    ensures
        utf8_len(s.take(i)) <= utf8_len(s),
    decreases s.len(),
{
    if i < s.len() {
        assert(s.drop_last().take(i) =~= s.take(i));
        lemma_utf8_len_prefix(s.drop_last(), i);
    } else {
        assert(s.take(i) =~= s);
    }
}

fn utf8_width_exec(c: char) -> (r: usize)
    ensures
        r == utf8_width(c),
{
    let u = c as u32;
    if u < 0x80 {
        1
    } else if u < 0x800 {
        2
    } else if u < 0x10000 {
        3
    } else {
        4
    }
}

/// Does the UTF-8 encoding of `s` take more than three bytes?
fn longer_than_three(s: &Vec<char>) -> (r: bool)
    ensures
        r == (utf8_len(s@) > 3),
{
    let mut total: usize = 0;
    let mut i: usize = 0;
    assert(s@.take(0) =~= Seq::<char>::empty());
    while i < s.len() && total <= 3
        invariant
            i <= s.len(),
            total == utf8_len(s@.take(i as int)),
            total <= 7,
        decreases s.len() - i,
    {
        assert(s@.take(i + 1).drop_last() =~= s@.take(i as int));
        total = total + utf8_width_exec(s[i]);
        i = i + 1;
    }
    proof {
        lemma_utf8_len_prefix(s@, i as int);
        if i == s.len() {
            assert(s@.take(i as int) =~= s@);
        }
    }
    total > 3
}

/// The lowercased description words longer than three bytes, each once.
pub open spec fn long_words_spec(description: Seq<char>) -> Seq<Seq<char>> {
    distinct(words_of(lower(description)).filter(|w: Seq<char>| utf8_len(w) > 3))
}

/// The distinct words of a description, lowercased, that take more than
/// three bytes, in order of first appearance.
pub fn long_words(description: &str) -> (r: Vec<String>)
    ensures
        texts(r@) == long_words_spec(description@),
{
    let low = to_lower(description);
    let words = split_whitespace(low.as_str());
    let ghost ws = words_of(lower(description@));
    let ghost pred = |w: Seq<char>| utf8_len(w) > 3;
    let mut kept: Vec<String> = Vec::new();
    let mut i: usize = 0;
    assert(ws.take(0) =~= Seq::<Seq<char>>::empty());
    assert(texts(kept@) =~= Seq::<Seq<char>>::empty());
    while i < words.len()
        invariant
            i <= words.len(),
            words.len() == ws.len(),
            forall|k: int| 0 <= k < words.len() ==> #[trigger] words[k]@ == ws[k],
            pred == |w: Seq<char>| utf8_len(w) > 3,
            texts(kept@) == ws.take(i as int).filter(pred),
        decreases words.len() - i,
    {
        let w = crate::text::chars_of(words[i].as_str());
        assert(ws.take(i + 1) =~= ws.take(i as int).push(ws[i as int]));
        proof {
            ws.take(i as int).lemma_filter_push(ws[i as int], pred);
        }
        if longer_than_three(&w) {
            let ghost before = texts(kept@);
            kept.push(words[i].clone());
            assert(texts(kept@) =~= before.push(ws[i as int]));
        }
        i = i + 1;
    }
    assert(ws.take(words.len() as int) =~= ws);
    distinct_texts(&kept)
}

/// The counts behind the similarity of a candidate to a target server.
pub struct SimilarityCounts {
    /// Tool names both declare.
    pub shared_tools: usize,
    /// Tool names either declares.
    pub all_tools: u128,
    /// Whether both have the same category.
    pub same_category: bool,
    /// Long description words both use.
    pub shared_words: usize,
    /// Long description words either uses.
    pub all_words: u128,
}

/// The size of the union of the name sets of `a` and `b`.
pub open spec fn union_len(a: Seq<Seq<char>>, b: Seq<Seq<char>>) -> nat {
    distinct(a).len() + only_in(b, a).len()
}

/// The similarity counts of `s` (category `s_cat`) against a target with
/// tools `target_tools`, long words `target_words` and category
/// `target_cat`.
pub open spec fn counts_spec(target_tools: Seq<Seq<char>>, target_words: Seq<Seq<char>>, target_cat: Seq<char>,
    s: ServerEntry, s_cat: Seq<char>) -> (nat, nat, bool, nat, nat) {
    let sw = long_words_spec(s.description@);
    (
        common(target_tools, texts(s.tools@)).len(),
        union_len(target_tools, texts(s.tools@)),
        s_cat == target_cat,
        common(target_words, sw).len(),
        union_len(target_words, sw),
    )
}

/// The view of a set of counts.
pub open spec fn counts_view(c: SimilarityCounts) -> (nat, nat, bool, nat, nat) {
    (c.shared_tools as nat, c.all_tools as nat, c.same_category, c.shared_words as nat, c.all_words as nat)
}

fn union_count(a: &Vec<String>, b: &Vec<String>) -> (r: u128)
    ensures
        r == union_len(texts(a@), texts(b@)),
{
    let d = distinct_texts(a);
    let o = only_in_texts(b, a);
    assert(d.len() == distinct(texts(a@)).len());
    assert(o.len() == only_in(texts(b@), texts(a@)).len());
    d.len() as u128 + o.len() as u128
}

/// Counts what `s` (in category `s_cat`) shares with the target: tool
/// names, category, and long description words (`target_words` as
/// `long_words` gives them for the target).
pub fn similarity_counts(target: &ServerEntry, target_words: &Vec<String>, target_cat: &str, s: &ServerEntry,
    s_cat: &str) -> (r: SimilarityCounts)
    ensures
        counts_view(r) == counts_spec(texts(target.tools@), texts(target_words@), target_cat@, *s, s_cat@),
{
    let shared = common_texts(&target.tools, &s.tools);
    let all = union_count(&target.tools, &s.tools);
    let words = long_words(s.description.as_str());
    let shared_w = common_texts(target_words, &words);
    let all_w = union_count(target_words, &words);
    let same = crate::text::str_eq(s_cat, target_cat);
    assert(shared.len() == common(texts(target.tools@), texts(s.tools@)).len());
    assert(shared_w.len() == common(texts(target_words@), texts(words@)).len());
    SimilarityCounts { shared_tools: shared.len(), all_tools: all, same_category: same, shared_words: shared_w.len(), all_words: all_w }
}

/// The similarity counts of every server of a listing against `target`,
/// leaving out the target itself (same owner and name); `cats[i]` is the
/// category of `all[i]`. Listing order is kept.
pub open spec fn similarity_table_spec(target: ServerEntry, target_cat: Seq<char>, all: Seq<ServerEntry>, cats: Seq<String>)
    -> Seq<(ServerEntry, (nat, nat, bool, nat, nat))>
    decreases all.len(),
{
    if all.len() == 0 {
        Seq::empty()
    } else {
        let rest = similarity_table_spec(target, target_cat, all.drop_last(), cats.drop_last());
        let s = all.last();
        if s.owner@ == target.owner@ && s.name@ == target.name@ {
            rest
        } else {
            rest.push((s, counts_spec(texts(target.tools@), long_words_spec(target.description@), target_cat, s,
                cats[all.len() - 1]@)))
        }
    }
}

/// The similarity counts of the other servers of a listing against
/// `target` (see `similarity_table_spec`).
pub fn similarity_table(target: &ServerEntry, target_cat: &str, all: Vec<ServerEntry>, cats: &Vec<String>)
    -> (r: Vec<(ServerEntry, SimilarityCounts)>)
    requires
        cats.len() == all.len(),
    ensures
        r@.map_values(|p: (ServerEntry, SimilarityCounts)| (p.0, counts_view(p.1)))
            == similarity_table_spec(*target, target_cat@, all@, cats@),
{
    let ghost all0 = all@;
    let target_words = long_words(target.description.as_str());
    let mut all = all;
    let mut out: Vec<(ServerEntry, SimilarityCounts)> = Vec::new();
    let mut i: usize = 0;
    let n = all.len();
    assert(all0.take(0) =~= Seq::<ServerEntry>::empty());
    assert(cats@.take(0) =~= Seq::<String>::empty());
    while i < n
        invariant
            n == all0.len(),
            cats.len() == n,
            i <= n,
            all@ =~= all0.skip(i as int),
            texts(target_words@) == long_words_spec(target.description@),
            out@.map_values(|p: (ServerEntry, SimilarityCounts)| (p.0, counts_view(p.1)))
                == similarity_table_spec(*target, target_cat@, all0.take(i as int), cats@.take(i as int)),
        decreases n - i,
    {
        let s = all.remove(0);
        assert(all0.skip(i as int).remove(0) =~= all0.skip(i + 1));
        assert(all0.take(i + 1).drop_last() =~= all0.take(i as int));
        assert(cats@.take(i + 1).drop_last() =~= cats@.take(i as int));
        assert(all0.take(i + 1).last() == s);
        let same_owner = crate::text::str_eq(s.owner.as_str(), target.owner.as_str());
        let same_name = crate::text::str_eq(s.name.as_str(), target.name.as_str());
        if !(same_owner && same_name) {
            let c = similarity_counts(target, &target_words, target_cat, &s, cats[i].as_str());
            let ghost before = out@.map_values(|p: (ServerEntry, SimilarityCounts)| (p.0, counts_view(p.1)));
            let ghost cv = counts_view(c);
            out.push((s, c));
            assert(out@.map_values(|p: (ServerEntry, SimilarityCounts)| (p.0, counts_view(p.1))) =~= before.push(
                (all0[i as int], cv)));
        }
        i = i + 1;
    }
    assert(all0.take(n as int) =~= all0);
    assert(cats@.take(n as int) =~= cats@);
    out
}

/// The lowercased words of a search query.
pub fn query_tokens(query: &str) -> (r: Vec<String>)
    ensures
        texts(r@) == words_of(lower(query@)),
{
    let low = to_lower(query);
    let w = split_whitespace(low.as_str());
    assert(texts(w@) =~= words_of(lower(query@)));
    w
}

/// The points, in halves, that one query word earns a server: 20 for an
/// exact name or full name, else 10 when the name contains it; 4 when the
/// description does, 3 for the tools, 2 for the tags and 1 for the
/// category (each lowercased; tools and tags joined by spaces).
pub open spec fn token_points(name: Seq<char>, full: Seq<char>, desc: Seq<char>, tools: Seq<char>, tags: Seq<char>,
    cat: Seq<char>, t: Seq<char>) -> nat {
    (if name == t || full == t { 20nat } else if crate::text::contains_seq(name, t) { 10nat } else { 0nat })
        + (if crate::text::contains_seq(desc, t) { 4nat } else { 0nat })
        + (if crate::text::contains_seq(tools, t) { 3nat } else { 0nat })
        + (if crate::text::contains_seq(tags, t) { 2nat } else { 0nat })
        + (if crate::text::contains_seq(cat, t) { 1nat } else { 0nat })
}

/// The sum of `token_points` over the first `n` query words.
pub open spec fn points_sum(name: Seq<char>, full: Seq<char>, desc: Seq<char>, tools: Seq<char>, tags: Seq<char>,
    cat: Seq<char>, tokens: Seq<Seq<char>>, n: nat) -> nat
    decreases n,
{
    if n == 0 || n > tokens.len() {
        0
    } else {
        points_sum(name, full, desc, tools, tags, cat, tokens, (n - 1) as nat)
            + token_points(name, full, desc, tools, tags, cat, tokens[n - 1])
    }
}

/// The weighted-search points, in halves, of a server in category `cat`
/// for the query words `tokens`.
pub open spec fn weighted_points_spec(s: ServerEntry, cat: Seq<char>, tokens: Seq<Seq<char>>) -> nat {
    points_sum(
        lower(s.name@),
        lower(crate::registry::entry::full_name_of(s.owner@, s.name@)),
        lower(s.description@),
        lower(crate::registry::store::joined(texts(s.tools@), seq![' '])),
        lower(crate::registry::store::joined(texts(s.tags@), seq![' '])),
        lower(cat),
        tokens,
        tokens.len(),
    )
}

/// The points of the first `n` words depend on those words only.
proof fn lemma_points_prefix(name: Seq<char>, full: Seq<char>, desc: Seq<char>, tools: Seq<char>, tags: Seq<char>,
    cat: Seq<char>, a: Seq<Seq<char>>, b: Seq<Seq<char>>, n: nat)
    requires
        n <= a.len(),
        n <= b.len(),
        forall|i: int| 0 <= i < n ==> a[i] == b[i],
    ensures
        points_sum(name, full, desc, tools, tags, cat, a, n) == points_sum(name, full, desc, tools, tags, cat, b, n),
    decreases n,
{
    if n > 0 {
        lemma_points_prefix(name, full, desc, tools, tags, cat, a, b, (n - 1) as nat);
    }
}

/// Weighted-search points add up word by word: one more query word adds
/// what that word alone earns. A word alone earns 20 when it is the
/// server's lowercased name (or full name), 10 when the lowercased name
/// merely contains it, plus 4, 3, 2 and 1 when the lowercased description,
/// tools, tags and category contain it; nothing when none of them does.
pub proof fn law_weighted_points_add_up(s: ServerEntry, cat: Seq<char>, tokens: Seq<Seq<char>>, t: Seq<char>)
    ensures
        weighted_points_spec(s, cat, tokens.push(t)) == weighted_points_spec(s, cat, tokens) + weighted_points_spec(s, cat, seq![t]),
        ({
            let name = lower(s.name@);
            let full = lower(crate::registry::entry::full_name_of(s.owner@, s.name@));
            let desc = lower(s.description@);
            let tools = lower(crate::registry::store::joined(texts(s.tools@), seq![' ']));
            let tags = lower(crate::registry::store::joined(texts(s.tags@), seq![' ']));
            let c = lower(cat);
            let p = weighted_points_spec(s, cat, seq![t]);
            &&& p == (if name == t || full == t { 20int } else if contains_seq(name, t) { 10int } else { 0int })
                + (if contains_seq(desc, t) { 4int } else { 0int })
                + (if contains_seq(tools, t) { 3int } else { 0int })
                + (if contains_seq(tags, t) { 2int } else { 0int })
                + (if contains_seq(c, t) { 1int } else { 0int })
            &&& (name == t ==> p >= 20)
            &&& (name != t && full != t && !contains_seq(name, t) && !contains_seq(desc, t) && !contains_seq(tools, t)
                && !contains_seq(tags, t) && !contains_seq(c, t) ==> p == 0)
        }),
{
    let name = lower(s.name@);
    let full = lower(crate::registry::entry::full_name_of(s.owner@, s.name@));
    let desc = lower(s.description@);
    let tools = lower(crate::registry::store::joined(texts(s.tools@), seq![' ']));
    let tags = lower(crate::registry::store::joined(texts(s.tags@), seq![' ']));
    let c = lower(cat);
    let longer = tokens.push(t);
    lemma_points_prefix(name, full, desc, tools, tags, c, tokens, longer, tokens.len());
    let one = seq![t];
    assert(points_sum(name, full, desc, tools, tags, c, one, 0) == 0);
    assert(points_sum(name, full, desc, tools, tags, c, one, 1) == token_points(name, full, desc, tools, tags, c, t));
}

proof fn lemma_points_bound(name: Seq<char>, full: Seq<char>, desc: Seq<char>, tools: Seq<char>, tags: Seq<char>,
    cat: Seq<char>, tokens: Seq<Seq<char>>, n: nat)
    requires
        n <= tokens.len(),
    ensures
        points_sum(name, full, desc, tools, tags, cat, tokens, n) <= 30 * n,
    decreases n,
{
    if n > 0 {
        lemma_points_bound(name, full, desc, tools, tags, cat, tokens, (n - 1) as nat);
    }
}

/// Scores a server (in category `cat`) against lowercased query words, in
/// half points (see `token_points`).
pub fn weighted_points(s: &ServerEntry, cat: &str, tokens: &Vec<String>) -> (r: u128)
    ensures
        r == weighted_points_spec(*s, cat@, texts(tokens@)),
{
    proof {
        reveal_strlit(" ");
    }
    let name = lower_chars(s.name.as_str());
    let full_name = s.full_name();
    let full = lower_chars(full_name.as_str());
    let desc = lower_chars(s.description.as_str());
    let tools_joined = crate::registry::store::join_strings(&s.tools, " ");
    let tools = lower_chars(tools_joined.as_str());
    let tags_joined = crate::registry::store::join_strings(&s.tags, " ");
    let tags = lower_chars(tags_joined.as_str());
    let c = lower_chars(cat);
    assert(" "@ =~= seq![' ']);
    let ghost tk = texts(tokens@);
    let mut total: u128 = 0;
    let mut i: usize = 0;
    while i < tokens.len()
        invariant
            i <= tokens.len(),
            tk == texts(tokens@),
            total == points_sum(name@, full@, desc@, tools@, tags@, c@, tk, i as nat),
            total <= 30 * i,
        decreases tokens.len() - i,
    {
        let t = crate::text::chars_of(tokens[i].as_str());
        let mut p: u128 = 0;
        if crate::text::chars_eq(&name, &t) || crate::text::chars_eq(&full, &t) {
            p = p + 20;
        } else if crate::text::contains_chars(&name, &t) {
            p = p + 10;
        }
        if crate::text::contains_chars(&desc, &t) {
            p = p + 4;
        }
        if crate::text::contains_chars(&tools, &t) {
            p = p + 3;
        }
        if crate::text::contains_chars(&tags, &t) {
            p = p + 2;
        }
        if crate::text::contains_chars(&c, &t) {
            p = p + 1;
        }
        assert(p == token_points(name@, full@, desc@, tools@, tags@, c@, tk[i as int]));
        total = total + p;
        i = i + 1;
    }
    total
}

/// The name sets two servers share and span do not depend on which of the
/// two is the target: the shared and the combined counts are the same
/// either way round.
pub proof fn law_overlap_symmetric(a: Seq<Seq<char>>, b: Seq<Seq<char>>)
    ensures
        common(a, b).len() == common(b, a).len(),
        union_len(a, b) == union_len(b, a),
        common(a, b).len() <= union_len(a, b),
{
    law_common_count_symmetric(a, b);
    law_common_only_partition(a, b);
    law_common_only_partition(b, a);
}

} // verus!
