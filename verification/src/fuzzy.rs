//! Fuzzy matching of server names: edit distance, subsequences, acronyms,
//! tokens, and the ranked suggestions built from them.

use vstd::prelude::*;
use crate::text::{chars_eq, chars_of, contains_chars, contains_seq, lower, runs_of, split_runs, starts_with_chars, starts_with_seq, string_of, to_lower};

verus! {

/// Smallest of three naturals.
pub open spec fn min3(x: nat, y: nat, z: nat) -> nat {
    if x <= y && x <= z {
        x
    } else if y <= z {
        y
    } else {
        z
    }
}

/// Levenshtein edit distance: the fewest single-character insertions,
/// deletions and substitutions that turn `a` into `b`.
pub open spec fn lev(a: Seq<char>, b: Seq<char>) -> nat
    decreases a.len() + b.len(),
{
    if a.len() == 0 {
        b.len()
    } else if b.len() == 0 {
        a.len()
    } else {
        min3(
            lev(a.drop_last(), b) + 1,
            lev(a, b.drop_last()) + 1,
            lev(a.drop_last(), b.drop_last()) + (if a.last() == b.last() { 0nat } else { 1nat }),
        )
    }
}

/// The edit distance never exceeds the longer length.
pub proof fn lemma_lev_bound(a: Seq<char>, b: Seq<char>)
    ensures
        lev(a, b) <= if a.len() >= b.len() { a.len() } else { b.len() },
    decreases a.len() + b.len(),
{
    if a.len() > 0 && b.len() > 0 {
        lemma_lev_bound(a.drop_last(), b.drop_last());
        lemma_lev_bound(a.drop_last(), b);
        lemma_lev_bound(a, b.drop_last());
    }
}

/// Edit distance between two character sequences, by dynamic programming
/// over prefixes.
pub fn levenshtein_chars(a: &Vec<char>, b: &Vec<char>) -> (r: usize)
    requires
        a.len() <= isize::MAX,
        b.len() <= isize::MAX,
    ensures
        r == lev(a@, b@),
{
    let m = a.len();
    let n = b.len();
    let mut prev: Vec<usize> = Vec::new();
    let mut j: usize = 0;
    while j <= n
        invariant
            n == b.len(),
            n <= isize::MAX,
            j <= n + 1,
            prev.len() == j,
            forall|k: int| 0 <= k < j ==> #[trigger] prev[k] == lev(a@.take(0), b@.take(k)),
        decreases n + 1 - j,
    {
        proof {
            assert(a@.take(0).len() == 0);
        }
        prev.push(j);
        j = j + 1;
    }
    let mut i: usize = 1;
    while i <= m
        invariant
            m == a.len(),
            n == b.len(),
            m <= isize::MAX,
            n <= isize::MAX,
            1 <= i <= m + 1,
            prev.len() == n + 1,
            forall|k: int| 0 <= k <= n ==> #[trigger] prev[k] == lev(a@.take(i - 1), b@.take(k)),
        decreases m + 1 - i,
    {
        let mut cur: Vec<usize> = Vec::new();
        proof {
            assert(b@.take(0).len() == 0);
            assert(a@.take(i as int).len() > 0);
        }
        cur.push(i);
        let mut j: usize = 1;
        while j <= n
            invariant
                m == a.len(),
                n == b.len(),
                m <= isize::MAX,
                n <= isize::MAX,
                1 <= i <= m,
                1 <= j <= n + 1,
                prev.len() == n + 1,
                cur.len() == j,
                forall|k: int| 0 <= k <= n ==> #[trigger] prev[k] == lev(a@.take(i - 1), b@.take(k)),
                forall|k: int| 0 <= k < j ==> #[trigger] cur[k] == lev(a@.take(i as int), b@.take(k)),
            decreases n + 1 - j,
        {
            let ghost ai = a@.take(i as int);
            let ghost bj = b@.take(j as int);
            proof {
                assert(ai.drop_last() =~= a@.take(i - 1));
                assert(bj.drop_last() =~= b@.take(j - 1));
                lemma_lev_bound(a@.take(i - 1), b@.take(j as int));
                lemma_lev_bound(ai, b@.take(j - 1));
                lemma_lev_bound(a@.take(i - 1), b@.take(j - 1));
            }
            let cost: usize = if a[i - 1] == b[j - 1] { 0 } else { 1 };
            let del = prev[j] + 1;
            let ins = cur[j - 1] + 1;
            let sub = prev[j - 1] + cost;
            let mut best = del;
            if ins < best {
                best = ins;
            }
            if sub < best {
                best = sub;
            }
            assert(best == lev(ai, bj));
            cur.push(best);
            j = j + 1;
        }
        prev = cur;
        i = i + 1;
    }
    proof {
        assert(a@.take(m as int) =~= a@);
        assert(b@.take(n as int) =~= b@);
    }
    prev[n]
}

/// Case-insensitive Levenshtein distance: the edit distance between the
/// lowercased strings.
pub fn levenshtein(a: &str, b: &str) -> (r: usize)
    ensures
        r == lev(lower(a@), lower(b@)),
{
    let la = to_lower(a);
    let lb = to_lower(b);
    let ca = chars_of(la.as_str());
    let cb = chars_of(lb.as_str());
    levenshtein_chars(&ca, &cb)
}

/// `n` is a subsequence of `h`: its characters occur in `h` in order, not
/// necessarily next to each other.
pub open spec fn is_subseq(n: Seq<char>, h: Seq<char>) -> bool
    decreases h.len(),
{
    if n.len() == 0 {
        true
    } else if h.len() == 0 {
        false
    } else if n[0] == h[0] {
        is_subseq(n.drop_first(), h.drop_first())
    } else {
        is_subseq(n, h.drop_first())
    }
}

/// Subsequence test on characters, scanning the haystack once.
pub fn is_subsequence_chars(n: &Vec<char>, h: &Vec<char>) -> (r: bool)
    ensures
        r == is_subseq(n@, h@),
{
    let mut i: usize = 0;
    let mut j: usize = 0;
    assert(n@.skip(0) =~= n@);
    assert(h@.skip(0) =~= h@);
    while i < n.len()
        invariant
            i <= n.len(),
            j <= h.len(),
            is_subseq(n@, h@) == is_subseq(n@.skip(i as int), h@.skip(j as int)),
        decreases h.len() - j,
    {
        if j == h.len() {
            return false;
        }
        assert(n@.skip(i as int).drop_first() =~= n@.skip(i + 1));
        assert(h@.skip(j as int).drop_first() =~= h@.skip(j + 1));
        if h[j] == n[i] {
            i = i + 1;
        }
        j = j + 1;
    }
    true
}

/// Case-insensitive subsequence test (e.g. "fs" in "filesystem").
pub fn is_subsequence(needle: &str, haystack: &str) -> (r: bool)
    ensures
        r == is_subseq(lower(needle@), lower(haystack@)),
{
    let ln = to_lower(needle);
    let lh = to_lower(haystack);
    is_subsequence_chars(&chars_of(ln.as_str()), &chars_of(lh.as_str()))
}

/// Case-insensitive substring test.
pub fn contains_substring(haystack: &str, needle: &str) -> (r: bool)
    ensures
        r == contains_seq(lower(haystack@), lower(needle@)),
{
    let lh = to_lower(haystack);
    let ln = to_lower(needle);
    contains_chars(&chars_of(lh.as_str()), &chars_of(ln.as_str()))
}

/// The characters at which an acronym splits words.
pub open spec fn is_word_sep(c: char) -> bool {
    c == '_' || c == '-' || c == ' ' || c == '/'
}

/// The acronym of `c`: the first character of every maximal run of
/// non-separator characters, in order.
pub open spec fn acronym_of(c: Seq<char>) -> Seq<char>
    decreases c.len(),
{
    if c.len() == 0 {
        Seq::<char>::empty()
    } else {
        let rest = acronym_of(c.drop_last());
        let i = c.len() - 1;
        if !is_word_sep(c[i]) && (i == 0 || is_word_sep(c[i - 1])) {
            rest.push(c[i])
        } else {
            rest
        }
    }
}

/// Builds the acronym of a character sequence.
pub fn acronym_chars(c: &Vec<char>) -> (r: Vec<char>)
    ensures
        r@ == acronym_of(c@),
{
    let mut out: Vec<char> = Vec::new();
    let mut i: usize = 0;
    assert(c@.take(0) =~= Seq::<char>::empty());
    while i < c.len()
        invariant
            i <= c.len(),
            out@ == acronym_of(c@.take(i as int)),
        decreases c.len() - i,
    {
        let ch = c[i];
        let starts_word = (ch != '_' && ch != '-' && ch != ' ' && ch != '/') && (i == 0 || {
            let p = c[i - 1];
            p == '_' || p == '-' || p == ' ' || p == '/'
        });
        assert(c@.take(i + 1).drop_last() =~= c@.take(i as int));
        if starts_word {
            out.push(ch);
        }
        i = i + 1;
    }
    assert(c@.take(c.len() as int) =~= c@);
    out
}

/// Acronym-style match: the lowercased query occurs in the acronym of the
/// lowercased candidate (e.g. "fs" matches "file_system").
pub fn acronym_match(query: &str, candidate: &str) -> (r: bool)
    ensures
        r == contains_seq(acronym_of(lower(candidate@)), lower(query@)),
{
    let lq = to_lower(query);
    let lc = to_lower(candidate);
    let acro = acronym_chars(&chars_of(lc.as_str()));
    contains_chars(&acro, &chars_of(lq.as_str()))
}

/// The fuzzy score of a candidate given its lowercased forms: `q1`, `c1` are
/// the lowercased query and candidate, `q2`, `c2` those lowercased once more
/// (the subsequence, acronym and edit-distance tests lowercase their inputs
/// again).  Lower is better: 0 exact, 1 prefix, 2 substring, 3 subsequence
/// or acronym, then 3 plus the edit distance when within `max_distance`.
pub open spec fn fuzzy_spec(q1: Seq<char>, c1: Seq<char>, q2: Seq<char>, c2: Seq<char>, max_distance: nat) -> Option<nat> {
    if q1 == c1 {
        Some(0)
    } else if starts_with_seq(c1, q1) {
        Some(1)
    } else if contains_seq(c1, q1) {
        Some(2)
    } else if is_subseq(q2, c2) {
        Some(3)
    } else if contains_seq(acronym_of(c2), q2) {
        Some(3)
    } else if lev(q2, c2) <= max_distance {
        Some(3 + lev(q2, c2))
    } else {
        None
    }
}

/// The fuzzy score, from the already lowercased forms of query and candidate.
pub fn fuzzy_score_folded(q1: &Vec<char>, c1: &Vec<char>, q2: &Vec<char>, c2: &Vec<char>, max_distance: usize) -> (r: Option<usize>)
    requires
        q2.len() <= isize::MAX,
        c2.len() <= isize::MAX,
    ensures
        r matches Some(v) ==> fuzzy_spec(q1@, c1@, q2@, c2@, max_distance as nat) == Some(v as nat),
        r is None ==> fuzzy_spec(q1@, c1@, q2@, c2@, max_distance as nat) is None,
{
    if chars_eq(q1, c1) {
        return Some(0);
    }
    if starts_with_chars(c1, q1) {
        return Some(1);
    }
    if contains_chars(c1, q1) {
        return Some(2);
    }
    if is_subsequence_chars(q2, c2) {
        return Some(3);
    }
    let acro = acronym_chars(c2);
    if contains_chars(&acro, q2) {
        return Some(3);
    }
    let dist = levenshtein_chars(q2, c2);
    proof {
        lemma_lev_bound(q2@, c2@);
    }
    if dist <= max_distance {
        Some(3 + dist)
    } else {
        None
    }
}

/// Combined fuzzy score of `candidate` against `query` (lower is better,
/// 0 = exact match, case-insensitive); `None` when the candidate is too far.
pub fn fuzzy_score(query: &str, candidate: &str, max_distance: usize) -> (r: Option<usize>)
    ensures
        r matches Some(v) ==> fuzzy_score_spec(query@, candidate@, max_distance as nat) == Some(v as nat),
        r is None ==> fuzzy_score_spec(query@, candidate@, max_distance as nat) is None,
{
    let q = to_lower(query);
    let c = to_lower(candidate);
    let q2 = to_lower(q.as_str());
    let c2 = to_lower(c.as_str());
    fuzzy_score_folded(&chars_of(q.as_str()), &chars_of(c.as_str()), &chars_of(q2.as_str()), &chars_of(c2.as_str()), max_distance)
}

/// The tokens of `s`: its maximal non-empty runs of characters other than
/// whitespace, underscore, hyphen and slash, in order.
pub open spec fn tokens_of(s: Seq<char>) -> Seq<Seq<char>> {
    runs_of(s, false)
}

/// Splits a query into lowercase tokens at whitespace, `_`, `-` and `/`.
pub fn tokenize(query: &str) -> (r: Vec<String>)
    ensures
        r.len() == tokens_of(lower(query@)).len(),
        forall|i: int| 0 <= i < r.len() ==> #[trigger] r[i]@ == tokens_of(lower(query@))[i],
{
    let l = to_lower(query);
    split_runs(&chars_of(l.as_str()), false)
}

/// Every token of the query occurs in the lowercased candidate text
/// (multi-word AND matching).
pub fn all_tokens_match(query: &str, candidate: &str) -> (r: bool)
    ensures
        r == forall|i: int| 0 <= i < tokens_of(lower(query@)).len() ==> contains_seq(lower(candidate@), #[trigger] tokens_of(lower(query@))[i]),
{
    let tokens = tokenize(query);
    let lc = to_lower(candidate);
    let cc = chars_of(lc.as_str());
    let mut i: usize = 0;
    while i < tokens.len()
        invariant
            i <= tokens.len(),
            tokens.len() == tokens_of(lower(query@)).len(),
            forall|k: int| 0 <= k < tokens.len() ==> #[trigger] tokens[k]@ == tokens_of(lower(query@))[k],
            cc@ == lower(candidate@),
            forall|k: int| 0 <= k < i ==> contains_seq(lower(candidate@), #[trigger] tokens_of(lower(query@))[k]),
        decreases tokens.len() - i,
    {
        let t = chars_of(tokens[i].as_str());
        if !contains_chars(&cc, &t) {
            return false;
        }
        i = i + 1;
    }
    true
}

/// The part of `s` after its last `/` (all of `s` when it has none), as
/// `str::rsplit('/').next()` gives it.
pub open spec fn name_part(s: Seq<char>) -> Seq<char>
    decreases s.len(),
{
    if s.len() == 0 {
        s
    } else if s.last() == '/' {
        Seq::<char>::empty()
    } else {
        name_part(s.drop_last()).push(s.last())
    }
}

/// Computes the part of `s` after its last `/`.
pub fn name_part_chars(s: &Vec<char>) -> (r: Vec<char>)
    ensures
        r@ == name_part(s@),
{
    let mut out: Vec<char> = Vec::new();
    let mut i: usize = 0;
    assert(s@.take(0) =~= Seq::<char>::empty());
    while i < s.len()
        invariant
            i <= s.len(),
            out@ == name_part(s@.take(i as int)),
        decreases s.len() - i,
    {
        assert(s@.take(i + 1).drop_last() =~= s@.take(i as int));
        if s[i] == '/' {
            out = Vec::new();
        } else {
            out.push(s[i]);
        }
        i = i + 1;
    }
    assert(s@.take(s.len() as int) =~= s@);
    out
}

/// A string lowercased once (`once`) and twice (`twice`); the scores compare
/// both forms because the subsequence, acronym and distance tests lowercase
/// their already lowercased arguments again.
pub struct Folded {
    pub once: Vec<char>,
    pub twice: Vec<char>,
}

impl Folded {
    /// `self` holds the lowercased forms of `s`.
    pub open spec fn folds(&self, s: Seq<char>) -> bool {
        &&& self.once@ == lower(s)
        &&& self.twice@ == lower(lower(s))
        &&& self.once.len() <= isize::MAX
        &&& self.twice.len() <= isize::MAX
    }
}

/// Lowercases a string once and twice.
pub fn fold(s: &str) -> (r: Folded)
    ensures
        r.folds(s@),
{
    let once = to_lower(s);
    let twice = to_lower(once.as_str());
    Folded { once: chars_of(once.as_str()), twice: chars_of(twice.as_str()) }
}

/// The score `suggest` gives a candidate from the lowercased forms of query
/// (`q1`, `q2`), full candidate (`c1`, `c2`) and name part (`n1`, `n2`): the
/// better of the two fuzzy scores, else the candidate's fallback score
/// `fb` (the Jaro-Winkler score, which is floating point and computed by
/// the caller).
pub open spec fn cand_score_spec(
    q1: Seq<char>,
    q2: Seq<char>,
    c1: Seq<char>,
    c2: Seq<char>,
    n1: Seq<char>,
    n2: Seq<char>,
    max_distance: nat,
    fb: Option<usize>,
) -> Option<nat> {
    match (fuzzy_spec(q1, c1, q2, c2, max_distance), fuzzy_spec(q1, n1, q2, n2, max_distance)) {
        (Some(a), Some(b)) => Some(if a <= b { a } else { b }),
        (Some(a), None) => Some(a),
        (None, Some(b)) => Some(b),
        (None, None) => match fb {
            Some(v) => Some(v as nat),
            None => None,
        },
    }
}

/// Scores one candidate from its folded forms.
pub fn candidate_score(q: &Folded, c: &Folded, n: &Folded, max_distance: usize, fallback: Option<usize>) -> (r: Option<usize>)
    requires
        q.once.len() <= isize::MAX,
        q.twice.len() <= isize::MAX,
        c.twice.len() <= isize::MAX,
        n.twice.len() <= isize::MAX,
    ensures
        r matches Some(v) ==> cand_score_spec(q.once@, q.twice@, c.once@, c.twice@, n.once@, n.twice@, max_distance as nat, fallback) == Some(v as nat),
        r is None ==> cand_score_spec(q.once@, q.twice@, c.once@, c.twice@, n.once@, n.twice@, max_distance as nat, fallback) is None,
{
    let sf = fuzzy_score_folded(&q.once, &c.once, &q.twice, &c.twice, max_distance);
    let sn = fuzzy_score_folded(&q.once, &n.once, &q.twice, &n.twice, max_distance);
    match (sf, sn) {
        (Some(a), Some(b)) => Some(if a <= b { a } else { b }),
        (Some(a), None) => Some(a),
        (None, Some(b)) => Some(b),
        (None, None) => fallback,
    }
}

/// Candidates that score, each with its score, in input order; `fbs[i]` is
/// the fallback score of `cands[i]`.
pub open spec fn scored_spec(query: Seq<char>, cands: Seq<Seq<char>>, max_distance: nat, fbs: Seq<Option<usize>>) -> Seq<(Seq<char>, nat)>
    decreases cands.len(),
{
    if cands.len() == 0 {
        Seq::empty()
    } else {
        let rest = scored_spec(query, cands.drop_last(), max_distance, fbs);
        let c = cands.last();
        let np = name_part(c);
        match cand_score_spec(lower(query), lower(lower(query)), lower(c), lower(lower(c)), lower(np), lower(lower(np)), max_distance,
            fbs[cands.len() - 1]) {
            Some(v) => rest.push((c, v)),
            None => rest,
        }
    }
}

/// Inserts `x` after the last element of `s` whose score is at most `x`'s
/// (the step of a stable insertion sort).
pub open spec fn insert_by_score(s: Seq<(Seq<char>, nat)>, x: (Seq<char>, nat)) -> Seq<(Seq<char>, nat)>
    decreases s.len(),
{
    if s.len() == 0 {
        seq![x]
    } else if s.last().1 <= x.1 {
        s.push(x)
    } else {
        insert_by_score(s.drop_last(), x).push(s.last())
    }
}

/// Stable sort by ascending score.
pub open spec fn sort_by_score(s: Seq<(Seq<char>, nat)>) -> Seq<(Seq<char>, nat)>
    decreases s.len(),
{
    if s.len() == 0 {
        s
    } else {
        insert_by_score(sort_by_score(s.drop_last()), s.last())
    }
}

/// What `suggest` returns: the scoring candidates, stably sorted by score,
/// at most five of them.
pub open spec fn suggest_spec(query: Seq<char>, cands: Seq<Seq<char>>, max_distance: nat, fbs: Seq<Option<usize>>) -> Seq<(Seq<char>, nat)> {
    let sorted = sort_by_score(scored_spec(query, cands, max_distance, fbs));
    if sorted.len() > 5 {
        sorted.take(5)
    } else {
        sorted
    }
}

/// The (name, score) pairs of a result vector as values.
pub open spec fn pairs_view(v: Seq<(String, usize)>) -> Seq<(Seq<char>, nat)> {
    v.map_values(|p: (String, usize)| (p.0@, p.1 as nat))
}

proof fn lemma_insert_at(s: Seq<(Seq<char>, nat)>, x: (Seq<char>, nat), pos: int)
    requires
        0 <= pos <= s.len(),
        pos == 0 || s[pos - 1].1 <= x.1,
        forall|k: int| pos <= k < s.len() ==> s[k].1 > x.1,
    ensures
        insert_by_score(s, x) == s.insert(pos, x),
    decreases s.len(),
{
    if s.len() == 0 {
        assert(s.insert(pos, x) =~= seq![x]);
    } else if pos == s.len() {
        assert(s.insert(pos, x) =~= s.push(x));
    } else {
        lemma_insert_at(s.drop_last(), x, pos);
        assert(s.insert(pos, x) =~= s.drop_last().insert(pos, x).push(s.last()));
    }
}

/// Sorts (name, score) pairs by ascending score, keeping the input order of
/// equal scores.
pub fn sort_scored(v: Vec<(String, usize)>) -> (r: Vec<(String, usize)>)
    ensures
        pairs_view(r@) == sort_by_score(pairs_view(v@)),
{
    let mut out: Vec<(String, usize)> = Vec::new();
    let mut i: usize = 0;
    assert(pairs_view(v@).take(0) =~= Seq::<(Seq<char>, nat)>::empty());
    while i < v.len()
        invariant
            i <= v.len(),
            pairs_view(out@) == sort_by_score(pairs_view(v@).take(i as int)),
        decreases v.len() - i,
    {
        let key = v[i].1;
        let mut pos = out.len();
        while pos > 0 && out[pos - 1].1 > key
            invariant
                pos <= out.len(),
                forall|k: int| pos <= k < out.len() ==> out[k].1 > key,
            decreases pos,
        {
            pos = pos - 1;
        }
        let item = (v[i].0.clone(), key);
        let ghost before = pairs_view(out@);
        proof {
            lemma_insert_at(before, (item.0@, key as nat), pos as int);
            assert(pairs_view(v@).take(i + 1).drop_last() =~= pairs_view(v@).take(i as int));
            assert(pairs_view(v@).take(i + 1).last() == (item.0@, key as nat));
        }
        out.insert(pos, item);
        assert(pairs_view(out@) =~= before.insert(pos as int, (item.0@, key as nat)));
        i = i + 1;
    }
    assert(pairs_view(v@).take(v.len() as int) =~= pairs_view(v@));
    out
}

/// The closest matches for a query among candidate names: each candidate is
/// scored against its full name and its part after the last `/`; where
/// neither fuzzy score applies, `fallback[i]` (the Jaro-Winkler score of
/// `candidates[i]`, which the caller computes in floating point) is used.
/// Results are sorted by score (best first, stable) and at most five are
/// kept.
pub fn suggest(query: &str, candidates: &[String], max_distance: usize, fallback: &Vec<Option<usize>>) -> (r: Vec<(String, usize)>)
    requires
        fallback.len() == candidates.len(),
    ensures
        pairs_view(r@) == suggest_spec(query@, candidates@.map_values(|c: String| c@), max_distance as nat, fallback@),
{
    let q = fold(query);
    let ghost cv = candidates@.map_values(|c: String| c@);
    let mut scored: Vec<(String, usize)> = Vec::new();
    let mut i: usize = 0;
    assert(cv.take(0) =~= Seq::<Seq<char>>::empty());
    while i < candidates.len()
        invariant
            i <= candidates.len(),
            cv == candidates@.map_values(|c: String| c@),
            q.folds(query@),
            fallback.len() == candidates.len(),
            pairs_view(scored@) == scored_spec(query@, cv.take(i as int), max_distance as nat, fallback@),
        decreases candidates.len() - i,
    {
        let c = &candidates[i];
        let full = fold(c.as_str());
        let np_chars = name_part_chars(&chars_of(c.as_str()));
        let np = string_of(np_chars.as_slice());
        let name = fold(np.as_str());
        let sc = candidate_score(&q, &full, &name, max_distance, fallback[i]);
        proof {
            assert(cv.take(i + 1).drop_last() =~= cv.take(i as int));
            assert(cv.take(i + 1).last() == c@);
        }
        match sc {
            Some(v) => {
                let ghost before = pairs_view(scored@);
                scored.push((c.clone(), v));
                assert(pairs_view(scored@) =~= before.push((c@, v as nat)));
            },
            None => {},
        }
        i = i + 1;
    }
    assert(cv.take(candidates.len() as int) =~= cv);
    let mut sorted = sort_scored(scored);
    if sorted.len() > 5 {
        sorted.truncate(5);
        assert(pairs_view(sorted@) =~= suggest_spec(query@, cv, max_distance as nat, fallback@));
    }
    sorted
}

/// Edit distance is symmetric: turning `a` into `b` costs as much as
/// turning `b` into `a`.
pub proof fn law_lev_symmetric(a: Seq<char>, b: Seq<char>)
    ensures
        lev(a, b) == lev(b, a),
    decreases a.len() + b.len(),
{
    if a.len() > 0 && b.len() > 0 {
        law_lev_symmetric(a.drop_last(), b);
        law_lev_symmetric(a, b.drop_last());
        law_lev_symmetric(a.drop_last(), b.drop_last());
    }
}

/// A string is at distance zero from itself.
pub proof fn law_lev_identity(a: Seq<char>)
    ensures
        lev(a, a) == 0,
    decreases a.len(),
{
    if a.len() > 0 {
        law_lev_identity(a.drop_last());
    }
}

/// What `fuzzy_score` returns for a query and a candidate.
pub open spec fn fuzzy_score_spec(query: Seq<char>, candidate: Seq<char>, max_distance: nat) -> Option<nat> {
    fuzzy_spec(lower(query), lower(candidate), lower(lower(query)), lower(lower(candidate)), max_distance)
}

/// Fuzzy scores and edit distances ignore case: strings that lowercase
/// alike score alike. Where lowercasing a query and a candidate again
/// changes nothing, scoring their lowercased forms gives the same answer.
pub proof fn law_fuzzy_case_insensitive(q1: Seq<char>, c1: Seq<char>, q2: Seq<char>, c2: Seq<char>, max_distance: nat)
    ensures
        lower(q1) == lower(q2) && lower(c1) == lower(c2) ==>
            fuzzy_score_spec(q1, c1, max_distance) == fuzzy_score_spec(q2, c2, max_distance)
            && lev(lower(q1), lower(c1)) == lev(lower(q2), lower(c2)),
        lower(lower(q1)) == lower(q1) && lower(lower(c1)) == lower(c1) ==>
            fuzzy_score_spec(q1, c1, max_distance) == fuzzy_score_spec(lower(q1), lower(c1), max_distance),
{
}

/// The edit distance is at least the difference of the lengths.
proof fn lemma_lev_length_gap(a: Seq<char>, b: Seq<char>)
    ensures
        lev(a, b) + a.len() >= b.len(),
        lev(a, b) + b.len() >= a.len(),
    decreases a.len() + b.len(),
{
    if a.len() > 0 && b.len() > 0 {
        lemma_lev_length_gap(a.drop_last(), b);
        lemma_lev_length_gap(a, b.drop_last());
        lemma_lev_length_gap(a.drop_last(), b.drop_last());
    }
}

/// Edit distance satisfies the triangle inequality: going from `a` to `c`
/// never costs more than going through `b`.
pub proof fn law_lev_triangle(a: Seq<char>, b: Seq<char>, c: Seq<char>)
    ensures
        lev(a, c) <= lev(a, b) + lev(b, c),
    decreases a.len() + b.len() + c.len(),
{
    if a.len() == 0 {
        lemma_lev_length_gap(b, c);
    } else if c.len() == 0 {
        lemma_lev_length_gap(a, b);
    } else if b.len() == 0 {
        lemma_lev_bound(a, c);
    } else {
        let a1 = a.drop_last();
        let b1 = b.drop_last();
        let c1 = c.drop_last();
        law_lev_triangle(a1, b, c);
        law_lev_triangle(a, b, c1);
        law_lev_triangle(a, b1, c);
        law_lev_triangle(a, b1, c1);
        law_lev_triangle(a1, b1, c);
        law_lev_triangle(a1, b1, c1);
    }
}

/// The distance to the empty string is the length, and no distance exceeds
/// the longer length.
pub proof fn law_lev_bounds(a: Seq<char>, b: Seq<char>)
    ensures
        lev(a, Seq::<char>::empty()) == a.len(),
        lev(Seq::<char>::empty(), b) == b.len(),
        lev(a, b) <= if a.len() >= b.len() { a.len() } else { b.len() },
{
    lemma_lev_bound(a, b);
}

/// The fuzzy score is 0 exactly for an exact (case-folded) match; a strict
/// prefix scores 1 and ranks ahead of a non-prefix substring, which scores 2.
pub proof fn law_fuzzy_exact_and_prefix(q1: Seq<char>, c1: Seq<char>, q2: Seq<char>, c2: Seq<char>, max_distance: nat)
    ensures
        (fuzzy_spec(q1, c1, q2, c2, max_distance) == Some(0nat)) <==> q1 == c1,
        q1 != c1 && starts_with_seq(c1, q1) ==> fuzzy_spec(q1, c1, q2, c2, max_distance) == Some(1nat),
        q1 != c1 && !starts_with_seq(c1, q1) && contains_seq(c1, q1) ==> fuzzy_spec(q1, c1, q2, c2, max_distance) == Some(2nat),
{
}

/// Every string is a subsequence of itself, the empty string is a
/// subsequence of everything, and a subsequence is never longer.
pub proof fn law_subseq_basics(n: Seq<char>, h: Seq<char>)
    ensures
        is_subseq(h, h),
        is_subseq(Seq::<char>::empty(), h),
        is_subseq(n, h) ==> n.len() <= h.len(),
    decreases h.len(),
{
    if h.len() > 0 {
        law_subseq_basics(n, h.drop_first());
        if n.len() > 0 {
            law_subseq_basics(n.drop_first(), h.drop_first());
        }
        assert(h.drop_first() == h.drop_first());
        law_subseq_basics(h.drop_first(), h.drop_first());
    }
}

/// A sequence is sorted by ascending score.
pub open spec fn scores_sorted(s: Seq<(Seq<char>, nat)>) -> bool {
    forall|i: int, j: int| 0 <= i < j < s.len() ==> s[i].1 <= s[j].1
}

proof fn lemma_insert_sorted(s: Seq<(Seq<char>, nat)>, x: (Seq<char>, nat))
    requires
        scores_sorted(s),
    ensures
        scores_sorted(insert_by_score(s, x)),
        insert_by_score(s, x).to_multiset() == s.to_multiset().insert(x),
        insert_by_score(s, x).len() == s.len() + 1,
    decreases s.len(),
{
    broadcast use vstd::seq_lib::group_to_multiset_ensures;
    if s.len() == 0 {
        assert(seq![x] =~= Seq::<(Seq<char>, nat)>::empty().push(x));
    } else if s.last().1 <= x.1 {
    } else {
        let r = insert_by_score(s.drop_last(), x);
        lemma_insert_sorted(s.drop_last(), x);
        assert(s =~= s.drop_last().push(s.last()));
        lemma_insert_last_ge(s.drop_last(), x, s.last());
    }
}

proof fn lemma_insert_last_ge(s: Seq<(Seq<char>, nat)>, x: (Seq<char>, nat), y: (Seq<char>, nat))
    requires
        forall|i: int| 0 <= i < s.len() ==> s[i].1 <= y.1,
        x.1 < y.1,
    ensures
        forall|i: int| 0 <= i < insert_by_score(s, x).len() ==> insert_by_score(s, x)[i].1 <= y.1,
    decreases s.len(),
{
    if s.len() == 0 {
        assert(insert_by_score(s, x) =~= seq![x]);
    } else if s.last().1 <= x.1 {
        assert(insert_by_score(s, x) =~= s.push(x));
    } else {
        lemma_insert_last_ge(s.drop_last(), x, y);
        let r = insert_by_score(s.drop_last(), x);
        assert(insert_by_score(s, x) =~= r.push(s.last()));
        assert forall|i: int| 0 <= i < r.push(s.last()).len() implies r.push(s.last())[i].1 <= y.1 by {
            if i < r.len() {
                assert(r.push(s.last())[i] == r[i]);
            }
        }
    }
}

/// `suggest` orders its results by ascending score, and the sort neither
/// loses nor invents candidates.
pub proof fn law_sort_by_score(s: Seq<(Seq<char>, nat)>)
    ensures
        scores_sorted(sort_by_score(s)),
        sort_by_score(s).to_multiset() == s.to_multiset(),
        sort_by_score(s).len() == s.len(),
    decreases s.len(),
{
    broadcast use vstd::seq_lib::group_to_multiset_ensures;
    if s.len() > 0 {
        law_sort_by_score(s.drop_last());
        lemma_insert_sorted(sort_by_score(s.drop_last()), s.last());
        assert(s =~= s.drop_last().push(s.last()));
    }
}

/// `suggest` returns at most five results, sorted by ascending score, each
/// one a scoring candidate.
pub proof fn law_suggest_shape(query: Seq<char>, cands: Seq<Seq<char>>, max_distance: nat, fbs: Seq<Option<usize>>)
    ensures
        suggest_spec(query, cands, max_distance, fbs).len() <= 5,
        scores_sorted(suggest_spec(query, cands, max_distance, fbs)),
        forall|i: int| 0 <= i < suggest_spec(query, cands, max_distance, fbs).len()
            ==> scored_spec(query, cands, max_distance, fbs).contains(#[trigger] suggest_spec(query, cands, max_distance, fbs)[i]),
{
    let sc = scored_spec(query, cands, max_distance, fbs);
    law_sort_by_score(sc);
    let sorted = sort_by_score(sc);
    assert forall|i: int| 0 <= i < suggest_spec(query, cands, max_distance, fbs).len()
        implies sc.contains(#[trigger] suggest_spec(query, cands, max_distance, fbs)[i]) by {
        let e = sorted[i];
        assert(sorted.to_multiset().count(e) > 0) by {
            broadcast use vstd::seq_lib::group_to_multiset_ensures;
            assert(sorted.contains(e));
        }
        broadcast use vstd::seq_lib::group_to_multiset_ensures;
    }
}

} // verus!
