//! The counts behind the Jaro, Jaro-Winkler and bigram similarities: the
//! greedy Jaro matching and its transpositions, the common prefix, and the
//! greedy bigram matching. The similarities themselves are floating point
//! and are computed from these counts by the caller.

use vstd::prelude::*;

verus! {

/// Number of `true` entries.
pub open spec fn count_true(s: Seq<bool>) -> nat
    decreases s.len(),
{
    if s.len() == 0 {
        0
    } else {
        count_true(s.drop_last()) + (if s.last() { 1nat } else { 0nat })
    }
}

/// The characters of `x` at the positions where `mask` is set, in order.
pub open spec fn select(x: Seq<char>, mask: Seq<bool>) -> Seq<char>
    decreases mask.len(),
{
    if mask.len() == 0 {
        Seq::<char>::empty()
    } else {
        let rest = select(x, mask.drop_last());
        if mask.last() {
            rest.push(x[mask.len() - 1])
        } else {
            rest
        }
    }
}

/// The matching window half-width: half the longer length, minus one.
pub open spec fn match_distance(la: nat, lb: nat) -> nat {
    let mx = if la >= lb { la } else { lb };
    if mx / 2 >= 1 { (mx / 2 - 1) as nat } else { 0 }
}

/// First index `j` in `[lo, hi)` whose character of `b` is still unmatched
/// and equals `ch`.
pub open spec fn first_free(ch: char, b: Seq<char>, bm: Seq<bool>, lo: int, hi: int) -> Option<int>
    decreases hi - lo,
{
    if lo >= hi {
        None
    } else if !bm[lo] && b[lo] == ch {
        Some(lo)
    } else {
        first_free(ch, b, bm, lo + 1, hi)
    }
}

/// Start of the matching window of position `i` of `a`.
pub open spec fn win_start(i: int, md: nat) -> int {
    if i >= md { i - md } else { 0 }
}

/// End (exclusive) of the matching window of position `i` of `a`.
pub open spec fn win_end(i: int, md: nat, lb: nat) -> int {
    if i + md + 1 <= lb { i + md + 1 } else { lb as int }
}

/// Greedy matching state after the first `i` characters of `a`: which of
/// them found a partner, and which characters of `b` are taken.
pub open spec fn jaro_state(a: Seq<char>, b: Seq<char>, i: nat) -> (Seq<bool>, Seq<bool>)
    decreases i,
{
    if i == 0 {
        (Seq::<bool>::empty(), Seq::new(b.len(), |k: int| false))
    } else {
        let prev = jaro_state(a, b, (i - 1) as nat);
        let md = match_distance(a.len(), b.len());
        match first_free(a[i - 1], b, prev.1, win_start(i - 1, md), win_end(i - 1, md, b.len())) {
            Some(j) => (prev.0.push(true), prev.1.update(j, true)),
            None => (prev.0.push(false), prev.1),
        }
    }
}

/// Number of positions below `k` where `x` and `y` differ.
pub open spec fn mismatches(x: Seq<char>, y: Seq<char>, k: nat) -> nat
    decreases k,
{
    if k == 0 {
        0
    } else {
        mismatches(x, y, (k - 1) as nat) + (if x[k - 1] != y[k - 1] { 1nat } else { 0nat })
    }
}

/// Matches `m` and transpositions `t` of the Jaro measure.
pub open spec fn jaro_counts(a: Seq<char>, b: Seq<char>) -> (nat, nat) {
    let st = jaro_state(a, b, a.len());
    let xa = select(a, st.0);
    let xb = select(b, st.1);
    (xa.len(), mismatches(xa, xb, xa.len()))
}

/// Length of the common prefix of `a` and `b`, at most 4.
pub open spec fn prefix4(a: Seq<char>, b: Seq<char>, k: nat) -> nat
    decreases 4 - k,
{
    if k >= 4 || k >= a.len() || k >= b.len() || a[k as int] != b[k as int] {
        k
    } else {
        prefix4(a, b, k + 1)
    }
}

proof fn lemma_count_push(s: Seq<bool>, x: bool)
    ensures
        count_true(s.push(x)) == count_true(s) + (if x { 1nat } else { 0nat }),
{
    assert(s.push(x).drop_last() =~= s);
}

proof fn lemma_count_update(s: Seq<bool>, j: int)
    requires
        0 <= j < s.len(),
        !s[j],
    ensures
        count_true(s.update(j, true)) == count_true(s) + 1,
    decreases s.len(),
{
    if j == s.len() - 1 {
        assert(s.update(j, true).drop_last() =~= s.drop_last());
    } else {
        lemma_count_update(s.drop_last(), j);
        assert(s.update(j, true).drop_last() =~= s.drop_last().update(j, true));
    }
}

proof fn lemma_count_all_false(n: nat)
    ensures
        count_true(Seq::new(n, |k: int| false)) == 0,
    decreases n,
{
    if n > 0 {
        lemma_count_all_false((n - 1) as nat);
        assert(Seq::new(n, |k: int| false).drop_last() =~= Seq::new((n - 1) as nat, |k: int| false));
    }
}

proof fn lemma_count_le(s: Seq<bool>)
    ensures
        count_true(s) <= s.len(),
    decreases s.len(),
{
    if s.len() > 0 {
        lemma_count_le(s.drop_last());
    }
}

proof fn lemma_select_len(x: Seq<char>, mask: Seq<bool>)
    ensures
        select(x, mask).len() == count_true(mask),
    decreases mask.len(),
{
    if mask.len() > 0 {
        lemma_select_len(x, mask.drop_last());
    }
}

proof fn lemma_state_shape(a: Seq<char>, b: Seq<char>, i: nat)
    requires
        i <= a.len(),
    ensures
        jaro_state(a, b, i).0.len() == i,
        jaro_state(a, b, i).1.len() == b.len(),
        count_true(jaro_state(a, b, i).0) == count_true(jaro_state(a, b, i).1),
    decreases i,
{
    if i == 0 {
        lemma_count_all_false(b.len());
    } else {
        lemma_state_shape(a, b, (i - 1) as nat);
        let prev = jaro_state(a, b, (i - 1) as nat);
        let md = match_distance(a.len(), b.len());
        let lo = win_start(i - 1, md);
        let hi = win_end(i - 1, md, b.len());
        lemma_first_free_found(a[i - 1], b, prev.1, lo, hi);
        match first_free(a[i - 1], b, prev.1, lo, hi) {
            Some(j) => {
                lemma_count_push(prev.0, true);
                lemma_count_update(prev.1, j);
            },
            None => {
                lemma_count_push(prev.0, false);
            },
        }
    }
}

proof fn lemma_first_free_found(ch: char, b: Seq<char>, bm: Seq<bool>, lo: int, hi: int)
    requires
        0 <= lo,
        hi <= bm.len(),
        bm.len() == b.len(),
    ensures
        first_free(ch, b, bm, lo, hi) matches Some(j) ==> lo <= j < hi && !bm[j] && b[j] == ch,
    decreases hi - lo,
{
    if lo < hi && !(!bm[lo] && b[lo] == ch) {
        lemma_first_free_found(ch, b, bm, lo + 1, hi);
    }
}

/// The matched counts never exceed either length, and the two sides agree.
pub proof fn lemma_jaro_counts_bounds(a: Seq<char>, b: Seq<char>)
    ensures
        jaro_counts(a, b).0 <= a.len(),
        jaro_counts(a, b).0 <= b.len(),
        jaro_counts(a, b).1 <= jaro_counts(a, b).0,
{
    let st = jaro_state(a, b, a.len());
    lemma_state_shape(a, b, a.len());
    lemma_select_len(a, st.0);
    lemma_select_len(b, st.1);
    lemma_count_le(st.0);
    lemma_count_le(st.1);
    lemma_mismatches_le(select(a, st.0), select(b, st.1), select(a, st.0).len());
}

/// The first free partner when every earlier position of the window is
/// taken and position `i` is free and equal.
proof fn lemma_first_free_at(ch: char, b: Seq<char>, bm: Seq<bool>, lo: int, hi: int, i: int)
    requires
        0 <= lo <= i < hi <= b.len(),
        bm.len() == b.len(),
        forall|k: int| lo <= k < i ==> bm[k],
        !bm[i],
        b[i] == ch,
    ensures
        first_free(ch, b, bm, lo, hi) == Some(i),
    decreases i - lo,
{
    if lo < i {
        lemma_first_free_at(ch, b, bm, lo + 1, hi, i);
    }
}

/// Matching a string against itself pairs each position with itself.
proof fn lemma_jaro_state_self(a: Seq<char>, i: nat)
    requires
        i <= a.len(),
    ensures
        jaro_state(a, a, i).0 == Seq::new(i, |k: int| true),
        jaro_state(a, a, i).1 == Seq::new(a.len(), |k: int| k < i),
    decreases i,
{
    if i > 0 {
        lemma_jaro_state_self(a, (i - 1) as nat);
        let prev = jaro_state(a, a, (i - 1) as nat);
        let md = match_distance(a.len(), a.len());
        let lo = win_start(i - 1, md);
        let hi = win_end(i - 1, md, a.len());
        lemma_first_free_at(a[i - 1], a, prev.1, lo, hi, i - 1);
        assert(prev.0.push(true) =~= Seq::new(i, |k: int| true));
        assert(prev.1.update(i - 1, true) =~= Seq::new(a.len(), |k: int| k < i));
    } else {
        assert(jaro_state(a, a, 0).1 =~= Seq::new(a.len(), |k: int| k < 0));
        assert(jaro_state(a, a, 0).0 =~= Seq::new(0, |k: int| true));
    }
}

/// Selecting with a mask that is set everywhere keeps the front.
proof fn lemma_select_all(x: Seq<char>, m: nat)
    requires
        m <= x.len(),
    ensures
        select(x, Seq::new(m, |k: int| true)) == x.take(m as int),
    decreases m,
{
    if m > 0 {
        lemma_select_all(x, (m - 1) as nat);
        assert(Seq::new(m, |k: int| true).drop_last() =~= Seq::new((m - 1) as nat, |k: int| true));
        assert(x.take(m - 1).push(x[m - 1]) =~= x.take(m as int));
    } else {
        assert(x.take(0) =~= Seq::<char>::empty());
    }
}

proof fn lemma_mismatches_self(x: Seq<char>, k: nat)
    ensures
        mismatches(x, x, k) == 0,
    decreases k,
{
    if k > 0 {
        lemma_mismatches_self(x, (k - 1) as nat);
    }
}

/// A string matches itself completely: every character is matched and
/// none is transposed.
pub proof fn law_jaro_self(a: Seq<char>)
    ensures
        jaro_counts(a, a) == (a.len(), 0nat),
{
    lemma_jaro_state_self(a, a.len());
    assert(Seq::new(a.len(), |k: int| k < a.len()) =~= Seq::new(a.len(), |k: int| true));
    lemma_select_all(a, a.len());
    assert(a.take(a.len() as int) =~= a);
    lemma_mismatches_self(a, a.len());
}

proof fn lemma_first_unused_at(x: (char, char), bb: Seq<(char, char)>, used: Seq<bool>, j: int, i: int)
    requires
        0 <= j <= i < bb.len(),
        used.len() == bb.len(),
        forall|k: int| j <= k < i ==> used[k],
        !used[i],
        bb[i] == x,
    ensures
        first_unused(x, bb, used, j) == Some(i),
    decreases i - j,
{
    if j < i {
        lemma_first_unused_at(x, bb, used, j + 1, i);
    }
}

proof fn lemma_bigram_state_self(bb: Seq<(char, char)>, n: nat)
    requires
        n <= bb.len(),
    ensures
        bigram_state(bb, bb, n) == (Seq::new(bb.len(), |q: int| q < n), n),
    decreases n,
{
    if n > 0 {
        lemma_bigram_state_self(bb, (n - 1) as nat);
        let prev = bigram_state(bb, bb, (n - 1) as nat);
        lemma_first_unused_at(bb[n - 1], bb, prev.0, 0, n - 1);
        assert(prev.0.update(n - 1, true) =~= Seq::new(bb.len(), |q: int| q < n));
    } else {
        assert(Seq::new(bb.len(), |q: int| false) =~= Seq::new(bb.len(), |q: int| q < 0));
    }
}

/// Every bigram of a string finds its partner in the string itself.
pub proof fn law_bigrams_self(a: Seq<char>)
    ensures
        bigram_match_count(a, a) == bigrams(a).len(),
{
    lemma_bigram_state_self(bigrams(a), bigrams(a).len());
}

proof fn lemma_prefix_self_from(a: Seq<char>, k: nat)
    requires
        k <= a.len(),
        k <= 4,
    ensures
        prefix4(a, a, k) == if a.len() < 4 { a.len() } else { 4 },
    decreases 4 - k,
{
    if k < 4 && k < a.len() {
        lemma_prefix_self_from(a, k + 1);
    }
}

/// A string's common prefix with itself is as long as it is, up to 4.
pub proof fn law_prefix_self(a: Seq<char>)
    ensures
        prefix4(a, a, 0) == if a.len() < 4 { a.len() } else { 4 },
{
    lemma_prefix_self_from(a, 0);
}

proof fn lemma_mismatches_le(x: Seq<char>, y: Seq<char>, k: nat)
    ensures
        mismatches(x, y, k) <= k,
    decreases k,
{
    if k > 0 {
        lemma_mismatches_le(x, y, (k - 1) as nat);
    }
}

fn select_exec(x: &Vec<char>, mask: &Vec<bool>) -> (r: Vec<char>)
    requires
        mask.len() <= x.len(),
    ensures
        r@ == select(x@, mask@),
{
    let mut out: Vec<char> = Vec::new();
    let mut i: usize = 0;
    assert(mask@.take(0) =~= Seq::<bool>::empty());
    while i < mask.len()
        invariant
            mask.len() <= x.len(),
            i <= mask.len(),
            out@ == select(x@, mask@.take(i as int)),
        decreases mask.len() - i,
    {
        assert(mask@.take(i + 1).drop_last() =~= mask@.take(i as int));
        if mask[i] {
            out.push(x[i]);
        }
        i = i + 1;
    }
    assert(mask@.take(mask.len() as int) =~= mask@);
    out
}

/// Runs the greedy Jaro matching and returns the matched characters of both
/// sides, in order.
fn jaro_matched(a: &Vec<char>, b: &Vec<char>) -> (r: (Vec<char>, Vec<char>))
    ensures
        r.0@ == select(a@, jaro_state(a@, b@, a.len() as nat).0),
        r.1@ == select(b@, jaro_state(a@, b@, a.len() as nat).1),
{
    let la = a.len();
    let lb = b.len();
    let mx = if la >= lb { la } else { lb };
    let md: usize = if mx / 2 >= 1 { mx / 2 - 1 } else { 0 };
    assert(md == match_distance(la as nat, lb as nat));
    let mut bm: Vec<bool> = Vec::new();
    let mut k: usize = 0;
    while k < lb
        invariant
            k <= lb,
            lb == b.len(),
            bm@ == Seq::new(k as nat, |q: int| false),
        decreases lb - k,
    {
        bm.push(false);
        k = k + 1;
    }
    let mut am: Vec<bool> = Vec::new();
    let mut i: usize = 0;
    while i < la
        invariant
            la == a.len(),
            lb == b.len(),
            md == match_distance(la as nat, lb as nat),
            i <= la,
            am@ == jaro_state(a@, b@, i as nat).0,
            bm@ == jaro_state(a@, b@, i as nat).1,
            bm.len() == lb,
        decreases la - i,
    {
        let ch = a[i];
        let st: usize = if i >= md { i - md } else { 0 };
        let en: usize = if i < lb && md < lb - i { i + md + 1 } else { lb };
        assert(st == win_start(i as int, md as nat));
        assert(en == win_end(i as int, md as nat, lb as nat));
        let ghost bm0 = bm@;
        let mut j: usize = st;
        let mut found = false;
        while j < en
            invariant_except_break
                bm@ == bm0,
                !found,
            invariant
                la == a.len(),
                lb == b.len(),
                bm.len() == lb,
                en <= lb,
                st <= j,
                i < la,
                ch == a@[i as int],
                first_free(ch, b@, bm0, st as int, en as int) == first_free(ch, b@, bm0, j as int, en as int),
            ensures
                found ==> j < en && first_free(ch, b@, bm0, st as int, en as int) == Some(j as int) && bm@ == bm0.update(j as int, true),
                !found ==> first_free(ch, b@, bm0, st as int, en as int) is None && bm@ == bm0,
            decreases en - j,
        {
            if !bm[j] && b[j] == ch {
                bm.set(j, true);
                found = true;
                break;
            }
            j = j + 1;
        }
        am.push(found);
        proof {
            assert(i as nat + 1 - 1 == i as nat);
        }
        i = i + 1;
    }
    proof {
        lemma_state_shape(a@, b@, la as nat);
    }
    let xa = select_exec(a, &am);
    let xb = select_exec(b, &bm);
    (xa, xb)
}

/// The Jaro matches and transpositions of two (already lowercased)
/// character sequences: how many characters match within the window, and
/// at how many positions the matched characters, read in order, differ.
pub fn jaro_counts_exec(a: &Vec<char>, b: &Vec<char>) -> (r: (usize, usize))
    ensures
        r.0 as nat == jaro_counts(a@, b@).0,
        r.1 as nat == jaro_counts(a@, b@).1,
        r.0 <= a.len() && r.0 <= b.len() && r.1 <= r.0,
{
    let (xa, xb) = jaro_matched(a, b);
    proof {
        lemma_jaro_counts_bounds(a@, b@);
        lemma_state_shape(a@, b@, a.len() as nat);
        let st = jaro_state(a@, b@, a.len() as nat);
        lemma_select_len(a@, st.0);
        lemma_select_len(b@, st.1);
    }
    let m = xa.len();
    let mut t: usize = 0;
    let mut k: usize = 0;
    while k < m
        invariant
            m == xa.len(),
            xa.len() == xb.len(),
            k <= m,
            t == mismatches(xa@, xb@, k as nat),
            t <= k,
        decreases m - k,
    {
        if xa[k] != xb[k] {
            t = t + 1;
        }
        k = k + 1;
    }
    (m, t)
}

/// The length of the common prefix of two character sequences, at most 4.
pub fn common_prefix4(a: &Vec<char>, b: &Vec<char>) -> (r: usize)
    ensures
        r as nat == prefix4(a@, b@, 0),
{
    let mut p: usize = 0;
    while p < 4 && p < a.len() && p < b.len() && a[p] == b[p]
        invariant
            p <= 4,
            prefix4(a@, b@, 0) == prefix4(a@, b@, p as nat),
        decreases 4 - p,
    {
        p = p + 1;
    }
    p
}

/// The adjacent character pairs of `s`, in order.
pub open spec fn bigrams(s: Seq<char>) -> Seq<(char, char)> {
    if s.len() < 2 { Seq::empty() } else { Seq::new((s.len() - 1) as nat, |i: int| (s[i], s[i + 1])) }
}

/// The first bigram of `bb` from position `j` on that equals `x` and is not
/// used yet.
pub open spec fn first_unused(x: (char, char), bb: Seq<(char, char)>, used: Seq<bool>, j: int) -> Option<int>
    decreases bb.len() - j,
{
    if j < 0 || j >= bb.len() {
        None
    } else if !used[j] && bb[j].0 == x.0 && bb[j].1 == x.1 {
        Some(j)
    } else {
        first_unused(x, bb, used, j + 1)
    }
}

/// Greedy bigram matching of the first `n` bigrams of `ab` against `bb`:
/// each takes the first unused equal bigram. The used marks and the number
/// of matches.
pub open spec fn bigram_state(ab: Seq<(char, char)>, bb: Seq<(char, char)>, n: nat) -> (Seq<bool>, nat)
    decreases n,
{
    if n == 0 {
        (Seq::new(bb.len(), |q: int| false), 0)
    } else {
        let prev = bigram_state(ab, bb, (n - 1) as nat);
        match first_unused(ab[n - 1], bb, prev.0, 0) {
            Some(j) => (prev.0.update(j, true), prev.1 + 1),
            None => prev,
        }
    }
}

/// The number of bigrams of `a` that find an unused equal bigram of `b`.
pub open spec fn bigram_match_count(a: Seq<char>, b: Seq<char>) -> nat {
    bigram_state(bigrams(a), bigrams(b), bigrams(a).len()).1
}

proof fn lemma_first_unused_range(x: (char, char), bb: Seq<(char, char)>, used: Seq<bool>, j: int)
    ensures
        first_unused(x, bb, used, j) matches Some(k) ==> j <= k < bb.len() && !used[k] && bb[k] == x,
    decreases bb.len() - j,
{
    if j >= 0 && j < bb.len() && !(!used[j] && bb[j] == x) {
        lemma_first_unused_range(x, bb, used, j + 1);
    }
}

proof fn lemma_bigram_state_len(ab: Seq<(char, char)>, bb: Seq<(char, char)>, n: nat)
    ensures
        bigram_state(ab, bb, n).0.len() == bb.len(),
        bigram_state(ab, bb, n).1 <= n,
    decreases n,
{
    if n > 0 {
        lemma_bigram_state_len(ab, bb, (n - 1) as nat);
        let prev = bigram_state(ab, bb, (n - 1) as nat);
        lemma_first_unused_range(ab[n - 1], bb, prev.0, 0);
    }
}

fn bigrams_exec(s: &Vec<char>) -> (r: Vec<(char, char)>)
    ensures
        r@ == bigrams(s@),
{
    let mut r: Vec<(char, char)> = Vec::new();
    if s.len() < 2 {
        return r;
    }
    let mut i: usize = 0;
    while i + 1 < s.len()
        invariant
            s.len() >= 2,
            i + 1 <= s.len(),
            r@ == Seq::new(i as nat, |q: int| (s@[q], s@[q + 1])),
        decreases s.len() - i,
    {
        r.push((s[i], s[i + 1]));
        assert(r@ =~= Seq::new((i + 1) as nat, |q: int| (s@[q], s@[q + 1])));
        i = i + 1;
    }
    assert(r@ =~= bigrams(s@));
    r
}

/// How many bigrams of `a` match an unused equal bigram of `b`, taking for
/// each the first one still free.
pub fn bigram_matches(a: &Vec<char>, b: &Vec<char>) -> (r: usize)
    ensures
        r as nat == bigram_match_count(a@, b@),
{
    let ab = bigrams_exec(a);
    let bb = bigrams_exec(b);
    let mut used: Vec<bool> = Vec::new();
    let mut k: usize = 0;
    while k < bb.len()
        invariant
            k <= bb.len(),
            used@ == Seq::new(k as nat, |q: int| false),
        decreases bb.len() - k,
    {
        used.push(false);
        assert(used@ =~= Seq::new((k + 1) as nat, |q: int| false));
        k = k + 1;
    }
    let mut count: usize = 0;
    let mut i: usize = 0;
    while i < ab.len()
        invariant
            i <= ab.len(),
            used.len() == bb.len(),
            used@ == bigram_state(ab@, bb@, i as nat).0,
            count as nat == bigram_state(ab@, bb@, i as nat).1,
            count <= i,
        decreases ab.len() - i,
    {
        let x = ab[i];
        let ghost u0 = used@;
        let mut j: usize = 0;
        let mut found = false;
        while j < bb.len()
            invariant_except_break
                used@ == u0,
                !found,
            invariant
                used.len() == bb.len(),
                j <= bb.len(),
                x == ab@[i as int],
                first_unused(x, bb@, u0, 0) == first_unused(x, bb@, u0, j as int),
            ensures
                found ==> first_unused(x, bb@, u0, 0) == Some(j as int) && used@ == u0.update(j as int, true),
                !found ==> first_unused(x, bb@, u0, 0) is None && used@ == u0,
            decreases bb.len() - j,
        {
            if !used[j] && bb[j].0 == x.0 && bb[j].1 == x.1 {
                used.set(j, true);
                found = true;
                break;
            }
            j = j + 1;
        }
        if found {
            count = count + 1;
        }
        proof {
            lemma_bigram_state_len(ab@, bb@, i as nat);
        }
        i = i + 1;
    }
    count
}

} // verus!
