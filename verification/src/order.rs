//! Order-preserving filtering and stable sorting of vectors by keys, with
//! their specifications as insertion sorts.

use vstd::prelude::*;

verus! {

/// The elements of `s` whose mask bit is set, in order.
pub open spec fn masked<T>(s: Seq<T>, m: Seq<bool>) -> Seq<T>
    decreases m.len(),
{
    if m.len() == 0 {
        Seq::empty()
    } else {
        let rest = masked(s, m.drop_last());
        if m.last() {
            rest.push(s[m.len() - 1])
        } else {
            rest
        }
    }
}

/// Keeps the elements whose mask bit is set, in their order.
pub fn retain_masked<T>(v: Vec<T>, keep: &Vec<bool>) -> (r: Vec<T>)
    requires
        keep.len() == v.len(),
    ensures
        r@ == masked(v@, keep@),
{
    let ghost orig = v@;
    let mut v = v;
    let mut out: Vec<T> = Vec::new();
    let mut i: usize = 0;
    let n = v.len();
    assert(keep@.take(0) =~= Seq::<bool>::empty());
    while i < n
        invariant
            n == orig.len(),
            keep.len() == n,
            i <= n,
            v@ =~= orig.skip(i as int),
            out@ == masked(orig, keep@.take(i as int)),
        decreases n - i,
    {
        let x = v.remove(0);
        assert(orig.skip(i as int).remove(0) =~= orig.skip(i + 1));
        assert(x == orig[i as int]);
        assert(keep@.take(i + 1).drop_last() =~= keep@.take(i as int));
        if keep[i] {
            out.push(x);
        }
        i = i + 1;
    }
    assert(keep@.take(n as int) =~= keep@);
    out
}

/// Lexicographic order on character sequences by code point (the order of
/// `str`'s `Ord`).
pub open spec fn lex_le(a: Seq<char>, b: Seq<char>) -> bool
    decreases a.len(),
{
    if a.len() == 0 {
        true
    } else if b.len() == 0 {
        false
    } else if a[0] != b[0] {
        a[0] < b[0]
    } else {
        lex_le(a.drop_first(), b.drop_first())
    }
}

/// Compares two character vectors lexicographically.
pub fn lex_le_exec(a: &Vec<char>, b: &Vec<char>) -> (r: bool)
    ensures
        r == lex_le(a@, b@),
{
    let mut i: usize = 0;
    assert(a@.skip(0) =~= a@);
    assert(b@.skip(0) =~= b@);
    loop
        invariant
            i <= a.len(),
            i <= b.len(),
            lex_le(a@, b@) == lex_le(a@.skip(i as int), b@.skip(i as int)),
        decreases a.len() - i,
    {
        if i == a.len() {
            return true;
        }
        if i == b.len() {
            return false;
        }
        if a[i] != b[i] {
            return a[i] < b[i];
        }
        assert(a@.skip(i as int).drop_first() =~= a@.skip(i + 1));
        assert(b@.skip(i as int).drop_first() =~= b@.skip(i + 1));
        i = i + 1;
    }
}

/// Inserts `x` after the last element whose key is "at most" `x`'s under
/// `le` (one step of a stable insertion sort).
pub open spec fn insert_by<T, K>(s: Seq<(T, K)>, x: (T, K), le: spec_fn(K, K) -> bool) -> Seq<(T, K)>
    decreases s.len(),
{
    if s.len() == 0 {
        seq![x]
    } else if le(s.last().1, x.1) {
        s.push(x)
    } else {
        insert_by(s.drop_last(), x, le).push(s.last())
    }
}

/// Stable sort under the total preorder `le`.
pub open spec fn sort_by<T, K>(s: Seq<(T, K)>, le: spec_fn(K, K) -> bool) -> Seq<(T, K)>
    decreases s.len(),
{
    if s.len() == 0 {
        s
    } else {
        insert_by(sort_by(s.drop_last(), le), s.last(), le)
    }
}

/// Descending order on integers.
pub open spec fn int_desc() -> spec_fn(int, int) -> bool {
    |a: int, b: int| a >= b
}

/// Ascending lexicographic order on character sequences.
pub open spec fn text_asc() -> spec_fn(Seq<char>, Seq<char>) -> bool {
    |a: Seq<char>, b: Seq<char>| lex_le(a, b)
}

/// Descending lexicographic order on character sequences.
pub open spec fn text_desc() -> spec_fn(Seq<char>, Seq<char>) -> bool {
    |a: Seq<char>, b: Seq<char>| lex_le(b, a)
}

/// Pairs each element with its key.
pub open spec fn zip_keys<T, K>(v: Seq<T>, k: Seq<K>) -> Seq<(T, K)> {
    Seq::new(v.len(), |i: int| (v[i], k[i]))
}

/// First components.
pub open spec fn firsts<T, K>(s: Seq<(T, K)>) -> Seq<T> {
    s.map_values(|p: (T, K)| p.0)
}

proof fn lemma_insert_by_at<T, K>(s: Seq<(T, K)>, x: (T, K), le: spec_fn(K, K) -> bool, pos: int)
    requires
        0 <= pos <= s.len(),
        pos == 0 || le(s[pos - 1].1, x.1),
        forall|k: int| pos <= k < s.len() ==> !le(#[trigger] s[k].1, x.1),
    ensures
        insert_by(s, x, le) == s.insert(pos, x),
    decreases s.len(),
{
    if s.len() == 0 {
        assert(s.insert(pos, x) =~= seq![x]);
    } else if pos == s.len() {
        assert(s.insert(pos, x) =~= s.push(x));
    } else {
        lemma_insert_by_at(s.drop_last(), x, le, pos);
        assert(s.insert(pos, x) =~= s.drop_last().insert(pos, x).push(s.last()));
    }
}

/// Stable sort of `v` by descending integer keys (`keys[i]` belongs to `v[i]`).
pub fn sort_by_int_desc<T>(v: Vec<T>, keys: Vec<i128>) -> (r: Vec<T>)
    requires
        keys.len() == v.len(),
    ensures
        r@ == firsts(sort_by(zip_keys(v@, keys@.map_values(|k: i128| k as int)), int_desc())),
{
    let ghost kz = keys@.map_values(|k: i128| k as int);
    let ghost z = zip_keys(v@, kz);
    let n = v.len();
    let mut v = v;
    let mut out: Vec<T> = Vec::new();
    let mut out_keys: Vec<i128> = Vec::new();
    let mut i: usize = 0;
    assert(z.take(0) =~= Seq::<(T, int)>::empty());
    while i < n
        invariant
            n == z.len(),
            keys.len() == n,
            i <= n,
            v@ =~= firsts(z).skip(i as int),
            kz == keys@.map_values(|k: i128| k as int),
            z == zip_keys(firsts(z), kz),
            out.len() == out_keys.len(),
            zip_keys(out@, out_keys@.map_values(|k: i128| k as int)) == sort_by(z.take(i as int), int_desc()),
        decreases n - i,
    {
        let x = v.remove(0);
        assert(firsts(z).skip(i as int).remove(0) =~= firsts(z).skip(i + 1));
        let key = keys[i];
        assert(x == z[i as int].0);
        let mut pos = out.len();
        while pos > 0 && out_keys[pos - 1] < key
            invariant
                pos <= out.len(),
                out.len() == out_keys.len(),
                forall|k: int| pos <= k < out_keys.len() ==> out_keys[k] < key,
            decreases pos,
        {
            pos = pos - 1;
        }
        let ghost before = zip_keys(out@, out_keys@.map_values(|k: i128| k as int));
        proof {
            assert forall|k: int| pos <= k < before.len() implies !(int_desc())(#[trigger] before[k].1, key as int) by {}
            lemma_insert_by_at(before, (x, key as int), int_desc(), pos as int);
            assert(z.take(i + 1).drop_last() =~= z.take(i as int));
            assert(z.take(i + 1).last() == (x, key as int));
        }
        out.insert(pos, x);
        out_keys.insert(pos, key);
        assert(zip_keys(out@, out_keys@.map_values(|k: i128| k as int)) =~= before.insert(pos as int, (x, key as int)));
        i = i + 1;
    }
    assert(z.take(n as int) =~= z);
    proof {
        let s = sort_by(z, int_desc());
        assert(out@ =~= firsts(s));
    }
    out
}

/// The text order in use: descending or ascending.
pub open spec fn text_order(descending: bool) -> spec_fn(Seq<char>, Seq<char>) -> bool {
    if descending { text_desc() } else { text_asc() }
}

fn text_le_exec(descending: bool, a: &Vec<char>, b: &Vec<char>) -> (r: bool)
    ensures
        r == (text_order(descending))(a@, b@),
{
    if descending {
        lex_le_exec(b, a)
    } else {
        lex_le_exec(a, b)
    }
}

/// Stable sort of `v` by text keys (`keys[i]` belongs to `v[i]`), ascending
/// or descending.
pub fn sort_by_text<T>(v: Vec<T>, keys: Vec<Vec<char>>, descending: bool) -> (r: Vec<T>)
    requires
        keys.len() == v.len(),
    ensures
        r@ == firsts(sort_by(zip_keys(v@, keys@.map_values(|k: Vec<char>| k@)), text_order(descending))),
{
    let ghost kz = keys@.map_values(|k: Vec<char>| k@);
    let ghost z = zip_keys(v@, kz);
    let ghost le = text_order(descending);
    let n = v.len();
    let mut v = v;
    let mut keys = keys;
    let mut out: Vec<T> = Vec::new();
    let mut out_keys: Vec<Vec<char>> = Vec::new();
    let mut i: usize = 0;
    assert(z.take(0) =~= Seq::<(T, Seq<char>)>::empty());
    while i < n
        invariant
            n == z.len(),
            i <= n,
            v@ =~= firsts(z).skip(i as int),
            keys@.map_values(|k: Vec<char>| k@) =~= kz.skip(i as int),
            keys.len() == n - i,
            z == zip_keys(firsts(z), kz),
            kz.len() == n,
            le == text_order(descending),
            out.len() == out_keys.len(),
            zip_keys(out@, out_keys@.map_values(|k: Vec<char>| k@)) == sort_by(z.take(i as int), le),
        decreases n - i,
    {
        assert(keys@.map_values(|k: Vec<char>| k@)[0] == keys@[0]@);
        assert(kz.skip(i as int)[0] == kz[i as int]);
        let x = v.remove(0);
        let key = keys.remove(0);
        assert(firsts(z).skip(i as int).remove(0) =~= firsts(z).skip(i + 1));
        assert(kz.skip(i as int).remove(0) =~= kz.skip(i + 1));
        assert(x == z[i as int].0);
        assert(key@ == z[i as int].1);
        let mut pos = out.len();
        while pos > 0 && !text_le_exec(descending, &out_keys[pos - 1], &key)
            invariant
                pos <= out.len(),
                out.len() == out_keys.len(),
                le == text_order(descending),
                forall|k: int| pos <= k < out_keys.len() ==> !le(#[trigger] out_keys@[k]@, key@),
            decreases pos,
        {
            pos = pos - 1;
        }
        let ghost before = zip_keys(out@, out_keys@.map_values(|k: Vec<char>| k@));
        proof {
            assert forall|k: int| pos <= k < before.len() implies !le(#[trigger] before[k].1, key@) by {
                assert(before[k].1 == out_keys@[k]@);
            }
            if pos > 0 {
                assert(before[pos - 1].1 == out_keys@[pos - 1]@);
            }
            lemma_insert_by_at(before, (x, key@), le, pos as int);
            assert(z.take(i + 1).drop_last() =~= z.take(i as int));
            assert(z.take(i + 1).last() == (x, key@));
        }
        let ghost kv = key@;
        out.insert(pos, x);
        out_keys.insert(pos, key);
        assert(zip_keys(out@, out_keys@.map_values(|k: Vec<char>| k@)) =~= before.insert(pos as int, (x, kv)));
        i = i + 1;
    }
    assert(z.take(n as int) =~= z);
    proof {
        let s = sort_by(z, le);
        assert(out@ =~= firsts(s));
    }
    out
}

/// Applies `f` to the first component of a keyed element.
pub open spec fn on_first<T, U, K>(f: spec_fn(T) -> U) -> spec_fn((T, K)) -> (U, K) {
    |p: (T, K)| (f(p.0), p.1)
}

proof fn lemma_insert_by_map<T, U, K>(s: Seq<(T, K)>, x: (T, K), le: spec_fn(K, K) -> bool, f: spec_fn(T) -> U)
    ensures
        insert_by(s, x, le).map_values(on_first(f)) == insert_by(s.map_values(on_first(f)), on_first(f)(x), le),
    decreases s.len(),
{
    let g = on_first::<T, U, K>(f);
    if s.len() == 0 {
        assert(insert_by(s, x, le).map_values(g) =~= seq![g(x)]);
    } else if le(s.last().1, x.1) {
        assert(s.map_values(g).last() == g(s.last()));
        assert(s.push(x).map_values(g) =~= s.map_values(g).push(g(x)));
    } else {
        lemma_insert_by_map(s.drop_last(), x, le, f);
        assert(s.map_values(g).last() == g(s.last()));
        assert(s.map_values(g).drop_last() =~= s.drop_last().map_values(g));
        assert(insert_by(s.drop_last(), x, le).push(s.last()).map_values(g)
            =~= insert_by(s.drop_last(), x, le).map_values(g).push(g(s.last())));
    }
}

/// Sorting by keys commutes with changing the keyed elements.
pub proof fn lemma_sort_by_map<T, U, K>(s: Seq<(T, K)>, le: spec_fn(K, K) -> bool, f: spec_fn(T) -> U)
    ensures
        sort_by(s, le).map_values(on_first(f)) == sort_by(s.map_values(on_first(f)), le),
    decreases s.len(),
{
    let g = on_first::<T, U, K>(f);
    if s.len() == 0 {
        assert(sort_by(s, le).map_values(g) =~= s.map_values(g));
    } else {
        lemma_sort_by_map(s.drop_last(), le, f);
        lemma_insert_by_map(sort_by(s.drop_last(), le), s.last(), le, f);
        assert(s.map_values(g).drop_last() =~= s.drop_last().map_values(g));
        assert(s.map_values(g).last() == g(s.last()));
    }
}

/// Keys non-increasing along the sequence.
pub open spec fn keys_desc<T>(s: Seq<(T, int)>) -> bool {
    forall|i: int, j: int| 0 <= i < j < s.len() ==> #[trigger] s[i].1 >= #[trigger] s[j].1
}

proof fn lemma_insert_by_desc<T>(s: Seq<(T, int)>, x: (T, int))
    requires
        keys_desc(s),
    ensures
        keys_desc(insert_by(s, x, int_desc())),
        insert_by(s, x, int_desc()).len() == s.len() + 1,
        forall|y: (T, int)| #[trigger] insert_by(s, x, int_desc()).contains(y) <==> (s.contains(y) || y == x),
    decreases s.len(),
{
    let r = insert_by(s, x, int_desc());
    if s.len() == 0 {
        assert forall|y: (T, int)| #[trigger] r.contains(y) <==> (s.contains(y) || y == x) by {
            if r.contains(y) {
                let k = choose|k: int| 0 <= k < r.len() && r[k] == y;
            }
            if y == x {
                assert(r[0] == x);
            }
        }
    } else if s.last().1 >= x.1 {
        assert(r == s.push(x));
        assert forall|y: (T, int)| #[trigger] r.contains(y) <==> (s.contains(y) || y == x) by {
            if r.contains(y) {
                let k = choose|k: int| 0 <= k < r.len() && r[k] == y;
                if k < s.len() {
                    assert(s[k] == y);
                }
            }
            if s.contains(y) {
                let k = choose|k: int| 0 <= k < s.len() && s[k] == y;
                assert(r[k] == y);
            }
            if y == x {
                assert(r[s.len() as int] == x);
            }
        }
        assert forall|i: int, j: int| 0 <= i < j < r.len() implies #[trigger] r[i].1 >= #[trigger] r[j].1 by {
            if j == s.len() {
                assert(s[i].1 >= s[s.len() - 1].1 || i == s.len() - 1);
            }
        }
    } else {
        let p = s.drop_last();
        assert(keys_desc(p)) by {
            assert forall|i: int, j: int| 0 <= i < j < p.len() implies #[trigger] p[i].1 >= #[trigger] p[j].1 by {
                assert(p[i] == s[i] && p[j] == s[j]);
            }
        }
        lemma_insert_by_desc(p, x);
        let q = insert_by(p, x, int_desc());
        assert(r == q.push(s.last()));
        assert forall|k: int| 0 <= k < q.len() implies #[trigger] q[k].1 >= s.last().1 by {
            assert(q.contains(q[k]));
            if p.contains(q[k]) {
                let t = choose|t: int| 0 <= t < p.len() && p[t] == q[k];
                assert(s[t].1 >= s[s.len() - 1].1);
            }
        }
        assert forall|i: int, j: int| 0 <= i < j < r.len() implies #[trigger] r[i].1 >= #[trigger] r[j].1 by {
            if j == q.len() {
                assert(r[i] == q[i]);
            } else {
                assert(r[i] == q[i] && r[j] == q[j]);
            }
        }
        assert forall|y: (T, int)| #[trigger] r.contains(y) <==> (s.contains(y) || y == x) by {
            if r.contains(y) {
                let k = choose|k: int| 0 <= k < r.len() && r[k] == y;
                if k < q.len() {
                    assert(q.contains(y));
                    if p.contains(y) {
                        let t = choose|t: int| 0 <= t < p.len() && p[t] == y;
                        assert(s[t] == y);
                    }
                } else {
                    assert(s[s.len() - 1] == y);
                }
            }
            if s.contains(y) {
                let k = choose|k: int| 0 <= k < s.len() && s[k] == y;
                if k < s.len() - 1 {
                    assert(p[k] == y);
                    assert(q.contains(y));
                    let t = choose|t: int| 0 <= t < q.len() && q[t] == y;
                    assert(r[t] == y);
                } else {
                    assert(r[q.len() as int] == y);
                }
            }
            if y == x {
                assert(q.contains(x));
                let t = choose|t: int| 0 <= t < q.len() && q[t] == x;
                assert(r[t] == x);
            }
        }
    }
}

/// Sorting by descending integer keys orders the keys and keeps every
/// element: the result is non-increasing in its keys and holds exactly the
/// elements of the input, as many.
pub proof fn lemma_sort_desc<T>(s: Seq<(T, int)>)
    ensures
        keys_desc(sort_by(s, int_desc())),
        sort_by(s, int_desc()).len() == s.len(),
        forall|y: (T, int)| #[trigger] sort_by(s, int_desc()).contains(y) <==> s.contains(y),
    decreases s.len(),
{
    if s.len() > 0 {
        let p = s.drop_last();
        lemma_sort_desc(p);
        lemma_insert_by_desc(sort_by(p, int_desc()), s.last());
        assert forall|y: (T, int)| #[trigger] sort_by(s, int_desc()).contains(y) <==> s.contains(y) by {
            if s.contains(y) {
                let k = choose|k: int| 0 <= k < s.len() && s[k] == y;
                if k < s.len() - 1 {
                    assert(p[k] == y);
                    assert(p.contains(y));
                }
            }
            if p.contains(y) {
                let k = choose|k: int| 0 <= k < p.len() && p[k] == y;
                assert(s[k] == y);
            }
            if y == s.last() {
                assert(s[s.len() - 1] == y);
            }
        }
    } else {
        assert forall|y: (T, int)| #[trigger] sort_by(s, int_desc()).contains(y) <==> s.contains(y) by {}
    }
}

proof fn lemma_insert_by_nodup<T>(s: Seq<(T, int)>, x: (T, int))
    requires
        keys_desc(s),
        s.no_duplicates(),
        !s.contains(x),
    ensures
        insert_by(s, x, int_desc()).no_duplicates(),
    decreases s.len(),
{
    let r = insert_by(s, x, int_desc());
    lemma_insert_by_desc(s, x);
    if s.len() == 0 {
    } else if s.last().1 >= x.1 {
        assert(r == s.push(x));
        assert forall|i: int, j: int| 0 <= i < r.len() && 0 <= j < r.len() && i != j implies r[i] != r[j] by {
            if i < s.len() && j < s.len() {
                assert(r[i] == s[i] && r[j] == s[j]);
            } else if i < s.len() {
                assert(r[i] == s[i] && r[j] == x);
                assert(s.contains(s[i]));
            } else {
                assert(r[j] == s[j] && r[i] == x);
                assert(s.contains(s[j]));
            }
        }
    } else {
        let p = s.drop_last();
        assert(keys_desc(p)) by {
            assert forall|i: int, j: int| 0 <= i < j < p.len() implies #[trigger] p[i].1 >= #[trigger] p[j].1 by {
                assert(p[i] == s[i] && p[j] == s[j]);
            }
        }
        assert(p.no_duplicates()) by {
            assert forall|i: int, j: int| 0 <= i < p.len() && 0 <= j < p.len() && i != j implies p[i] != p[j] by {
                assert(p[i] == s[i] && p[j] == s[j]);
            }
        }
        assert(!p.contains(x)) by {
            if p.contains(x) {
                let k = choose|k: int| 0 <= k < p.len() && p[k] == x;
                assert(s[k] == x);
            }
        }
        lemma_insert_by_nodup(p, x);
        lemma_insert_by_desc(p, x);
        let q = insert_by(p, x, int_desc());
        assert(r == q.push(s.last()));
        assert(!q.contains(s.last())) by {
            if q.contains(s.last()) {
                if p.contains(s.last()) {
                    let k = choose|k: int| 0 <= k < p.len() && p[k] == s.last();
                    assert(s[k] == s[s.len() - 1]);
                } else {
                    assert(s.last() == x);
                    assert(s[s.len() - 1] == x);
                }
            }
        }
        assert forall|i: int, j: int| 0 <= i < r.len() && 0 <= j < r.len() && i != j implies r[i] != r[j] by {
            if i < q.len() && j < q.len() {
                assert(r[i] == q[i] && r[j] == q[j]);
            } else if i < q.len() {
                assert(r[i] == q[i]);
                assert(q.contains(q[i]));
            } else {
                assert(r[j] == q[j]);
                assert(q.contains(q[j]));
            }
        }
    }
}

/// Sorting by descending keys keeps a sequence free of repeats.
pub proof fn lemma_sort_desc_nodup<T>(s: Seq<(T, int)>)
    requires
        s.no_duplicates(),
    ensures
        sort_by(s, int_desc()).no_duplicates(),
    decreases s.len(),
{
    if s.len() > 0 {
        let p = s.drop_last();
        assert(p.no_duplicates()) by {
            assert forall|i: int, j: int| 0 <= i < p.len() && 0 <= j < p.len() && i != j implies p[i] != p[j] by {
                assert(p[i] == s[i] && p[j] == s[j]);
            }
        }
        lemma_sort_desc_nodup(p);
        lemma_sort_desc(p);
        assert(!sort_by(p, int_desc()).contains(s.last())) by {
            if p.contains(s.last()) {
                let k = choose|k: int| 0 <= k < p.len() && p[k] == s.last();
                assert(s[k] == s[s.len() - 1]);
            }
        }
        lemma_insert_by_nodup(sort_by(p, int_desc()), s.last());
    }
}

/// The code-point order on strings is total, and antisymmetric.
pub proof fn lemma_lex_total(a: Seq<char>, b: Seq<char>)
    ensures
        lex_le(a, b) || lex_le(b, a),
        lex_le(a, b) && lex_le(b, a) ==> a == b,
    decreases a.len(),
{
    if a.len() > 0 && b.len() > 0 && a[0] == b[0] {
        lemma_lex_total(a.drop_first(), b.drop_first());
        if lex_le(a, b) && lex_le(b, a) {
            assert(a =~= seq![a[0]] + a.drop_first());
            assert(b =~= seq![b[0]] + b.drop_first());
        }
    } else if a.len() == 0 && b.len() == 0 {
        assert(a =~= b);
    }
}

/// The code-point order on strings is transitive.
pub proof fn lemma_lex_trans(a: Seq<char>, b: Seq<char>, c: Seq<char>)
    requires
        lex_le(a, b),
        lex_le(b, c),
    ensures
        lex_le(a, c),
    decreases a.len(),
{
    if a.len() > 0 && b.len() > 0 && c.len() > 0 && a[0] == b[0] && b[0] == c[0] {
        lemma_lex_trans(a.drop_first(), b.drop_first(), c.drop_first());
    }
}

/// `le` is a total preorder: any two keys compare, and comparisons chain.
pub open spec fn total_preorder<K>(le: spec_fn(K, K) -> bool) -> bool {
    &&& forall|a: K, b: K| #[trigger] le(a, b) || le(b, a)
    &&& forall|a: K, b: K, c: K| #[trigger] le(a, b) && #[trigger] le(b, c) ==> le(a, c)
}

/// Keys ordered by `le` along the sequence.
pub open spec fn keys_sorted<T, K>(s: Seq<(T, K)>, le: spec_fn(K, K) -> bool) -> bool {
    forall|i: int, j: int| 0 <= i < j < s.len() ==> le(#[trigger] s[i].1, #[trigger] s[j].1)
}

proof fn lemma_insert_by_sorted<T, K>(s: Seq<(T, K)>, x: (T, K), le: spec_fn(K, K) -> bool)
    requires
        total_preorder(le),
        keys_sorted(s, le),
    ensures
        keys_sorted(insert_by(s, x, le), le),
        insert_by(s, x, le).len() == s.len() + 1,
        forall|y: (T, K)| #[trigger] insert_by(s, x, le).contains(y) <==> (s.contains(y) || y == x),
    decreases s.len(),
{
    let r = insert_by(s, x, le);
    if s.len() == 0 {
        assert forall|y: (T, K)| #[trigger] r.contains(y) <==> (s.contains(y) || y == x) by {
            if y == x {
                assert(r[0] == x);
            }
        }
    } else if le(s.last().1, x.1) {
        assert(r == s.push(x));
        assert forall|y: (T, K)| #[trigger] r.contains(y) <==> (s.contains(y) || y == x) by {
            if r.contains(y) {
                let k = choose|k: int| 0 <= k < r.len() && r[k] == y;
                if k < s.len() {
                    assert(s[k] == y);
                }
            }
            if s.contains(y) {
                let k = choose|k: int| 0 <= k < s.len() && s[k] == y;
                assert(r[k] == y);
            }
            if y == x {
                assert(r[s.len() as int] == x);
            }
        }
        assert forall|i: int, j: int| 0 <= i < j < r.len() implies le(#[trigger] r[i].1, #[trigger] r[j].1) by {
            if j == s.len() {
                if i < s.len() - 1 {
                    assert(le(s[i].1, s[s.len() - 1].1));
                    assert(le(r[i].1, s.last().1) && le(s.last().1, r[j].1));
                }
            } else {
                assert(r[i] == s[i] && r[j] == s[j]);
            }
        }
    } else {
        let p = s.drop_last();
        assert(keys_sorted(p, le)) by {
            assert forall|i: int, j: int| 0 <= i < j < p.len() implies le(#[trigger] p[i].1, #[trigger] p[j].1) by {
                assert(p[i] == s[i] && p[j] == s[j]);
            }
        }
        lemma_insert_by_sorted(p, x, le);
        let q = insert_by(p, x, le);
        assert(r == q.push(s.last()));
        assert(le(x.1, s.last().1));
        assert forall|k: int| 0 <= k < q.len() implies le(#[trigger] q[k].1, s.last().1) by {
            assert(q.contains(q[k]));
            if p.contains(q[k]) {
                let t = choose|t: int| 0 <= t < p.len() && p[t] == q[k];
                assert(le(s[t].1, s[s.len() - 1].1));
            }
        }
        assert forall|i: int, j: int| 0 <= i < j < r.len() implies le(#[trigger] r[i].1, #[trigger] r[j].1) by {
            if j == q.len() {
                assert(r[i] == q[i]);
                assert(le(q[i].1, s.last().1));
            } else {
                assert(r[i] == q[i] && r[j] == q[j]);
            }
        }
        assert forall|y: (T, K)| #[trigger] r.contains(y) <==> (s.contains(y) || y == x) by {
            if r.contains(y) {
                let k = choose|k: int| 0 <= k < r.len() && r[k] == y;
                if k < q.len() {
                    assert(q.contains(y));
                    if p.contains(y) {
                        let t = choose|t: int| 0 <= t < p.len() && p[t] == y;
                        assert(s[t] == y);
                    }
                } else {
                    assert(s[s.len() - 1] == y);
                }
            }
            if s.contains(y) {
                let k = choose|k: int| 0 <= k < s.len() && s[k] == y;
                if k < s.len() - 1 {
                    assert(p[k] == y);
                    assert(q.contains(y));
                    let t = choose|t: int| 0 <= t < q.len() && q[t] == y;
                    assert(r[t] == y);
                } else {
                    assert(r[q.len() as int] == y);
                }
            }
            if y == x {
                assert(q.contains(x));
                let t = choose|t: int| 0 <= t < q.len() && q[t] == x;
                assert(r[t] == x);
            }
        }
    }
}

/// Sorting under a total preorder orders the keys and keeps every element:
/// the result holds exactly the elements of the input, as many.
pub proof fn lemma_sort_by_sorted<T, K>(s: Seq<(T, K)>, le: spec_fn(K, K) -> bool)
    requires
        total_preorder(le),
    ensures
        keys_sorted(sort_by(s, le), le),
        sort_by(s, le).len() == s.len(),
        forall|y: (T, K)| #[trigger] sort_by(s, le).contains(y) <==> s.contains(y),
    decreases s.len(),
{
    if s.len() > 0 {
        let p = s.drop_last();
        lemma_sort_by_sorted(p, le);
        lemma_insert_by_sorted(sort_by(p, le), s.last(), le);
        assert forall|y: (T, K)| #[trigger] sort_by(s, le).contains(y) <==> s.contains(y) by {
            if s.contains(y) {
                let k = choose|k: int| 0 <= k < s.len() && s[k] == y;
                if k < s.len() - 1 {
                    assert(p[k] == y);
                    assert(p.contains(y));
                }
            }
            if p.contains(y) {
                let k = choose|k: int| 0 <= k < p.len() && p[k] == y;
                assert(s[k] == y);
            }
            if y == s.last() {
                assert(s[s.len() - 1] == y);
            }
        }
    } else {
        assert forall|y: (T, K)| #[trigger] sort_by(s, le).contains(y) <==> s.contains(y) by {}
    }
}

/// Both text orders are total preorders.
pub proof fn lemma_text_order_total(descending: bool)
    ensures
        total_preorder(text_order(descending)),
{
    let le = text_order(descending);
    assert forall|a: Seq<char>, b: Seq<char>| #[trigger] le(a, b) || le(b, a) by {
        lemma_lex_total(a, b);
    }
    assert forall|a: Seq<char>, b: Seq<char>, c: Seq<char>| #[trigger] le(a, b) && #[trigger] le(b, c) implies le(a, c) by {
        if descending {
            lemma_lex_trans(c, b, a);
        } else {
            lemma_lex_trans(a, b, c);
        }
    }
}

/// `x` is an element of `s` whose mask bit is set.
pub open spec fn kept_from<T>(s: Seq<T>, m: Seq<bool>, x: T) -> bool {
    exists|i: int| 0 <= i < m.len() && m[i] && s[i] == x
}

/// Each element that `masked` keeps is an element of `s` whose mask bit is
/// set.
pub proof fn lemma_masked_from<T>(s: Seq<T>, m: Seq<bool>)
    requires
        m.len() <= s.len(),
    ensures
        forall|k: int| 0 <= k < masked(s, m).len() ==> kept_from(s, m, #[trigger] masked(s, m)[k]),
    decreases m.len(),
{
    if m.len() > 0 {
        lemma_masked_from(s, m.drop_last());
        let rest = masked(s, m.drop_last());
        assert forall|k: int| 0 <= k < masked(s, m).len() implies kept_from(s, m, #[trigger] masked(s, m)[k]) by {
            if k < rest.len() {
                assert(masked(s, m)[k] == rest[k]);
                assert(kept_from(s, m.drop_last(), rest[k]));
                let i = choose|i: int| 0 <= i < m.drop_last().len() && m.drop_last()[i] && s[i] == rest[k];
                assert(m[i] == m.drop_last()[i]);
            } else {
                assert(masked(s, m)[k] == s[m.len() - 1]);
            }
        }
    } else {
        assert(masked(s, m) =~= Seq::<T>::empty());
    }
}

/// Keeping some elements of a sequence keeps their relative order: what
/// holds of every earlier-later pair of `s` holds of every such pair of
/// `masked(s, m)`.
pub proof fn lemma_masked_keeps_order<T>(s: Seq<T>, m: Seq<bool>, before: spec_fn(T, T) -> bool)
    requires
        m.len() <= s.len(),
        forall|i: int, j: int| 0 <= i < j < s.len() ==> before(#[trigger] s[i], #[trigger] s[j]),
    ensures
        forall|a: int, b: int| 0 <= a < b < masked(s, m).len() ==> before(#[trigger] masked(s, m)[a], #[trigger] masked(s, m)[b]),
    decreases m.len(),
{
    if m.len() > 0 {
        let m0 = m.drop_last();
        let rest = masked(s, m0);
        lemma_masked_keeps_order(s, m0, before);
        lemma_masked_from(s, m0);
        let r = masked(s, m);
        assert forall|a: int, b: int| 0 <= a < b < r.len() implies before(#[trigger] r[a], #[trigger] r[b]) by {
            if b < rest.len() {
                assert(r[a] == rest[a] && r[b] == rest[b]);
            } else {
                assert(r[a] == rest[a]);
                assert(r[b] == s[m.len() - 1]);
                assert(kept_from(s, m0, rest[a]));
                let i = choose|i: int| 0 <= i < m0.len() && m0[i] && s[i] == rest[a];
                assert(before(s[i], s[m.len() - 1]));
            }
        }
    }
}

/// An element whose mask bit is set is kept.
pub proof fn lemma_masked_contains<T>(s: Seq<T>, m: Seq<bool>, i: int)
    requires
        m.len() <= s.len(),
        0 <= i < m.len(),
        m[i],
    ensures
        masked(s, m).contains(s[i]),
    decreases m.len(),
{
    let rest = masked(s, m.drop_last());
    if i == m.len() - 1 {
        assert(masked(s, m)[rest.len() as int] == s[i]);
    } else {
        lemma_masked_contains(s, m.drop_last(), i);
        let k = choose|k: int| 0 <= k < rest.len() && rest[k] == s[i];
        if m.last() {
            assert(masked(s, m)[k] == rest[k]);
        }
    }
}

} // verus!
