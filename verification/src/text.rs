//! Character-level views of strings and the std conversions the library needs.

use vstd::prelude::*;
use vstd::string::StringExecFns;

verus! {

/// What `str::to_lowercase` returns for a string, as a function of its
/// characters.  Rust's lowercase mapping works on the whole string (a final
/// sigma depends on its neighbours), so it is named rather than written out.
pub uninterp spec fn lower(s: Seq<char>) -> Seq<char>;

/// Calls `str::to_lowercase`; the contract claims that the result is a
/// function of the input's characters alone (no locale or environment), and
/// the allocation limit of `String`: at most `isize::MAX` bytes, so at most
/// that many characters.
#[verifier::external_body]
pub(crate) fn to_lower(s: &str) -> (r: String)
    ensures
        r@ == lower(s@),
        r@.len() <= isize::MAX,
{
    s.to_lowercase()
}

/// Calls `str::chars` and collects the characters; the contract claims that
/// they are the string's characters in order, and that there are at most
/// `isize::MAX` of them (a `str` spans at most `isize::MAX` bytes and every
/// character takes at least one).
#[verifier::external_body]
pub(crate) fn chars_of(s: &str) -> (r: Vec<char>)
    ensures
        r@ == s@,
        r@.len() <= isize::MAX,
{
    s.chars().collect()
}

/// Collects characters into a `String` (`FromIterator<char>`); the contract
/// claims that the string holds exactly those characters in order.
#[verifier::external_body]
pub(crate) fn string_of(v: &[char]) -> (r: String)
    ensures
        r@ == v@,
{
    v.iter().collect()
}

/// `needle` occurs in `hay` as a contiguous run starting at `start`.
pub open spec fn occurs_at(hay: Seq<char>, needle: Seq<char>, start: int) -> bool {
    0 <= start && start + needle.len() <= hay.len() && hay.subrange(start, start + needle.len())
        == needle
}

/// `needle` occurs somewhere in `hay` (what `str::contains` tests).
pub open spec fn contains_seq(hay: Seq<char>, needle: Seq<char>) -> bool {
    exists|i: int| occurs_at(hay, needle, i)
}

/// `p` is a prefix of `s` (what `str::starts_with` tests).
pub open spec fn starts_with_seq(s: Seq<char>, p: Seq<char>) -> bool {
    p.len() <= s.len() && s.subrange(0, p.len() as int) == p
}

/// Does `needle` occur at position `start` of `hay`?
pub fn occurs_at_exec(hay: &Vec<char>, needle: &Vec<char>, start: usize) -> (r: bool)
    ensures
        r == occurs_at(hay@, needle@, start as int),
{
    if needle.len() > hay.len() || start > hay.len() - needle.len() {
        return false;
    }
    let mut k: usize = 0;
    while k < needle.len()
        invariant
            start + needle.len() <= hay.len(),
            k <= needle.len(),
            forall|j: int| 0 <= j < k ==> hay[start + j] == needle[j],
        decreases needle.len() - k,
    {
        if hay[start + k] != needle[k] {
            assert(hay@.subrange(start as int, start + needle.len())[k as int] != needle@[k as int]);
            return false;
        }
        k = k + 1;
    }
    assert(hay@.subrange(start as int, start + needle.len()) =~= needle@);
    true
}

/// Substring test on characters, the character-level meaning of `str::contains`.
pub fn contains_chars(hay: &Vec<char>, needle: &Vec<char>) -> (r: bool)
    ensures
        r == contains_seq(hay@, needle@),
{
    if needle.len() > hay.len() {
        assert(forall|i: int| !occurs_at(hay@, needle@, i));
        return false;
    }
    let last = hay.len() - needle.len();
    let mut i: usize = 0;
    loop
        invariant
            last == hay.len() - needle.len(),
            needle.len() <= hay.len(),
            i <= last,
            forall|j: int| 0 <= j < i ==> !occurs_at(hay@, needle@, j),
        ensures
            forall|j: int| 0 <= j <= last ==> !occurs_at(hay@, needle@, j),
        decreases last - i,
    {
        if occurs_at_exec(hay, needle, i) {
            return true;
        }
        if i == last {
            break;
        }
        i = i + 1;
    }
    assert forall|j: int| !occurs_at(hay@, needle@, j) by {
        if 0 <= j && j <= last {
        }
    }
    false
}

/// Prefix test on characters, the character-level meaning of `str::starts_with`.
pub fn starts_with_chars(s: &Vec<char>, p: &Vec<char>) -> (r: bool)
    ensures
        r == starts_with_seq(s@, p@),
{
    let r = occurs_at_exec(s, p, 0);
    assert(r == starts_with_seq(s@, p@));
    r
}

/// Equality of two character vectors, element by element.
pub fn chars_eq(a: &Vec<char>, b: &Vec<char>) -> (r: bool)
    ensures
        r == (a@ == b@),
{
    if a.len() != b.len() {
        return false;
    }
    let mut i: usize = 0;
    while i < a.len()
        invariant
            a.len() == b.len(),
            i <= a.len(),
            forall|k: int| 0 <= k < i ==> a[k] == b[k],
        decreases a.len() - i,
    {
        if a[i] != b[i] {
            return false;
        }
        i = i + 1;
    }
    assert(a@ =~= b@);
    true
}

/// Unicode `White_Space`, the property that `char::is_whitespace` tests.
pub open spec fn is_ws(c: char) -> bool {
    ('\u{9}' <= c && c <= '\u{d}') || c == ' ' || c == '\u{85}' || c == '\u{a0}' || c == '\u{1680}'
        || ('\u{2000}' <= c && c <= '\u{200a}') || c == '\u{2028}' || c == '\u{2029}' || c == '\u{202f}'
        || c == '\u{205f}' || c == '\u{3000}'
}

/// `char::is_whitespace`: membership in Unicode `White_Space`.
pub fn is_whitespace(c: char) -> (r: bool)
    ensures
        r == is_ws(c),
{
    ('\u{9}' <= c && c <= '\u{d}') || c == ' ' || c == '\u{85}' || c == '\u{a0}' || c == '\u{1680}'
        || ('\u{2000}' <= c && c <= '\u{200a}') || c == '\u{2028}' || c == '\u{2029}' || c == '\u{202f}'
        || c == '\u{205f}' || c == '\u{3000}'
}

/// The character of a decimal digit below ten.
pub open spec fn digit_char(d: nat) -> char {
    if d == 0 { '0' } else if d == 1 { '1' } else if d == 2 { '2' } else if d == 3 { '3' } else if d == 4 { '4' }
    else if d == 5 { '5' } else if d == 6 { '6' } else if d == 7 { '7' } else if d == 8 { '8' } else { '9' }
}

/// Decimal representation of a natural number, without leading zeros.
pub open spec fn dec(n: nat) -> Seq<char>
    decreases n,
{
    if n < 10 {
        seq![digit_char(n)]
    } else {
        dec(n / 10).push(digit_char(n % 10))
    }
}

/// Decimal representation of an integer, with a leading `-` when negative.
pub open spec fn dec_int(n: int) -> Seq<char> {
    if n < 0 { seq!['-'] + dec((-n) as nat) } else { dec(n as nat) }
}

fn digit_char_exec(d: u64) -> (r: char)
    requires
        d < 10,
    ensures
        r == digit_char(d as nat),
{
    if d == 0 { '0' } else if d == 1 { '1' } else if d == 2 { '2' } else if d == 3 { '3' } else if d == 4 { '4' }
    else if d == 5 { '5' } else if d == 6 { '6' } else if d == 7 { '7' } else if d == 8 { '8' } else { '9' }
}

fn dec_chars(n: u64) -> (r: Vec<char>)
    ensures
        r@ == dec(n as nat),
    decreases n,
{
    if n < 10 {
        let mut v: Vec<char> = Vec::new();
        v.push(digit_char_exec(n));
        v
    } else {
        let mut v = dec_chars(n / 10);
        v.push(digit_char_exec(n % 10));
        v
    }
}

/// Formats an unsigned number in decimal, as `format!("{n}")` does.
pub fn u64_to_string(n: u64) -> (r: String)
    ensures
        r@ == dec(n as nat),
{
    let v = dec_chars(n);
    string_of(v.as_slice())
}

/// Formats a signed number in decimal, as `format!("{n}")` does.
pub fn i64_to_string(n: i64) -> (r: String)
    ensures
        r@ == dec_int(n as int),
{
    if n < 0 {
        let mag: u64 = if n == i64::MIN { 0x8000_0000_0000_0000u64 } else { (-n) as u64 };
        let mut v: Vec<char> = Vec::new();
        v.push('-');
        let d = dec_chars(mag);
        let mut i: usize = 0;
        while i < d.len()
            invariant
                i <= d.len(),
                v@ == seq!['-'] + d@.take(i as int),
            decreases d.len() - i,
        {
            v.push(d[i]);
            assert(d@.take(i + 1) =~= d@.take(i as int).push(d@[i as int]));
            i = i + 1;
        }
        assert(d@.take(d.len() as int) =~= d@);
        string_of(v.as_slice())
    } else {
        u64_to_string(n as u64)
    }
}

/// Concatenates two strings into a new one.
pub fn cat(a: &str, b: &str) -> (r: String)
    ensures
        r@ == a@ + b@,
{
    let mut r = String::from_str(a);
    r.append(b);
    r
}

/// Concatenates three strings into a new one.
pub fn cat3(a: &str, b: &str, c: &str) -> (r: String)
    ensures
        r@ == a@ + b@ + c@,
{
    let mut r = String::from_str(a);
    r.append(b);
    r.append(c);
    r
}

/// A case-insensitive substring test against an already lowercased needle:
/// `s.to_lowercase().contains(needle)`.
pub open spec fn ci_contains(s: Seq<char>, needle_lower: Seq<char>) -> bool {
    contains_seq(lower(s), needle_lower)
}

/// Does the lowercased `s` contain `needle_lower`?
pub fn contains_ci(s: &str, needle_lower: &Vec<char>) -> (r: bool)
    ensures
        r == ci_contains(s@, needle_lower@),
{
    let l = to_lower(s);
    contains_chars(&chars_of(l.as_str()), needle_lower)
}

/// Some element of `v`, lowercased, contains `needle_lower`.
pub open spec fn any_ci_contains(v: Seq<String>, needle_lower: Seq<char>) -> bool {
    exists|i: int| 0 <= i < v.len() && ci_contains(#[trigger] v[i]@, needle_lower)
}

/// Does some string of `v`, lowercased, contain `needle_lower`?
pub fn any_contains_ci(v: &Vec<String>, needle_lower: &Vec<char>) -> (r: bool)
    ensures
        r == any_ci_contains(v@, needle_lower@),
{
    let mut i: usize = 0;
    while i < v.len()
        invariant
            i <= v.len(),
            forall|k: int| 0 <= k < i ==> !ci_contains(#[trigger] v@[k]@, needle_lower@),
        decreases v.len() - i,
    {
        if contains_ci(v[i].as_str(), needle_lower) {
            return true;
        }
        i = i + 1;
    }
    false
}

/// Lowercased characters of a string.
pub fn lower_chars(s: &str) -> (r: Vec<char>)
    ensures
        r@ == lower(s@),
        r.len() <= isize::MAX,
{
    let l = to_lower(s);
    chars_of(l.as_str())
}

/// The separators of a split: whitespace, and with `words_only` false also
/// underscore, hyphen and slash.
pub open spec fn is_sep(c: char, ws_only: bool) -> bool {
    is_ws(c) || (!ws_only && (c == '_' || c == '-' || c == '/'))
}

/// The maximal non-empty runs of non-separator characters of `s`, in order.
pub open spec fn runs_of(s: Seq<char>, ws_only: bool) -> Seq<Seq<char>>
    decreases s.len(),
{
    if s.len() == 0 {
        Seq::<Seq<char>>::empty()
    } else {
        let t = runs_of(s.drop_last(), ws_only);
        let c = s.last();
        if is_sep(c, ws_only) {
            t
        } else if s.len() >= 2 && !is_sep(s[s.len() - 2], ws_only) {
            t.update(t.len() - 1, t.last().push(c))
        } else {
            t.push(seq![c])
        }
    }
}

/// The words of `s` as `str::split_whitespace` yields them.
pub open spec fn words_of(s: Seq<char>) -> Seq<Seq<char>> {
    runs_of(s, true)
}

/// Splits characters into their maximal runs between separators.
pub fn split_runs(s: &Vec<char>, ws_only: bool) -> (r: Vec<String>)
    ensures
        r.len() == runs_of(s@, ws_only).len(),
        forall|i: int| 0 <= i < r.len() ==> #[trigger] r[i]@ == runs_of(s@, ws_only)[i],
{
    let mut done: Vec<String> = Vec::new();
    let ghost mut done_v: Seq<Seq<char>> = Seq::empty();
    let mut cur: Vec<char> = Vec::new();
    let mut i: usize = 0;
    assert(s@.take(0) =~= Seq::<char>::empty());
    while i < s.len()
        invariant
            i <= s.len(),
            done.len() == done_v.len(),
            forall|k: int| 0 <= k < done.len() ==> #[trigger] done[k]@ == done_v[k],
            cur@.len() > 0 <==> (i > 0 && !is_sep(s@[i - 1], ws_only)),
            runs_of(s@.take(i as int), ws_only) == if cur@.len() > 0 { done_v.push(cur@) } else { done_v },
        decreases s.len() - i,
    {
        let c = s[i];
        assert(s@.take(i + 1).drop_last() =~= s@.take(i as int));
        assert(s@.take(i + 1).last() == c);
        if i > 0 {
            assert(s@.take(i + 1)[i - 1] == s@[i - 1]);
        }
        if is_whitespace(c) || (!ws_only && (c == '_' || c == '-' || c == '/')) {
            if cur.len() > 0 {
                proof {
                    done_v = done_v.push(cur@);
                }
                done.push(string_of(cur.as_slice()));
                cur = Vec::new();
            }
        } else {
            let ghost old_cur = cur@;
            cur.push(c);
            proof {
                if old_cur.len() > 0 {
                    let t = done_v.push(old_cur);
                    assert(t.update(t.len() - 1, t.last().push(c)) =~= done_v.push(cur@));
                } else {
                    assert(cur@ =~= seq![c]);
                }
            }
        }
        i = i + 1;
    }
    assert(s@.take(s.len() as int) =~= s@);
    if cur.len() > 0 {
        proof {
            done_v = done_v.push(cur@);
        }
        done.push(string_of(cur.as_slice()));
    }
    done
}

/// `str::split_whitespace`, collected.
pub fn split_whitespace(s: &str) -> (r: Vec<String>)
    ensures
        r.len() == words_of(s@).len(),
        forall|i: int| 0 <= i < r.len() ==> #[trigger] r[i]@ == words_of(s@)[i],
{
    split_runs(&chars_of(s), true)
}

/// Do two strings hold the same characters?
pub fn str_eq(a: &str, b: &str) -> (r: bool)
    ensures
        r == (a@ == b@),
{
    chars_eq(&chars_of(a), &chars_of(b))
}

/// A text occurs in itself.
pub proof fn lemma_contains_self(s: Seq<char>)
    ensures
        contains_seq(s, s),
{
    assert(occurs_at(s, s, 0)) by {
        assert(s.subrange(0, s.len() as int) =~= s);
    }
}

/// What occurs in `m` occurs in any text that has `m` at some position.
pub proof fn lemma_contains_trans(h: Seq<char>, m: Seq<char>, x: Seq<char>)
    requires
        contains_seq(h, m),
        contains_seq(m, x),
    ensures
        contains_seq(h, x),
{
    let i = choose|i: int| occurs_at(h, m, i);
    let j = choose|j: int| occurs_at(m, x, j);
    assert(occurs_at(h, x, i + j)) by {
        assert(h.subrange(i + j, i + j + x.len()) =~= h.subrange(i, i + m.len()).subrange(j, j + x.len()));
    }
}

/// A text occurs in any text that starts or ends with it, and in any text
/// that has it in the middle.
pub proof fn lemma_contains_parts(a: Seq<char>, m: Seq<char>, b: Seq<char>)
    ensures
        contains_seq(a + m + b, m),
        contains_seq(a + m, m),
        contains_seq(m + b, m),
{
    assert(occurs_at(a + m + b, m, a.len() as int)) by {
        assert((a + m + b).subrange(a.len() as int, (a.len() + m.len()) as int) =~= m);
    }
    assert(occurs_at(a + m, m, a.len() as int)) by {
        assert((a + m).subrange(a.len() as int, (a.len() + m.len()) as int) =~= m);
    }
    assert(occurs_at(m + b, m, 0)) by {
        assert((m + b).subrange(0, m.len() as int) =~= m);
    }
}

} // verus!
