//! Decimal parsing and the three-part version ordering used across the registry.

use vstd::prelude::*;
use std::cmp::Ordering;

verus! {

/// Value of an ASCII decimal digit.
pub open spec fn digit_value(c: char) -> nat {
    (c as nat - '0' as nat) as nat
}

/// True when `c` is an ASCII decimal digit.
pub open spec fn is_digit(c: char) -> bool {
    '0' <= c && c <= '9'
}

/// Every character of `d` is an ASCII decimal digit.
pub open spec fn all_digits(d: Seq<char>) -> bool {
    forall|i: int| 0 <= i < d.len() ==> is_digit(#[trigger] d[i])
}

/// The number that the decimal digits `d` denote.
pub open spec fn digits_value(d: Seq<char>) -> nat
    decreases d.len(),
{
    if d.len() == 0 {
        0
    } else {
        digits_value(d.drop_last()) * 10 + digit_value(d.last())
    }
}

/// The digits that `u64::from_str` reads: a single leading `+` is dropped
/// when something follows it.
pub open spec fn digit_part(s: Seq<char>) -> Seq<char> {
    if s.len() > 1 && s[0] == '+' {
        s.skip(1)
    } else {
        s
    }
}

/// What `str::parse::<u64>` accepts and returns: an optional `+`, then one or
/// more ASCII digits whose value fits in 64 bits.
pub open spec fn parse_u64_spec(s: Seq<char>) -> Option<u64> {
    let d = digit_part(s);
    if d.len() > 0 && all_digits(d) && digits_value(d) <= u64::MAX {
        Some(digits_value(d) as u64)
    } else {
        None
    }
}

/// Rust's `str::split` on a single character, on character sequences:
/// `"a.b"` gives `["a", "b"]`, `""` gives `[""]`, `"a."` gives `["a", ""]`.
pub open spec fn split_on(s: Seq<char>, sep: char) -> Seq<Seq<char>>
    decreases s.len(),
{
    if s.len() == 0 {
        seq![Seq::<char>::empty()]
    } else {
        let rest = split_on(s.drop_last(), sep);
        if s.last() == sep {
            rest.push(Seq::<char>::empty())
        } else {
            rest.update(rest.len() - 1, rest.last().push(s.last()))
        }
    }
}

/// `split_on` never yields an empty list of pieces.
pub proof fn lemma_split_nonempty(s: Seq<char>, sep: char)
    ensures
        split_on(s, sep).len() >= 1,
    decreases s.len(),
{
    if s.len() > 0 {
        lemma_split_nonempty(s.drop_last(), sep);
    }
}

/// Splits `s` at every `sep`, as `str::split` does.
pub fn split_chars(s: &Vec<char>, sep: char) -> (r: Vec<Vec<char>>)
    ensures
        r.len() == split_on(s@, sep).len(),
        forall|i: int| 0 <= i < r.len() ==> #[trigger] r[i]@ == split_on(s@, sep)[i],
{
    let mut done: Vec<Vec<char>> = Vec::new();
    let mut cur: Vec<char> = Vec::new();
    let mut i: usize = 0;
    assert(s@.take(0) =~= Seq::<char>::empty());
    while i < s.len()
        invariant
            i <= s.len(),
            split_on(s@.take(i as int), sep).len() == done.len() + 1,
            forall|k: int| 0 <= k < done.len() ==> #[trigger] done[k]@ == split_on(s@.take(i as int), sep)[k],
            cur@ == split_on(s@.take(i as int), sep).last(),
        decreases s.len() - i,
    {
        let c = s[i];
        proof {
            lemma_split_nonempty(s@.take(i as int), sep);
            assert(s@.take(i + 1).drop_last() =~= s@.take(i as int));
        }
        if c == sep {
            done.push(cur);
            cur = Vec::new();
        } else {
            cur.push(c);
        }
        i = i + 1;
    }
    assert(s@.take(s.len() as int) =~= s@);
    done.push(cur);
    done
}

/// Parses a decimal `u64` the way `str::parse::<u64>` does.
pub fn parse_u64(s: &[char]) -> (r: Option<u64>)
    ensures
        r == parse_u64_spec(s@),
{
    let start: usize = if s.len() > 1 && s[0] == '+' { 1 } else { 0 };
    let ghost d = digit_part(s@);
    assert(d =~= s@.skip(start as int));
    if start == s.len() {
        return None;
    }
    let mut value: u64 = 0;
    let mut i: usize = start;
    assert(d.take(0) =~= Seq::<char>::empty());
    while i < s.len()
        invariant
            start <= i <= s.len(),
            d == s@.skip(start as int),
            d == digit_part(s@),
            all_digits(d.take(i - start)),
            value == digits_value(d.take(i - start)),
        decreases s.len() - i,
    {
        let c = s[i];
        proof {
            assert(d.take(i - start + 1).drop_last() =~= d.take(i - start));
        }
        assert(d[i - start] == c);
        if !('0' <= c && c <= '9') {
            assert(!is_digit(d[i - start]));
            assert(!all_digits(d));
            return None;
        }
        let dv: u64 = (c as u32 - '0' as u32) as u64;
        assert(dv == digit_value(c));
        assert(digits_value(d.take(i - start + 1)) == value * 10 + dv);
        if value > (u64::MAX - dv) / 10 {
            proof {
                lemma_digits_value_prefix_mono(d, i - start + 1);
                assert(value * 10 + dv > u64::MAX) by (nonlinear_arith)
                    requires
                        value > (u64::MAX - dv) / 10,
                        dv <= 9,
                ;
            }
            return None;
        }
        value = value * 10 + dv;
        i = i + 1;
    }
    assert(d.take(s.len() - start) =~= d);
    Some(value)
}

/// A longer run of digits never has a smaller value than its prefix.
pub proof fn lemma_digits_value_prefix_mono(d: Seq<char>, k: int)
    requires
        0 <= k <= d.len(),
    ensures
        digits_value(d.take(k)) <= digits_value(d),
    decreases d.len() - k,
{
    if k < d.len() {
        lemma_digits_value_prefix_mono(d, k + 1);
        assert(d.take(k + 1).drop_last() =~= d.take(k));
    } else {
        assert(d.take(k) =~= d);
    }
}

/// The number in piece `k` of a dotted version; a missing or unparsable
/// piece counts as 0.
pub open spec fn version_field(parts: Seq<Seq<char>>, k: int) -> u64 {
    if 0 <= k < parts.len() {
        match parse_u64_spec(parts[k]) {
            Some(v) => v,
            None => 0,
        }
    } else {
        0
    }
}

/// The (major, minor, patch) triple that orders version strings; pieces
/// after the third are ignored.
pub open spec fn version_key(v: Seq<char>) -> (u64, u64, u64) {
    let parts = split_on(v, '.');
    (version_field(parts, 0), version_field(parts, 1), version_field(parts, 2))
}

/// Lexicographic "strictly less" on version triples.
pub open spec fn key_less(a: (u64, u64, u64), b: (u64, u64, u64)) -> bool {
    a.0 < b.0 || (a.0 == b.0 && (a.1 < b.1 || (a.1 == b.1 && a.2 < b.2)))
}

/// A version string is accepted for publishing when it has at least two
/// dotted pieces and every piece parses as a `u64`.
pub open spec fn is_semver_spec(v: Seq<char>) -> bool {
    let parts = split_on(v, '.');
    parts.len() >= 2 && forall|i: int| 0 <= i < parts.len() ==> (#[trigger] parse_u64_spec(parts[i])) is Some
}

fn field_exec(parts: &Vec<Vec<char>>, k: usize, Ghost(view): Ghost<Seq<Seq<char>>>) -> (r: u64)
    requires
        parts.len() == view.len(),
        forall|i: int| 0 <= i < parts.len() ==> #[trigger] parts[i]@ == view[i],
    ensures
        r == version_field(view, k as int),
{
    if k < parts.len() {
        match parse_u64(parts[k].as_slice()) {
            Some(v) => v,
            None => 0,
        }
    } else {
        0
    }
}

/// Computes the ordering triple of a version string.
pub fn version_key_exec(v: &str) -> (r: (u64, u64, u64))
    ensures
        r == version_key(v@),
{
    let cs = crate::text::chars_of(v);
    let parts = split_chars(&cs, '.');
    let ghost view = split_on(v@, '.');
    (field_exec(&parts, 0, Ghost(view)), field_exec(&parts, 1, Ghost(view)), field_exec(&parts, 2, Ghost(view)))
}

/// Checks the version format required for publishing: at least two dotted
/// pieces, each a decimal `u64`.
pub fn is_semver(v: &str) -> (r: bool)
    ensures
        r == is_semver_spec(v@),
{
    let cs = crate::text::chars_of(v);
    let parts = split_chars(&cs, '.');
    if parts.len() < 2 {
        return false;
    }
    let mut i: usize = 0;
    while i < parts.len()
        invariant
            parts.len() == split_on(v@, '.').len(),
            forall|k: int| 0 <= k < parts.len() ==> #[trigger] parts[k]@ == split_on(v@, '.')[k],
            i <= parts.len(),
            forall|k: int| 0 <= k < i ==> (#[trigger] parse_u64_spec(split_on(v@, '.')[k])) is Some,
        decreases parts.len() - i,
    {
        if parse_u64(parts[i].as_slice()).is_none() {
            return false;
        }
        i = i + 1;
    }
    true
}

/// The ordering of two version strings by their (major, minor, patch) triples.
pub open spec fn version_order(a: Seq<char>, b: Seq<char>) -> Ordering {
    if key_less(version_key(a), version_key(b)) {
        Ordering::Less
    } else if version_key(a) == version_key(b) {
        Ordering::Equal
    } else {
        Ordering::Greater
    }
}

/// Compares two version strings by their first three dotted numeric pieces;
/// missing or non-numeric pieces count as 0.
pub fn compare_versions(a: &str, b: &str) -> (r: Ordering)
    ensures
        r == version_order(a@, b@),
{
    let ka = version_key_exec(a);
    let kb = version_key_exec(b);
    if ka.0 < kb.0 || (ka.0 == kb.0 && (ka.1 < kb.1 || (ka.1 == kb.1 && ka.2 < kb.2))) {
        Ordering::Less
    } else if ka.0 == kb.0 && ka.1 == kb.1 && ka.2 == kb.2 {
        Ordering::Equal
    } else {
        Ordering::Greater
    }
}

/// Swapping the arguments of `compare_versions` reverses the answer, and a
/// version compares equal to itself.
pub proof fn law_version_order_antisymmetric(a: Seq<char>, b: Seq<char>)
    ensures
        version_order(a, a) == Ordering::Equal,
        version_order(a, b) == Ordering::Less <==> version_order(b, a) == Ordering::Greater,
        version_order(a, b) == Ordering::Equal <==> version_order(b, a) == Ordering::Equal,
{
}

/// `compare_versions` is transitive: it orders versions consistently.
pub proof fn law_version_order_transitive(a: Seq<char>, b: Seq<char>, c: Seq<char>)
    requires
        version_order(a, b) != Ordering::Greater,
        version_order(b, c) != Ordering::Greater,
    ensures
        version_order(a, c) != Ordering::Greater,
        version_order(a, b) == Ordering::Less || version_order(b, c) == Ordering::Less
            ==> version_order(a, c) == Ordering::Less,
{
}

/// Only the three leading numbers count: versions that agree on them
/// compare equal, whatever pieces follow or however the numbers are
/// written (`1.02` and `1.2.0`).
pub proof fn law_version_order_by_numbers(a: Seq<char>, b: Seq<char>)
    requires
        version_key(a) == version_key(b),
    ensures
        version_order(a, b) == Ordering::Equal,
{
}

} // verus!
