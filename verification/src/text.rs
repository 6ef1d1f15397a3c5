//! Character-level text primitives shared by the selector, style and
//! identity code: conversion between `str`/`String` and character vectors,
//! whitespace classification, trimming, scanning and word splitting.
//!
//! Everything is stated over `Seq<char>`, the view of `str` and `String`.
use vstd::prelude::*;

verus! {

// ---------------------------------------------------------------------------
// Conversions
// ---------------------------------------------------------------------------

/// The characters of `s`, in order.
pub fn chars_of(s: &str) -> (v: Vec<char>)
    ensures
        v@ == s@,
{
    let n = s.unicode_len();
    let mut v: Vec<char> = Vec::new();
    let mut i: usize = 0;
    while i < n
        invariant
            n == s@.len(),
            i <= n,
            v@ == s@.subrange(0, i as int),
        decreases n - i,
    {
        let c = s.get_char(i);
        v.push(c);
        i = i + 1;
        assert(v@ =~= s@.subrange(0, i as int));
    }
    assert(v@ =~= s@);
    v
}

/// `String::push`: appends one character to the end of the string.
/// The contract claims the character sequence grows by exactly `c`.
#[verifier::external_body]
pub(crate) fn push_char(s: &mut String, c: char)
    ensures
        final(s)@ == old(s)@.push(c),
{
    s.push(c);
}

/// A `String` holding exactly the characters of `cs`.
pub fn string_of(cs: &[char]) -> (s: String)
    ensures
        s@ == cs@,
{
    let mut s = String::new();
    let mut i: usize = 0;
    while i < cs.len()
        invariant
            i <= cs@.len(),
            s@ == cs@.subrange(0, i as int),
        decreases cs@.len() - i,
    {
        push_char(&mut s, cs[i]);
        i = i + 1;
        assert(s@ =~= cs@.subrange(0, i as int));
    }
    assert(s@ =~= cs@);
    s
}

/// Appends the characters of `cs` to `out`.
pub fn push_all(out: &mut Vec<char>, cs: &[char])
    ensures
        final(out)@ == old(out)@ + cs@,
{
    let mut i: usize = 0;
    while i < cs.len()
        invariant
            i <= cs@.len(),
            out@ == old(out)@ + cs@.subrange(0, i as int),
        decreases cs@.len() - i,
    {
        out.push(cs[i]);
        i = i + 1;
        assert(out@ =~= old(out)@ + cs@.subrange(0, i as int));
    }
    assert(cs@.subrange(0, cs@.len() as int) =~= cs@);
}

/// A copy of `cs[lo..hi]`.
pub fn slice_vec(cs: &[char], lo: usize, hi: usize) -> (r: Vec<char>)
    requires
        lo <= hi <= cs@.len(),
    ensures
        r@ == cs@.subrange(lo as int, hi as int),
{
    let mut r: Vec<char> = Vec::new();
    let mut i = lo;
    while i < hi
        invariant
            lo <= i <= hi,
            hi <= cs@.len(),
            r@ == cs@.subrange(lo as int, i as int),
        decreases hi - i,
    {
        r.push(cs[i]);
        i = i + 1;
        assert(r@ =~= cs@.subrange(lo as int, i as int));
    }
    r
}

/// Whether two character sequences are equal.
pub fn chars_eq(a: &[char], b: &[char]) -> (r: bool)
    ensures
        r == (a@ == b@),
{
    if a.len() != b.len() {
        return false;
    }
    let mut i: usize = 0;
    while i < a.len()
        invariant
            a@.len() == b@.len(),
            i <= a@.len(),
            forall|j: int| 0 <= j < i ==> a@[j] == b@[j],
        decreases a@.len() - i,
    {
        if a[i] != b[i] {
            return false;
        }
        i = i + 1;
    }
    assert(a@ =~= b@);
    true
}

/// Whether `s` equals the characters of `lit`.
pub fn chars_eq_str(s: &[char], lit: &str) -> (r: bool)
    ensures
        r == (s@ == lit@),
{
    let l = chars_of(lit);
    chars_eq(s, &l)
}

// ---------------------------------------------------------------------------
// Character classes
// ---------------------------------------------------------------------------

/// The Unicode `White_Space` property, which is what `char::is_whitespace`
/// and the `str` trimming and splitting methods test.
pub open spec fn is_ws(c: char) -> bool {
    ||| ('\u{9}' <= c && c <= '\u{d}')
    ||| c == ' '
    ||| c == '\u{85}'
    ||| c == '\u{a0}'
    ||| c == '\u{1680}'
    ||| ('\u{2000}' <= c && c <= '\u{200a}')
    ||| c == '\u{2028}'
    ||| c == '\u{2029}'
    ||| c == '\u{202f}'
    ||| c == '\u{205f}'
    ||| c == '\u{3000}'
}

/// Whether `c` is whitespace (Unicode `White_Space`).
pub fn is_whitespace(c: char) -> (r: bool)
    ensures
        r == is_ws(c),
{
    ('\u{9}' <= c && c <= '\u{d}') || c == ' ' || c == '\u{85}' || c == '\u{a0}' || c
        == '\u{1680}' || ('\u{2000}' <= c && c <= '\u{200a}') || c == '\u{2028}' || c
        == '\u{2029}' || c == '\u{202f}' || c == '\u{205f}' || c == '\u{3000}'
}

/// What `char::is_alphanumeric` answers for `c` (Unicode `Alphabetic` or
/// `Numeric`); the tables behind it are not restated here.
pub uninterp spec fn unicode_alphanumeric(c: char) -> bool;

/// `char::is_alphanumeric`. Claims only that the answer is the fixed
/// property `unicode_alphanumeric` of `c`.
#[verifier::external_body]
pub(crate) fn is_alphanumeric(c: char) -> (r: bool)
    ensures
        r == unicode_alphanumeric(c),
{
    c.is_alphanumeric()
}

/// What `char::is_alphabetic` answers for `c` (Unicode `Alphabetic`).
pub uninterp spec fn unicode_alphabetic(c: char) -> bool;

/// `char::is_alphabetic`. Claims only that the answer is the fixed
/// property `unicode_alphabetic` of `c`.
#[verifier::external_body]
pub(crate) fn is_alphabetic(c: char) -> (r: bool)
    ensures
        r == unicode_alphabetic(c),
{
    c.is_alphabetic()
}

/// What `str::to_lowercase` produces for a string with characters `s`
/// (full Unicode case mapping, context-sensitive for final sigma).
pub uninterp spec fn unicode_lowercase(s: Seq<char>) -> Seq<char>;

/// `str::to_lowercase`. Claims only that the result is the fixed function
/// `unicode_lowercase` of the input characters.
#[verifier::external_body]
pub(crate) fn to_lowercase(s: &[char]) -> (r: Vec<char>)
    ensures
        r@ == unicode_lowercase(s@),
{
    let text: String = s.iter().collect();
    text.to_lowercase().chars().collect()
}

/// ASCII case folding of one character, as a code point: `A`..`Z` map to
/// `a`..`z`, everything else to itself.
pub open spec fn ascii_fold(c: char) -> u32 {
    if 'A' <= c && c <= 'Z' {
        (c as u32 + 32) as u32
    } else {
        c as u32
    }
}

/// Equality up to ASCII case (`str::eq_ignore_ascii_case`).
pub open spec fn eq_ignore_ascii_case(a: Seq<char>, b: Seq<char>) -> bool {
    &&& a.len() == b.len()
    &&& forall|i: int| 0 <= i < a.len() ==> ascii_fold(a[i]) == ascii_fold(b[i])
}

fn fold_char(c: char) -> (r: u32)
    ensures
        r == ascii_fold(c),
{
    let u = c as u32;
    if 'A' <= c && c <= 'Z' {
        u + 32
    } else {
        u
    }
}

/// Whether `a` and `b` are equal ignoring ASCII case.
pub fn chars_eq_ignore_ascii_case(a: &[char], b: &[char]) -> (r: bool)
    ensures
        r == eq_ignore_ascii_case(a@, b@),
{
    if a.len() != b.len() {
        return false;
    }
    let mut i: usize = 0;
    while i < a.len()
        invariant
            a@.len() == b@.len(),
            i <= a@.len(),
            forall|j: int| 0 <= j < i ==> ascii_fold(a@[j]) == ascii_fold(b@[j]),
        decreases a@.len() - i,
    {
        if fold_char(a[i]) != fold_char(b[i]) {
            return false;
        }
        i = i + 1;
    }
    true
}

// ---------------------------------------------------------------------------
// Trimming
// ---------------------------------------------------------------------------

/// `s` without its leading whitespace.
pub open spec fn trim_start(s: Seq<char>) -> Seq<char>
    decreases s.len(),
{
    if s.len() > 0 && is_ws(s[0]) {
        trim_start(s.drop_first())
    } else {
        s
    }
}

/// `s` without its trailing whitespace.
pub open spec fn trim_end(s: Seq<char>) -> Seq<char>
    decreases s.len(),
{
    if s.len() > 0 && is_ws(s.last()) {
        trim_end(s.drop_last())
    } else {
        s
    }
}

/// `s` without leading and trailing whitespace (`str::trim`).
pub open spec fn trim(s: Seq<char>) -> Seq<char> {
    trim_end(trim_start(s))
}

proof fn lemma_trim_start_at(s: Seq<char>, i: int)
    requires
        0 <= i <= s.len(),
        forall|j: int| 0 <= j < i ==> is_ws(s[j]),
        i == s.len() || !is_ws(s[i]),
    ensures
        trim_start(s) == s.subrange(i, s.len() as int),
    decreases i,
{
    if i == 0 {
        assert(s.subrange(0, s.len() as int) =~= s);
    } else {
        let t = s.drop_first();
        assert forall|j: int| 0 <= j < i - 1 implies is_ws(t[j]) by {
            assert(t[j] == s[j + 1]);
        }
        if i - 1 < t.len() {
            assert(t[i - 1] == s[i]);
        }
        lemma_trim_start_at(t, i - 1);
        assert(t.subrange(i - 1, t.len() as int) =~= s.subrange(i, s.len() as int));
    }
}

proof fn lemma_trim_end_at(s: Seq<char>, k: int)
    requires
        0 <= k <= s.len(),
        forall|j: int| k <= j < s.len() ==> is_ws(s[j]),
        k == 0 || !is_ws(s[k - 1]),
    ensures
        trim_end(s) == s.subrange(0, k),
    decreases s.len() - k,
{
    if k == s.len() {
        assert(s.subrange(0, k) =~= s);
    } else {
        let t = s.drop_last();
        assert(is_ws(s.last()));
        assert forall|j: int| k <= j < t.len() implies is_ws(t[j]) by {
            assert(t[j] == s[j]);
        }
        if k > 0 {
            assert(t[k - 1] == s[k - 1]);
        }
        lemma_trim_end_at(t, k);
        assert(t.subrange(0, k) =~= s.subrange(0, k));
    }
}

/// Bounds `(lo, hi)` such that `s[lo..hi]` is `trim(s)`.
pub fn trim_bounds(s: &[char]) -> (r: (usize, usize))
    ensures
        r.0 <= r.1 <= s@.len(),
        s@.subrange(r.0 as int, r.1 as int) == trim(s@),
{
    let n = s.len();
    let mut lo: usize = 0;
    while lo < n && is_whitespace(s[lo])
        invariant
            n == s@.len(),
            lo <= n,
            forall|j: int| 0 <= j < lo ==> is_ws(s@[j]),
        decreases n - lo,
    {
        lo = lo + 1;
    }
    proof {
        lemma_trim_start_at(s@, lo as int);
    }
    let ghost t = s@.subrange(lo as int, n as int);
    let mut hi: usize = n;
    while hi > lo && is_whitespace(s[hi - 1])
        invariant
            n == s@.len(),
            lo <= hi <= n,
            t == s@.subrange(lo as int, n as int),
            forall|j: int| hi <= j < n ==> is_ws(s@[j]),
        decreases hi,
    {
        hi = hi - 1;
    }
    proof {
        let k = hi - lo;
        assert forall|j: int| k <= j < t.len() implies is_ws(t[j]) by {
            assert(t[j] == s@[j + lo]);
        }
        if k > 0 {
            assert(t[k - 1] == s@[hi - 1]);
        }
        lemma_trim_end_at(t, k as int);
        assert(t.subrange(0, k as int) =~= s@.subrange(lo as int, hi as int));
    }
    (lo, hi)
}

/// `trim(s)`, as a new vector.
pub fn trimmed(s: &[char]) -> (r: Vec<char>)
    ensures
        r@ == trim(s@),
{
    let (lo, hi) = trim_bounds(s);
    slice_vec(s, lo, hi)
}

// ---------------------------------------------------------------------------
// Prefixes, suffixes, search
// ---------------------------------------------------------------------------

/// Whether `p` is a prefix of `s`.
pub open spec fn starts_with(s: Seq<char>, p: Seq<char>) -> bool {
    p.len() <= s.len() && s.subrange(0, p.len() as int) == p
}

/// Whether `p` is a suffix of `s`.
pub open spec fn ends_with(s: Seq<char>, p: Seq<char>) -> bool {
    p.len() <= s.len() && s.subrange(s.len() - p.len(), s.len() as int) == p
}

/// Whether `p` occurs in `s` starting at index `i`.
pub open spec fn occurs_at(s: Seq<char>, p: Seq<char>, i: int) -> bool {
    0 <= i && i + p.len() <= s.len() && s.subrange(i, i + p.len()) == p
}

/// Whether `p` occurs anywhere in `s` (`str::contains`).
pub open spec fn contains_seq(s: Seq<char>, p: Seq<char>) -> bool {
    exists|i: int| occurs_at(s, p, i)
}

/// Index of the first occurrence of `p` in `s` at or after `i`, or `None`
/// (`str::find` when `i` is 0).
pub open spec fn find_from(s: Seq<char>, p: Seq<char>, i: int) -> Option<int>
    decreases s.len() + 1 - i,
{
    if i < 0 || i + p.len() > s.len() {
        None
    } else if occurs_at(s, p, i) {
        Some(i)
    } else {
        find_from(s, p, i + 1)
    }
}

/// Whether `s[i..]` starts with `p`.
pub fn occurs_at_exec(s: &[char], p: &[char], i: usize) -> (r: bool)
    ensures
        r == occurs_at(s@, p@, i as int),
{
    if i > s.len() || p.len() > s.len() - i {
        return false;
    }
    let mut k: usize = 0;
    while k < p.len()
        invariant
            i + p@.len() <= s@.len(),
            s@.len() == s.len(),
            k <= p@.len(),
            forall|j: int| 0 <= j < k ==> s@[i + j] == p@[j],
        decreases p@.len() - k,
    {
        let at = i + k;
        if s[at] != p[k] {
            assert(s@.subrange(i as int, i + p@.len())[k as int] != p@[k as int]);
            return false;
        }
        k = k + 1;
    }
    assert(s@.subrange(i as int, i + p@.len()) =~= p@);
    true
}

/// Whether `s` starts with `p`.
pub fn starts_with_exec(s: &[char], p: &[char]) -> (r: bool)
    ensures
        r == starts_with(s@, p@),
{
    occurs_at_exec(s, p, 0)
}

/// Whether `s` ends with `p`.
pub fn ends_with_exec(s: &[char], p: &[char]) -> (r: bool)
    ensures
        r == ends_with(s@, p@),
{
    if p.len() > s.len() {
        return false;
    }
    occurs_at_exec(s, p, s.len() - p.len())
}

proof fn lemma_find_from_none_contains(s: Seq<char>, p: Seq<char>, i: int)
    requires
        0 <= i,
        find_from(s, p, i) is None,
    ensures
        forall|j: int| i <= j ==> !occurs_at(s, p, j),
    decreases s.len() + 1 - i,
{
    if i + p.len() > s.len() {
    } else {
        lemma_find_from_none_contains(s, p, i + 1);
    }
}

proof fn lemma_find_from_some(s: Seq<char>, p: Seq<char>, i: int)
    requires
        0 <= i,
        find_from(s, p, i) is Some,
    ensures
        i <= find_from(s, p, i)->0,
        occurs_at(s, p, find_from(s, p, i)->0),
        forall|j: int| i <= j < find_from(s, p, i)->0 ==> !occurs_at(s, p, j),
    decreases s.len() + 1 - i,
{
    if i + p.len() > s.len() {
    } else if occurs_at(s, p, i) {
    } else {
        lemma_find_from_some(s, p, i + 1);
    }
}

/// `find_from(s, p, 0)` is `None` exactly when `p` does not occur in `s`.
pub proof fn lemma_find_none_iff(s: Seq<char>, p: Seq<char>)
    ensures
        find_from(s, p, 0) is None <==> !contains_seq(s, p),
        find_from(s, p, 0) is Some ==> occurs_at(s, p, find_from(s, p, 0)->0),
{
    if find_from(s, p, 0) is None {
        lemma_find_from_none_contains(s, p, 0);
    } else {
        lemma_find_from_some(s, p, 0);
    }
}

/// First occurrence of `p` in `s` at or after `from`.
pub fn find_exec(s: &[char], p: &[char], from: usize) -> (r: Option<usize>)
    ensures
        match r {
            Some(i) => find_from(s@, p@, from as int) == Some(i as int),
            None => find_from(s@, p@, from as int) is None,
        },
{
    let mut i = from;
    while i <= s.len() && p.len() <= s.len() - i
        invariant
            from <= i,
            find_from(s@, p@, from as int) == find_from(s@, p@, i as int),
        decreases s@.len() + 1 - i,
    {
        if occurs_at_exec(s, p, i) {
            return Some(i);
        }
        proof {
            if p@.len() == 0 {
                assert(s@.subrange(i as int, i as int) =~= p@);
            }
        }
        i = i + 1;
    }
    None
}

/// Whether `p` occurs in `s`.
pub fn contains_exec(s: &[char], p: &[char]) -> (r: bool)
    ensures
        r == contains_seq(s@, p@),
{
    proof {
        lemma_find_none_iff(s@, p@);
    }
    find_exec(s, p, 0).is_some()
}

/// Index of the first character at or after `i` that is in `set`, or
/// `s.len()` when there is none.
pub open spec fn scan_to_any(s: Seq<char>, i: int, set: Seq<char>) -> int
    decreases s.len() - i,
{
    if i < 0 {
        0
    } else if i >= s.len() {
        s.len() as int
    } else if set.contains(s[i]) {
        i
    } else {
        scan_to_any(s, i + 1, set)
    }
}

/// Facts about `scan_to_any`: it stays in bounds, lands on a member of `set`
/// when it stops early, and skips only non-members.
pub proof fn lemma_scan_to_any(s: Seq<char>, i: int, set: Seq<char>)
    requires
        0 <= i <= s.len(),
    ensures
        i <= scan_to_any(s, i, set) <= s.len(),
        scan_to_any(s, i, set) < s.len() ==> set.contains(s[scan_to_any(s, i, set)]),
        forall|j: int| i <= j < scan_to_any(s, i, set) ==> !set.contains(s[j]),
    decreases s.len() - i,
{
    if i < s.len() && !set.contains(s[i]) {
        lemma_scan_to_any(s, i + 1, set);
    }
}

/// `scan_to_any`, executed.
pub fn scan_to_any_exec(s: &[char], i: usize, set: &[char]) -> (r: usize)
    requires
        i <= s@.len(),
    ensures
        r as int == scan_to_any(s@, i as int, set@),
        i <= r <= s@.len(),
{
    let mut k = i;
    while k < s.len()
        invariant
            i <= k <= s@.len(),
            scan_to_any(s@, i as int, set@) == scan_to_any(s@, k as int, set@),
        decreases s@.len() - k,
    {
        if member(set, s[k]) {
            return k;
        }
        k = k + 1;
    }
    k
}

/// Whether `c` is one of the characters of `set`.
pub fn member(set: &[char], c: char) -> (r: bool)
    ensures
        r == set@.contains(c),
{
    let mut i: usize = 0;
    while i < set.len()
        invariant
            i <= set@.len(),
            forall|j: int| 0 <= j < i ==> set@[j] != c,
        decreases set@.len() - i,
    {
        if set[i] == c {
            assert(set@[i as int] == c);
            return true;
        }
        i = i + 1;
    }
    false
}

// ---------------------------------------------------------------------------
// Splitting on whitespace
// ---------------------------------------------------------------------------

/// The maximal runs of non-whitespace characters of `s`, in order
/// (`str::split_whitespace`). Defined by reading `s` one character at a time
/// from the left: whitespace ends the current word, any other character
/// extends the current word or starts a new one.
pub open spec fn words(s: Seq<char>) -> Seq<Seq<char>>
    decreases s.len(),
{
    if s.len() == 0 {
        Seq::empty()
    } else {
        let prev = words(s.drop_last());
        let c = s.last();
        if is_ws(c) {
            prev
        } else if s.len() >= 2 && !is_ws(s[s.len() - 2]) && prev.len() > 0 {
            prev.update(prev.len() - 1, prev.last().push(c))
        } else {
            prev.push(seq![c])
        }
    }
}

/// The whitespace-separated words of `s`, as character vectors.
pub fn split_whitespace(s: &[char]) -> (r: Vec<Vec<char>>)
    ensures
        r@.len() == words(s@).len(),
        forall|i: int| 0 <= i < r@.len() ==> #[trigger] r@[i]@ == words(s@)[i],
{
    let mut out: Vec<Vec<char>> = Vec::new();
    let mut cur: Vec<char> = Vec::new();
    let mut in_word = false;
    let mut i: usize = 0;
    while i < s.len()
        invariant
            i <= s@.len(),
            in_word == (i > 0 && !is_ws(s@[i - 1])),
            in_word ==> words(s@.subrange(0, i as int)).len() == out@.len() + 1 && cur@
                == words(s@.subrange(0, i as int)).last(),
            !in_word ==> words(s@.subrange(0, i as int)).len() == out@.len(),
            forall|k: int|
                0 <= k < out@.len() ==> #[trigger] out@[k]@ == words(s@.subrange(0, i as int))[k],
        decreases s@.len() - i,
    {
        let c = s[i];
        let ghost pre = s@.subrange(0, i as int);
        let ghost post = s@.subrange(0, i + 1);
        assert(post.drop_last() =~= pre);
        assert(post.last() == c);
        if is_whitespace(c) {
            if in_word {
                out.push(cur);
                cur = Vec::new();
            }
            in_word = false;
            proof {
                assert(words(post) == words(pre));
            }
        } else {
            if in_word {
                cur.push(c);
                proof {
                    assert(post.len() >= 2 && post[post.len() - 2] == s@[i - 1]);
                }
            } else {
                cur = Vec::new();
                cur.push(c);
                proof {
                    if i >= 1 {
                        assert(post[post.len() - 2] == s@[i - 1]);
                    }
                    assert(cur@ =~= seq![c]);
                }
            }
            in_word = true;
        }
        i = i + 1;
    }
    if in_word {
        out.push(cur);
    }
    assert(s@.subrange(0, s@.len() as int) =~= s@);
    out
}

// ---------------------------------------------------------------------------
// Decimal numbers
// ---------------------------------------------------------------------------

/// The decimal digit character for `d < 10`.
pub open spec fn digit_char(d: nat) -> char {
    if d == 0 {
        '0'
    } else if d == 1 {
        '1'
    } else if d == 2 {
        '2'
    } else if d == 3 {
        '3'
    } else if d == 4 {
        '4'
    } else if d == 5 {
        '5'
    } else if d == 6 {
        '6'
    } else if d == 7 {
        '7'
    } else if d == 8 {
        '8'
    } else {
        '9'
    }
}

/// The shortest decimal spelling of `n` (what `format!("{}", n)` prints).
pub open spec fn decimal(n: nat) -> Seq<char>
    decreases n,
{
    if n < 10 {
        seq![digit_char(n)]
    } else {
        decimal(n / 10).push(digit_char(n % 10))
    }
}

fn digit_exec(d: usize) -> (c: char)
    requires
        d < 10,
    ensures
        c == digit_char(d as nat),
{
    if d == 0 {
        '0'
    } else if d == 1 {
        '1'
    } else if d == 2 {
        '2'
    } else if d == 3 {
        '3'
    } else if d == 4 {
        '4'
    } else if d == 5 {
        '5'
    } else if d == 6 {
        '6'
    } else if d == 7 {
        '7'
    } else if d == 8 {
        '8'
    } else {
        '9'
    }
}

/// Appends the decimal spelling of `n` to `out`.
pub fn push_decimal(out: &mut Vec<char>, n: usize)
    ensures
        final(out)@ == old(out)@ + decimal(n as nat),
    decreases n,
{
    if n < 10 {
        out.push(digit_exec(n));
        assert(decimal(n as nat) =~= seq![digit_char(n as nat)]);
        assert(final(out)@ =~= old(out)@ + decimal(n as nat));
    } else {
        push_decimal(out, n / 10);
        out.push(digit_exec(n % 10));
        assert(final(out)@ =~= old(out)@ + decimal(n as nat));
    }
}

/// Whether `c` is an ASCII decimal digit.
pub open spec fn is_digit(c: char) -> bool {
    '0' <= c && c <= '9'
}

/// The value of an ASCII digit.
pub open spec fn digit_value(c: char) -> nat {
    (c as u32 - '0' as u32) as nat
}

/// The value of a non-empty run of ASCII digits.
pub open spec fn digits_value(s: Seq<char>) -> nat
    decreases s.len(),
{
    if s.len() == 0 {
        0
    } else {
        digits_value(s.drop_last()) * 10 + digit_value(s.last())
    }
}

/// Whether `s` is a non-empty run of ASCII digits.
pub open spec fn all_digits(s: Seq<char>) -> bool {
    s.len() > 0 && forall|i: int| 0 <= i < s.len() ==> is_digit(#[trigger] s[i])
}

/// The unsigned number `s` spells as accepted by `str::parse` for an
/// unsigned integer type: an optional `+` followed by at least one digit.
pub open spec fn unsigned_value(s: Seq<char>) -> Option<nat> {
    if all_digits(s) {
        Some(digits_value(s))
    } else if s.len() > 0 && s[0] == '+' && all_digits(s.drop_first()) {
        Some(digits_value(s.drop_first()))
    } else {
        None
    }
}

/// The signed number `s` spells as accepted by `str::parse` for a signed
/// integer type: an optional `+` or `-` followed by at least one digit.
pub open spec fn signed_value(s: Seq<char>) -> Option<int> {
    if all_digits(s) {
        Some(digits_value(s) as int)
    } else if s.len() > 0 && s[0] == '+' && all_digits(s.drop_first()) {
        Some(digits_value(s.drop_first()) as int)
    } else if s.len() > 0 && s[0] == '-' && all_digits(s.drop_first()) {
        Some(-(digits_value(s.drop_first()) as int))
    } else {
        None
    }
}

proof fn lemma_digits_prefix_le(s: Seq<char>, k: int)
    requires
        0 <= k <= s.len(),
    ensures
        digits_value(s.subrange(0, k)) <= digits_value(s),
    decreases s.len(),
{
    if k < s.len() {
        lemma_digits_prefix_le(s.drop_last(), k);
        assert(s.drop_last().subrange(0, k) =~= s.subrange(0, k));
    } else {
        assert(s.subrange(0, k) =~= s);
    }
}

/// Whether every character of `s[lo..]` is a digit.
fn all_digits_from(s: &[char], lo: usize) -> (r: bool)
    requires
        lo <= s@.len(),
    ensures
        r == (forall|j: int| lo <= j < s@.len() ==> is_digit(s@[j])),
{
    let mut i = lo;
    while i < s.len()
        invariant
            lo <= i <= s@.len(),
            forall|j: int| lo <= j < i ==> is_digit(s@[j]),
        decreases s@.len() - i,
    {
        let c = s[i];
        if !('0' <= c && c <= '9') {
            return false;
        }
        i = i + 1;
    }
    true
}

/// Value of the digit run `s[lo..]`, or `None` when it exceeds `limit`.
fn digits_capped(s: &[char], lo: usize, limit: u128) -> (r: Option<u128>)
    requires
        lo <= s@.len(),
        limit <= u64::MAX,
        forall|j: int| lo <= j < s@.len() ==> is_digit(s@[j]),
    ensures
        match r {
            Some(v) => v == digits_value(s@.subrange(lo as int, s@.len() as int)) && v <= limit,
            None => digits_value(s@.subrange(lo as int, s@.len() as int)) > limit,
        },
{
    let ghost t = s@.subrange(lo as int, s@.len() as int);
    let mut v: u128 = 0;
    let mut i = lo;
    while i < s.len()
        invariant
            lo <= i <= s@.len(),
            limit <= u64::MAX,
            t == s@.subrange(lo as int, s@.len() as int),
            forall|j: int| lo <= j < s@.len() ==> is_digit(s@[j]),
            v == digits_value(s@.subrange(lo as int, i as int)),
            v <= limit,
        decreases s@.len() - i,
    {
        let c = s[i];
        let d = (c as u32 - '0' as u32) as u128;
        proof {
            let u = s@.subrange(lo as int, i + 1);
            assert(u.drop_last() =~= s@.subrange(lo as int, i as int));
            assert(u.last() == c);
            assert(d == digit_value(c));
            assert(digits_value(u) == v * 10 + d);
        }
        let next = v * 10 + d;
        if next > limit {
            proof {
                assert(t.subrange(0, i + 1 - lo) =~= s@.subrange(lo as int, i + 1));
                lemma_digits_prefix_le(t, i + 1 - lo);
            }
            return None;
        }
        v = next;
        i = i + 1;
    }
    Some(v)
}

/// Parses an unsigned integer as `str::parse` does for an unsigned type
/// whose maximum is `limit`.
pub fn parse_unsigned(s: &[char], limit: u128) -> (r: Option<u128>)
    requires
        limit <= u64::MAX,
    ensures
        r == (match unsigned_value(s@) {
            Some(v) => if v <= limit {
                Some(v as u128)
            } else {
                None::<u128>
            },
            None => None::<u128>,
        }),
{
    let start: usize = if s.len() > 0 && s[0] == '+' {
        1
    } else {
        0
    };
    proof {
        if start == 1 {
            assert(s@.subrange(1, s@.len() as int) =~= s@.drop_first());
            assert(!all_digits(s@)) by {
                assert(!is_digit(s@[0]));
            }
        } else {
            assert(s@.subrange(0, s@.len() as int) =~= s@);
        }
    }
    if start == s.len() {
        return None;
    }
    if !all_digits_from(s, start) {
        proof {
            let t = s@.subrange(start as int, s@.len() as int);
            let j = choose|j: int| start <= j < s@.len() && !is_digit(s@[j]);
            assert(!is_digit(t[j - start]));
        }
        return None;
    }
    proof {
        let t = s@.subrange(start as int, s@.len() as int);
        assert forall|j: int| 0 <= j < t.len() implies is_digit(#[trigger] t[j]) by {
            assert(t[j] == s@[j + start]);
        }
    }
    digits_capped(s, start, limit)
}

/// Parses a signed integer as `str::parse` does for a signed type whose
/// range is `-neg_limit ..= pos_limit`.
pub fn parse_signed(s: &[char], neg_limit: u128, pos_limit: u128) -> (r: Option<(bool, u128)>)
    requires
        neg_limit <= u64::MAX,
        pos_limit <= u64::MAX,
    ensures
        match signed_value(s@) {
            Some(v) => if -(neg_limit as int) <= v <= pos_limit {
                r matches Some((neg, m)) && (if neg {
                    v == -(m as int)
                } else {
                    v == m as int
                })
            } else {
                r is None
            },
            None => r is None,
        },
{
    let neg = s.len() > 0 && s[0] == '-';
    let start: usize = if s.len() > 0 && (s[0] == '+' || s[0] == '-') {
        1
    } else {
        0
    };
    proof {
        if start == 1 {
            assert(s@.subrange(1, s@.len() as int) =~= s@.drop_first());
            assert(!all_digits(s@)) by {
                assert(!is_digit(s@[0]));
            }
        } else {
            assert(s@.subrange(0, s@.len() as int) =~= s@);
        }
    }
    if start == s.len() {
        return None;
    }
    if !all_digits_from(s, start) {
        proof {
            let t = s@.subrange(start as int, s@.len() as int);
            let j = choose|j: int| start <= j < s@.len() && !is_digit(s@[j]);
            assert(!is_digit(t[j - start]));
        }
        return None;
    }
    proof {
        let t = s@.subrange(start as int, s@.len() as int);
        assert forall|j: int| 0 <= j < t.len() implies is_digit(#[trigger] t[j]) by {
            assert(t[j] == s@[j + start]);
        }
    }
    let limit = if neg {
        neg_limit
    } else {
        pos_limit
    };
    match digits_capped(s, start, limit) {
        Some(m) => Some((neg, m)),
        None => None,
    }
}

/// `s` with every trailing repetition of `p` removed
/// (`str::trim_end_matches`).
pub open spec fn trim_suffixes(s: Seq<char>, p: Seq<char>) -> Seq<char>
    decreases s.len(),
{
    if p.len() > 0 && ends_with(s, p) {
        trim_suffixes(s.subrange(0, s.len() - p.len()), p)
    } else {
        s
    }
}

/// `s` with every trailing repetition of `p` removed.
pub fn trim_suffixes_exec(s: &[char], p: &[char]) -> (r: Vec<char>)
    ensures
        r@ == trim_suffixes(s@, p@),
{
    let mut cur = slice_vec(s, 0, s.len());
    assert(cur@ =~= s@);
    if p.len() == 0 {
        return cur;
    }
    while ends_with_exec(&cur, p)
        invariant
            p@.len() > 0,
            trim_suffixes(cur@, p@) == trim_suffixes(s@, p@),
        decreases cur@.len(),
    {
        let n = cur.len();
        cur = slice_vec(&cur, 0, n - p.len());
    }
    cur
}

/// `s` with every leading repetition of `p` removed
/// (`str::trim_start_matches`).
pub open spec fn trim_prefixes(s: Seq<char>, p: Seq<char>) -> Seq<char>
    decreases s.len(),
{
    if p.len() > 0 && starts_with(s, p) {
        trim_prefixes(s.subrange(p.len() as int, s.len() as int), p)
    } else {
        s
    }
}

/// `s` with every leading repetition of `p` removed.
pub fn trim_prefixes_exec(s: &[char], p: &[char]) -> (r: Vec<char>)
    ensures
        r@ == trim_prefixes(s@, p@),
{
    let mut cur = slice_vec(s, 0, s.len());
    assert(cur@ =~= s@);
    if p.len() == 0 {
        return cur;
    }
    while starts_with_exec(&cur, p)
        invariant
            p@.len() > 0,
            trim_prefixes(cur@, p@) == trim_prefixes(s@, p@),
        decreases cur@.len(),
    {
        let n = cur.len();
        cur = slice_vec(&cur, p.len(), n);
    }
    cur
}

} // verus!
