//! Selector specificity `(ids, classes, tags)`, used to order the cascade.
use vstd::prelude::*;
use crate::text::{
    chars_eq_str, is_alphabetic, is_alphanumeric, member, slice_vec, split_whitespace, trim,
    trimmed, unicode_alphabetic, unicode_alphanumeric, words, is_ws,
};
use crate::tokens::{lemma_count_char_contains, lemma_split_on_len, split_on, split_on_char};

verus! {

/// A specificity triple `(ids, classes, tags)`.
pub type Spec3 = (int, int, int);

/// Component-wise sum.
pub open spec fn add3(a: Spec3, b: Spec3) -> Spec3 {
    (a.0 + b.0, a.1 + b.1, a.2 + b.2)
}

/// Lexicographic "greater than" on triples.
pub open spec fn gt3(a: Spec3, b: Spec3) -> bool {
    a.0 > b.0 || (a.0 == b.0 && (a.1 > b.1 || (a.1 == b.1 && a.2 > b.2)))
}

/// Characters that continue an identifier inside a selector.
pub open spec fn ident_char(c: char) -> bool {
    unicode_alphanumeric(c) || c == '-' || c == '_'
}

/// First index at or after `i` that does not continue an identifier.
pub open spec fn skip_ident(w: Seq<char>, i: int) -> int
    decreases w.len() - i,
{
    if i < 0 {
        0
    } else if i >= w.len() {
        w.len() as int
    } else if ident_char(w[i]) {
        skip_ident(w, i + 1)
    } else {
        i
    }
}

/// First index at or after `i` holding `]` (or `w.len()`).
pub open spec fn skip_to_bracket(w: Seq<char>, i: int) -> int
    decreases w.len() - i,
{
    if i < 0 {
        0
    } else if i >= w.len() {
        w.len() as int
    } else if w[i] == ']' {
        i
    } else {
        skip_to_bracket(w, i + 1)
    }
}

/// The index just past the `)` that closes nesting `depth`, or `w.len()`.
pub open spec fn skip_parens(w: Seq<char>, i: int, depth: int) -> int
    decreases w.len() - i,
{
    if i < 0 {
        0
    } else if i >= w.len() || depth <= 0 {
        i
    } else {
        let d = if w[i] == '(' {
            depth + 1
        } else if w[i] == ')' {
            depth - 1
        } else {
            depth
        };
        skip_parens(w, i + 1, d)
    }
}

pub proof fn lemma_skips(w: Seq<char>, i: int, depth: int)
    requires
        0 <= i <= w.len(),
    ensures
        i <= skip_ident(w, i) <= w.len(),
        i <= skip_to_bracket(w, i) <= w.len(),
        i <= skip_parens(w, i, depth) <= w.len(),
        depth > 0 && i < w.len() ==> i < skip_parens(w, i, depth),
    decreases w.len() - i,
{
    if i < w.len() {
        let d = if w[i] == '(' {
            depth + 1
        } else if w[i] == ')' {
            depth - 1
        } else {
            depth
        };
        lemma_skips(w, i + 1, d);
    }
}

/// Specificity of a selector: for a comma-separated list the greatest
/// specificity of its trimmed members; otherwise the sum over its
/// whitespace-separated words (ignoring the combinator words `>`, `+`, `~`).
pub open spec fn specificity_spec(s: Seq<char>) -> Spec3
    decreases s.len(), 3int, 0int,
{
    if s.contains(',') {
        max_parts(split_on(s, ','), 0, (0, 0, 0), s.len() as int)
    } else {
        sum_words(words(s), 0, (0, 0, 0), s.len() as int)
    }
}

/// The greatest specificity among `trim(parts[k..])` and `acc`, taking a
/// later member only when it is strictly greater. Members not shorter than
/// `bound` are not considered.
pub open spec fn max_parts(parts: Seq<Seq<char>>, k: int, acc: Spec3, bound: int) -> Spec3
    decreases bound, 2int, parts.len() - k,
{
    if k < 0 || k >= parts.len() {
        acc
    } else {
        let t = trim(parts[k]);
        let here = if t.len() < bound {
            specificity_spec(t)
        } else {
            (0, 0, 0)
        };
        max_parts(parts, k + 1, if gt3(here, acc) { here } else { acc }, bound)
    }
}

/// `acc` plus the specificity of the words `ws[k..]`. Words longer than
/// `bound` are not considered.
pub open spec fn sum_words(ws: Seq<Seq<char>>, k: int, acc: Spec3, bound: int) -> Spec3
    decreases bound, 2int, ws.len() - k,
{
    if k < 0 || k >= ws.len() {
        acc
    } else {
        let w = ws[k];
        let here = if w == seq!['>'] || w == seq!['+'] || w == seq!['~'] || w.len() > bound {
            (0, 0, 0)
        } else {
            scan_word(w, 0, (0, 0, 0), bound)
        };
        sum_words(ws, k + 1, add3(acc, here), bound)
    }
}

/// The specificity contributed by the word `w` from position `i`, added to
/// `acc`. `#name` counts an id; `.name`, `[...]` and a pseudo-class count a
/// class, except that `:not(x)` and `:is(x)` count the specificity of `x`
/// and `:where(...)` counts nothing; `::name` and a type name count a tag;
/// `*` counts nothing.
pub open spec fn scan_word(w: Seq<char>, i: int, acc: Spec3, bound: int) -> Spec3
    decreases bound, 1int, w.len() - i,
{
    if i < 0 || i >= w.len() || w.len() > bound {
        acc
    } else {
        let c = w[i];
        proof {
            lemma_skips(w, i + 1, 1);
        }
        if c == '#' {
            scan_word(w, skip_ident(w, i + 1), (acc.0 + 1, acc.1, acc.2), bound)
        } else if c == '.' {
            scan_word(w, skip_ident(w, i + 1), (acc.0, acc.1 + 1, acc.2), bound)
        } else if c == '[' {
            let j = skip_to_bracket(w, i + 1);
            let next = if j < w.len() {
                j + 1
            } else {
                j
            };
            scan_word(w, next, (acc.0, acc.1 + 1, acc.2), bound)
        } else if c == ':' {
            let i1 = i + 1;
            if i1 < w.len() && w[i1] == ':' {
                proof {
                    lemma_skips(w, i1 + 1, 1);
                }
                scan_word(w, skip_ident(w, i1 + 1), (acc.0, acc.1, acc.2 + 1), bound)
            } else {
                let e = skip_ident(w, i1);
                let name = w.subrange(i1, e);
                if e < w.len() && w[e] == '(' {
                    proof {
                        lemma_skips(w, e + 1, 1);
                    }
                    let after = skip_parens(w, e + 1, 1);
                    if name == "not"@ || name == "is"@ {
                        let arg_end = if after - 1 >= e + 1 {
                            after - 1
                        } else {
                            e + 1
                        };
                        let arg = w.subrange(e + 1, arg_end);
                        scan_word(w, after, add3(acc, specificity_spec(arg)), bound)
                    } else if name == "where"@ {
                        scan_word(w, after, acc, bound)
                    } else {
                        scan_word(w, after, (acc.0, acc.1 + 1, acc.2), bound)
                    }
                } else {
                    scan_word(w, e, (acc.0, acc.1 + 1, acc.2), bound)
                }
            }
        } else if c == '*' {
            scan_word(w, i + 1, acc, bound)
        } else if unicode_alphabetic(c) || c == '_' {
            scan_word(w, skip_ident(w, i + 1), (acc.0, acc.1, acc.2 + 1), bound)
        } else {
            scan_word(w, i + 1, acc, bound)
        }
    }
}

/// Whether the specificity of `s` is defined: every `:not(` or `:is(`
/// has text after its `(` within its word. (A `(` that ends the word
/// leaves its argument's end before its start.)
pub open spec fn specificity_defined(s: Seq<char>) -> bool
    decreases s.len(), 3int, 0int,
{
    if s.contains(',') {
        parts_defined(split_on(s, ','), 0, s.len() as int)
    } else {
        words_defined(words(s), 0, s.len() as int)
    }
}

/// `specificity_defined` of the trimmed members `parts[k..]` shorter than
/// `bound`.
pub open spec fn parts_defined(parts: Seq<Seq<char>>, k: int, bound: int) -> bool
    decreases bound, 2int, parts.len() - k,
{
    if k < 0 || k >= parts.len() {
        true
    } else {
        let t = trim(parts[k]);
        (t.len() < bound ==> specificity_defined(t)) && parts_defined(parts, k + 1, bound)
    }
}

/// `scan_defined` of the words `ws[k..]` that are not combinators and not
/// longer than `bound`.
pub open spec fn words_defined(ws: Seq<Seq<char>>, k: int, bound: int) -> bool
    decreases bound, 2int, ws.len() - k,
{
    if k < 0 || k >= ws.len() {
        true
    } else {
        let w = ws[k];
        (!(w == seq!['>'] || w == seq!['+'] || w == seq!['~'] || w.len() > bound) ==> scan_defined(
            w,
            0,
            bound,
        )) && words_defined(ws, k + 1, bound)
    }
}

/// Whether reading the word `w` from position `i` (as `scan_word` does)
/// meets no `:not(` or `:is(` whose `(` ends the word, inside arguments too.
pub open spec fn scan_defined(w: Seq<char>, i: int, bound: int) -> bool
    decreases bound, 1int, w.len() - i,
{
    if i < 0 || i >= w.len() || w.len() > bound {
        true
    } else {
        let c = w[i];
        proof {
            lemma_skips(w, i + 1, 1);
        }
        if c == '#' || c == '.' {
            scan_defined(w, skip_ident(w, i + 1), bound)
        } else if c == '[' {
            let j = skip_to_bracket(w, i + 1);
            scan_defined(
                w,
                if j < w.len() {
                    j + 1
                } else {
                    j
                },
                bound,
            )
        } else if c == ':' {
            let i1 = i + 1;
            if i1 < w.len() && w[i1] == ':' {
                proof {
                    lemma_skips(w, i1 + 1, 1);
                }
                scan_defined(w, skip_ident(w, i1 + 1), bound)
            } else {
                let e = skip_ident(w, i1);
                let name = w.subrange(i1, e);
                if e < w.len() && w[e] == '(' {
                    proof {
                        lemma_skips(w, e + 1, 1);
                    }
                    let after = skip_parens(w, e + 1, 1);
                    if name == "not"@ || name == "is"@ {
                        &&& after - 1 >= e + 1
                        &&& specificity_defined(w.subrange(e + 1, after - 1))
                        &&& scan_defined(w, after, bound)
                    } else {
                        scan_defined(w, after, bound)
                    }
                } else {
                    scan_defined(w, e, bound)
                }
            }
        } else if c == '*' {
            scan_defined(w, i + 1, bound)
        } else if unicode_alphabetic(c) || c == '_' {
            scan_defined(w, skip_ident(w, i + 1), bound)
        } else {
            scan_defined(w, i + 1, bound)
        }
    }
}

/// Sum of the lengths of the words.
pub open spec fn sum_lens(ws: Seq<Seq<char>>) -> int
    decreases ws.len(),
{
    if ws.len() == 0 {
        0
    } else {
        sum_lens(ws.drop_last()) + ws.last().len()
    }
}

proof fn lemma_sum_lens_update(ws: Seq<Seq<char>>, w: Seq<char>)
    requires
        ws.len() > 0,
    ensures
        sum_lens(ws.update(ws.len() - 1, w)) == sum_lens(ws) - ws.last().len() + w.len(),
{
    assert(ws.update(ws.len() - 1, w).drop_last() =~= ws.drop_last());
}

/// The words of `s` together are no longer than `s`, and each is shorter
/// than or as long as `s`.
pub proof fn lemma_words_len(s: Seq<char>)
    ensures
        sum_lens(words(s)) <= s.len(),
        forall|k: int| 0 <= k < words(s).len() ==> #[trigger] words(s)[k].len() <= s.len(),
    decreases s.len(),
{
    if s.len() > 0 {
        let prev = words(s.drop_last());
        lemma_words_len(s.drop_last());
        let c = s.last();
        if is_ws(c) {
        } else if s.len() >= 2 && !is_ws(s[s.len() - 2]) && prev.len() > 0 {
            lemma_sum_lens_update(prev, prev.last().push(c));
            lemma_sum_lens_prefix_le_last(prev);
            let cur = words(s);
            assert forall|k: int| 0 <= k < cur.len() implies #[trigger] cur[k].len() <= s.len() by {
                if k < prev.len() - 1 {
                    assert(cur[k] == prev[k]);
                } else {
                    assert(cur[k] == prev.last().push(c));
                }
            }
        } else {
            assert(prev.push(seq![c]).drop_last() =~= prev);
            let cur = words(s);
            assert forall|k: int| 0 <= k < cur.len() implies #[trigger] cur[k].len() <= s.len() by {
                if k < prev.len() {
                    assert(cur[k] == prev[k]);
                }
            }
        }
    }
}

proof fn lemma_sum_lens_prefix_le_last(ws: Seq<Seq<char>>)
    requires
        ws.len() > 0,
    ensures
        ws.last().len() <= sum_lens(ws),
{
    lemma_sum_lens_nonneg(ws.drop_last());
}

proof fn lemma_sum_lens_nonneg(ws: Seq<Seq<char>>)
    ensures
        sum_lens(ws) >= 0,
    decreases ws.len(),
{
    if ws.len() > 0 {
        lemma_sum_lens_nonneg(ws.drop_last());
    }
}

proof fn lemma_sum_lens_take(ws: Seq<Seq<char>>, k: int)
    requires
        0 <= k < ws.len(),
    ensures
        sum_lens(ws.subrange(0, k + 1)) == sum_lens(ws.subrange(0, k)) + ws[k].len(),
{
    assert(ws.subrange(0, k + 1).drop_last() =~= ws.subrange(0, k));
}

proof fn lemma_sum_lens_prefix_le(ws: Seq<Seq<char>>, k: int)
    requires
        0 <= k <= ws.len(),
    ensures
        sum_lens(ws.subrange(0, k)) <= sum_lens(ws),
    decreases ws.len() - k,
{
    if k < ws.len() {
        lemma_sum_lens_prefix_le(ws, k + 1);
        lemma_sum_lens_take(ws, k);
    } else {
        assert(ws.subrange(0, k) =~= ws);
    }
}

fn is_ident_char(c: char) -> (r: bool)
    ensures
        r == ident_char(c),
{
    is_alphanumeric(c) || c == '-' || c == '_'
}

fn skip_ident_exec(w: &[char], i: usize) -> (r: usize)
    requires
        i <= w@.len(),
    ensures
        r as int == skip_ident(w@, i as int),
{
    let mut k = i;
    while k < w.len() && is_ident_char(w[k])
        invariant
            i <= k <= w@.len(),
            skip_ident(w@, i as int) == skip_ident(w@, k as int),
        decreases w@.len() - k,
    {
        k = k + 1;
    }
    k
}

fn skip_to_bracket_exec(w: &[char], i: usize) -> (r: usize)
    requires
        i <= w@.len(),
    ensures
        r as int == skip_to_bracket(w@, i as int),
{
    let mut k = i;
    while k < w.len() && w[k] != ']'
        invariant
            i <= k <= w@.len(),
            skip_to_bracket(w@, i as int) == skip_to_bracket(w@, k as int),
        decreases w@.len() - k,
    {
        k = k + 1;
    }
    k
}

fn skip_parens_exec(w: &[char], i: usize) -> (r: usize)
    requires
        i <= w@.len(),
    ensures
        r as int == skip_parens(w@, i as int, 1),
{
    let mut k = i;
    let mut depth: u128 = 1;
    while k < w.len() && depth > 0
        invariant
            i <= k <= w@.len(),
            depth <= k - i + 1,
            skip_parens(w@, i as int, 1) == skip_parens(w@, k as int, depth as int),
        decreases w@.len() - k,
    {
        if w[k] == '(' {
            depth = depth + 1;
        } else if w[k] == ')' {
            depth = depth - 1;
        }
        k = k + 1;
    }
    k
}

/// Specificity contributed by one word, from position 0.
fn scan_word_exec(w: &[char], bound: Ghost<int>) -> (r: (usize, usize, usize))
    requires
        w@.len() <= bound@,
        scan_defined(w@, 0, bound@),
    ensures
        (r.0 as int, r.1 as int, r.2 as int) == scan_word(w@, 0, (0, 0, 0), bound@),
        r.0 + r.1 + r.2 <= w@.len(),
    decreases bound@, 1int,
{
    let n = w.len();
    let mut ids: usize = 0;
    let mut classes: usize = 0;
    let mut tags: usize = 0;
    let mut i: usize = 0;
    while i < n
        invariant
            i <= n,
            n == w@.len(),
            n <= bound@,
            ids + classes + tags <= i,
            scan_defined(w@, i as int, bound@),
            scan_word(w@, 0, (0, 0, 0), bound@) == scan_word(
                w@,
                i as int,
                (ids as int, classes as int, tags as int),
                bound@,
            ),
        decreases n - i,
    {
        let c = w[i];
        proof {
            lemma_skips(w@, i + 1, 1);
        }
        if c == '#' {
            ids = ids + 1;
            i = skip_ident_exec(w, i + 1);
        } else if c == '.' {
            classes = classes + 1;
            i = skip_ident_exec(w, i + 1);
        } else if c == '[' {
            classes = classes + 1;
            let j = skip_to_bracket_exec(w, i + 1);
            i = if j < n {
                j + 1
            } else {
                j
            };
        } else if c == ':' {
            let i1 = i + 1;
            if i1 < n && w[i1] == ':' {
                proof {
                    lemma_skips(w@, i1 + 1, 1);
                }
                tags = tags + 1;
                i = skip_ident_exec(w, i1 + 1);
            } else {
                let e = skip_ident_exec(w, i1);
                let name = slice_vec(w, i1, e);
                if e < n && w[e] == '(' {
                    proof {
                        lemma_skips(w@, e + 1, 1);
                    }
                    let after = skip_parens_exec(w, e + 1);
                    if chars_eq_str(&name, "not") || chars_eq_str(&name, "is") {
                        let arg = slice_vec(w, e + 1, after - 1);
                        let (a, b, cc) = specificity_chars(&arg);
                        ids = ids + a;
                        classes = classes + b;
                        tags = tags + cc;
                    } else if chars_eq_str(&name, "where") {
                    } else {
                        classes = classes + 1;
                    }
                    i = after;
                } else {
                    classes = classes + 1;
                    i = e;
                }
            }
        } else if c == '*' {
            i = i + 1;
        } else if is_alphabetic(c) || c == '_' {
            tags = tags + 1;
            i = skip_ident_exec(w, i + 1);
        } else {
            i = i + 1;
        }
    }
    (ids, classes, tags)
}

/// Specificity of a selector given as characters (see `specificity_spec`),
/// for a selector whose specificity is defined (see `specificity_defined`).
pub fn specificity_chars(s: &[char]) -> (r: (usize, usize, usize))
    requires
        specificity_defined(s@),
    ensures
        (r.0 as int, r.1 as int, r.2 as int) == specificity_spec(s@),
        r.0 + r.1 + r.2 <= s@.len(),
    decreases s@.len(), 3int,
{
    if member(s, ',') {
        let parts = split_on_char(s, ',');
        proof {
            lemma_split_on_len(s@, ',');
            lemma_count_char_contains(s@, ',');
        }
        let mut best: (usize, usize, usize) = (0, 0, 0);
        let mut k: usize = 0;
        while k < parts.len()
            invariant
                k <= parts@.len(),
                parts@.len() == split_on(s@, ',').len(),
                forall|m: int| 0 <= m < parts@.len() ==> #[trigger] parts@[m]@ == split_on(s@, ',')[m],
                forall|m: int|
                    0 <= m < split_on(s@, ',').len() ==> #[trigger] split_on(s@, ',')[m].len()
                        < s@.len(),
                best.0 + best.1 + best.2 <= s@.len(),
                parts_defined(split_on(s@, ','), k as int, s@.len() as int),
                specificity_spec(s@) == max_parts(
                    split_on(s@, ','),
                    k as int,
                    (best.0 as int, best.1 as int, best.2 as int),
                    s@.len() as int,
                ),
            decreases parts@.len() - k,
        {
            let t = trimmed(&parts[k]);
            proof {
                lemma_trim_len(parts@[k as int]@);
            }
            let here = specificity_chars(&t);
            if here.0 > best.0 || (here.0 == best.0 && (here.1 > best.1 || (here.1 == best.1
                && here.2 > best.2))) {
                best = here;
            }
            k = k + 1;
        }
        best
    } else {
        let ws = split_whitespace(s);
        proof {
            lemma_words_len(s@);
            assert(ws@.map_values(|v: Vec<char>| v@) =~= words(s@));
        }
        let ghost wv = words(s@);
        let n = s.len();
        let mut acc: (usize, usize, usize) = (0, 0, 0);
        assert(wv.subrange(0, 0) =~= Seq::<Seq<char>>::empty());
        let mut k: usize = 0;
        while k < ws.len()
            invariant
                k <= ws@.len(),
                ws@.len() == wv.len(),
                wv == words(s@),
                forall|m: int| 0 <= m < ws@.len() ==> #[trigger] ws@[m]@ == wv[m],
                forall|m: int| 0 <= m < wv.len() ==> #[trigger] wv[m].len() <= s@.len(),
                sum_lens(wv) <= s@.len(),
                n == s@.len(),
                acc.0 + acc.1 + acc.2 <= sum_lens(wv.subrange(0, k as int)),
                !s@.contains(','),
                words_defined(wv, k as int, s@.len() as int),
                specificity_spec(s@) == sum_words(
                    wv,
                    k as int,
                    (acc.0 as int, acc.1 as int, acc.2 as int),
                    s@.len() as int,
                ),
            decreases ws@.len() - k,
        {
            let w = &ws[k];
            proof {
                lemma_sum_lens_take(wv, k as int);
                lemma_sum_lens_prefix_le(wv, k + 1);
            }
            proof {
                reveal_strlit(">");
                reveal_strlit("+");
                reveal_strlit("~");
                assert(">"@ =~= seq!['>']);
                assert("+"@ =~= seq!['+']);
                assert("~"@ =~= seq!['~']);
            }
            let skip = chars_eq_str(w, ">") || chars_eq_str(w, "+") || chars_eq_str(w, "~");
            if !skip {
                let here = scan_word_exec(w, Ghost(s@.len() as int));
                acc = (acc.0 + here.0, acc.1 + here.1, acc.2 + here.2);
            }
            k = k + 1;
        }
        assert(wv.subrange(0, ws@.len() as int) =~= wv);
        acc
    }
}

proof fn lemma_trim_len(s: Seq<char>)
    ensures
        trim(s).len() <= s.len(),
{
    lemma_trim_start_len(s);
    lemma_trim_end_len(crate::text::trim_start(s));
}

proof fn lemma_trim_start_len(s: Seq<char>)
    ensures
        crate::text::trim_start(s).len() <= s.len(),
    decreases s.len(),
{
    if s.len() > 0 && is_ws(s[0]) {
        lemma_trim_start_len(s.drop_first());
    }
}

proof fn lemma_trim_end_len(s: Seq<char>)
    ensures
        crate::text::trim_end(s).len() <= s.len(),
    decreases s.len(),
{
    if s.len() > 0 && is_ws(s.last()) {
        lemma_trim_end_len(s.drop_last());
    }
}

/// Specificity of a selector as `(ids, classes, tags)` (see
/// `specificity_spec`). A `:not(` or `:is(` whose `(` ends a word of the
/// selector has no argument to count, so such selectors are excluded (see
/// `specificity_defined`).
pub fn selector_specificity(selector: &str) -> (r: (usize, usize, usize))
    requires
        specificity_defined(selector@),
    ensures
        (r.0 as int, r.1 as int, r.2 as int) == specificity_spec(selector@),
{
    let s = crate::text::chars_of(selector);
    specificity_chars(&s)
}

} // verus!
