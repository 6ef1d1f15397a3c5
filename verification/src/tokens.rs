//! Lexical pieces of selector handling: splitting a selector into compound
//! parts and combinators, splitting on a separator character, and reading a
//! pseudo-class name with its parenthesized argument.
use vstd::prelude::*;
use crate::text::{
    chars_of, is_alphanumeric, is_whitespace, is_ws, string_of, trim, trimmed,
    unicode_alphanumeric,
};

verus! {

// ---------------------------------------------------------------------------
// Splitting on one character
// ---------------------------------------------------------------------------

/// The pieces of `s` between occurrences of `c`, empty pieces included
/// (`str::split` with a character pattern).
pub open spec fn split_on(s: Seq<char>, c: char) -> Seq<Seq<char>>
    decreases s.len(),
{
    if s.len() == 0 {
        seq![Seq::empty()]
    } else {
        let prev = split_on(s.drop_last(), c);
        if s.last() == c {
            prev.push(Seq::empty())
        } else {
            prev.update(prev.len() - 1, prev.last().push(s.last()))
        }
    }
}

/// Number of occurrences of `c` in `s`.
pub open spec fn count_char(s: Seq<char>, c: char) -> nat
    decreases s.len(),
{
    if s.len() == 0 {
        0
    } else if s.last() == c {
        count_char(s.drop_last(), c) + 1
    } else {
        count_char(s.drop_last(), c)
    }
}

/// `split_on` yields one more piece than there are separators, and no piece
/// is longer than the text without its separators.
pub proof fn lemma_split_on_len(s: Seq<char>, c: char)
    ensures
        split_on(s, c).len() == count_char(s, c) + 1,
        forall|k: int|
            0 <= k < split_on(s, c).len() ==> #[trigger] split_on(s, c)[k].len() + count_char(s, c)
                <= s.len(),
    decreases s.len(),
{
    if s.len() > 0 {
        let prev = split_on(s.drop_last(), c);
        lemma_split_on_len(s.drop_last(), c);
        let cur = split_on(s, c);
        assert forall|k: int| 0 <= k < cur.len() implies #[trigger] cur[k].len() + count_char(s, c)
            <= s.len() by {
            if s.last() == c {
                if k < prev.len() {
                    assert(cur[k] == prev[k]);
                }
            } else {
                if k < prev.len() - 1 {
                    assert(cur[k] == prev[k]);
                } else {
                    assert(cur[k] == prev.last().push(s.last()));
                }
            }
        }
    }
}

/// A separator occurs in `s` exactly when its count is positive.
pub proof fn lemma_count_char_contains(s: Seq<char>, c: char)
    ensures
        (count_char(s, c) > 0) <==> (exists|i: int| 0 <= i < s.len() && s[i] == c),
    decreases s.len(),
{
    if s.len() > 0 {
        lemma_count_char_contains(s.drop_last(), c);
        if exists|i: int| 0 <= i < s.drop_last().len() && s.drop_last()[i] == c {
            let i = choose|i: int| 0 <= i < s.drop_last().len() && s.drop_last()[i] == c;
            assert(s[i] == c);
        }
        if exists|i: int| 0 <= i < s.len() && s[i] == c {
            let i = choose|i: int| 0 <= i < s.len() && s[i] == c;
            if i < s.len() - 1 {
                assert(s.drop_last()[i] == c);
            }
        }
    }
}

/// The pieces of `s` between occurrences of `c`.
pub fn split_on_char(s: &[char], c: char) -> (r: Vec<Vec<char>>)
    ensures
        r@.len() == split_on(s@, c).len(),
        forall|k: int| 0 <= k < r@.len() ==> #[trigger] r@[k]@ == split_on(s@, c)[k],
{
    let mut out: Vec<Vec<char>> = Vec::new();
    let mut cur: Vec<char> = Vec::new();
    let mut i: usize = 0;
    assert(split_on(s@.subrange(0, 0), c) =~= seq![Seq::<char>::empty()]);
    while i < s.len()
        invariant
            i <= s@.len(),
            split_on(s@.subrange(0, i as int), c).len() == out@.len() + 1,
            forall|k: int|
                0 <= k < out@.len() ==> #[trigger] out@[k]@ == split_on(
                    s@.subrange(0, i as int),
                    c,
                )[k],
            cur@ == split_on(s@.subrange(0, i as int), c).last(),
        decreases s@.len() - i,
    {
        let ghost pre = s@.subrange(0, i as int);
        let ghost post = s@.subrange(0, i + 1);
        assert(post.drop_last() =~= pre);
        let x = s[i];
        if x == c {
            out.push(cur);
            cur = Vec::new();
            assert(cur@ =~= Seq::<char>::empty());
        } else {
            cur.push(x);
        }
        i = i + 1;
    }
    out.push(cur);
    assert(s@.subrange(0, s@.len() as int) =~= s@);
    out
}

// ---------------------------------------------------------------------------
// Tokenizing a selector into (compound, following combinator) pairs
// ---------------------------------------------------------------------------

/// The explicit combinator characters.
pub open spec fn is_comb(c: char) -> bool {
    c == '>' || c == '+' || c == '~'
}

/// Characters that can begin a compound selector after whitespace.
pub open spec fn starts_compound(c: char) -> bool {
    unicode_alphanumeric(c) || c == '.' || c == '#' || c == '[' || c == ':' || c == '*'
}

/// First index at or after `i` that is not whitespace (or `s.len()`).
pub open spec fn skip_ws(s: Seq<char>, i: int) -> int
    decreases s.len() - i,
{
    if i < 0 {
        0
    } else if i >= s.len() {
        s.len() as int
    } else if is_ws(s[i]) {
        skip_ws(s, i + 1)
    } else {
        i
    }
}

pub proof fn lemma_skip_ws(s: Seq<char>, i: int)
    requires
        0 <= i <= s.len(),
    ensures
        i <= skip_ws(s, i) <= s.len(),
        skip_ws(s, i) < s.len() ==> !is_ws(s[skip_ws(s, i)]),
    decreases s.len() - i,
{
    if i < s.len() && is_ws(s[i]) {
        lemma_skip_ws(s, i + 1);
    }
}

/// Appends the pending compound (trimmed) as the last token, if non-empty.
pub open spec fn finish_tokens(tokens: Seq<(Seq<char>, Seq<char>)>, cur: Seq<char>) -> Seq<
    (Seq<char>, Seq<char>),
> {
    if trim(cur).len() > 0 {
        tokens.push((trim(cur), Seq::empty()))
    } else {
        tokens
    }
}

/// The tokens of `s` from position `i`, given the tokens emitted so far,
/// the pending compound `cur`, and whether the scan is inside `[...]` or
/// inside a quoted string opened by `q`.
///
/// Quoted text and bracketed text are copied verbatim. Outside them, `>`,
/// `+` and `~` end a non-empty pending compound with that combinator (and
/// are dropped when nothing is pending). Whitespace after a non-empty
/// compound is skipped; if the next character starts another compound the
/// pending one ends with the descendant combinator `" "`. The final compound
/// carries an empty combinator.
pub open spec fn tokenize_from(
    s: Seq<char>,
    i: int,
    tokens: Seq<(Seq<char>, Seq<char>)>,
    cur: Seq<char>,
    in_br: bool,
    in_q: bool,
    q: char,
) -> Seq<(Seq<char>, Seq<char>)>
    decreases s.len() - i,
{
    if i < 0 || i >= s.len() {
        finish_tokens(tokens, cur)
    } else {
        let c = s[i];
        if in_q {
            tokenize_from(s, i + 1, tokens, cur.push(c), in_br, c != q, q)
        } else if c == '"' || c == '\'' {
            tokenize_from(s, i + 1, tokens, cur.push(c), in_br, true, c)
        } else if c == '[' {
            tokenize_from(s, i + 1, tokens, cur.push(c), true, false, q)
        } else if c == ']' {
            tokenize_from(s, i + 1, tokens, cur.push(c), false, false, q)
        } else if in_br {
            tokenize_from(s, i + 1, tokens, cur.push(c), in_br, false, q)
        } else if is_comb(c) {
            if trim(cur).len() > 0 {
                tokenize_from(
                    s,
                    i + 1,
                    tokens.push((trim(cur), seq![c])),
                    Seq::empty(),
                    in_br,
                    false,
                    q,
                )
            } else {
                tokenize_from(s, i + 1, tokens, cur, in_br, false, q)
            }
        } else if is_ws(c) {
            if trim(cur).len() > 0 {
                let j = skip_ws(s, i + 1);
                proof {
                    lemma_skip_ws(s, i + 1);
                }
                if j < s.len() && !is_comb(s[j]) && starts_compound(s[j]) {
                    tokenize_from(
                        s,
                        j,
                        tokens.push((trim(cur), seq![' '])),
                        Seq::empty(),
                        in_br,
                        false,
                        q,
                    )
                } else {
                    tokenize_from(s, j, tokens, cur, in_br, false, q)
                }
            } else {
                tokenize_from(s, i + 1, tokens, cur, in_br, false, q)
            }
        } else {
            tokenize_from(s, i + 1, tokens, cur.push(c), in_br, false, q)
        }
    }
}

/// The `(compound, combinator)` tokens of a selector.
pub open spec fn tokenize(s: Seq<char>) -> Seq<(Seq<char>, Seq<char>)> {
    tokenize_from(s, 0, Seq::empty(), Seq::empty(), false, false, ' ')
}

/// The view of an executable token list.
pub open spec fn token_views(t: Seq<(Vec<char>, Vec<char>)>) -> Seq<(Seq<char>, Seq<char>)> {
    t.map_values(|p: (Vec<char>, Vec<char>)| (p.0@, p.1@))
}

/// Splits a selector into `(compound, combinator)` pairs (see `tokenize`).
pub fn tokenize_chars(s: &[char]) -> (r: Vec<(Vec<char>, Vec<char>)>)
    ensures
        token_views(r@) == tokenize(s@),
{
    let mut tokens: Vec<(Vec<char>, Vec<char>)> = Vec::new();
    let mut cur: Vec<char> = Vec::new();
    let mut in_br = false;
    let mut in_q = false;
    let mut q: char = ' ';
    let mut i: usize = 0;
    assert(token_views(tokens@) =~= Seq::<(Seq<char>, Seq<char>)>::empty());
    while i < s.len()
        invariant
            i <= s@.len(),
            tokenize(s@) == tokenize_from(s@, i as int, token_views(tokens@), cur@, in_br, in_q, q),
        decreases s@.len() - i,
    {
        let c = s[i];
        if in_q {
            cur.push(c);
            in_q = c != q;
            i = i + 1;
        } else if c == '"' || c == '\'' {
            cur.push(c);
            in_q = true;
            q = c;
            i = i + 1;
        } else if c == '[' {
            cur.push(c);
            in_br = true;
            i = i + 1;
        } else if c == ']' {
            cur.push(c);
            in_br = false;
            i = i + 1;
        } else if in_br {
            cur.push(c);
            i = i + 1;
        } else if c == '>' || c == '+' || c == '~' {
            let t = trimmed(&cur);
            if t.len() > 0 {
                let ghost before = token_views(tokens@);
                let mut comb: Vec<char> = Vec::new();
                comb.push(c);
                tokens.push((t, comb));
                assert(token_views(tokens@) =~= before.push((trim(cur@), seq![c])));
                cur = Vec::new();
                assert(cur@ =~= Seq::<char>::empty());
            }
            i = i + 1;
        } else if is_whitespace(c) {
            let t = trimmed(&cur);
            if t.len() > 0 {
                let mut j = i + 1;
                while j < s.len() && is_whitespace(s[j])
                    invariant
                        i + 1 <= j <= s@.len(),
                        skip_ws(s@, i + 1) == skip_ws(s@, j as int),
                    decreases s@.len() - j,
                {
                    j = j + 1;
                }
                proof {
                    lemma_skip_ws(s@, j as int);
                }
                if j < s.len() {
                    let nx = s[j];
                    if !(nx == '>' || nx == '+' || nx == '~') && (is_alphanumeric(nx) || nx == '.'
                        || nx == '#' || nx == '[' || nx == ':' || nx == '*') {
                        let ghost before = token_views(tokens@);
                        let mut comb: Vec<char> = Vec::new();
                        comb.push(' ');
                        tokens.push((t, comb));
                        assert(token_views(tokens@) =~= before.push((trim(cur@), seq![' '])));
                        cur = Vec::new();
                        assert(cur@ =~= Seq::<char>::empty());
                    }
                }
                i = j;
            } else {
                i = i + 1;
            }
        } else {
            cur.push(c);
            i = i + 1;
        }
    }
    let t = trimmed(&cur);
    if t.len() > 0 {
        let ghost before = token_views(tokens@);
        tokens.push((t, Vec::new()));
        assert(token_views(tokens@) =~= before.push((trim(cur@), Seq::<char>::empty())));
    }
    tokens
}

/// Splits a selector into `(compound, combinator)` pairs. The combinator is
/// the one that follows the compound: `">"`, `"+"`, `"~"`, `" "` for a
/// descendant, or `""` for the last compound.
pub fn tokenize_selector(selector: &str) -> (r: Vec<(String, String)>)
    ensures
        r@.map_values(|p: (String, String)| (p.0@, p.1@)) == tokenize(selector@),
{
    let s = chars_of(selector);
    let toks = tokenize_chars(&s);
    let mut out: Vec<(String, String)> = Vec::new();
    let mut k: usize = 0;
    while k < toks.len()
        invariant
            k <= toks@.len(),
            out@.map_values(|p: (String, String)| (p.0@, p.1@)) == token_views(toks@).subrange(
                0,
                k as int,
            ),
        decreases toks@.len() - k,
    {
        let ghost before = out@.map_values(|p: (String, String)| (p.0@, p.1@));
        let a = string_of(&toks[k].0);
        let b = string_of(&toks[k].1);
        out.push((a, b));
        proof {
            let lhs = out@.map_values(|p: (String, String)| (p.0@, p.1@));
            let rhs = token_views(toks@).subrange(0, k + 1);
            assert(before.len() == k);
            assert(out@.len() == k + 1);
            assert(lhs.len() == rhs.len());
            assert forall|m: int| 0 <= m < lhs.len() implies lhs[m] == rhs[m] by {
                if m < k {
                    assert(lhs[m] == before[m]);
                } else {
                    assert(lhs[m] == (out@[m].0@, out@[m].1@));
                }
            }
        }
        assert(out@.map_values(|p: (String, String)| (p.0@, p.1@)) =~= token_views(
            toks@,
        ).subrange(0, k + 1));
        k = k + 1;
    }
    assert(token_views(toks@).subrange(0, toks@.len() as int) =~= token_views(toks@));
    out
}

// ---------------------------------------------------------------------------
// Pseudo-class names and arguments
// ---------------------------------------------------------------------------

/// First index at or after `i` whose character is neither alphanumeric nor
/// `-` (or `r.len()`): the end of a pseudo-class name.
pub open spec fn name_end(r: Seq<char>, i: int) -> int
    decreases r.len() - i,
{
    if i < 0 {
        0
    } else if i >= r.len() {
        r.len() as int
    } else if unicode_alphanumeric(r[i]) || r[i] == '-' {
        name_end(r, i + 1)
    } else {
        i
    }
}

pub proof fn lemma_name_end(r: Seq<char>, i: int)
    requires
        0 <= i <= r.len(),
    ensures
        i <= name_end(r, i) <= r.len(),
    decreases r.len() - i,
{
    if i < r.len() && (unicode_alphanumeric(r[i]) || r[i] == '-') {
        lemma_name_end(r, i + 1);
    }
}

/// Index of the `)` that brings the nesting `depth` (counted from `i`) to
/// zero, if any.
pub open spec fn close_paren(r: Seq<char>, i: int, depth: int) -> Option<int>
    decreases r.len() - i,
{
    if i < 0 || i >= r.len() {
        None
    } else if r[i] == '(' {
        close_paren(r, i + 1, depth + 1)
    } else if r[i] == ')' {
        if depth - 1 == 0 {
            Some(i)
        } else {
            close_paren(r, i + 1, depth - 1)
        }
    } else {
        close_paren(r, i + 1, depth)
    }
}

/// Where `close_paren` can land.
pub proof fn lemma_close_paren(r: Seq<char>, i: int, depth: int)
    requires
        0 <= i,
    ensures
        close_paren(r, i, depth) matches Some(j) ==> i <= j < r.len(),
    decreases r.len() - i,
{
    if i < r.len() {
        if r[i] == '(' {
            lemma_close_paren(r, i + 1, depth + 1);
        } else if r[i] == ')' {
            if depth - 1 != 0 {
                lemma_close_paren(r, i + 1, depth - 1);
            }
        } else {
            lemma_close_paren(r, i + 1, depth);
        }
    }
}

/// A pseudo-class read from the text after its `:`: the name, the argument
/// between the parentheses when a `(` follows the name, and how many
/// characters were consumed. Without a matching `)` the argument is empty and
/// one character past the `(` counts as consumed.
pub open spec fn parse_pseudo(r: Seq<char>) -> (Seq<char>, Option<Seq<char>>, int) {
    let ne = name_end(r, 0);
    let name = r.subrange(0, ne);
    if ne < r.len() && r[ne] == '(' {
        let ps = ne + 1;
        let pe = match close_paren(r, ps, 1) {
            Some(j) => j,
            None => ps,
        };
        (name, Some(r.subrange(ps, pe)), pe + 1)
    } else {
        (name, None, ne)
    }
}

/// The argument of a parsed pseudo-class is strictly shorter than the text,
/// and the consumed count is positive when there is an argument.
pub proof fn lemma_parse_pseudo(r: Seq<char>)
    ensures
        0 <= parse_pseudo(r).2,
        parse_pseudo(r).2 <= r.len() + 1,
        parse_pseudo(r).1 matches Some(a) ==> a.len() < r.len(),
        parse_pseudo(r).0.len() <= r.len(),
{
    lemma_name_end(r, 0);
    let ne = name_end(r, 0);
    if ne < r.len() && r[ne] == '(' {
        lemma_close_paren(r, ne + 1, 1);
    }
}

/// `close_paren(r, ps, 1)`, executed.
fn find_close(r: &[char], ps: usize) -> (res: Option<usize>)
    requires
        ps <= r@.len(),
    ensures
        match res {
            Some(j) => close_paren(r@, ps as int, 1) == Some(j as int),
            None => close_paren(r@, ps as int, 1) is None,
        },
{
    let mut depth: u128 = 1;
    let mut j = ps;
    while j < r.len()
        invariant
            ps <= j <= r@.len(),
            1 <= depth <= j - ps + 1,
            close_paren(r@, ps as int, 1) == close_paren(r@, j as int, depth as int),
        decreases r@.len() - j,
    {
        let c = r[j];
        if c == '(' {
            depth = depth + 1;
        } else if c == ')' {
            if depth == 1 {
                return Some(j);
            }
            depth = depth - 1;
        }
        j = j + 1;
    }
    None
}

/// Reads a pseudo-class from `r` (the text after its `:`), returning the
/// name, the optional argument, and the number of characters consumed.
pub fn parse_pseudo_class(r: &[char]) -> (res: (Vec<char>, Option<Vec<char>>, usize))
    requires
        r@.len() < usize::MAX,
    ensures
        res.0@ == parse_pseudo(r@).0,
        match res.1 {
            Some(a) => parse_pseudo(r@).1 == Some(a@),
            None => parse_pseudo(r@).1 is None,
        },
        res.2 as int == parse_pseudo(r@).2,
{
    let mut ne: usize = 0;
    while ne < r.len() && (is_alphanumeric(r[ne]) || r[ne] == '-')
        invariant
            ne <= r@.len(),
            name_end(r@, 0) == name_end(r@, ne as int),
        decreases r@.len() - ne,
    {
        ne = ne + 1;
    }
    let mut name: Vec<char> = Vec::new();
    let mut k: usize = 0;
    while k < ne
        invariant
            k <= ne <= r@.len(),
            name@ == r@.subrange(0, k as int),
        decreases ne - k,
    {
        name.push(r[k]);
        k = k + 1;
        assert(name@ =~= r@.subrange(0, k as int));
    }
    if ne < r.len() && r[ne] == '(' {
        let ps = ne + 1;
        let found = find_close(r, ps);
        let pe = match found {
            Some(x) => x,
            None => ps,
        };
        proof {
            lemma_close_paren(r@, ps as int, 1);
        }
        let mut arg: Vec<char> = Vec::new();
        let mut m = ps;
        while m < pe
            invariant
                ps <= m <= pe <= r@.len(),
                arg@ == r@.subrange(ps as int, m as int),
            decreases pe - m,
        {
            arg.push(r[m]);
            m = m + 1;
            assert(arg@ =~= r@.subrange(ps as int, m as int));
        }
        (name, Some(arg), pe + 1)
    } else {
        (name, None, ne)
    }
}

} // verus!
