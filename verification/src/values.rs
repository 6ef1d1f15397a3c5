//! Small CSS value helpers: splitting at top-level commas, matching
//! parentheses, the inherited-property table, and the `overflow` and grid
//! line parsers.
use vstd::prelude::*;
use crate::text::{
    chars_eq_str, chars_of, find_exec, find_from, parse_signed, parse_unsigned, signed_value,
    slice_vec, starts_with, starts_with_exec, trim, trimmed, unsigned_value,
};
use crate::tokens::close_paren;

verus! {

// ---------------------------------------------------------------------------
// Top-level comma splitting
// ---------------------------------------------------------------------------

/// The pieces of `s` between commas that are outside parentheses, scanning
/// from `i` with the current piece starting at `start` and nesting `depth`.
/// A `)` lowers the depth even below zero. The last piece is kept only when
/// it is non-empty.
pub open spec fn comma_pieces_from(
    s: Seq<char>,
    i: int,
    start: int,
    depth: int,
    acc: Seq<Seq<char>>,
) -> Seq<Seq<char>>
    decreases s.len() - i,
{
    if i < 0 || i >= s.len() {
        if 0 <= start < s.len() {
            acc.push(s.subrange(start, s.len() as int))
        } else {
            acc
        }
    } else if s[i] == '(' {
        comma_pieces_from(s, i + 1, start, depth + 1, acc)
    } else if s[i] == ')' {
        comma_pieces_from(s, i + 1, start, depth - 1, acc)
    } else if s[i] == ',' && depth == 0 {
        comma_pieces_from(s, i + 1, i + 1, depth, acc.push(s.subrange(start, i)))
    } else {
        comma_pieces_from(s, i + 1, start, depth, acc)
    }
}

/// The top-level comma-separated pieces of `s`.
pub open spec fn comma_pieces(s: Seq<char>) -> Seq<Seq<char>> {
    comma_pieces_from(s, 0, 0, 0, Seq::empty())
}

/// Splits a value at commas that are not inside parentheses, so
/// `rgb(1, 2, 3), blue` gives `rgb(1, 2, 3)` and ` blue`. Pieces are not
/// trimmed; a trailing empty piece is dropped.
pub fn split_by_comma(value: &str) -> (r: Vec<String>)
    ensures
        r@.map_values(|p: String| p@) == comma_pieces(value@),
{
    let s = chars_of(value);
    let mut parts: Vec<String> = Vec::new();
    let mut start: usize = 0;
    let mut depth: i128 = 0;
    let mut i: usize = 0;
    assert(parts@.map_values(|p: String| p@) =~= Seq::<Seq<char>>::empty());
    while i < s.len()
        invariant
            i <= s@.len(),
            start <= i,
            -(i as int) <= depth <= i,
            s@ == value@,
            comma_pieces(s@) == comma_pieces_from(
                s@,
                i as int,
                start as int,
                depth as int,
                parts@.map_values(|p: String| p@),
            ),
        decreases s@.len() - i,
    {
        let c = s[i];
        if c == '(' {
            depth = depth + 1;
        } else if c == ')' {
            depth = depth - 1;
        } else if c == ',' && depth == 0 {
            let piece = slice_vec(&s, start, i);
            let ghost before = parts@.map_values(|p: String| p@);
            parts.push(crate::text::string_of(&piece));
            assert(parts@.map_values(|p: String| p@) =~= before.push(s@.subrange(
                start as int,
                i as int,
            )));
            start = i + 1;
        }
        i = i + 1;
    }
    if start < s.len() {
        let piece = slice_vec(&s, start, s.len());
        let ghost before = parts@.map_values(|p: String| p@);
        parts.push(crate::text::string_of(&piece));
        assert(parts@.map_values(|p: String| p@) =~= before.push(s@.subrange(
            start as int,
            s@.len() as int,
        )));
    }
    parts
}

/// `ps` joined with commas.
pub open spec fn join_commas(ps: Seq<Seq<char>>) -> Seq<char>
    decreases ps.len(),
{
    if ps.len() == 0 {
        Seq::empty()
    } else if ps.len() == 1 {
        ps[0]
    } else {
        join_commas(ps.drop_last()).push(',') + ps.last()
    }
}

proof fn lemma_pieces_rejoin(s: Seq<char>, i: int, start: int, depth: int, acc: Seq<Seq<char>>)
    requires
        0 <= start <= i <= s.len(),
        acc.len() == 0 ==> start == 0,
        acc.len() > 0 ==> join_commas(acc).push(',') == s.subrange(0, start),
    ensures
        ({
            let r = comma_pieces_from(s, i, start, depth, acc);
            join_commas(r) == s || join_commas(r).push(',') == s
        }),
    decreases s.len() - i,
{
    if i >= s.len() {
        if start < s.len() {
            let r = acc.push(s.subrange(start, s.len() as int));
            assert(r.drop_last() =~= acc);
            if acc.len() == 0 {
                assert(s.subrange(0, s.len() as int) =~= s);
            } else {
                assert(join_commas(r) == join_commas(acc).push(',') + s.subrange(
                    start,
                    s.len() as int,
                ));
                assert(s.subrange(0, start) + s.subrange(start, s.len() as int) =~= s);
            }
        } else {
            if acc.len() == 0 {
                assert(s =~= Seq::<char>::empty());
            } else {
                assert(s.subrange(0, start) =~= s);
            }
        }
    } else if s[i] == '(' {
        lemma_pieces_rejoin(s, i + 1, start, depth + 1, acc);
    } else if s[i] == ')' {
        lemma_pieces_rejoin(s, i + 1, start, depth - 1, acc);
    } else if s[i] == ',' && depth == 0 {
        let acc2 = acc.push(s.subrange(start, i));
        assert(acc2.drop_last() =~= acc);
        if acc.len() == 0 {
            assert(join_commas(acc2) == s.subrange(0, i));
        } else {
            assert(join_commas(acc2) == join_commas(acc).push(',') + s.subrange(start, i));
            assert(s.subrange(0, start) + s.subrange(start, i) =~= s.subrange(0, i));
        }
        assert(join_commas(acc2).push(',') =~= s.subrange(0, i + 1));
        lemma_pieces_rejoin(s, i + 1, i + 1, depth, acc2);
    } else {
        lemma_pieces_rejoin(s, i + 1, start, depth, acc);
    }
}

/// Splitting loses nothing: joining the pieces with commas gives the value
/// back, but for the comma that ends it when its last piece is empty.
pub proof fn lemma_comma_pieces_rejoin(s: Seq<char>)
    ensures
        join_commas(comma_pieces(s)) == s || join_commas(comma_pieces(s)).push(',') == s,
{
    lemma_pieces_rejoin(s, 0, 0, 0, Seq::empty());
}

proof fn lemma_pieces_skip_nested(
    s: Seq<char>,
    i: int,
    end: int,
    start: int,
    depth: int,
    acc: Seq<Seq<char>>,
)
    requires
        0 <= i <= end <= s.len(),
        depth != 0,
        forall|k: int| i <= k < end ==> s[k] != '(' && s[k] != ')',
    ensures
        comma_pieces_from(s, i, start, depth, acc) == comma_pieces_from(s, end, start, depth, acc),
    decreases end - i,
{
    if i < end {
        lemma_pieces_skip_nested(s, i + 1, end, start, depth, acc);
    }
}

/// Commas inside parentheses do not split: a parenthesized group with
/// no parentheses inside it is one piece, however many commas it holds.
pub proof fn lemma_parenthesized_commas_do_not_split(x: Seq<char>)
    requires
        forall|k: int| 0 <= k < x.len() ==> x[k] != '(' && x[k] != ')',
    ensures
        comma_pieces(seq!['('] + x + seq![')']) == seq![seq!['('] + x + seq![')']],
{
    let s = seq!['('] + x + seq![')'];
    let n = s.len() as int;
    assert forall|k: int| 1 <= k < n - 1 implies s[k] != '(' && s[k] != ')' by {
        assert(s[k] == x[k - 1]);
    }
    let e = Seq::<Seq<char>>::empty();
    assert(s[0] == '(' && s[n - 1] == ')');
    assert(comma_pieces(s) == comma_pieces_from(s, 1, 0, 1, e));
    lemma_pieces_skip_nested(s, 1, n - 1, 0, 1, e);
    assert(comma_pieces_from(s, n - 1, 0, 1, e) == comma_pieces_from(s, n, 0, 0, e));
    assert(s.subrange(0, n) =~= s);
    assert(comma_pieces_from(s, n, 0, 0, e) == e.push(s));
    assert(e.push(s) =~= seq![s]);
}

// ---------------------------------------------------------------------------
// Parentheses
// ---------------------------------------------------------------------------

/// The length in bytes of the UTF-8 encoding of `c` (`char::len_utf8`).
pub open spec fn utf8_width(c: char) -> nat {
    if (c as u32) < 0x80 {
        1
    } else if (c as u32) < 0x800 {
        2
    } else if (c as u32) < 0x10000 {
        3
    } else {
        4
    }
}

/// The byte offset, in the UTF-8 encoding of `s`, of character position `k`.
pub open spec fn byte_offset(s: Seq<char>, k: int) -> nat
    decreases k,
{
    if k <= 0 {
        0
    } else {
        byte_offset(s, k - 1) + utf8_width(s[k - 1])
    }
}

proof fn lemma_byte_offset_mono(s: Seq<char>, j: int, k: int)
    requires
        j <= k,
    ensures
        byte_offset(s, j) <= byte_offset(s, k),
    decreases k - j,
{
    if j < k {
        lemma_byte_offset_mono(s, j, k - 1);
    }
}

/// The byte position, in `s`, of the `)` that closes an already-open `(`,
/// given the text after the `(`: the first `)` at which the nesting, one on
/// entry, rises by one at each `(` and falls by one at each `)`, drops to
/// zero.
pub fn find_matching_paren(s: &str) -> (r: Option<usize>)
    requires
        byte_offset(s@, s@.len() as int) <= usize::MAX,
    ensures
        match r {
            Some(b) => close_paren(s@, 0, 1) matches Some(j) && b == byte_offset(s@, j),
            None => close_paren(s@, 0, 1) is None,
        },
{
    let c = chars_of(s);
    let mut depth: u128 = 1;
    let mut j: usize = 0;
    let mut b: usize = 0;
    while j < c.len()
        invariant
            j <= c@.len(),
            c@ == s@,
            1 <= depth <= j + 1,
            close_paren(s@, 0, 1) == close_paren(s@, j as int, depth as int),
            b == byte_offset(s@, j as int),
            byte_offset(s@, s@.len() as int) <= usize::MAX,
        decreases c@.len() - j,
    {
        let x = c[j];
        if x == '(' {
            depth = depth + 1;
        } else if x == ')' {
            if depth == 1 {
                return Some(b);
            }
            depth = depth - 1;
        }
        proof {
            lemma_byte_offset_mono(s@, j + 1, s@.len() as int);
        }
        let u = x as u32;
        let w: usize = if u < 0x80 {
            1
        } else if u < 0x800 {
            2
        } else if u < 0x10000 {
            3
        } else {
            4
        };
        b = b + w;
        j = j + 1;
    }
    None
}

// ---------------------------------------------------------------------------
// Inherited properties
// ---------------------------------------------------------------------------

/// The properties that inherit by default.
pub open spec fn inherited(p: Seq<char>) -> bool {
    ||| p == "color"@
    ||| p == "font"@
    ||| p == "font-family"@
    ||| p == "font-size"@
    ||| p == "font-style"@
    ||| p == "font-weight"@
    ||| p == "line-height"@
    ||| p == "text-align"@
    ||| p == "text-decoration"@
    ||| p == "text-transform"@
    ||| p == "letter-spacing"@
    ||| p == "word-spacing"@
    ||| p == "white-space"@
    ||| p == "visibility"@
    ||| p == "cursor"@
    ||| p == "direction"@
    ||| p == "writing-mode"@
}

/// Whether a CSS property is inherited by default.
pub fn is_inherited_property(property: &str) -> (r: bool)
    ensures
        r == inherited(property@),
{
    let p = chars_of(property);
    chars_eq_str(&p, "color") || chars_eq_str(&p, "font") || chars_eq_str(&p, "font-family")
        || chars_eq_str(&p, "font-size") || chars_eq_str(&p, "font-style") || chars_eq_str(
        &p,
        "font-weight",
    ) || chars_eq_str(&p, "line-height") || chars_eq_str(&p, "text-align") || chars_eq_str(
        &p,
        "text-decoration",
    ) || chars_eq_str(&p, "text-transform") || chars_eq_str(&p, "letter-spacing")
        || chars_eq_str(&p, "word-spacing") || chars_eq_str(&p, "white-space") || chars_eq_str(
        &p,
        "visibility",
    ) || chars_eq_str(&p, "cursor") || chars_eq_str(&p, "direction") || chars_eq_str(
        &p,
        "writing-mode",
    )
}

// ---------------------------------------------------------------------------
// overflow
// ---------------------------------------------------------------------------

/// The `overflow` keywords.
#[derive(Debug, Clone, Copy, PartialEq, Eq, Structural)]
pub enum Overflow {
    Visible,
    Hidden,
    Scroll,
    Auto,
    Clip,
}

/// The `overflow` value a (trimmed) keyword selects; anything unknown is
/// `visible`.
pub open spec fn overflow_of(t: Seq<char>) -> Overflow {
    if t == "hidden"@ {
        Overflow::Hidden
    } else if t == "scroll"@ {
        Overflow::Scroll
    } else if t == "auto"@ {
        Overflow::Auto
    } else if t == "clip"@ {
        Overflow::Clip
    } else {
        Overflow::Visible
    }
}

/// Parses an `overflow` value (case-sensitive, surrounding whitespace
/// ignored).
pub fn parse_overflow(value: &str) -> (r: Overflow)
    ensures
        r == overflow_of(trim(value@)),
{
    let all = chars_of(value);
    let t = trimmed(&all);
    proof {
        reveal_strlit("visible");
        reveal_strlit("hidden");
        reveal_strlit("scroll");
        reveal_strlit("auto");
        reveal_strlit("clip");
    }
    if chars_eq_str(&t, "visible") {
        assert(t@ != "hidden"@ && t@ != "scroll"@ && t@ != "auto"@ && t@ != "clip"@) by {
            assert(t@.len() == 7);
        }
        Overflow::Visible
    } else if chars_eq_str(&t, "hidden") {
        Overflow::Hidden
    } else if chars_eq_str(&t, "scroll") {
        Overflow::Scroll
    } else if chars_eq_str(&t, "auto") {
        Overflow::Auto
    } else if chars_eq_str(&t, "clip") {
        Overflow::Clip
    } else {
        Overflow::Visible
    }
}

// ---------------------------------------------------------------------------
// Grid lines
// ---------------------------------------------------------------------------

/// A grid placement line.
#[derive(Debug, Clone, Copy, PartialEq, Eq, Structural)]
pub enum GridLine {
    Auto,
    Span(u32),
    Number(i32),
}

/// The grid line a value denotes: `auto`; `span N` with `N` a `u32`; a line
/// number that fits `i32`; anything else (a named line) as `auto`.
pub open spec fn grid_line_of(v: Seq<char>) -> GridLine {
    let t = trim(v);
    if t == "auto"@ {
        GridLine::Auto
    } else if starts_with(t, "span"@) && unsigned_value(trim(t.subrange(4, t.len() as int)))
        is Some && unsigned_value(trim(t.subrange(4, t.len() as int)))->0 <= u32::MAX {
        GridLine::Span(unsigned_value(trim(t.subrange(4, t.len() as int)))->0 as u32)
    } else if signed_value(t) is Some && i32::MIN <= signed_value(t)->0 <= i32::MAX {
        GridLine::Number(signed_value(t)->0 as i32)
    } else {
        GridLine::Auto
    }
}

fn grid_line_chars(t0: &[char]) -> (r: GridLine)
    ensures
        r == grid_line_of(t0@),
{
    let t = trimmed(t0);
    if chars_eq_str(&t, "auto") {
        return GridLine::Auto;
    }
    let span = chars_of("span");
    proof {
        reveal_strlit("span");
    }
    if starts_with_exec(&t, &span) {
        let rest = slice_vec(&t, 4, t.len());
        let rt = trimmed(&rest);
        match parse_unsigned(&rt, 4294967295) {
            Some(n) => {
                return GridLine::Span(n as u32);
            },
            None => {},
        }
    }
    match parse_signed(&t, 2147483648, 2147483647) {
        Some((neg, m)) => {
            let v: i64 = if neg {
                -(m as i64)
            } else {
                m as i64
            };
            GridLine::Number(v as i32)
        },
        None => GridLine::Auto,
    }
}

/// Parses a grid line value (`1`, `-1`, `span 2`, `auto`); it always
/// yields a line.
pub fn parse_grid_line(value: &str) -> (r: Option<GridLine>)
    ensures
        r == Some(grid_line_of(value@)),
{
    let v = chars_of(value);
    Some(grid_line_chars(&v))
}

/// The `(start, end)` lines of a `grid-row`/`grid-column` value: `a / b`
/// gives both, a single value gives the start with an `auto` end.
pub open spec fn grid_lines_of(v: Seq<char>) -> (GridLine, GridLine) {
    let t = trim(v);
    match find_from(t, seq!['/'], 0) {
        Some(p) => (
            grid_line_of(trim(t.subrange(0, p))),
            grid_line_of(trim(t.subrange(p + 1, t.len() as int))),
        ),
        None => (grid_line_of(t), GridLine::Auto),
    }
}

/// Parses a grid-row or grid-column shorthand; it always yields lines.
pub fn parse_grid_line_shorthand(value: &str) -> (r: Option<(GridLine, GridLine)>)
    ensures
        r == Some(grid_lines_of(value@)),
{
    let v = chars_of(value);
    let t = trimmed(&v);
    let slash = vec!['/'];
    assert(slash@ =~= seq!['/']);
    match find_exec(&t, &slash, 0) {
        Some(p) => {
            proof {
                crate::matching::lemma_find_from_ge(t@, slash@, 0);
                assert(find_from(t@, slash@, 0) == Some(p as int));
                assert(p + 1 <= t@.len());
            }
            let a = slice_vec(&t, 0, p);
            let at = trimmed(&a);
            let n = t.len();
            let b = slice_vec(&t, p + 1, n);
            let bt = trimmed(&b);
            Some((grid_line_chars(&at), grid_line_chars(&bt)))
        },
        None => Some((grid_line_chars(&t), GridLine::Auto)),
    }
}

} // verus!
