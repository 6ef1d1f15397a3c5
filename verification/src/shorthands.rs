//! The structure of the box-side and `border` shorthands: which word sets
//! which side, and how the words of a `border` value divide into width,
//! style and colour. Whether a word spells a length is the length parser's
//! answer, handed in by the caller.
use vstd::prelude::*;
use crate::text::{chars_eq_ignore_ascii_case, chars_of, eq_ignore_ascii_case};

verus! {

/// For a `margin`/`padding`-style shorthand of `count` words, the word that
/// sets each side, as `(top, right, bottom, left)`: one word sets all four,
/// two set vertical then horizontal, three set top, horizontal, bottom, and
/// four go clockwise from the top. Any other count is refused.
pub fn box_sides(count: usize) -> (r: Option<(usize, usize, usize, usize)>)
    ensures
        count == 1 ==> r == Some((0usize, 0usize, 0usize, 0usize)),
        count == 2 ==> r == Some((0usize, 1usize, 0usize, 1usize)),
        count == 3 ==> r == Some((0usize, 1usize, 2usize, 1usize)),
        count == 4 ==> r == Some((0usize, 1usize, 2usize, 3usize)),
        (count == 0 || count > 4) ==> r is None,
{
    if count == 1 {
        Some((0, 0, 0, 0))
    } else if count == 2 {
        Some((0, 1, 0, 1))
    } else if count == 3 {
        Some((0, 1, 2, 1))
    } else if count == 4 {
        Some((0, 1, 2, 3))
    } else {
        None
    }
}

/// The width of a `border` shorthand.
#[derive(Debug, Clone, Copy, PartialEq, Eq, Structural)]
pub enum BorderWidth {
    /// A `none` or `hidden` style: no border is drawn.
    Zero,
    Thin,
    Medium,
    Thick,
    /// The length spelled by the word at this position.
    Length(usize),
}

/// What a `border` shorthand sets: its width, and the words that make up
/// its colour (to be joined with single spaces), if any.
#[derive(Debug, Clone)]
pub struct BorderParts {
    pub width: BorderWidth,
    pub color_words: Vec<String>,
}

/// Whether `w` is a border style keyword, ignoring ASCII case.
pub open spec fn style_keyword(w: Seq<char>) -> bool {
    ||| eq_ignore_ascii_case(w, "solid"@)
    ||| eq_ignore_ascii_case(w, "dashed"@)
    ||| eq_ignore_ascii_case(w, "dotted"@)
    ||| eq_ignore_ascii_case(w, "double"@)
    ||| eq_ignore_ascii_case(w, "groove"@)
    ||| eq_ignore_ascii_case(w, "ridge"@)
    ||| eq_ignore_ascii_case(w, "inset"@)
    ||| eq_ignore_ascii_case(w, "outset"@)
    ||| hiding_keyword(w)
}

/// The style keywords that hide the border.
pub open spec fn hiding_keyword(w: Seq<char>) -> bool {
    eq_ignore_ascii_case(w, "none"@) || eq_ignore_ascii_case(w, "hidden"@)
}

/// The width keyword `w` names, ignoring ASCII case.
pub open spec fn width_keyword(w: Seq<char>) -> Option<BorderWidth> {
    if eq_ignore_ascii_case(w, "thin"@) {
        Some(BorderWidth::Thin)
    } else if eq_ignore_ascii_case(w, "medium"@) {
        Some(BorderWidth::Medium)
    } else if eq_ignore_ascii_case(w, "thick"@) {
        Some(BorderWidth::Thick)
    } else {
        None
    }
}

/// Reading words `0..n` left to right: the first width word or length
/// sets the width; a style keyword is noted, the last one deciding whether
/// the border is hidden; every other word is part of the colour.
/// The state is `(width, saw a style, hidden, colour word positions)`.
pub open spec fn border_scan(words: Seq<Seq<char>>, is_length: Seq<bool>, n: int) -> (
    Option<BorderWidth>,
    bool,
    bool,
    Seq<int>,
)
    decreases n,
{
    if n <= 0 {
        (None, false, false, Seq::empty())
    } else {
        let (width, saw, hidden, colors) = border_scan(words, is_length, n - 1);
        let w = words[n - 1];
        if style_keyword(w) {
            (width, true, hiding_keyword(w), colors)
        } else if width is None && width_keyword(w) is Some {
            (width_keyword(w), saw, hidden, colors)
        } else if width is None && is_length[n - 1] {
            (Some(BorderWidth::Length((n - 1) as usize)), saw, hidden, colors)
        } else {
            (width, saw, hidden, colors.push(n - 1))
        }
    }
}

/// The parts of a `border` value with words `words`, where `is_length[k]`
/// tells whether word `k` spells a length: `None` when no word is a width,
/// a style or a colour; else the width (`medium` when none is given, zero
/// when the style hides the border) and the colour words.
pub fn border_shorthand(words: &[String], is_length: &[bool]) -> (r: Option<BorderParts>)
    requires
        is_length@.len() == words@.len(),
    ensures
        ({
            let ws = words@.map_values(|w: String| w@);
            let (width, saw, hidden, colors) = border_scan(ws, is_length@, ws.len() as int);
            &&& r is None <==> (width is None && !saw && colors.len() == 0)
            &&& r matches Some(p) ==> {
                &&& p.width == (if hidden {
                    BorderWidth::Zero
                } else {
                    match width {
                        Some(x) => x,
                        None => BorderWidth::Medium,
                    }
                })
                &&& p.color_words@.len() == colors.len()
                &&& forall|k: int|
                    0 <= k < colors.len() ==> (#[trigger] p.color_words@[k])@ == ws[colors[k]]
            }
        }),
{
    let ghost ws = words@.map_values(|w: String| w@);
    let mut width: Option<BorderWidth> = None;
    let mut saw = false;
    let mut hidden = false;
    let mut colors: Vec<String> = Vec::new();
    let ghost mut positions: Seq<int> = Seq::empty();
    let mut i: usize = 0;
    while i < words.len()
        invariant
            i <= words@.len(),
            is_length@.len() == words@.len(),
            ws == words@.map_values(|w: String| w@),
            border_scan(ws, is_length@, i as int) == (width, saw, hidden, positions),
            colors@.len() == positions.len(),
            forall|k: int| 0 <= k < positions.len() ==> 0 <= #[trigger] positions[k] < i,
            forall|k: int|
                0 <= k < positions.len() ==> (#[trigger] colors@[k])@ == ws[positions[k]],
        decreases words@.len() - i,
    {
        let w = chars_of(words[i].as_str());
        assert(w@ == ws[i as int]);
        let is_style = is_style_keyword(&w);
        if is_style {
            saw = true;
            hidden = chars_eq_ignore_ascii_case(&w, &chars_of("none"))
                || chars_eq_ignore_ascii_case(&w, &chars_of("hidden"));
        } else {
            let kw = width_keyword_of(&w);
            if width.is_none() && kw.is_some() {
                width = kw;
            } else if width.is_none() && is_length[i] {
                width = Some(BorderWidth::Length(i));
            } else {
                let ghost before = colors@;
                let word = words[i].clone();
                assert(word@ == ws[i as int]);
                colors.push(word);
                proof {
                    assert(colors@[before.len() as int]@ == ws[i as int]);
                    positions = positions.push(i as int);
                    assert forall|k: int| 0 <= k < positions.len() implies (
                    #[trigger] colors@[k])@ == ws[positions[k]] by {
                        if k < before.len() {
                            assert(colors@[k] == before[k]);
                        }
                    }
                }
            }
        }
        i = i + 1;
    }
    proof {
        assert(ws.len() == words@.len());
    }
    if width.is_none() && !saw && colors.len() == 0 {
        return None;
    }
    let resolved = if hidden {
        BorderWidth::Zero
    } else {
        match width {
            Some(x) => x,
            None => BorderWidth::Medium,
        }
    };
    Some(BorderParts { width: resolved, color_words: colors })
}

fn is_style_keyword(w: &[char]) -> (r: bool)
    ensures
        r == style_keyword(w@),
{
    chars_eq_ignore_ascii_case(w, &chars_of("solid")) || chars_eq_ignore_ascii_case(
        w,
        &chars_of("dashed"),
    ) || chars_eq_ignore_ascii_case(w, &chars_of("dotted")) || chars_eq_ignore_ascii_case(
        w,
        &chars_of("double"),
    ) || chars_eq_ignore_ascii_case(w, &chars_of("groove")) || chars_eq_ignore_ascii_case(
        w,
        &chars_of("ridge"),
    ) || chars_eq_ignore_ascii_case(w, &chars_of("inset")) || chars_eq_ignore_ascii_case(
        w,
        &chars_of("outset"),
    ) || chars_eq_ignore_ascii_case(w, &chars_of("none")) || chars_eq_ignore_ascii_case(
        w,
        &chars_of("hidden"),
    )
}

fn width_keyword_of(w: &[char]) -> (r: Option<BorderWidth>)
    ensures
        r == width_keyword(w@),
{
    if chars_eq_ignore_ascii_case(w, &chars_of("thin")) {
        Some(BorderWidth::Thin)
    } else if chars_eq_ignore_ascii_case(w, &chars_of("medium")) {
        Some(BorderWidth::Medium)
    } else if chars_eq_ignore_ascii_case(w, &chars_of("thick")) {
        Some(BorderWidth::Thick)
    } else {
        None
    }
}

} // verus!
