//! Keyword values of the background and gradient properties: repeat,
//! origin, size, position and gradient direction. A number text is handed
//! back as text, for the caller to read as a number.
use vstd::prelude::*;
use crate::text::{
    chars_eq_str, chars_of, ends_with, ends_with_exec, slice_vec, split_whitespace, string_of,
    to_lowercase, trim, trimmed, unicode_lowercase, words,
};
use crate::units::{drop_suffix, size_parts, split_size_dimension, SizeDimension};

verus! {

/// A value's keyword form: trimmed, then lower-cased.
pub open spec fn keyword(v: Seq<char>) -> Seq<char> {
    unicode_lowercase(trim(v))
}

fn keyword_exec(value: &str) -> (r: Vec<char>)
    ensures
        r@ == keyword(value@),
{
    let all = chars_of(value);
    let t = trimmed(&all);
    to_lowercase(&t)
}

// ---------------------------------------------------------------------------
// background-repeat, background-origin
// ---------------------------------------------------------------------------

/// The `background-repeat` keywords.
#[derive(Debug, Clone, Copy, PartialEq, Eq, Structural)]
pub enum BackgroundRepeat {
    Repeat,
    RepeatX,
    RepeatY,
    NoRepeat,
    Space,
    Round,
}

/// The `background-repeat` a value names, if it names one.
pub open spec fn repeat_of(v: Seq<char>) -> Option<BackgroundRepeat> {
    let k = keyword(v);
    if k == "repeat"@ {
        Some(BackgroundRepeat::Repeat)
    } else if k == "repeat-x"@ {
        Some(BackgroundRepeat::RepeatX)
    } else if k == "repeat-y"@ {
        Some(BackgroundRepeat::RepeatY)
    } else if k == "no-repeat"@ {
        Some(BackgroundRepeat::NoRepeat)
    } else if k == "space"@ {
        Some(BackgroundRepeat::Space)
    } else if k == "round"@ {
        Some(BackgroundRepeat::Round)
    } else {
        None
    }
}

/// Parses a `background-repeat` value (case-insensitively); `None` for
/// anything else, which leaves the property's default.
pub fn parse_background_repeat(value: &str) -> (r: Option<BackgroundRepeat>)
    ensures
        r == repeat_of(value@),
{
    let k = keyword_exec(value);
    if chars_eq_str(&k, "repeat") {
        Some(BackgroundRepeat::Repeat)
    } else if chars_eq_str(&k, "repeat-x") {
        Some(BackgroundRepeat::RepeatX)
    } else if chars_eq_str(&k, "repeat-y") {
        Some(BackgroundRepeat::RepeatY)
    } else if chars_eq_str(&k, "no-repeat") {
        Some(BackgroundRepeat::NoRepeat)
    } else if chars_eq_str(&k, "space") {
        Some(BackgroundRepeat::Space)
    } else if chars_eq_str(&k, "round") {
        Some(BackgroundRepeat::Round)
    } else {
        None
    }
}

/// The `background-origin` keywords.
#[derive(Debug, Clone, Copy, PartialEq, Eq, Structural)]
pub enum BackgroundOrigin {
    BorderBox,
    PaddingBox,
    ContentBox,
}

/// The `background-origin` a value names, if it names one.
pub open spec fn origin_of(v: Seq<char>) -> Option<BackgroundOrigin> {
    let k = keyword(v);
    if k == "border-box"@ {
        Some(BackgroundOrigin::BorderBox)
    } else if k == "padding-box"@ {
        Some(BackgroundOrigin::PaddingBox)
    } else if k == "content-box"@ {
        Some(BackgroundOrigin::ContentBox)
    } else {
        None
    }
}

/// Parses a `background-origin` value (case-insensitively); `None` for
/// anything else, which leaves the property's default.
pub fn parse_background_origin(value: &str) -> (r: Option<BackgroundOrigin>)
    ensures
        r == origin_of(value@),
{
    let k = keyword_exec(value);
    if chars_eq_str(&k, "border-box") {
        Some(BackgroundOrigin::BorderBox)
    } else if chars_eq_str(&k, "padding-box") {
        Some(BackgroundOrigin::PaddingBox)
    } else if chars_eq_str(&k, "content-box") {
        Some(BackgroundOrigin::ContentBox)
    } else {
        None
    }
}

// ---------------------------------------------------------------------------
// Gradient direction
// ---------------------------------------------------------------------------

/// A gradient direction given by keywords.
#[derive(Debug, Clone, Copy, PartialEq, Eq, Structural)]
pub enum GradientDirection {
    ToTop,
    ToBottom,
    ToLeft,
    ToRight,
    ToTopLeft,
    ToTopRight,
    ToBottomLeft,
    ToBottomRight,
}

/// The direction a `to ...` value names; the two sides of a corner may
/// come in either order.
pub open spec fn direction_of(v: Seq<char>) -> Option<GradientDirection> {
    let k = keyword(v);
    if k == "to top"@ {
        Some(GradientDirection::ToTop)
    } else if k == "to bottom"@ {
        Some(GradientDirection::ToBottom)
    } else if k == "to left"@ {
        Some(GradientDirection::ToLeft)
    } else if k == "to right"@ {
        Some(GradientDirection::ToRight)
    } else if k == "to top left"@ || k == "to left top"@ {
        Some(GradientDirection::ToTopLeft)
    } else if k == "to top right"@ || k == "to right top"@ {
        Some(GradientDirection::ToTopRight)
    } else if k == "to bottom left"@ || k == "to left bottom"@ {
        Some(GradientDirection::ToBottomLeft)
    } else if k == "to bottom right"@ || k == "to right bottom"@ {
        Some(GradientDirection::ToBottomRight)
    } else {
        None
    }
}

/// Parses a keyword gradient direction (`to right`, `to bottom left`, ...,
/// case-insensitively).
pub fn parse_gradient_direction(value: &str) -> (r: Option<GradientDirection>)
    ensures
        r == direction_of(value@),
{
    let k = keyword_exec(value);
    if chars_eq_str(&k, "to top") {
        Some(GradientDirection::ToTop)
    } else if chars_eq_str(&k, "to bottom") {
        Some(GradientDirection::ToBottom)
    } else if chars_eq_str(&k, "to left") {
        Some(GradientDirection::ToLeft)
    } else if chars_eq_str(&k, "to right") {
        Some(GradientDirection::ToRight)
    } else if chars_eq_str(&k, "to top left") || chars_eq_str(&k, "to left top") {
        Some(GradientDirection::ToTopLeft)
    } else if chars_eq_str(&k, "to top right") || chars_eq_str(&k, "to right top") {
        Some(GradientDirection::ToTopRight)
    } else if chars_eq_str(&k, "to bottom left") || chars_eq_str(&k, "to left bottom") {
        Some(GradientDirection::ToBottomLeft)
    } else if chars_eq_str(&k, "to bottom right") || chars_eq_str(&k, "to right bottom") {
        Some(GradientDirection::ToBottomRight)
    } else {
        None
    }
}

// ---------------------------------------------------------------------------
// background-size
// ---------------------------------------------------------------------------

/// A `background-size` value.
#[derive(Debug, Clone, PartialEq, Eq)]
pub enum BackgroundSize {
    Cover,
    Contain,
    Auto,
    /// Explicit width and height dimensions, each when given.
    Explicit(Option<SizeDimension>, Option<SizeDimension>),
}

/// Whether `d` is the dimension `word` spells (see `size_parts`).
pub open spec fn spells_dimension(d: SizeDimension, word: Seq<char>) -> bool {
    match d {
        SizeDimension::Auto => size_parts(word).0 == 0,
        SizeDimension::Px(s) => size_parts(word) == (1int, s@),
        SizeDimension::Percent(s) => size_parts(word) == (2int, s@),
        SizeDimension::Number(s) => size_parts(word) == (3int, s@),
    }
}

/// Whether `d` is the dimension of the `k`-th word of `ws`, or absent when
/// there is none.
pub open spec fn dimension_at(d: Option<SizeDimension>, ws: Seq<Seq<char>>, k: int) -> bool {
    match d {
        Some(x) => k < ws.len() && spells_dimension(x, ws[k]),
        None => k >= ws.len(),
    }
}

/// Parses a `background-size` value: `cover`, `contain`, `auto`, else the
/// first two words of the lower-cased value as width and height.
pub fn parse_background_size(value: &str) -> (r: BackgroundSize)
    ensures
        keyword(value@) == "cover"@ ==> r == BackgroundSize::Cover,
        keyword(value@) == "contain"@ ==> r == BackgroundSize::Contain,
        keyword(value@) == "auto"@ ==> r == BackgroundSize::Auto,
        keyword(value@) != "cover"@ && keyword(value@) != "contain"@ && keyword(value@)
            != "auto"@ ==> (r matches BackgroundSize::Explicit(w, h) && dimension_at(
            w,
            words(keyword(value@)),
            0,
        ) && dimension_at(h, words(keyword(value@)), 1)),
{
    let k = keyword_exec(value);
    proof {
        reveal_strlit("cover");
        reveal_strlit("contain");
        reveal_strlit("auto");
        assert("cover"@.len() == 5 && "contain"@.len() == 7 && "auto"@.len() == 4);
    }
    if chars_eq_str(&k, "cover") {
        return BackgroundSize::Cover;
    } else if chars_eq_str(&k, "contain") {
        return BackgroundSize::Contain;
    } else if chars_eq_str(&k, "auto") {
        return BackgroundSize::Auto;
    }
    let ws = split_whitespace(&k);
    let w = if ws.len() > 0 {
        Some(split_size_dimension(string_of(&ws[0]).as_str()))
    } else {
        None
    };
    let h = if ws.len() > 1 {
        Some(split_size_dimension(string_of(&ws[1]).as_str()))
    } else {
        None
    };
    BackgroundSize::Explicit(w, h)
}

// ---------------------------------------------------------------------------
// background-position
// ---------------------------------------------------------------------------

/// One `background-position` value.
#[derive(Debug, Clone, PartialEq, Eq)]
pub enum BackgroundPositionValue {
    /// `left` or `top`.
    Start,
    /// `center`.
    Center,
    /// `right` or `bottom`.
    End,
    /// The number text in front of `%`.
    Percent(String),
    /// The number text in front of `px`.
    Px(String),
    /// Any other text, read as a number of pixels.
    Number(String),
}

/// The kind and text of a `background-position` value, as
/// `(0 start | 1 center | 2 end | 3 percent | 4 px | 5 number, text)`.
pub open spec fn bg_position_parts(v: Seq<char>) -> (int, Seq<char>) {
    let k = keyword(v);
    if k == "left"@ || k == "top"@ {
        (0, Seq::empty())
    } else if k == "center"@ {
        (1, Seq::empty())
    } else if k == "right"@ || k == "bottom"@ {
        (2, Seq::empty())
    } else if ends_with(k, "%"@) {
        (3, drop_suffix(k, 1))
    } else if ends_with(k, "px"@) {
        (4, drop_suffix(k, 2))
    } else {
        (5, k)
    }
}

/// Whether `p` is what `bg_position_parts` reads from `v`.
pub open spec fn reads_position(p: BackgroundPositionValue, v: Seq<char>) -> bool {
    match p {
        BackgroundPositionValue::Start => bg_position_parts(v).0 == 0,
        BackgroundPositionValue::Center => bg_position_parts(v).0 == 1,
        BackgroundPositionValue::End => bg_position_parts(v).0 == 2,
        BackgroundPositionValue::Percent(s) => bg_position_parts(v) == (3int, s@),
        BackgroundPositionValue::Px(s) => bg_position_parts(v) == (4int, s@),
        BackgroundPositionValue::Number(s) => bg_position_parts(v) == (5int, s@),
    }
}

/// Reads one `background-position` value.
pub fn parse_background_position_value(value: &str) -> (r: BackgroundPositionValue)
    ensures
        reads_position(r, value@),
{
    let k = keyword_exec(value);
    let n = k.len();
    proof {
        reveal_strlit("%");
        reveal_strlit("px");
    }
    if chars_eq_str(&k, "left") || chars_eq_str(&k, "top") {
        BackgroundPositionValue::Start
    } else if chars_eq_str(&k, "center") {
        BackgroundPositionValue::Center
    } else if chars_eq_str(&k, "right") || chars_eq_str(&k, "bottom") {
        BackgroundPositionValue::End
    } else if ends_with_exec(&k, &chars_of("%")) {
        BackgroundPositionValue::Percent(string_of(&slice_vec(&k, 0, n - 1)))
    } else if ends_with_exec(&k, &chars_of("px")) {
        BackgroundPositionValue::Px(string_of(&slice_vec(&k, 0, n - 2)))
    } else {
        BackgroundPositionValue::Number(string_of(&k))
    }
}

/// The `(x, y)` values of a `background-position`: the first two words of
/// the lower-cased value, each when given.
pub fn parse_background_position(value: &str) -> (r: (
    Option<BackgroundPositionValue>,
    Option<BackgroundPositionValue>,
))
    ensures
        ({
            let ws = words(keyword(value@));
            &&& (r.0 matches Some(x) ==> 0 < ws.len() && reads_position(x, ws[0]))
            &&& (r.0 is None ==> ws.len() == 0)
            &&& (r.1 matches Some(y) ==> 1 < ws.len() && reads_position(y, ws[1]))
            &&& (r.1 is None ==> ws.len() <= 1)
        }),
{
    let k = keyword_exec(value);
    let ws = split_whitespace(&k);
    let x = if ws.len() > 0 {
        Some(parse_background_position_value(string_of(&ws[0]).as_str()))
    } else {
        None
    };
    let y = if ws.len() > 1 {
        Some(parse_background_position_value(string_of(&ws[1]).as_str()))
    } else {
        None
    };
    (x, y)
}

} // verus!
