//! The textual side of numeric CSS values: which unit a value carries and
//! the number text in front of it, keyword positions, and the candidates of
//! an `srcset`. Reading the number text as a number is left to the caller.
use vstd::prelude::*;
use crate::text::{
    chars_eq_str, chars_of, ends_with, ends_with_exec, parse_unsigned, slice_vec,
    split_whitespace, starts_with, starts_with_exec, string_of, to_lowercase, trim,
    trim_prefixes, trim_prefixes_exec, trim_suffixes, trim_suffixes_exec, trimmed,
    unicode_lowercase, unsigned_value, words,
};
use crate::tokens::{split_on, split_on_char};

verus! {

// ---------------------------------------------------------------------------
// Angles and times
// ---------------------------------------------------------------------------

/// The unit of an angle.
#[derive(Debug, Clone, Copy, PartialEq, Eq, Structural)]
pub enum AngleUnit {
    Grad,
    Turn,
    Deg,
    Rad,
    /// No unit: degrees.
    Unitless,
}

/// `s` without its last `k` characters.
pub open spec fn drop_suffix(s: Seq<char>, k: int) -> Seq<char> {
    s.subrange(0, s.len() - k)
}

/// The unit and number text of an angle value. Suffixes are tried longest
/// first, so that `grad` is not read as `rad` with a stray `g`.
pub open spec fn angle_parts(v: Seq<char>) -> (AngleUnit, Seq<char>) {
    let t = trim(v);
    if ends_with(t, "grad"@) {
        (AngleUnit::Grad, drop_suffix(t, 4))
    } else if ends_with(t, "turn"@) {
        (AngleUnit::Turn, drop_suffix(t, 4))
    } else if ends_with(t, "deg"@) {
        (AngleUnit::Deg, drop_suffix(t, 3))
    } else if ends_with(t, "rad"@) {
        (AngleUnit::Rad, drop_suffix(t, 3))
    } else {
        (AngleUnit::Unitless, t)
    }
}

/// Splits an angle value into its unit and its number text.
pub fn split_angle(value: &str) -> (r: (AngleUnit, String))
    ensures
        r.0 == angle_parts(value@).0,
        r.1@ == angle_parts(value@).1,
{
    let all = chars_of(value);
    let t = trimmed(&all);
    let n = t.len();
    proof {
        reveal_strlit("grad");
        reveal_strlit("turn");
        reveal_strlit("deg");
        reveal_strlit("rad");
    }
    if ends_with_exec(&t, &chars_of("grad")) {
        (AngleUnit::Grad, string_of(&slice_vec(&t, 0, n - 4)))
    } else if ends_with_exec(&t, &chars_of("turn")) {
        (AngleUnit::Turn, string_of(&slice_vec(&t, 0, n - 4)))
    } else if ends_with_exec(&t, &chars_of("deg")) {
        (AngleUnit::Deg, string_of(&slice_vec(&t, 0, n - 3)))
    } else if ends_with_exec(&t, &chars_of("rad")) {
        (AngleUnit::Rad, string_of(&slice_vec(&t, 0, n - 3)))
    } else {
        (AngleUnit::Unitless, string_of(&t))
    }
}

/// The unit of a time.
#[derive(Debug, Clone, Copy, PartialEq, Eq, Structural)]
pub enum TimeUnit {
    Milliseconds,
    Seconds,
}

/// The unit and number text of a time value; `None` without `ms` or `s`.
pub open spec fn time_parts(v: Seq<char>) -> Option<(TimeUnit, Seq<char>)> {
    let t = trim(v);
    if ends_with(t, "ms"@) {
        Some((TimeUnit::Milliseconds, drop_suffix(t, 2)))
    } else if ends_with(t, "s"@) {
        Some((TimeUnit::Seconds, drop_suffix(t, 1)))
    } else {
        None
    }
}

/// Splits a time value into its unit and its number text.
pub fn split_time(value: &str) -> (r: Option<(TimeUnit, String)>)
    ensures
        match r {
            Some((u, s)) => time_parts(value@) == Some((u, s@)),
            None => time_parts(value@) is None,
        },
{
    let all = chars_of(value);
    let t = trimmed(&all);
    let n = t.len();
    proof {
        reveal_strlit("ms");
        reveal_strlit("s");
    }
    if ends_with_exec(&t, &chars_of("ms")) {
        Some((TimeUnit::Milliseconds, string_of(&slice_vec(&t, 0, n - 2))))
    } else if ends_with_exec(&t, &chars_of("s")) {
        Some((TimeUnit::Seconds, string_of(&slice_vec(&t, 0, n - 1))))
    } else {
        None
    }
}

/// How an angle unit is written.
pub open spec fn angle_unit_text(u: AngleUnit) -> Seq<char> {
    match u {
        AngleUnit::Grad => "grad"@,
        AngleUnit::Turn => "turn"@,
        AngleUnit::Deg => "deg"@,
        AngleUnit::Rad => "rad"@,
        AngleUnit::Unitless => Seq::empty(),
    }
}

/// How a time unit is written.
pub open spec fn time_unit_text(u: TimeUnit) -> Seq<char> {
    match u {
        TimeUnit::Milliseconds => "ms"@,
        TimeUnit::Seconds => "s"@,
    }
}

/// Splitting off a unit loses nothing: the number text followed by the
/// unit as written is the trimmed value, for angles and for times, and a
/// value without `s` at its end has no time unit.
pub proof fn lemma_unit_split_restores(v: Seq<char>)
    ensures
        angle_parts(v).1 + angle_unit_text(angle_parts(v).0) == trim(v),
        time_parts(v) matches Some((u, n)) ==> n + time_unit_text(u) == trim(v),
        time_parts(v) is None <==> !ends_with(trim(v), "s"@),
{
    reveal_strlit("grad");
    reveal_strlit("turn");
    reveal_strlit("deg");
    reveal_strlit("rad");
    reveal_strlit("ms");
    reveal_strlit("s");
    let t = trim(v);
    let n = t.len() as int;
    if ends_with(t, "grad"@) || ends_with(t, "turn"@) {
        assert(drop_suffix(t, 4) + t.subrange(n - 4, n) =~= t);
    } else if ends_with(t, "deg"@) || ends_with(t, "rad"@) {
        assert(drop_suffix(t, 3) + t.subrange(n - 3, n) =~= t);
    } else {
        assert(t + Seq::<char>::empty() =~= t);
    }
    if ends_with(t, "ms"@) {
        assert(drop_suffix(t, 2) + t.subrange(n - 2, n) =~= t);
        assert(ends_with(t, "s"@)) by {
            assert(t.subrange(n - 2, n)[1] == t[n - 1]);
            assert(t.subrange(n - 1, n) =~= "s"@);
        }
    } else if ends_with(t, "s"@) {
        assert(drop_suffix(t, 1) + t.subrange(n - 1, n) =~= t);
    }
}

// ---------------------------------------------------------------------------
// Background sizes and positions
// ---------------------------------------------------------------------------

/// One dimension of a `background-size`.
#[derive(Debug, Clone, PartialEq, Eq)]
pub enum SizeDimension {
    Auto,
    /// The number text in front of `px`.
    Px(String),
    /// The number text in front of `%`.
    Percent(String),
    /// A bare number text.
    Number(String),
}

/// The kind and number text of a `background-size` dimension, as
/// `(0 auto | 1 px | 2 percent | 3 number, text)`.
pub open spec fn size_parts(v: Seq<char>) -> (int, Seq<char>) {
    let t = trim(v);
    if t == "auto"@ {
        (0, Seq::empty())
    } else if ends_with(t, "px"@) {
        (1, drop_suffix(t, 2))
    } else if ends_with(t, "%"@) {
        (2, drop_suffix(t, 1))
    } else {
        (3, t)
    }
}

/// Splits a `background-size` dimension into its kind and number text.
pub fn split_size_dimension(value: &str) -> (r: SizeDimension)
    ensures
        match r {
            SizeDimension::Auto => size_parts(value@).0 == 0,
            SizeDimension::Px(s) => size_parts(value@) == (1int, s@),
            SizeDimension::Percent(s) => size_parts(value@) == (2int, s@),
            SizeDimension::Number(s) => size_parts(value@) == (3int, s@),
        },
{
    let all = chars_of(value);
    let t = trimmed(&all);
    let n = t.len();
    proof {
        reveal_strlit("px");
        reveal_strlit("%");
    }
    if chars_eq_str(&t, "auto") {
        SizeDimension::Auto
    } else if ends_with_exec(&t, &chars_of("px")) {
        SizeDimension::Px(string_of(&slice_vec(&t, 0, n - 2)))
    } else if ends_with_exec(&t, &chars_of("%")) {
        SizeDimension::Percent(string_of(&slice_vec(&t, 0, n - 1)))
    } else {
        SizeDimension::Number(string_of(&t))
    }
}

/// A position value along one axis.
#[derive(Debug, Clone, PartialEq, Eq)]
pub enum PositionValue {
    /// `left` or `top`.
    Start,
    /// `center`, and anything not understood.
    Center,
    /// `right` or `bottom`.
    End,
    /// The number text in front of `%`.
    Percent(String),
}

/// The position a (trimmed, lower-cased) value names, as
/// `(0 start | 1 center | 2 end | 3 percent, text)`.
pub open spec fn position_parts(v: Seq<char>) -> (int, Seq<char>) {
    let t = unicode_lowercase(trim(v));
    if t == "left"@ || t == "top"@ {
        (0, Seq::empty())
    } else if t == "center"@ {
        (1, Seq::empty())
    } else if t == "right"@ || t == "bottom"@ {
        (2, Seq::empty())
    } else if ends_with(t, "%"@) {
        (3, drop_suffix(t, 1))
    } else {
        (1, Seq::empty())
    }
}

/// Reads a position keyword or percentage.
pub fn position_value(value: &str) -> (r: PositionValue)
    ensures
        match r {
            PositionValue::Start => position_parts(value@).0 == 0,
            PositionValue::Center => position_parts(value@).0 == 1,
            PositionValue::End => position_parts(value@).0 == 2,
            PositionValue::Percent(s) => position_parts(value@) == (3int, s@),
        },
{
    let all = chars_of(value);
    let tr = trimmed(&all);
    let t = to_lowercase(&tr);
    let n = t.len();
    proof {
        reveal_strlit("%");
    }
    if chars_eq_str(&t, "left") || chars_eq_str(&t, "top") {
        PositionValue::Start
    } else if chars_eq_str(&t, "center") {
        PositionValue::Center
    } else if chars_eq_str(&t, "right") || chars_eq_str(&t, "bottom") {
        PositionValue::End
    } else if ends_with_exec(&t, &chars_of("%")) {
        PositionValue::Percent(string_of(&slice_vec(&t, 0, n - 1)))
    } else {
        PositionValue::Center
    }
}

/// Whether a two-value position names its axes in vertical-first order
/// (`top right`, `center left`): the first value is `top`/`bottom` or the
/// second is `left`/`right`. Keywords name their own axis, so such a pair
/// is read with the values swapped; any other pair is horizontal first.
pub open spec fn axes_swapped(a: Seq<char>, b: Seq<char>) -> bool {
    let ka = unicode_lowercase(trim(a));
    let kb = unicode_lowercase(trim(b));
    ka == "top"@ || ka == "bottom"@ || kb == "left"@ || kb == "right"@
}

/// Keywords name their own axis, so the order of a keyword pair does not
/// matter: with `h` one of `left`/`right` and `v` one of `top`/`bottom`
/// (after trimming and lower-casing), `v h` is read swapped and `h v` is
/// not, so that in both orders `h` gives the horizontal position.
pub proof fn lemma_keyword_pair_order_irrelevant(h: Seq<char>, v: Seq<char>)
    requires
        unicode_lowercase(trim(h)) == "left"@ || unicode_lowercase(trim(h)) == "right"@,
        unicode_lowercase(trim(v)) == "top"@ || unicode_lowercase(trim(v)) == "bottom"@,
    ensures
        axes_swapped(v, h),
        !axes_swapped(h, v),
{
    reveal_strlit("left");
    reveal_strlit("right");
    reveal_strlit("top");
    reveal_strlit("bottom");
    let kh = unicode_lowercase(trim(h));
    let kv = unicode_lowercase(trim(v));
    assert(kh != "top"@ && kh != "bottom"@) by {
        if kh == "left"@ {
            assert(kh.len() == 4 && kh[0] == 'l');
        } else {
            assert(kh.len() == 5 && kh[0] == 'r');
        }
    }
    assert(kv != "left"@ && kv != "right"@) by {
        if kv == "top"@ {
            assert(kv.len() == 3);
        } else {
            assert(kv.len() == 6);
        }
    }
}

/// Whether the two values of a position come vertical first (see
/// `axes_swapped`).
pub fn position_axes_swapped(a: &str, b: &str) -> (r: bool)
    ensures
        r == axes_swapped(a@, b@),
{
    let ac = chars_of(a);
    let bc = chars_of(b);
    let ka = to_lowercase(&trimmed(&ac));
    let kb = to_lowercase(&trimmed(&bc));
    chars_eq_str(&ka, "top") || chars_eq_str(&ka, "bottom") || chars_eq_str(&kb, "left")
        || chars_eq_str(&kb, "right")
}

// ---------------------------------------------------------------------------
// srcset
// ---------------------------------------------------------------------------

/// The descriptor of an `srcset` candidate.
#[derive(Debug, Clone, PartialEq, Eq)]
pub enum Descriptor {
    /// No descriptor: `1x`.
    Bare,
    /// The number text in front of `w`.
    Width(String),
    /// The number text in front of `x`.
    Density(String),
    /// Anything else; the candidate is not ranked.
    Other,
}

/// The descriptor word `d`, as `(0 width | 1 density | 2 other, text)`.
pub open spec fn descriptor_parts(d: Seq<char>) -> (int, Seq<char>) {
    if ends_with(d, "w"@) {
        (0, drop_suffix(d, 1))
    } else if ends_with(d, "x"@) {
        (1, drop_suffix(d, 1))
    } else {
        (2, Seq::empty())
    }
}

/// The candidates of the comma-separated pieces `pieces[0..n]`: for each
/// piece with at least one word, its first word (the URL) and second word
/// (the descriptor, if any); later words are ignored.
pub open spec fn candidates_of(pieces: Seq<Seq<char>>, n: int) -> Seq<
    (Seq<char>, Option<Seq<char>>),
>
    decreases n,
{
    if n <= 0 {
        Seq::empty()
    } else {
        let prev = candidates_of(pieces, n - 1);
        let ws = words(pieces[n - 1]);
        if ws.len() == 0 {
            prev
        } else {
            prev.push((ws[0], if ws.len() >= 2 { Some(ws[1]) } else { None }))
        }
    }
}

/// The candidates of an `srcset` attribute.
pub open spec fn srcset_candidates_spec(s: Seq<char>) -> Seq<(Seq<char>, Option<Seq<char>>)> {
    candidates_of(split_on(s, ','), split_on(s, ',').len() as int)
}

/// Whether `d` describes descriptor word `w` (`None`: no descriptor).
pub open spec fn describes_descriptor(d: Descriptor, w: Option<Seq<char>>) -> bool {
    match w {
        None => d == Descriptor::Bare,
        Some(x) => match d {
            Descriptor::Width(s) => descriptor_parts(x) == (0int, s@),
            Descriptor::Density(s) => descriptor_parts(x) == (1int, s@),
            Descriptor::Other => descriptor_parts(x).0 == 2,
            Descriptor::Bare => false,
        },
    }
}

fn descriptor_of(w: &[char]) -> (r: Descriptor)
    ensures
        describes_descriptor(r, Some(w@)),
{
    let n = w.len();
    proof {
        reveal_strlit("w");
        reveal_strlit("x");
    }
    if ends_with_exec(w, &chars_of("w")) {
        Descriptor::Width(string_of(&slice_vec(w, 0, n - 1)))
    } else if ends_with_exec(w, &chars_of("x")) {
        Descriptor::Density(string_of(&slice_vec(w, 0, n - 1)))
    } else {
        Descriptor::Other
    }
}

/// The candidates of an `srcset` attribute, in order: each comma-separated
/// piece that has a word gives its URL and its descriptor.
pub fn srcset_candidates(srcset: &str) -> (r: Vec<(String, Descriptor)>)
    ensures
        r@.len() == srcset_candidates_spec(srcset@).len(),
        forall|k: int|
            0 <= k < r@.len() ==> (#[trigger] r@[k]).0@ == srcset_candidates_spec(srcset@)[k].0
                && describes_descriptor(r@[k].1, srcset_candidates_spec(srcset@)[k].1),
{
    let all = chars_of(srcset);
    let pieces = split_on_char(&all, ',');
    let ghost sp = split_on(srcset@, ',');
    let mut out: Vec<(String, Descriptor)> = Vec::new();
    let mut i: usize = 0;
    while i < pieces.len()
        invariant
            i <= pieces@.len(),
            pieces@.len() == sp.len(),
            sp == split_on(srcset@, ','),
            forall|m: int| 0 <= m < pieces@.len() ==> #[trigger] pieces@[m]@ == sp[m],
            out@.len() == candidates_of(sp, i as int).len(),
            forall|k: int|
                0 <= k < out@.len() ==> (#[trigger] out@[k]).0@ == candidates_of(sp, i as int)[k].0
                    && describes_descriptor(out@[k].1, candidates_of(sp, i as int)[k].1),
        decreases pieces@.len() - i,
    {
        let ws = split_whitespace(&pieces[i]);
        if ws.len() > 0 {
            let url = string_of(&ws[0]);
            let d = if ws.len() >= 2 {
                descriptor_of(&ws[1])
            } else {
                Descriptor::Bare
            };
            let ghost before = out@;
            out.push((url, d));
            proof {
                assert forall|k: int| 0 <= k < out@.len() implies (#[trigger] out@[k]).0@
                    == candidates_of(sp, i + 1)[k].0 && describes_descriptor(
                    out@[k].1,
                    candidates_of(sp, i + 1)[k].1,
                ) by {
                    if k < before.len() {
                        assert(out@[k] == before[k]);
                    }
                }
            }
        }
        i = i + 1;
    }
    out
}


// ---------------------------------------------------------------------------
// Timing functions
// ---------------------------------------------------------------------------

/// A transition or animation timing function.
#[derive(Debug, Clone, PartialEq, Eq)]
pub enum TimingFunction {
    Ease,
    Linear,
    EaseIn,
    EaseOut,
    EaseInOut,
    StepStart,
    StepEnd,
    /// The trimmed comma-separated argument texts of `cubic-bezier(...)`;
    /// the curve is the one they give when exactly four of them read as
    /// numbers, else `ease`.
    CubicBezier(Vec<String>),
    /// `steps(count, position)`: the count and whether the jump is at the
    /// start.
    Steps(u32, bool),
}

/// The characters of a timing function: its variant, and the argument
/// texts of a `cubic-bezier`.
pub enum TimingView {
    Ease,
    Linear,
    EaseIn,
    EaseOut,
    EaseInOut,
    StepStart,
    StepEnd,
    CubicBezier(Seq<Seq<char>>),
    Steps(u32, bool),
}

impl View for TimingFunction {
    type V = TimingView;

    open spec fn view(&self) -> TimingView {
        match self {
            TimingFunction::Ease => TimingView::Ease,
            TimingFunction::Linear => TimingView::Linear,
            TimingFunction::EaseIn => TimingView::EaseIn,
            TimingFunction::EaseOut => TimingView::EaseOut,
            TimingFunction::EaseInOut => TimingView::EaseInOut,
            TimingFunction::StepStart => TimingView::StepStart,
            TimingFunction::StepEnd => TimingView::StepEnd,
            TimingFunction::CubicBezier(a) => TimingView::CubicBezier(a@.map_values(|x: String| x@)),
            TimingFunction::Steps(n, j) => TimingView::Steps(*n, *j),
        }
    }
}

/// The argument list of a function value `name(...)`: the text after the
/// leading `name(` (all repetitions) with every trailing `)` removed, split
/// at commas, each piece trimmed.
pub open spec fn function_args(t: Seq<char>, open: Seq<char>) -> Seq<Seq<char>> {
    let inner = trim_suffixes(trim_prefixes(t, open), seq![')']);
    split_on(inner, ',').map_values(|p: Seq<char>| trim(p))
}

/// The timing function a value names; anything unknown is `ease`.
pub open spec fn timing_of(v: Seq<char>) -> TimingView {
    let t = trim(v);
    if t == "ease"@ {
        TimingView::Ease
    } else if t == "linear"@ {
        TimingView::Linear
    } else if t == "ease-in"@ {
        TimingView::EaseIn
    } else if t == "ease-out"@ {
        TimingView::EaseOut
    } else if t == "ease-in-out"@ {
        TimingView::EaseInOut
    } else if t == "step-start"@ {
        TimingView::StepStart
    } else if t == "step-end"@ {
        TimingView::StepEnd
    } else if starts_with(t, "cubic-bezier("@) {
        TimingView::CubicBezier(function_args(t, "cubic-bezier("@))
    } else if starts_with(t, "steps("@) {
        let args = function_args(t, "steps("@);
        match unsigned_value(args[0]) {
            Some(n) => if n <= u32::MAX {
                TimingView::Steps(
                    n as u32,
                    args.len() >= 2 && (args[1] == "jump-start"@ || args[1] == "start"@),
                )
            } else {
                TimingView::StepEnd
            },
            None => TimingView::StepEnd,
        }
    } else {
        TimingView::Ease
    }
}

fn function_args_exec(t: &[char], open: &str) -> (r: Vec<Vec<char>>)
    ensures
        r@.len() == function_args(t@, open@).len(),
        forall|k: int| 0 <= k < r@.len() ==> #[trigger] r@[k]@ == function_args(t@, open@)[k],
{
    let o = chars_of(open);
    let a = trim_prefixes_exec(t, &o);
    let close = vec![')'];
    assert(close@ =~= seq![')']);
    let inner = trim_suffixes_exec(&a, &close);
    let pieces = split_on_char(&inner, ',');
    let ghost sp = split_on(inner@, ',');
    let mut out: Vec<Vec<char>> = Vec::new();
    let mut i: usize = 0;
    while i < pieces.len()
        invariant
            i <= pieces@.len(),
            pieces@.len() == sp.len(),
            forall|m: int| 0 <= m < pieces@.len() ==> #[trigger] pieces@[m]@ == sp[m],
            out@.len() == i,
            forall|k: int| 0 <= k < i ==> #[trigger] out@[k]@ == trim(sp[k]),
        decreases pieces@.len() - i,
    {
        out.push(trimmed(&pieces[i]));
        i = i + 1;
    }
    out
}

/// Parses a timing function (`ease`, `linear`, `steps(4, jump-start)`,
/// `cubic-bezier(...)`, ...); anything unknown is `ease`.
pub fn parse_timing_function(value: &str) -> (r: TimingFunction)
    ensures
        r@ == timing_of(value@),
{
    let all = chars_of(value);
    let t = trimmed(&all);
    if chars_eq_str(&t, "ease") {
        return TimingFunction::Ease;
    } else if chars_eq_str(&t, "linear") {
        return TimingFunction::Linear;
    } else if chars_eq_str(&t, "ease-in") {
        return TimingFunction::EaseIn;
    } else if chars_eq_str(&t, "ease-out") {
        return TimingFunction::EaseOut;
    } else if chars_eq_str(&t, "ease-in-out") {
        return TimingFunction::EaseInOut;
    } else if chars_eq_str(&t, "step-start") {
        return TimingFunction::StepStart;
    } else if chars_eq_str(&t, "step-end") {
        return TimingFunction::StepEnd;
    }
    if starts_with_exec(&t, &chars_of("cubic-bezier(")) {
        let args = function_args_exec(&t, "cubic-bezier(");
        let mut texts: Vec<String> = Vec::new();
        let mut i: usize = 0;
        while i < args.len()
            invariant
                i <= args@.len(),
                texts@.len() == i,
                forall|k: int| 0 <= k < i ==> (#[trigger] texts@[k])@ == args@[k]@,
            decreases args@.len() - i,
        {
            texts.push(string_of(&args[i]));
            i = i + 1;
        }
        let r = TimingFunction::CubicBezier(texts);
        assert(texts@.map_values(|x: String| x@) =~= function_args(t@, "cubic-bezier("@));
        return r;
    }
    if starts_with_exec(&t, &chars_of("steps(")) {
        let args = function_args_exec(&t, "steps(");
        proof {
            let inner = trim_suffixes(trim_prefixes(t@, "steps("@), seq![')']);
            crate::tokens::lemma_split_on_len(inner, ',');
        }
        match parse_unsigned(&args[0], 4294967295) {
            Some(n) => {
                let jump_start = args.len() >= 2 && (chars_eq_str(&args[1], "jump-start")
                    || chars_eq_str(&args[1], "start"));
                return TimingFunction::Steps(n as u32, jump_start);
            },
            None => {
                return TimingFunction::StepEnd;
            },
        }
    }
    TimingFunction::Ease
}

} // verus!
