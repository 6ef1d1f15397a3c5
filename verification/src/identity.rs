//! Element identity keys for the geometry oracle: the Chrome-style selector
//! path segment of an element, the selector Chrome reports for it, and the
//! per-child segments of a parent.
use vstd::prelude::*;
use crate::dom::{Attributes, ChildSummary};
use crate::text::{
    chars_eq_str, chars_of, push_all, push_decimal, split_whitespace, string_of, to_lowercase,
    decimal, unicode_lowercase, words,
};

verus! {

/// The words of `ws` joined by single spaces.
pub open spec fn join_space(ws: Seq<Seq<char>>) -> Seq<char>
    decreases ws.len(),
{
    if ws.len() == 0 {
        Seq::empty()
    } else if ws.len() == 1 {
        ws[0]
    } else {
        join_space(ws.drop_last()).push(' ') + ws.last()
    }
}

/// `.classes` for an element whose class attribute is `class_attr`, with the
/// class list normalized to single spaces; empty for foreign (SVG/MathML)
/// content, a missing attribute, or one holding only whitespace.
pub open spec fn class_suffix(class_attr: Option<Seq<char>>, is_foreign: bool) -> Seq<char> {
    if !is_foreign && class_attr is Some && join_space(words(class_attr->0)).len() > 0 {
        seq!['.'] + join_space(words(class_attr->0))
    } else {
        Seq::empty()
    }
}

/// `:nth-of-type(index)` when the element has same-tag siblings, else empty.
pub open spec fn nth_suffix(index: nat, total: nat) -> Seq<char> {
    if total > 1 {
        ":nth-of-type("@ + decimal(index) + ")"@
    } else {
        Seq::empty()
    }
}

/// One element's selector-path segment: its tag, its class list after one
/// dot, and its position among same-tag siblings when there are several.
pub open spec fn segment_spec(
    tag: Seq<char>,
    class_attr: Option<Seq<char>>,
    index: nat,
    total: nat,
    is_foreign: bool,
) -> Seq<char> {
    tag + class_suffix(class_attr, is_foreign) + nth_suffix(index, total)
}

/// The words of `ws` joined by single spaces.
fn join_words(ws: &Vec<Vec<char>>) -> (r: Vec<char>)
    ensures
        r@ == join_space(ws@.map_values(|v: Vec<char>| v@)),
{
    let mut r: Vec<char> = Vec::new();
    let mut i: usize = 0;
    while i < ws.len()
        invariant
            i <= ws@.len(),
            r@ == join_space(ws@.subrange(0, i as int).map_values(|v: Vec<char>| v@)),
        decreases ws@.len() - i,
    {
        let ghost before = ws@.subrange(0, i as int).map_values(|v: Vec<char>| v@);
        let ghost after = ws@.subrange(0, i + 1).map_values(|v: Vec<char>| v@);
        proof {
            assert(after.drop_last() =~= before);
            assert(after.last() == ws@[i as int]@);
        }
        if i > 0 {
            r.push(' ');
        }
        push_all(&mut r, ws[i].as_slice());
        proof {
            if i == 0 {
                assert(r@ =~= after[0]);
            } else {
                assert(r@ =~= join_space(before).push(' ') + after.last());
            }
        }
        i = i + 1;
    }
    assert(ws@.subrange(0, ws@.len() as int) =~= ws@);
    r
}

/// The selector-path segment of one element (see `segment_spec`).
///
/// A multi-class element yields `div.card featured`: the class list follows a
/// single dot with its internal spaces kept. `:nth-of-type(N)` is appended
/// only when `same_tag_total > 1`.
pub fn selector_segment(
    tag_lower: &str,
    attributes: &Attributes,
    same_tag_index: usize,
    same_tag_total: usize,
    is_foreign: bool,
) -> (r: String)
    ensures
        r@ == segment_spec(
            tag_lower@,
            attributes.get_spec("class"@),
            same_tag_index as nat,
            same_tag_total as nat,
            is_foreign,
        ),
{
    let mut out = chars_of(tag_lower);
    let ghost class_attr = attributes.get_spec("class"@);
    if !is_foreign {
        match attributes.get("class") {
            Some(class_value) => {
                let cs = chars_of(class_value.as_str());
                let ws = split_whitespace(&cs);
                let joined = join_words(&ws);
                proof {
                    assert(ws@.map_values(|v: Vec<char>| v@) =~= words(cs@));
                }
                if joined.len() > 0 {
                    out.push('.');
                    push_all(&mut out, &joined);
                    proof {
                        assert(out@ =~= tag_lower@ + class_suffix(class_attr, is_foreign));
                    }
                } else {
                    assert(out@ =~= tag_lower@ + class_suffix(class_attr, is_foreign));
                }
            },
            None => {
                assert(out@ =~= tag_lower@ + class_suffix(class_attr, is_foreign));
            },
        }
    } else {
        assert(out@ =~= tag_lower@ + class_suffix(class_attr, is_foreign));
    }
    let ghost base = out@;
    if same_tag_total > 1 {
        let open = chars_of(":nth-of-type(");
        push_all(&mut out, &open);
        push_decimal(&mut out, same_tag_index);
        let close = chars_of(")");
        push_all(&mut out, &close);
        assert(out@ =~= base + nth_suffix(same_tag_index as nat, same_tag_total as nat));
    } else {
        assert(out@ =~= base + nth_suffix(same_tag_index as nat, same_tag_total as nat));
    }
    string_of(&out)
}

/// The selector Chrome reports for an element with structural path `path`.
pub open spec fn reported_spec(path: Seq<char>, id_attr: Option<Seq<char>>) -> Seq<char> {
    if id_attr is Some && id_attr->0.len() > 0 {
        seq!['#'] + id_attr->0
    } else if path == "body"@ {
        "html > body"@
    } else {
        path
    }
}

/// The selector Chrome reports for an element, given its structural path:
/// `#id` when the element has a non-empty id, `html > body` for the body
/// element, and the path itself otherwise.
pub fn reported_selector(selector_path: &str, attributes: &Attributes) -> (r: String)
    ensures
        r@ == reported_spec(selector_path@, attributes.get_spec("id"@)),
{
    match attributes.get("id") {
        Some(id) => {
            let idc = chars_of(id.as_str());
            if idc.len() > 0 {
                let mut out: Vec<char> = Vec::new();
                out.push('#');
                push_all(&mut out, &idc);
                assert(out@ =~= seq!['#'] + idc@);
                return string_of(&out);
            }
        },
        None => {},
    }
    let path = chars_of(selector_path);
    if chars_eq_str(&path, "body") {
        "html > body".to_owned()
    } else {
        selector_path.to_owned()
    }
}

/// Whether a tag opens SVG or MathML content.
pub open spec fn foreign_tag(tag: Seq<char>) -> bool {
    tag == "svg"@ || tag == "math"@
}

/// Whether this (lower-case) tag opens a foreign-content subtree.
pub fn enters_foreign_content(tag_lower: &str) -> (r: bool)
    ensures
        r == foreign_tag(tag_lower@),
{
    let t = chars_of(tag_lower);
    chars_eq_str(&t, "svg") || chars_eq_str(&t, "math")
}

/// The path of a child: `parent > segment`, or empty when the parent is
/// untracked (empty path) or the child has no segment.
pub open spec fn child_path_spec(path: Seq<char>, segment: Option<Seq<char>>) -> Seq<char> {
    if path.len() > 0 && segment is Some {
        path + " > "@ + segment->0
    } else {
        Seq::empty()
    }
}

/// Extends a parent path with one child segment; the empty string means
/// "identity not tracked".
pub fn child_selector_path(selector_path: &str, segment: Option<&str>) -> (r: String)
    ensures
        r@ == child_path_spec(
            selector_path@,
            match segment {
                Some(s) => Some(s@),
                None => None,
            },
        ),
{
    let path = chars_of(selector_path);
    match segment {
        Some(seg) => {
            if path.len() > 0 {
                let mut out = path;
                let sep = chars_of(" > ");
                push_all(&mut out, &sep);
                let sc = chars_of(seg);
                push_all(&mut out, &sc);
                string_of(&out)
            } else {
                String::new()
            }
        },
        None => String::new(),
    }
}

/// Lower-cased tag of each child, `None` for non-elements.
pub open spec fn child_tag(c: ChildSummary) -> Option<Seq<char>> {
    match c {
        ChildSummary::Element { tag_name, .. } => Some(unicode_lowercase(tag_name@)),
        ChildSummary::Other => None,
    }
}

/// Number of children among the first `n` whose lower-cased tag is `t`.
pub open spec fn count_tag(children: Seq<ChildSummary>, t: Seq<char>, n: int) -> nat
    decreases n,
{
    if n <= 0 {
        0
    } else if child_tag(children[n - 1]) == Some(t) {
        count_tag(children, t, n - 1) + 1
    } else {
        count_tag(children, t, n - 1)
    }
}

/// The segment of child `i` (see `child_selector_segments`).
pub open spec fn child_segment_spec(
    children: Seq<ChildSummary>,
    i: int,
    parent_is_foreign: bool,
) -> Option<Seq<char>> {
    match children[i] {
        ChildSummary::Element { tag_name, attributes } => {
            let t = unicode_lowercase(tag_name@);
            Some(
                segment_spec(
                    t,
                    attributes.get_spec("class"@),
                    count_tag(children, t, i + 1),
                    count_tag(children, t, children.len() as int),
                    parent_is_foreign || foreign_tag(t),
                ),
            )
        },
        ChildSummary::Other => None,
    }
}

/// Classes are dropped inside foreign content: under an SVG or MathML
/// parent, and for a child that itself opens an `svg` or `math` subtree,
/// an element child's segment is its lower-cased tag followed at most by
/// its `:nth-of-type` position, whatever its `class` attribute holds.
pub proof fn lemma_foreign_segments_drop_classes(
    children: Seq<ChildSummary>,
    i: int,
    parent_is_foreign: bool,
)
    requires
        0 <= i < children.len(),
        children[i] is Element,
        parent_is_foreign || child_tag(children[i]) == Some("svg"@) || child_tag(children[i])
            == Some("math"@),
    ensures
        ({
            let t = child_tag(children[i])->0;
            child_segment_spec(children, i, parent_is_foreign) == Some(
                t + nth_suffix(
                    count_tag(children, t, i + 1),
                    count_tag(children, t, children.len() as int),
                ),
            )
        }),
{
    let t = child_tag(children[i])->0;
    assert(t + Seq::<char>::empty() =~= t);
}

fn lowered_tags(children: &[ChildSummary]) -> (r: Vec<Option<Vec<char>>>)
    ensures
        r@.len() == children@.len(),
        forall|i: int|
            0 <= i < r@.len() ==> match #[trigger] r@[i] {
                Some(v) => child_tag(children@[i]) == Some(v@),
                None => child_tag(children@[i]) is None,
            },
{
    let mut r: Vec<Option<Vec<char>>> = Vec::new();
    let mut i: usize = 0;
    while i < children.len()
        invariant
            i <= children@.len(),
            r@.len() == i,
            forall|k: int|
                0 <= k < i ==> match #[trigger] r@[k] {
                    Some(v) => child_tag(children@[k]) == Some(v@),
                    None => child_tag(children@[k]) is None,
                },
        decreases children@.len() - i,
    {
        match &children[i] {
            ChildSummary::Element { tag_name, .. } => {
                let tc = chars_of(tag_name.as_str());
                r.push(Some(to_lowercase(&tc)));
            },
            ChildSummary::Other => {
                r.push(None);
            },
        }
        i = i + 1;
    }
    r
}

fn count_lowered(
    tags: &Vec<Option<Vec<char>>>,
    t: &[char],
    n: usize,
    ghost_children: Ghost<Seq<ChildSummary>>,
) -> (r: usize)
    requires
        n <= tags@.len(),
        tags@.len() == ghost_children@.len(),
        forall|i: int|
            0 <= i < tags@.len() ==> match #[trigger] tags@[i] {
                Some(v) => child_tag(ghost_children@[i]) == Some(v@),
                None => child_tag(ghost_children@[i]) is None,
            },
    ensures
        r == count_tag(ghost_children@, t@, n as int),
{
    let mut c: usize = 0;
    let mut k: usize = 0;
    while k < n
        invariant
            k <= n <= tags@.len(),
            tags@.len() == ghost_children@.len(),
            forall|i: int|
                0 <= i < tags@.len() ==> match #[trigger] tags@[i] {
                    Some(v) => child_tag(ghost_children@[i]) == Some(v@),
                    None => child_tag(ghost_children@[i]) is None,
                },
            c == count_tag(ghost_children@, t@, k as int),
            c <= k,
        decreases n - k,
    {
        match &tags[k] {
            Some(v) => {
                if crate::text::chars_eq(v.as_slice(), t) {
                    c = c + 1;
                }
            },
            None => {},
        }
        k = k + 1;
    }
    c
}

/// The selector segment of each child, aligned by index with `children`.
///
/// Non-element children yield `None`. An element child's segment uses its
/// lower-cased tag, its 1-based position among same-tag element siblings and
/// their total count, and drops the class when the child is in, or opens,
/// foreign content.
pub fn child_selector_segments(children: &[ChildSummary], parent_is_foreign: bool) -> (r: Vec<
    Option<String>,
>)
    ensures
        r@.len() == children@.len(),
        forall|i: int|
            0 <= i < r@.len() ==> match #[trigger] r@[i] {
                Some(s) => child_segment_spec(children@, i, parent_is_foreign) == Some(s@),
                None => child_segment_spec(children@, i, parent_is_foreign) is None,
            },
{
    let tags = lowered_tags(children);
    let mut out: Vec<Option<String>> = Vec::new();
    let mut i: usize = 0;
    while i < children.len()
        invariant
            i <= children@.len(),
            tags@.len() == children@.len(),
            forall|k: int|
                0 <= k < tags@.len() ==> match #[trigger] tags@[k] {
                    Some(v) => child_tag(children@[k]) == Some(v@),
                    None => child_tag(children@[k]) is None,
                },
            out@.len() == i,
            forall|k: int|
                0 <= k < i ==> match #[trigger] out@[k] {
                    Some(s) => child_segment_spec(children@, k, parent_is_foreign) == Some(s@),
                    None => child_segment_spec(children@, k, parent_is_foreign) is None,
                },
        decreases children@.len() - i,
    {
        match &children[i] {
            ChildSummary::Element { attributes, .. } => {
                let t = match &tags[i] {
                    Some(v) => v.clone(),
                    None => {
                        assert(false);
                        Vec::new()
                    },
                };
                assert(t@ == tags@[i as int]->0@);
                let index = count_lowered(&tags, &t, i + 1, Ghost(children@));
                let total = count_lowered(&tags, &t, children.len(), Ghost(children@));
                let tag_str = string_of(&t);
                let is_foreign = parent_is_foreign || enters_foreign_content(tag_str.as_str());
                let seg = selector_segment(tag_str.as_str(), attributes, index, total, is_foreign);
                out.push(Some(seg));
            },
            ChildSummary::Other => {
                out.push(None);
            },
        }
        i = i + 1;
    }
    out
}

} // verus!
