//! Focus and form submission: which elements take focus, the value an
//! edit state starts from, the form that encloses the focused control, and
//! the name/value entries a GET submission carries.
use vstd::prelude::*;
use crate::dom::StrMap;
use crate::text::{
    chars_eq_ignore_ascii_case, chars_eq_str, chars_of, eq_ignore_ascii_case, string_of,
    to_lowercase, unicode_lowercase,
};

verus! {

// ---------------------------------------------------------------------------
// Focus
// ---------------------------------------------------------------------------

/// Tags (lower-cased) that take focus on a click.
pub open spec fn focusable_tag(t: Seq<char>) -> bool {
    t == "input"@ || t == "textarea"@ || t == "select"@
}

/// Tags (lower-cased) whose value the user edits as text.
pub open spec fn text_control_tag(t: Seq<char>) -> bool {
    t == "input"@ || t == "textarea"@
}

/// The value an unedited control holds: a textarea's text content, else
/// its `value` attribute, else nothing.
pub open spec fn authored_value(tag: Seq<char>, attributes: StrMap, text_content: Seq<char>) -> Seq<
    char,
> {
    if tag == "textarea"@ {
        text_content
    } else {
        match attributes.get_spec("value"@) {
            Some(v) => v,
            None => Seq::empty(),
        }
    }
}

/// The lower-cased tag of an element that a click focuses, or `None` when
/// clicking it clears focus.
pub fn focus_target(tag_name: &str) -> (r: Option<String>)
    ensures
        r is Some <==> focusable_tag(unicode_lowercase(tag_name@)),
        r matches Some(t) ==> t@ == unicode_lowercase(tag_name@),
{
    let raw = chars_of(tag_name);
    let tag = to_lowercase(&raw);
    if chars_eq_str(&tag, "input") || chars_eq_str(&tag, "textarea") || chars_eq_str(
        &tag,
        "select",
    ) {
        Some(string_of(&tag))
    } else {
        None
    }
}

/// The value a focused element's edit state starts from: `None` when it
/// gets none (it is not a text control, or it already has one, which must
/// keep what the user typed), else its authored value.
pub fn edit_seed(
    tag: &str,
    attributes: &StrMap,
    text_content: &str,
    already_seeded: bool,
) -> (r: Option<String>)
    ensures
        r is Some <==> text_control_tag(tag@) && !already_seeded,
        r matches Some(v) ==> v@ == authored_value(tag@, *attributes, text_content@),
{
    if already_seeded {
        return None;
    }
    let t = chars_of(tag);
    if chars_eq_str(&t, "input") || chars_eq_str(&t, "textarea") {
        Some(authored_value_of(&t, attributes, text_content))
    } else {
        None
    }
}

fn authored_value_of(tag: &[char], attributes: &StrMap, text_content: &str) -> (r: String)
    ensures
        r@ == authored_value(tag@, *attributes, text_content@),
{
    if chars_eq_str(tag, "textarea") {
        text_content.to_owned()
    } else {
        match attributes.get("value") {
            Some(v) => v,
            None => String::new(),
        }
    }
}

// ---------------------------------------------------------------------------
// Form submission
// ---------------------------------------------------------------------------

/// The index of the first of `chain` whose tag is `form`, ignoring ASCII
/// case, at or after `i`.
pub open spec fn form_index_from(chain: Seq<String>, i: int) -> Option<int>
    decreases chain.len() - i,
{
    if i < 0 || i >= chain.len() {
        None
    } else if eq_ignore_ascii_case(chain[i]@, "form"@) {
        Some(i)
    } else {
        form_index_from(chain, i + 1)
    }
}

/// The enclosing form of the focused node: `chain` holds the tag names of
/// the focused node and its ancestors, nearest first (a node that is not an
/// element contributes an empty name), and the result is the position of
/// the nearest `form`, ignoring ASCII case.
pub fn enclosing_form(chain: &[String]) -> (r: Option<usize>)
    ensures
        match r {
            Some(k) => form_index_from(chain@, 0) == Some(k as int),
            None => form_index_from(chain@, 0) is None,
        },
{
    let form = chars_of("form");
    let mut i: usize = 0;
    while i < chain.len()
        invariant
            i <= chain@.len(),
            form@ == "form"@,
            form_index_from(chain@, 0) == form_index_from(chain@, i as int),
        decreases chain@.len() - i,
    {
        let t = chars_of(chain[i].as_str());
        if chars_eq_ignore_ascii_case(&t, &form) {
            return Some(i);
        }
        i = i + 1;
    }
    None
}

/// An element inside a form, as submission reads it.
#[derive(Debug, Clone)]
pub struct FormElement {
    pub tag_name: String,
    pub attributes: StrMap,
    /// The element's text content.
    pub text_content: String,
    /// The value of its live edit state, if it has one: what the user typed.
    pub edited_value: Option<String>,
}

/// One `name=value` pair of a submission.
#[derive(Debug, Clone)]
pub struct FormEntry {
    pub name: String,
    pub value: String,
}

/// The `type` of an input, lower-cased, `text` when absent.
pub open spec fn control_kind(attributes: StrMap) -> Seq<char> {
    match attributes.get_spec("type"@) {
        Some(t) => unicode_lowercase(t),
        None => "text"@,
    }
}

/// The `name` of a control, empty when absent.
pub open spec fn control_name(attributes: StrMap) -> Seq<char> {
    match attributes.get_spec("name"@) {
        Some(n) => n,
        None => Seq::empty(),
    }
}

/// Kinds of input that never submit a value of their own, and unchecked
/// checkboxes and radio buttons.
pub open spec fn skipped_kind(kind: Seq<char>, attributes: StrMap) -> bool {
    ||| kind == "submit"@
    ||| kind == "button"@
    ||| kind == "reset"@
    ||| kind == "file"@
    ||| (kind == "checkbox"@ || kind == "radio"@) && attributes.get_spec("checked"@) is None
}

/// Whether `e` is a successful control: an `input` or `textarea` with a
/// non-empty name, not disabled, and not of a skipped kind.
pub open spec fn successful(e: FormElement) -> bool {
    &&& text_control_tag(unicode_lowercase(e.tag_name@))
    &&& control_name(e.attributes).len() > 0
    &&& e.attributes.get_spec("disabled"@) is None
    &&& !skipped_kind(control_kind(e.attributes), e.attributes)
}

/// The value `e` submits: what the user typed, else its authored value.
pub open spec fn submitted_value(e: FormElement) -> Seq<char> {
    match e.edited_value {
        Some(v) => v@,
        None => authored_value(unicode_lowercase(e.tag_name@), e.attributes, e.text_content@),
    }
}

/// The `(name, value)` pairs of the successful controls among `es`, in order.
pub open spec fn entries_of(es: Seq<FormElement>) -> Seq<(Seq<char>, Seq<char>)>
    decreases es.len(),
{
    if es.len() == 0 {
        Seq::empty()
    } else {
        let prev = entries_of(es.drop_last());
        let e = es.last();
        if successful(e) {
            prev.push((control_name(e.attributes), submitted_value(e)))
        } else {
            prev
        }
    }
}

/// The entry `e` contributes to a submission, if it is successful.
pub fn form_entry(e: &FormElement) -> (r: Option<FormEntry>)
    ensures
        r is Some <==> successful(*e),
        r matches Some(x) ==> x.name@ == control_name(e.attributes) && x.value@ == submitted_value(
            *e,
        ),
{
    let raw = chars_of(e.tag_name.as_str());
    let tag = to_lowercase(&raw);
    if !(chars_eq_str(&tag, "input") || chars_eq_str(&tag, "textarea")) {
        return None;
    }
    let name = match e.attributes.get("name") {
        Some(n) => n,
        None => String::new(),
    };
    let disabled = e.attributes.contains_key("disabled");
    let kind: Vec<char> = match e.attributes.get("type") {
        Some(t) => {
            let tc = chars_of(t.as_str());
            to_lowercase(&tc)
        },
        None => chars_of("text"),
    };
    let unchecked_toggle = (chars_eq_str(&kind, "checkbox") || chars_eq_str(&kind, "radio"))
        && !e.attributes.contains_key("checked");
    let skip = chars_eq_str(&kind, "submit") || chars_eq_str(&kind, "button") || chars_eq_str(
        &kind,
        "reset",
    ) || chars_eq_str(&kind, "file") || unchecked_toggle;
    let name_len = name.unicode_len();
    if name_len == 0 || disabled || skip {
        return None;
    }
    let value = match &e.edited_value {
        Some(v) => v.clone(),
        None => authored_value_of(&tag, &e.attributes, e.text_content.as_str()),
    };
    Some(FormEntry { name, value })
}

/// The entries of the successful controls among `elements`, in document
/// order.
pub fn form_entries(elements: &[FormElement]) -> (r: Vec<FormEntry>)
    ensures
        r@.len() == entries_of(elements@).len(),
        forall|k: int|
            0 <= k < r@.len() ==> (#[trigger] r@[k]).name@ == entries_of(elements@)[k].0
                && r@[k].value@ == entries_of(elements@)[k].1,
{
    let mut out: Vec<FormEntry> = Vec::new();
    let mut i: usize = 0;
    while i < elements.len()
        invariant
            i <= elements@.len(),
            out@.len() == entries_of(elements@.take(i as int)).len(),
            forall|k: int|
                0 <= k < out@.len() ==> (#[trigger] out@[k]).name@ == entries_of(
                    elements@.take(i as int),
                )[k].0 && out@[k].value@ == entries_of(elements@.take(i as int))[k].1,
        decreases elements@.len() - i,
    {
        proof {
            assert(elements@.take(i + 1).drop_last() =~= elements@.take(i as int));
            assert(elements@.take(i + 1).last() == elements@[i as int]);
        }
        match form_entry(&elements[i]) {
            Some(entry) => {
                let ghost before = out@;
                out.push(entry);
                proof {
                    assert forall|k: int| 0 <= k < out@.len() implies (#[trigger] out@[k]).name@
                        == entries_of(elements@.take(i + 1))[k].0 && out@[k].value@ == entries_of(
                        elements@.take(i + 1),
                    )[k].1 by {
                        if k < before.len() {
                            assert(out@[k] == before[k]);
                        }
                    }
                }
            },
            None => {},
        }
        i = i + 1;
    }
    proof {
        assert(elements@.take(elements@.len() as int) =~= elements@);
    }
    out
}

/// What a submission of the form holding `elements` carries: `None` when
/// the form's method is not GET (the only method wired; a POST form is
/// declined rather than sent as a GET) or when no control is successful,
/// else the entries of the successful controls in document order.
pub fn form_submission_entries(method_is_get: bool, elements: &[FormElement]) -> (r: Option<
    Vec<FormEntry>,
>)
    ensures
        r is Some <==> method_is_get && entries_of(elements@).len() > 0,
        r matches Some(es) ==> es@.len() == entries_of(elements@).len() && forall|k: int|
            0 <= k < es@.len() ==> (#[trigger] es@[k]).name@ == entries_of(elements@)[k].0
                && es@[k].value@ == entries_of(elements@)[k].1,
{
    if !method_is_get {
        return None;
    }
    let entries = form_entries(elements);
    if entries.len() == 0 {
        return None;
    }
    Some(entries)
}

/// An input whose lower-cased `type` is `submit`, `button`, `reset` or
/// `file`, or an unchecked checkbox or radio button, never contributes an
/// entry, whatever its name and value: it is not a successful control, and
/// adding it after the controls `es` leaves their entries as they were.
pub proof fn lemma_non_submitting_controls(es: Seq<FormElement>, e: FormElement)
    requires
        control_kind(e.attributes) == "submit"@ || control_kind(e.attributes) == "button"@
            || control_kind(e.attributes) == "reset"@ || control_kind(e.attributes) == "file"@
            || ((control_kind(e.attributes) == "checkbox"@ || control_kind(e.attributes)
            == "radio"@) && e.attributes.get_spec("checked"@) is None),
    ensures
        !successful(e),
        entries_of(es.push(e)) == entries_of(es),
{
    assert(es.push(e).drop_last() =~= es);
    assert(es.push(e).last() == e);
}

/// A control that is disabled, or has no name, or is not an `input` or
/// `textarea`, never contributes an entry either.
pub proof fn lemma_unnamed_or_disabled_controls(es: Seq<FormElement>, e: FormElement)
    requires
        e.attributes.get_spec("disabled"@) is Some || control_name(e.attributes).len() == 0 || (
        unicode_lowercase(e.tag_name@) != "input"@ && unicode_lowercase(e.tag_name@)
            != "textarea"@),
    ensures
        !successful(e),
        entries_of(es.push(e)) == entries_of(es),
{
    assert(es.push(e).drop_last() =~= es);
    assert(es.push(e).last() == e);
}

} // verus!
