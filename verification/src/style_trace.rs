//! Cascade provenance: what the cascade recorded for each element, and the
//! simple-selector query language used to look those records up.
use vstd::prelude::*;
use crate::dom::StrMap;
use crate::text::{
    chars_eq, chars_of, lemma_scan_to_any, scan_to_any, scan_to_any_exec, slice_vec,
    split_whitespace, string_of, to_lowercase, trim, trim_bounds, unicode_lowercase, words,
};

verus! {

/// One author declaration that matched an element, win or lose.
#[derive(Debug)]
pub struct DeclarationRecord {
    /// Property name exactly as authored.
    pub property: String,
    /// Declared value, after CSS-variable substitution.
    pub value: String,
    /// The selector of the rule that carried it.
    pub selector: String,
    /// `(ids, classes, tags)`, as the cascade computed it; an inline
    /// declaration carries `(usize::MAX, 0, 0)`.
    pub specificity: (usize, usize, usize),
    /// `author` or `author-inline`.
    pub origin: &'static str,
    /// Whether the declaration carried `!important` (recorded, not honoured).
    pub important: bool,
    /// Position in application order; the highest order for a property is
    /// the declaration that wrote it last.
    pub order: usize,
}

impl Clone for DeclarationRecord {
    fn clone(&self) -> (r: Self)
        ensures
            r.property@ == self.property@,
            r.value@ == self.value@,
            r.selector@ == self.selector@,
            r.specificity == self.specificity,
            r.origin == self.origin,
            r.important == self.important,
            r.order == self.order,
    {
        DeclarationRecord {
            property: self.property.clone(),
            value: self.value.clone(),
            selector: self.selector.clone(),
            specificity: (self.specificity.0, self.specificity.1, self.specificity.2),
            origin: self.origin,
            important: self.important,
            order: self.order,
        }
    }
}

/// The cascade as it ran for one element.
#[derive(Debug, Clone)]
pub struct StyleRecord {
    pub tag: String,
    pub id: Option<String>,
    pub classes: Vec<String>,
    pub declarations: Vec<DeclarationRecord>,
    /// Computed values read back off the style the cascade produced.
    pub computed: Vec<(String, String)>,
}

/// The parts of a simple-selector query.
pub struct SimpleSelectorView {
    pub tag: Option<Seq<char>>,
    pub id: Option<Seq<char>>,
    pub classes: Seq<Seq<char>>,
}

/// The subset of selector syntax accepted as a query over style records:
/// an optional tag, an optional id and any number of classes. Combinators,
/// attribute and pseudo selectors and `*` are refused, because answering
/// them needs tree context that the records do not keep.
#[derive(Debug)]
pub struct SimpleSelector {
    tag: Option<String>,
    id: Option<String>,
    classes: Vec<String>,
}

/// The characters that make a query unanswerable.
pub open spec fn refused_char(c: char) -> bool {
    c == ' ' || c == '>' || c == '+' || c == '~' || c == ',' || c == '[' || c == ':' || c == '*'
}

/// The marker characters that start a class or an id.
pub open spec fn markers() -> Seq<char> {
    seq!['.', '#']
}

/// Parses the `.class` / `#id` run of `t` starting at marker position `p`,
/// accumulating the id (the last one wins) and the classes in order.
pub open spec fn parse_markers(
    t: Seq<char>,
    p: int,
    id: Option<Seq<char>>,
    classes: Seq<Seq<char>>,
) -> Option<(Option<Seq<char>>, Seq<Seq<char>>)>
    decreases t.len() - p,
{
    if p < 0 || p >= t.len() {
        Some((id, classes))
    } else {
        let end = scan_to_any(t, p + 1, markers());
        proof {
            lemma_scan_to_any(t, p + 1, markers());
        }
        let name = t.subrange(p + 1, end);
        if name.len() == 0 {
            None
        } else if t[p] == '.' {
            parse_markers(t, end, id, classes.push(name))
        } else if t[p] == '#' {
            parse_markers(t, end, Some(name), classes)
        } else {
            None
        }
    }
}

/// What `SimpleSelector::parse` accepts, and what it yields.
pub open spec fn parse_query(input: Seq<char>) -> Option<SimpleSelectorView> {
    let t = trim(input);
    if t.len() == 0 || exists|i: int| 0 <= i < t.len() && refused_char(#[trigger] t[i]) {
        None
    } else {
        let fm = scan_to_any(t, 0, markers());
        let tag = if fm > 0 {
            Some(unicode_lowercase(t.subrange(0, fm)))
        } else {
            None
        };
        match parse_markers(t, fm, None, Seq::empty()) {
            None => None,
            Some((id, classes)) => if tag is None && id is None && classes.len() == 0 {
                None
            } else {
                Some(SimpleSelectorView { tag, id, classes })
            },
        }
    }
}

/// Whether the record carries class `c`.
pub open spec fn record_has_class(record: StyleRecord, c: Seq<char>) -> bool {
    exists|k: int| 0 <= k < record.classes@.len() && #[trigger] record.classes@[k]@ == c
}

/// Whether a query matches a record: same tag if the query names one, same
/// id if it names one, and every queried class present.
pub open spec fn query_matches(q: SimpleSelectorView, record: StyleRecord) -> bool {
    &&& (q.tag is Some ==> record.tag@ == q.tag->0)
    &&& (q.id is Some ==> record.id is Some && record.id->0@ == q.id->0)
    &&& forall|k: int| 0 <= k < q.classes.len() ==> record_has_class(record, #[trigger] q.classes[k])
}

/// A query selects only records that carry everything it names: a record
/// without an id is never selected by a query that names one, and a
/// selected record has the queried id, the queried tag, and each queried
/// class among its own.
pub proof fn lemma_query_selects_only_named(q: SimpleSelectorView, record: StyleRecord)
    ensures
        q.id is Some && record.id is None ==> !query_matches(q, record),
        query_matches(q, record) ==> (q.id matches Some(i) ==> (record.id matches Some(rid)
            && rid@ == i)),
        query_matches(q, record) ==> (q.tag matches Some(t) ==> record.tag@ == t),
        query_matches(q, record) ==> forall|k: int|
            0 <= k < q.classes.len() ==> record_has_class(record, #[trigger] q.classes[k]),
{
}

impl View for SimpleSelector {
    type V = SimpleSelectorView;

    closed spec fn view(&self) -> SimpleSelectorView {
        SimpleSelectorView {
            tag: match self.tag {
                Some(t) => Some(t@),
                None => None,
            },
            id: match self.id {
                Some(t) => Some(t@),
                None => None,
            },
            classes: self.classes@.map_values(|c: String| c@),
        }
    }
}

fn has_refused_char(t: &[char]) -> (r: bool)
    ensures
        r == exists|i: int| 0 <= i < t@.len() && refused_char(#[trigger] t@[i]),
{
    let mut i: usize = 0;
    while i < t.len()
        invariant
            i <= t@.len(),
            forall|j: int| 0 <= j < i ==> !refused_char(#[trigger] t@[j]),
        decreases t@.len() - i,
    {
        let c = t[i];
        if c == ' ' || c == '>' || c == '+' || c == '~' || c == ',' || c == '[' || c == ':' || c
            == '*' {
            assert(refused_char(t@[i as int]));
            return true;
        }
        i = i + 1;
    }
    false
}

impl SimpleSelector {
    /// Parses a query, refusing anything outside `tag`, `.class`, `#id` and
    /// their combinations (see `parse_query`).
    pub fn parse(input: &str) -> (r: Option<Self>)
        ensures
            match r {
                Some(q) => parse_query(input@) == Some(q@),
                None => parse_query(input@) is None,
            },
    {
        let all = chars_of(input);
        let (lo, hi) = trim_bounds(&all);
        let t = slice_vec(&all, lo, hi);
        if t.len() == 0 || has_refused_char(&t) {
            return None;
        }
        let marks = vec!['.', '#'];
        assert(marks@ =~= markers());
        let first_marker = scan_to_any_exec(&t, 0, &marks);
        let tag: Option<String> = if first_marker > 0 {
            let head = slice_vec(&t, 0, first_marker);
            let lowered = to_lowercase(&head);
            Some(string_of(&lowered))
        } else {
            None
        };
        let mut id: Option<String> = None;
        let mut classes: Vec<String> = Vec::new();
        let mut p = first_marker;
        let ghost fm = first_marker as int;
        proof {
            lemma_scan_to_any(t@, 0, markers());
            assert(classes@.map_values(|c: String| c@) =~= Seq::<Seq<char>>::empty());
        }
        let ghost tag_view = match &tag {
            Some(s) => Some(s@),
            None => None::<Seq<char>>,
        };
        while p < t.len()
            invariant
                p <= t@.len(),
                marks@ == markers(),
                t@ == trim(input@),
                t@.len() > 0,
                !exists|i: int| 0 <= i < t@.len() && refused_char(#[trigger] t@[i]),
                fm == scan_to_any(t@, 0, markers()),
                tag_view == (if fm > 0 {
                    Some(unicode_lowercase(t@.subrange(0, fm)))
                } else {
                    None
                }),
                tag_view == match tag {
                    Some(s) => Some(s@),
                    None => None::<Seq<char>>,
                },
                parse_markers(t@, fm, None, Seq::empty()) == parse_markers(
                    t@,
                    p as int,
                    match id {
                        Some(s) => Some(s@),
                        None => None,
                    },
                    classes@.map_values(|c: String| c@),
                ),
            decreases t@.len() - p,
        {
            let kind = t[p];
            let end = scan_to_any_exec(&t, p + 1, &marks);
            proof {
                lemma_scan_to_any(t@, p + 1, markers());
            }
            let name = slice_vec(&t, p + 1, end);
            if name.len() == 0 {
                return None;
            }
            if kind == '.' {
                let ghost before = classes@.map_values(|c: String| c@);
                classes.push(string_of(&name));
                assert(classes@.map_values(|c: String| c@) =~= before.push(name@));
            } else if kind == '#' {
                id = Some(string_of(&name));
            } else {
                return None;
            }
            p = end;
        }
        if tag.is_none() && id.is_none() && classes.len() == 0 {
            return None;
        }
        let q = SimpleSelector { tag, id, classes };
        proof {
            assert(t@ == trim(input@));
        }
        Some(q)
    }

    /// Whether this query matches `record` (see `query_matches`).
    pub fn matches(&self, record: &StyleRecord) -> (r: bool)
        ensures
            r == query_matches(self@, *record),
    {
        match &self.tag {
            Some(tag) => {
                let a = chars_of(record.tag.as_str());
                let b = chars_of(tag.as_str());
                if !chars_eq(&a, &b) {
                    return false;
                }
            },
            None => {},
        }
        match &self.id {
            Some(id) => match &record.id {
                Some(rid) => {
                    let a = chars_of(rid.as_str());
                    let b = chars_of(id.as_str());
                    if !chars_eq(&a, &b) {
                        return false;
                    }
                },
                None => {
                    return false;
                },
            },
            None => {},
        }
        let mut k: usize = 0;
        while k < self.classes.len()
            invariant
                k <= self.classes@.len(),
                forall|j: int|
                    0 <= j < k ==> record_has_class(*record, #[trigger] self@.classes[j]),
            decreases self.classes@.len() - k,
        {
            let want = chars_of(self.classes[k].as_str());
            if !has_class(record, &want) {
                assert(!record_has_class(*record, self@.classes[k as int]));
                return false;
            }
            k = k + 1;
        }
        true
    }
}

/// Whether the record carries class `c`.
pub fn has_class(record: &StyleRecord, c: &[char]) -> (r: bool)
    ensures
        r == record_has_class(*record, c@),
{
    let mut k: usize = 0;
    while k < record.classes.len()
        invariant
            k <= record.classes@.len(),
            forall|j: int| 0 <= j < k ==> record.classes@[j]@ != c@,
        decreases record.classes@.len() - k,
    {
        let have = chars_of(record.classes[k].as_str());
        if chars_eq(&have, c) {
            return true;
        }
        k = k + 1;
    }
    false
}


/// The classes an element's `class` attribute lists: its
/// whitespace-separated words.
pub open spec fn class_words(attributes: StrMap) -> Seq<Seq<char>> {
    match attributes.get_spec("class"@) {
        Some(c) => words(c),
        None => Seq::empty(),
    }
}

/// The record of one element's cascade: its tag lower-cased, its `id`, the
/// classes of its `class` attribute, and the given declarations and
/// computed values.
pub fn style_record(
    tag_name: &str,
    attributes: &StrMap,
    declarations: Vec<DeclarationRecord>,
    computed: Vec<(String, String)>,
) -> (r: StyleRecord)
    ensures
        r.tag@ == unicode_lowercase(tag_name@),
        match r.id {
            Some(v) => attributes.get_spec("id"@) == Some(v@),
            None => attributes.get_spec("id"@) is None,
        },
        r.classes@.len() == class_words(*attributes).len(),
        forall|i: int| 0 <= i < r.classes@.len() ==> (#[trigger] r.classes@[i])@ == class_words(*attributes)[i],
        r.declarations == declarations,
        r.computed == computed,
{
    let tag_chars = chars_of(tag_name);
    let tag = string_of(&to_lowercase(&tag_chars));
    let id = attributes.get("id");
    let mut classes: Vec<String> = Vec::new();
    match attributes.get("class") {
        Some(c) => {
            let cs = chars_of(c.as_str());
            let ws = split_whitespace(&cs);
            let mut i: usize = 0;
            while i < ws.len()
                invariant
                    i <= ws@.len(),
                    ws@.len() == words(c@).len(),
                    forall|k: int| 0 <= k < ws@.len() ==> #[trigger] ws@[k]@ == words(c@)[k],
                    classes@.len() == i,
                    forall|k: int| 0 <= k < i ==> (#[trigger] classes@[k])@ == words(c@)[k],
                decreases ws@.len() - i,
            {
                classes.push(string_of(&ws[i]));
                i = i + 1;
            }
        },
        None => {},
    }
    StyleRecord { tag, id, classes, declarations, computed }
}

} // verus!
