//! The plain-value view of a DOM element that the selector, identity and
//! form logic reads: an attribute list, and a child summary.
use vstd::prelude::*;
use crate::text::{chars_eq, chars_of};

verus! {

/// A map from strings to strings, kept as a list of `(name, value)` pairs:
/// element attributes, CSS custom properties.
///
/// Lookup returns the first pair with the requested name; `insert` replaces
/// that pair or appends a new one, so the list behaves as a map.
#[derive(Debug, Clone)]
pub struct StrMap {
    pub entries: Vec<(String, String)>,
}

/// The attribute map of an element.
pub type Attributes = StrMap;

/// The value of the first entry at or after `i` whose name is `name`.
pub open spec fn lookup_from(e: Seq<(String, String)>, name: Seq<char>, i: int) -> Option<
    Seq<char>,
>
    decreases e.len() - i,
{
    if i < 0 || i >= e.len() {
        None
    } else if e[i].0@ == name {
        Some(e[i].1@)
    } else {
        lookup_from(e, name, i + 1)
    }
}

/// Index of the first entry at or after `i` whose name is `name`.
pub open spec fn index_from(e: Seq<(String, String)>, name: Seq<char>, i: int) -> Option<int>
    decreases e.len() - i,
{
    if i < 0 || i >= e.len() {
        None
    } else if e[i].0@ == name {
        Some(i)
    } else {
        index_from(e, name, i + 1)
    }
}

proof fn lemma_index_lookup(e: Seq<(String, String)>, name: Seq<char>, i: int)
    requires
        0 <= i <= e.len(),
    ensures
        match index_from(e, name, i) {
            Some(k) => i <= k < e.len() && e[k].0@ == name && lookup_from(e, name, i) == Some(
                e[k].1@,
            ) && forall|j: int| i <= j < k ==> e[j].0@ != name,
            None => lookup_from(e, name, i) is None && forall|j: int|
                i <= j < e.len() ==> e[j].0@ != name,
        },
    decreases e.len() - i,
{
    if i < e.len() && e[i].0@ != name {
        lemma_index_lookup(e, name, i + 1);
    }
}

proof fn lemma_lookup_prefix_free(
    e: Seq<(String, String)>,
    f: Seq<(String, String)>,
    name: Seq<char>,
    i: int,
)
    requires
        0 <= i <= e.len(),
        e.len() == f.len(),
        forall|j: int| i <= j < e.len() ==> (e[j].0@ == name <==> f[j].0@ == name),
        forall|j: int| i <= j < e.len() && e[j].0@ == name ==> e[j].1@ == f[j].1@,
    ensures
        lookup_from(e, name, i) == lookup_from(f, name, i),
    decreases e.len() - i,
{
    if i < e.len() {
        lemma_lookup_prefix_free(e, f, name, i + 1);
    }
}

impl StrMap {
    /// The value stored under `name`, if any.
    pub open spec fn get_spec(&self, name: Seq<char>) -> Option<Seq<char>> {
        lookup_from(self.entries@, name, 0)
    }

    /// An empty attribute map.
    pub fn new() -> (r: Self)
        ensures
            forall|n: Seq<char>| r.get_spec(n) is None,
    {
        StrMap { entries: Vec::new() }
    }

    /// Index of the entry named `name`.
    fn position(&self, name: &[char]) -> (r: Option<usize>)
        ensures
            r matches Some(k) ==> index_from(self.entries@, name@, 0) == Some(k as int),
            r is None ==> index_from(self.entries@, name@, 0) is None,
    {
        let mut i: usize = 0;
        while i < self.entries.len()
            invariant
                i <= self.entries@.len(),
                index_from(self.entries@, name@, 0) == index_from(self.entries@, name@, i as int),
            decreases self.entries@.len() - i,
        {
            let key = chars_of(self.entries[i].0.as_str());
            if chars_eq(&key, name) {
                return Some(i);
            }
            i = i + 1;
        }
        None
    }

    /// The value stored under `name`, as characters.
    pub fn get_chars(&self, name: &[char]) -> (r: Option<Vec<char>>)
        ensures
            r matches Some(v) ==> self.get_spec(name@) == Some(v@),
            r is None ==> self.get_spec(name@) is None,
    {
        proof {
            lemma_index_lookup(self.entries@, name@, 0);
        }
        match self.position(name) {
            Some(k) => Some(chars_of(self.entries[k].1.as_str())),
            None => None,
        }
    }

    /// The value stored under `name`.
    pub fn get(&self, name: &str) -> (r: Option<String>)
        ensures
            r matches Some(v) ==> self.get_spec(name@) == Some(v@),
            r is None ==> self.get_spec(name@) is None,
    {
        let n = chars_of(name);
        proof {
            lemma_index_lookup(self.entries@, name@, 0);
        }
        match self.position(&n) {
            Some(k) => Some(self.entries[k].1.clone()),
            None => None,
        }
    }

    /// Whether a value is stored under `name`.
    pub fn contains_key_chars(&self, name: &[char]) -> (r: bool)
        ensures
            r == self.get_spec(name@) is Some,
    {
        proof {
            lemma_index_lookup(self.entries@, name@, 0);
        }
        self.position(name).is_some()
    }

    /// Whether a value is stored under `name`.
    pub fn contains_key(&self, name: &str) -> (r: bool)
        ensures
            r == self.get_spec(name@) is Some,
    {
        let n = chars_of(name);
        self.contains_key_chars(&n)
    }

    /// Stores `value` under `name`, replacing any previous value.
    pub fn insert(&mut self, name: &str, value: &str)
        ensures
            final(self).get_spec(name@) == Some(value@),
            forall|n: Seq<char>| n != name@ ==> final(self).get_spec(n) == old(self).get_spec(n),
    {
        let n = chars_of(name);
        proof {
            lemma_index_lookup(self.entries@, name@, 0);
        }
        match self.position(&n) {
            Some(k) => {
                let ghost before = self.entries@;
                self.entries.set(k, (name.to_owned(), value.to_owned()));
                proof {
                    let after = self.entries@;
                    lemma_index_lookup(after, name@, 0);
                    assert(index_from(after, name@, 0) == Some(k as int)) by {
                        lemma_index_first(after, name@, k as int);
                    }
                    assert forall|m: Seq<char>| m != name@ implies lookup_from(after, m, 0)
                        == lookup_from(before, m, 0) by {
                        lemma_lookup_prefix_free(after, before, m, 0);
                    }
                }
            },
            None => {
                let ghost before = self.entries@;
                self.entries.push((name.to_owned(), value.to_owned()));
                proof {
                    let after = self.entries@;
                    lemma_index_first(after, name@, before.len() as int);
                    lemma_index_lookup(after, name@, 0);
                    assert forall|m: Seq<char>| m != name@ implies lookup_from(after, m, 0)
                        == lookup_from(before, m, 0) by {
                        lemma_lookup_push(before, after, m, 0);
                    }
                }
            },
        }
    }
}

proof fn lemma_index_first(e: Seq<(String, String)>, name: Seq<char>, k: int)
    requires
        0 <= k < e.len(),
        e[k].0@ == name,
        forall|j: int| 0 <= j < k ==> e[j].0@ != name,
    ensures
        index_from(e, name, 0) == Some(k),
{
    lemma_index_first_from(e, name, k, 0);
}

proof fn lemma_index_first_from(e: Seq<(String, String)>, name: Seq<char>, k: int, i: int)
    requires
        0 <= i <= k < e.len(),
        e[k].0@ == name,
        forall|j: int| i <= j < k ==> e[j].0@ != name,
    ensures
        index_from(e, name, i) == Some(k),
    decreases k - i,
{
    if i < k {
        lemma_index_first_from(e, name, k, i + 1);
    }
}

proof fn lemma_lookup_push(
    before: Seq<(String, String)>,
    after: Seq<(String, String)>,
    m: Seq<char>,
    i: int,
)
    requires
        0 <= i <= before.len(),
        after.len() == before.len() + 1,
        forall|j: int| 0 <= j < before.len() ==> after[j] == before[j],
        after.last().0@ != m,
    ensures
        lookup_from(after, m, i) == lookup_from(before, m, i),
    decreases before.len() - i,
{
    if i < before.len() {
        lemma_lookup_push(before, after, m, i + 1);
    } else {
        assert(after[i] == after.last());
        assert(lookup_from(after, m, i + 1) is None);
    }
}

/// A child of a DOM node, as far as element identity is concerned.
#[derive(Debug, Clone)]
pub enum ChildSummary {
    /// An element, with its tag name as written and its attributes.
    Element { tag_name: String, attributes: Attributes },
    /// A text, comment or other non-element node.
    Other,
}

} // verus!
