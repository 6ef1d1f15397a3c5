//! The style report: for each recorded element that a query selects, every
//! property some declaration set, with the declaration that won and those it
//! overrode, and the read-back properties that no declaration set.
use vstd::prelude::*;
use crate::dom::lookup_from;
use crate::style_trace::{
    parse_query, query_matches, DeclarationRecord, SimpleSelector, StyleRecord,
};
use crate::text::{chars_eq, chars_of, string_of};
use crate::cascade::{
    author_decls, element_records, lemma_later_declaration_wins, lists_matches, MatchedRule,
    Stylesheet, ElementContext,
};
use crate::dom::StrMap;
use crate::specificity::gt3;

verus! {

// ---------------------------------------------------------------------------
// Code-point order on strings
// ---------------------------------------------------------------------------

/// `a` sorts before `b` when compared from position `i` on: character by
/// character by code point, a proper prefix first.
pub open spec fn lex_lt_from(a: Seq<char>, b: Seq<char>, i: int) -> bool
    decreases a.len() - i,
{
    if i < 0 || i >= b.len() {
        false
    } else if i >= a.len() {
        true
    } else if a[i] != b[i] {
        a[i] < b[i]
    } else {
        lex_lt_from(a, b, i + 1)
    }
}

/// Code-point order on strings. It is also the byte order of their UTF-8
/// encodings, which is how `str` orders.
pub open spec fn lex_lt(a: Seq<char>, b: Seq<char>) -> bool {
    lex_lt_from(a, b, 0)
}

proof fn lemma_lex_transitive(a: Seq<char>, b: Seq<char>, c: Seq<char>, i: int)
    requires
        0 <= i,
        lex_lt_from(a, b, i),
        lex_lt_from(b, c, i),
    ensures
        lex_lt_from(a, c, i),
    decreases a.len() - i,
{
    if i < a.len() && a[i] == b[i] && b[i] == c[i] {
        lemma_lex_transitive(a, b, c, i + 1);
    }
}

proof fn lemma_lex_total(a: Seq<char>, b: Seq<char>, i: int)
    requires
        0 <= i <= a.len(),
        i <= b.len(),
        !lex_lt_from(a, b, i),
        !lex_lt_from(b, a, i),
    ensures
        a.len() == b.len(),
        forall|k: int| i <= k < a.len() ==> #[trigger] a[k] == b[k],
    decreases a.len() - i,
{
    if i < a.len() && i < b.len() && a[i] == b[i] {
        lemma_lex_total(a, b, i + 1);
    }
}

/// Whether `a` sorts before `b` in code-point order.
fn lex_less(a: &[char], b: &[char]) -> (r: bool)
    ensures
        r == lex_lt(a@, b@),
{
    let mut i: usize = 0;
    while i < a.len() && i < b.len()
        invariant
            i <= a@.len(),
            i <= b@.len(),
            lex_lt(a@, b@) == lex_lt_from(a@, b@, i as int),
        decreases a@.len() - i,
    {
        if a[i] != b[i] {
            return a[i] < b[i];
        }
        i = i + 1;
    }
    i < b.len()
}

// ---------------------------------------------------------------------------
// Declared properties
// ---------------------------------------------------------------------------

/// Whether some declaration in `decls` sets property `p`.
pub open spec fn declares(decls: Seq<DeclarationRecord>, p: Seq<char>) -> bool {
    exists|k: int| 0 <= k < decls.len() && (#[trigger] decls[k]).property@ == p
}

/// Whether `p` is one of the strings of `r`.
pub open spec fn listed(r: Seq<Vec<char>>, p: Seq<char>) -> bool {
    exists|i: int| 0 <= i < r.len() && #[trigger] r[i]@ == p
}

/// The properties set by `decls`, each once, in code-point order.
fn declared_properties(decls: &[DeclarationRecord]) -> (r: Vec<Vec<char>>)
    ensures
        forall|i: int, j: int| 0 <= i < j < r@.len() ==> lex_lt(#[trigger] r@[i]@, #[trigger] r@[j]@),
        forall|i: int| 0 <= i < r@.len() ==> declares(decls@, #[trigger] r@[i]@),
        forall|m: int| 0 <= m < decls@.len() ==> listed(r@, (#[trigger] decls@[m]).property@),
{
    let mut r: Vec<Vec<char>> = Vec::new();
    let mut k: usize = 0;
    while k < decls.len()
        invariant
            k <= decls@.len(),
            forall|i: int, j: int|
                0 <= i < j < r@.len() ==> lex_lt(#[trigger] r@[i]@, #[trigger] r@[j]@),
            forall|i: int| 0 <= i < r@.len() ==> declares(decls@, #[trigger] r@[i]@),
            forall|m: int| 0 <= m < k ==> listed(r@, (#[trigger] decls@[m]).property@),
        decreases decls@.len() - k,
    {
        let p = chars_of(decls[k].property.as_str());
        let mut q: usize = 0;
        while q < r.len() && lex_less(&r[q], &p)
            invariant
                q <= r@.len(),
                forall|t: int| 0 <= t < q ==> lex_lt(#[trigger] r@[t]@, p@),
            decreases r@.len() - q,
        {
            q = q + 1;
        }
        assert(declares(decls@, p@)) by {
            assert(decls@[k as int].property@ == p@);
        }
        if q < r.len() && chars_eq(&r[q], &p) {
            assert(r@[q as int]@ == decls@[k as int].property@);
        } else {
            let ghost before = r@;
            proof {
                if q < before.len() {
                    assert(before[q as int]@ != p@);
                    if !lex_lt(p@, before[q as int]@) {
                        lemma_lex_total(before[q as int]@, p@, 0);
                        assert(before[q as int]@ =~= p@);
                    }
                }
                assert forall|t: int| q <= t < before.len() implies lex_lt(
                    p@,
                    #[trigger] before[t]@,
                ) by {
                    if t > q {
                        lemma_lex_transitive(p@, before[q as int]@, before[t]@, 0);
                    }
                }
            }
            r.insert(q, p);
            proof {
                let after = r@;
                assert(after[q as int]@ == decls@[k as int].property@);
                assert forall|i: int, j: int| 0 <= i < j < after.len() implies lex_lt(
                    #[trigger] after[i]@,
                    #[trigger] after[j]@,
                ) by {
                    if j < q {
                        assert(after[i] == before[i] && after[j] == before[j]);
                    } else if j == q {
                        assert(after[i] == before[i]);
                    } else if i == q {
                        assert(after[j] == before[j - 1]);
                    } else if i < q {
                        assert(after[i] == before[i] && after[j] == before[j - 1]);
                        lemma_lex_transitive(before[i]@, p@, before[j - 1]@, 0);
                    } else {
                        assert(after[i] == before[i - 1] && after[j] == before[j - 1]);
                    }
                }
                assert forall|i: int| 0 <= i < after.len() implies declares(
                    decls@,
                    #[trigger] after[i]@,
                ) by {
                    if i < q {
                        assert(after[i] == before[i]);
                    } else if i > q {
                        assert(after[i] == before[i - 1]);
                    }
                }
                assert forall|m: int| 0 <= m < k + 1 implies listed(
                    after,
                    (#[trigger] decls@[m]).property@,
                ) by {
                    if m == k {
                        assert(after[q as int]@ == decls@[m].property@);
                    } else {
                        let i = choose|i: int|
                            0 <= i < before.len() && #[trigger] before[i]@ == decls@[m].property@;
                        if i < q {
                            assert(after[i] == before[i]);
                        } else {
                            assert(after[i + 1] == before[i]);
                        }
                    }
                }
            }
        }
        k = k + 1;
    }
    r
}


// ---------------------------------------------------------------------------
// Application order within a property
// ---------------------------------------------------------------------------

/// The declaration at position `a` was applied before the one at `b`: it
/// has a lower `order`, or the same order and an earlier position.
pub open spec fn applied_before(decls: Seq<DeclarationRecord>, a: int, b: int) -> bool {
    decls[a].order < decls[b].order || (decls[a].order == decls[b].order && a < b)
}

/// `g` lists the positions of exactly those declarations of `decls` that set
/// `p`, in the order they were applied.
pub open spec fn is_group(decls: Seq<DeclarationRecord>, p: Seq<char>, g: Seq<usize>) -> bool {
    &&& forall|t: int|
        0 <= t < g.len() ==> (#[trigger] g[t]) < decls.len() && decls[g[t] as int].property@ == p
    &&& forall|k: int|
        0 <= k < decls.len() && (#[trigger] decls[k]).property@ == p ==> g.contains(k as usize)
    &&& forall|s: int, t: int|
        0 <= s < t < g.len() ==> applied_before(decls, #[trigger] g[s] as int, #[trigger] g[t] as int)
}

/// The positions of the declarations that set `p`, in application order.
fn group_positions(decls: &[DeclarationRecord], p: &[char]) -> (g: Vec<usize>)
    ensures
        is_group(decls@, p@, g@),
{
    let mut g: Vec<usize> = Vec::new();
    let mut k: usize = 0;
    while k < decls.len()
        invariant
            k <= decls@.len(),
            forall|t: int|
                0 <= t < g@.len() ==> (#[trigger] g@[t]) < k && decls@[g@[t] as int].property@ == p@,
            forall|m: int|
                0 <= m < k && (#[trigger] decls@[m]).property@ == p@ ==> g@.contains(m as usize),
            forall|s: int, t: int|
                0 <= s < t < g@.len() ==> applied_before(
                    decls@,
                    #[trigger] g@[s] as int,
                    #[trigger] g@[t] as int,
                ),
        decreases decls@.len() - k,
    {
        let name = chars_of(decls[k].property.as_str());
        if chars_eq(&name, p) {
            let ord = decls[k].order;
            let mut q: usize = 0;
            while q < g.len() && decls[g[q]].order <= ord
                invariant
                    q <= g@.len(),
                    k < decls@.len(),
                    ord == decls@[k as int].order,
                    forall|t: int| 0 <= t < g@.len() ==> (#[trigger] g@[t]) < k,
                    forall|t: int| 0 <= t < q ==> decls@[(#[trigger] g@[t]) as int].order <= ord,
                decreases g@.len() - q,
            {
                q = q + 1;
            }
            let ghost before = g@;
            proof {
                assert forall|t: int| q <= t < before.len() implies ord < decls@[(
                #[trigger] before[t]) as int].order by {
                    if t > q {
                        assert(applied_before(decls@, before[q as int] as int, before[t] as int));
                    }
                }
            }
            g.insert(q, k);
            proof {
                let after = g@;
                assert(after[q as int] == k);
                assert forall|t: int| 0 <= t < after.len() implies (#[trigger] after[t]) < k + 1
                    && decls@[after[t] as int].property@ == p@ by {
                    if t < q {
                        assert(after[t] == before[t]);
                    } else if t > q {
                        assert(after[t] == before[t - 1]);
                    }
                }
                assert forall|s: int, t: int| 0 <= s < t < after.len() implies applied_before(
                    decls@,
                    #[trigger] after[s] as int,
                    #[trigger] after[t] as int,
                ) by {
                    if t < q {
                        assert(after[s] == before[s] && after[t] == before[t]);
                    } else if t == q {
                        assert(after[s] == before[s]);
                    } else if s == q {
                        assert(after[t] == before[t - 1]);
                    } else if s < q {
                        assert(after[s] == before[s] && after[t] == before[t - 1]);
                    } else {
                        assert(after[s] == before[s - 1] && after[t] == before[t - 1]);
                    }
                }
                assert forall|m: int|
                    0 <= m < k + 1 && (#[trigger] decls@[m]).property@ == p@ implies after.contains(
                    m as usize,
                ) by {
                    if m == k {
                        assert(after[q as int] == m as usize);
                    } else {
                        assert(before.contains(m as usize));
                        let i = choose|i: int| 0 <= i < before.len() && before[i] == m as usize;
                        if i < q {
                            assert(after[i] == before[i]);
                        } else {
                            assert(after[i + 1] == before[i]);
                        }
                    }
                }
            }
        }
        k = k + 1;
    }
    g
}

// ---------------------------------------------------------------------------
// Computed values
// ---------------------------------------------------------------------------

/// The characters of an optional string.
pub open spec fn opt_view(o: Option<String>) -> Option<Seq<char>> {
    match o {
        Some(s) => Some(s@),
        None => None,
    }
}

/// The computed value recorded for `property`: the first entry of
/// `record.computed` under that name.
pub fn computed_value_of_recorded(record: &StyleRecord, property: &str) -> (r: Option<String>)
    ensures
        opt_view(r) == lookup_from(record.computed@, property@, 0),
{
    let want = chars_of(property);
    let mut i: usize = 0;
    while i < record.computed.len()
        invariant
            i <= record.computed@.len(),
            want@ == property@,
            lookup_from(record.computed@, property@, 0) == lookup_from(
                record.computed@,
                property@,
                i as int,
            ),
        decreases record.computed@.len() - i,
    {
        let key = chars_of(record.computed[i].0.as_str());
        if chars_eq(&key, &want) {
            return Some(record.computed[i].1.clone());
        }
        i = i + 1;
    }
    None
}

/// The properties whose computed value is read back off each element's
/// style, in the order the report lists them.
pub open spec fn computed_property_names() -> Seq<Seq<char>> {
    seq![
        "width"@,
        "height"@,
        "padding-top"@,
        "padding-right"@,
        "padding-bottom"@,
        "padding-left"@,
        "margin-top"@,
        "margin-right"@,
        "margin-bottom"@,
        "margin-left"@,
        "font-size"@,
        "font-weight"@,
        "color"@,
        "background-color"@,
        "display"@,
    ]
}

/// The properties whose computed value is read back off each element's
/// style (see `computed_property_names`).
pub fn computed_properties() -> (r: Vec<&'static str>)
    ensures
        r@.len() == computed_property_names().len(),
        forall|i: int| 0 <= i < r@.len() ==> (#[trigger] r@[i])@ == computed_property_names()[i],
{
    let r = vec![
        "width",
        "height",
        "padding-top",
        "padding-right",
        "padding-bottom",
        "padding-left",
        "margin-top",
        "margin-right",
        "margin-bottom",
        "margin-left",
        "font-size",
        "font-weight",
        "color",
        "background-color",
        "display",
    ];
    r
}

/// Whether some declaration in `decls` sets `p`.
fn declares_exec(decls: &[DeclarationRecord], p: &[char]) -> (r: bool)
    ensures
        r == declares(decls@, p@),
{
    let mut k: usize = 0;
    while k < decls.len()
        invariant
            k <= decls@.len(),
            forall|m: int| 0 <= m < k ==> (#[trigger] decls@[m]).property@ != p@,
        decreases decls@.len() - k,
    {
        let name = chars_of(decls[k].property.as_str());
        if chars_eq(&name, p) {
            return true;
        }
        k = k + 1;
    }
    false
}

/// The test that keeps a read-back property that `decls` does not set.
pub open spec fn undeclared_in(decls: Seq<DeclarationRecord>) -> spec_fn(Seq<char>) -> bool {
    |p: Seq<char>| !declares(decls, p)
}

/// The read-back properties that no declaration in `decls` sets, in the
/// order of `computed_property_names`.
pub open spec fn undeclared_names(decls: Seq<DeclarationRecord>) -> Seq<Seq<char>> {
    computed_property_names().filter(undeclared_in(decls))
}


/// The read-back properties that no declaration in `decls` sets, with their
/// computed values from `computed`.
fn undeclared_report(
    decls: &[DeclarationRecord],
    record: &StyleRecord,
) -> (u: Vec<UndeclaredProperty>)
    requires
        decls@ == record.declarations@,
    ensures
        reports_undeclared(*record, u@),
{
    let names = computed_properties();
    let ghost all = computed_property_names();
    let ghost keep = undeclared_in(decls@);
    let mut u: Vec<UndeclaredProperty> = Vec::new();
    let mut i: usize = 0;
    proof {
        reveal(Seq::filter);
        assert(all.take(0) =~= Seq::<Seq<char>>::empty());
    }
    while i < names.len()
        invariant
            i <= names@.len(),
            names@.len() == all.len(),
            all == computed_property_names(),
            keep == undeclared_in(decls@),
            decls@ == record.declarations@,
            forall|t: int| 0 <= t < names@.len() ==> (#[trigger] names@[t])@ == all[t],
            u@.len() == all.take(i as int).filter(keep).len(),
            forall|t: int|
                0 <= t < u@.len() ==> (#[trigger] u@[t]).property@ == all.take(i as int).filter(
                    keep,
                )[t] && opt_view(u@[t].computed) == lookup_from(
                    record.computed@,
                    u@[t].property@,
                    0,
                ),
        decreases names@.len() - i,
    {
        let name = chars_of(names[i]);
        let set = declares_exec(decls, &name);
        proof {
            reveal(Seq::filter);
            assert(all.take(i + 1).drop_last() =~= all.take(i as int));
            assert(all.take(i + 1).last() == name@);
        }
        if !set {
            let computed = computed_value_of_recorded(record, names[i]);
            let property = string_of(&name);
            let ghost before = u@;
            u.push(UndeclaredProperty { property, computed });
            proof {
                assert(all.take(i + 1).filter(keep) == all.take(i as int).filter(keep).push(name@));
                assert forall|t: int| 0 <= t < u@.len() implies (#[trigger] u@[t]).property@
                    == all.take(i + 1).filter(keep)[t] && opt_view(u@[t].computed) == lookup_from(
                    record.computed@,
                    u@[t].property@,
                    0,
                ) by {
                    if t < before.len() {
                        assert(u@[t] == before[t]);
                    }
                }
            }
        } else {
            assert(all.take(i + 1).filter(keep) == all.take(i as int).filter(keep));
        }
        i = i + 1;
    }
    proof {
        assert(all.take(names@.len() as int) =~= all);
    }
    u
}

// ---------------------------------------------------------------------------
// The report
// ---------------------------------------------------------------------------

/// One property that some declaration of the element set.
#[derive(Debug)]
pub struct PropertyReport {
    pub property: String,
    /// The computed value read back for it, if the engine reads it back.
    pub computed: Option<String>,
    /// Position, among the element's declarations, of the one applied last:
    /// the one that took effect.
    pub winner: usize,
    /// Positions of the declarations it overrode, in application order.
    pub overridden: Vec<usize>,
}

/// A read-back property that no declaration of the element set: its value
/// comes from the user-agent defaults or the initial value.
#[derive(Debug)]
pub struct UndeclaredProperty {
    pub property: String,
    pub computed: Option<String>,
}

/// The report on one recorded element.
#[derive(Debug)]
pub struct ElementReport {
    /// Position of the element's record in the trace.
    pub record: usize,
    /// The properties its declarations set, in code-point order.
    pub declared: Vec<PropertyReport>,
    /// The read-back properties none of them set.
    pub undeclared: Vec<UndeclaredProperty>,
}

/// Whether some entry of `d` reports property `p`.
pub open spec fn reported(d: Seq<PropertyReport>, p: Seq<char>) -> bool {
    exists|i: int| 0 <= i < d.len() && (#[trigger] d[i]).property@ == p
}

/// `d` reports each property that a declaration of `rec` sets, once, in
/// code-point order, with the declarations that set it in application order
/// (all but the last overridden, the last the winner) and its computed value.
pub open spec fn reports_declared(rec: StyleRecord, d: Seq<PropertyReport>) -> bool {
    let decls = rec.declarations@;
    &&& forall|i: int, j: int|
        0 <= i < j < d.len() ==> lex_lt(#[trigger] d[i].property@, #[trigger] d[j].property@)
    &&& forall|m: int| 0 <= m < decls.len() ==> reported(d, (#[trigger] decls[m]).property@)
    &&& forall|i: int|
        0 <= i < d.len() ==> is_group(
            decls,
            (#[trigger] d[i]).property@,
            d[i].overridden@.push(d[i].winner),
        )
    &&& forall|i: int|
        0 <= i < d.len() ==> opt_view((#[trigger] d[i]).computed) == lookup_from(
            rec.computed@,
            d[i].property@,
            0,
        )
}

/// `u` lists the read-back properties that no declaration of `rec` sets, in
/// order, with their computed values.
pub open spec fn reports_undeclared(rec: StyleRecord, u: Seq<UndeclaredProperty>) -> bool {
    &&& u.len() == undeclared_names(rec.declarations@).len()
    &&& forall|t: int|
        0 <= t < u.len() ==> (#[trigger] u[t]).property@ == undeclared_names(
            rec.declarations@,
        )[t] && opt_view(u[t].computed) == lookup_from(rec.computed@, u[t].property@, 0)
}

/// The declared-property part of the report on `record`.
fn declared_report(record: &StyleRecord) -> (d: Vec<PropertyReport>)
    ensures
        reports_declared(*record, d@),
{
    let decls = record.declarations.as_slice();
    let props = declared_properties(decls);
    let mut d: Vec<PropertyReport> = Vec::new();
    let mut i: usize = 0;
    while i < props.len()
        invariant
            i <= props@.len(),
            decls@ == record.declarations@,
            forall|a: int, b: int|
                0 <= a < b < props@.len() ==> lex_lt(#[trigger] props@[a]@, #[trigger] props@[b]@),
            forall|a: int| 0 <= a < props@.len() ==> declares(decls@, #[trigger] props@[a]@),
            d@.len() == i,
            forall|t: int|
                0 <= t < i ==> (#[trigger] d@[t]).property@ == props@[t]@ && is_group(
                    decls@,
                    d@[t].property@,
                    d@[t].overridden@.push(d@[t].winner),
                ) && opt_view(d@[t].computed) == lookup_from(record.computed@, d@[t].property@, 0),
        decreases props@.len() - i,
    {
        let mut g = group_positions(decls, &props[i]);
        proof {
            let k = choose|k: int| 0 <= k < decls@.len() && (#[trigger] decls@[k]).property@
                == props@[i as int]@;
            assert(g@.contains(k as usize));
        }
        let ghost whole = g@;
        let winner = g.pop().unwrap();
        assert(g@.push(winner) =~= whole);
        let property = string_of(&props[i]);
        let computed = computed_value_of_recorded(record, property.as_str());
        let ghost before = d@;
        d.push(PropertyReport { property, computed, winner, overridden: g });
        proof {
            assert forall|t: int| 0 <= t < i + 1 implies (#[trigger] d@[t]).property@
                == props@[t]@ && is_group(
                decls@,
                d@[t].property@,
                d@[t].overridden@.push(d@[t].winner),
            ) && opt_view(d@[t].computed) == lookup_from(record.computed@, d@[t].property@, 0) by {
                if t < i {
                    assert(d@[t] == before[t]);
                }
            }
        }
        i = i + 1;
    }
    proof {
        assert forall|m: int| 0 <= m < decls@.len() implies reported(
            d@,
            (#[trigger] decls@[m]).property@,
        ) by {
            assert(listed(props@, decls@[m].property@));
            let a = choose|a: int| 0 <= a < props@.len() && #[trigger] props@[a]@ == decls@[m].property@;
            assert(d@[a].property@ == decls@[m].property@);
        }
        assert forall|a: int, b: int| 0 <= a < b < d@.len() implies lex_lt(
            #[trigger] d@[a].property@,
            #[trigger] d@[b].property@,
        ) by {
            assert(d@[a].property@ == props@[a]@ && d@[b].property@ == props@[b]@);
        }
    }
    d
}

/// The report on `record`, which stands at position `index` of the trace.
pub fn element_report(record: &StyleRecord, index: usize) -> (r: ElementReport)
    ensures
        r.record == index,
        reports_declared(*record, r.declared@),
        reports_undeclared(*record, r.undeclared@),
{
    let declared = declared_report(record);
    let undeclared = undeclared_report(record.declarations.as_slice(), record);
    ElementReport { record: index, declared, undeclared }
}

/// `reps` reports exactly the records of `trace` that query `q` matches, in
/// trace order.
pub open spec fn selects(trace: Seq<StyleRecord>, q: crate::style_trace::SimpleSelectorView, reps: Seq<ElementReport>) -> bool {
    &&& forall|i: int|
        0 <= i < reps.len() ==> (#[trigger] reps[i]).record < trace.len() && query_matches(
            q,
            trace[reps[i].record as int],
        )
    &&& forall|i: int, j: int|
        0 <= i < j < reps.len() ==> (#[trigger] reps[i]).record < (#[trigger] reps[j]).record
    &&& forall|k: int|
        0 <= k < trace.len() && query_matches(q, #[trigger] trace[k]) ==> exists|i: int|
            0 <= i < reps.len() && reps[i].record == k
}

/// The style report for the records of `trace` that `selector` selects:
/// `None` when `selector` is not a simple selector (see `parse_query`),
/// else one report per selected record, in trace order.
pub fn style_report(trace: &[StyleRecord], selector: &str) -> (r: Option<Vec<ElementReport>>)
    ensures
        r is None <==> parse_query(selector@) is None,
        r matches Some(reps) ==> selects(trace@, parse_query(selector@)->0, reps@) && forall|i: int|
            0 <= i < reps@.len() ==> reports_declared(
                trace@[(#[trigger] reps@[i]).record as int],
                reps@[i].declared@,
            ) && reports_undeclared(trace@[reps@[i].record as int], reps@[i].undeclared@),
{
    let query = match SimpleSelector::parse(selector) {
        Some(q) => q,
        None => {
            return None;
        },
    };
    let ghost q = query@;
    let mut reps: Vec<ElementReport> = Vec::new();
    let mut k: usize = 0;
    while k < trace.len()
        invariant
            k <= trace@.len(),
            parse_query(selector@) == Some(q),
            query@ == q,
            forall|i: int|
                0 <= i < reps@.len() ==> (#[trigger] reps@[i]).record < k && query_matches(
                    q,
                    trace@[reps@[i].record as int],
                ),
            forall|i: int, j: int|
                0 <= i < j < reps@.len() ==> (#[trigger] reps@[i]).record < (
                #[trigger] reps@[j]).record,
            forall|m: int|
                0 <= m < k && query_matches(q, #[trigger] trace@[m]) ==> exists|i: int|
                    0 <= i < reps@.len() && reps@[i].record == m,
            forall|i: int|
                0 <= i < reps@.len() ==> reports_declared(
                    trace@[(#[trigger] reps@[i]).record as int],
                    reps@[i].declared@,
                ) && reports_undeclared(trace@[reps@[i].record as int], reps@[i].undeclared@),
        decreases trace@.len() - k,
    {
        if query.matches(&trace[k]) {
            let rep = element_report(&trace[k], k);
            let ghost before = reps@;
            reps.push(rep);
            proof {
                assert(reps@[before.len() as int] == rep);
                assert forall|m: int|
                    0 <= m < k + 1 && query_matches(q, #[trigger] trace@[m]) implies exists|i: int|
                    0 <= i < reps@.len() && reps@[i].record == m by {
                    if m == k {
                        assert(reps@[before.len() as int].record == m);
                    } else {
                        let i = choose|i: int| 0 <= i < before.len() && before[i].record == m;
                        assert(reps@[i] == before[i]);
                    }
                }
                assert forall|i: int| 0 <= i < reps@.len() implies (#[trigger] reps@[i]).record < k
                    + 1 && query_matches(q, trace@[reps@[i].record as int]) by {
                    if i < before.len() {
                        assert(reps@[i] == before[i]);
                    }
                }
                assert forall|i: int, j: int| 0 <= i < j < reps@.len() implies (
                #[trigger] reps@[i]).record < (#[trigger] reps@[j]).record by {
                    assert(reps@[i] == before[i] || i == before.len());
                    if j < before.len() {
                        assert(reps@[j] == before[j]);
                    }
                }
                assert forall|i: int| 0 <= i < reps@.len() implies reports_declared(
                    trace@[(#[trigger] reps@[i]).record as int],
                    reps@[i].declared@,
                ) && reports_undeclared(trace@[reps@[i].record as int], reps@[i].undeclared@) by {
                    if i < before.len() {
                        assert(reps@[i] == before[i]);
                    }
                }
            }
        }
        k = k + 1;
    }
    Some(reps)
}

/// How a declaration's specificity is reported.
#[derive(Debug, PartialEq, Eq, Structural)]
pub enum ReportedSpecificity {
    /// An inline `style=` declaration, which outranks every selector.
    Inline,
    /// `(ids, classes, tags)` of the rule's selector.
    Selector(usize, usize, usize),
}

/// How `d`'s specificity is reported: `(usize::MAX, _, _)` marks an inline
/// declaration.
pub fn reported_specificity(d: &DeclarationRecord) -> (r: ReportedSpecificity)
    ensures
        d.specificity.0 == usize::MAX ==> r == ReportedSpecificity::Inline,
        d.specificity.0 != usize::MAX ==> r == ReportedSpecificity::Selector(
            d.specificity.0,
            d.specificity.1,
            d.specificity.2,
        ),
{
    let (a, b, c) = d.specificity;
    if a == usize::MAX {
        ReportedSpecificity::Inline
    } else {
        ReportedSpecificity::Selector(a, b, c)
    }
}


// ---------------------------------------------------------------------------
// Laws
// ---------------------------------------------------------------------------

/// The reported winner of a property is the declaration of that property
/// applied last: every other declaration that sets it is listed as
/// overridden and was applied before it.
pub proof fn lemma_winner_applied_last(rec: StyleRecord, d: Seq<PropertyReport>, i: int, k: int)
    requires
        reports_declared(rec, d),
        0 <= i < d.len(),
        0 <= k < rec.declarations@.len(),
        rec.declarations@[k].property@ == d[i].property@,
        k != d[i].winner,
    ensures
        d[i].overridden@.contains(k as usize),
        applied_before(rec.declarations@, k, d[i].winner as int),
        rec.declarations@[k].order <= rec.declarations@[d[i].winner as int].order,
{
    let g = d[i].overridden@.push(d[i].winner);
    assert(is_group(rec.declarations@, d[i].property@, g));
    assert(rec.declarations@.len() == rec.declarations.len());
    assert(g.contains(k as usize));
    assert(g[g.len() - 1] == d[i].winner);
    let t = choose|t: int| 0 <= t < g.len() && g[t] == k as usize;
    assert(t != g.len() - 1);
    assert(g[t] == d[i].overridden@[t]);
    assert(applied_before(rec.declarations@, g[t] as int, g[g.len() - 1] as int));
}

/// A property is never both reported as declared and listed as undeclared.
pub proof fn lemma_declared_undeclared_disjoint(
    rec: StyleRecord,
    d: Seq<PropertyReport>,
    u: Seq<UndeclaredProperty>,
    i: int,
    j: int,
)
    requires
        reports_declared(rec, d),
        reports_undeclared(rec, u),
        0 <= i < d.len(),
        0 <= j < u.len(),
    ensures
        d[i].property@ != u[j].property@,
{
    let decls = rec.declarations@;
    let g = d[i].overridden@.push(d[i].winner);
    assert(is_group(decls, d[i].property@, g));
    assert(g[g.len() - 1] == d[i].winner);
    assert(declares(decls, d[i].property@)) by {
        assert(decls[d[i].winner as int].property@ == d[i].property@);
    }
    let names = computed_property_names();
    let keep = undeclared_in(decls);
    broadcast use vstd::seq_lib::group_filter_ensures;
    assert(keep(names.filter(keep)[j]));
}

/// What the report says of a cascade: when an element's records are those
/// the cascade keeps (`element_declarations`), the winner of each property
/// outranks every declaration it overrode. An inline declaration is only
/// ever overridden by a later inline declaration; and when the winner comes
/// from a rule, so does the overridden declaration, and its specificity is
/// no greater than the winner's.
pub proof fn lemma_report_winner_outranks(
    sheets: Seq<Stylesheet>,
    cx: ElementContext,
    ms: Seq<MatchedRule>,
    vars: StrMap,
    inline: Seq<(Seq<char>, Seq<char>)>,
    rec: StyleRecord,
    d: Seq<PropertyReport>,
    i: int,
    t: int,
)
    requires
        lists_matches(sheets, cx, ms),
        element_records(rec.declarations@, sheets, ms, vars, inline),
        reports_declared(rec, d),
        0 <= i < d.len(),
        0 <= t < d[i].overridden@.len(),
    ensures
        ({
            let w = rec.declarations@[d[i].winner as int];
            let o = rec.declarations@[d[i].overridden@[t] as int];
            &&& o.order < w.order
            &&& o.origin == "author-inline" ==> w.origin == "author-inline"
            &&& w.origin == "author" ==> o.origin == "author" && !gt3(
                (o.specificity.0 as int, o.specificity.1 as int, o.specificity.2 as int),
                (w.specificity.0 as int, w.specificity.1 as int, w.specificity.2 as int),
            )
        }),
{
    reveal_strlit("author");
    reveal_strlit("author-inline");
    assert("author"@.len() == 6);
    assert("author-inline"@.len() == 13);
    let decls = rec.declarations@;
    let a = author_decls(sheets, ms, ms.len() as int);
    let g = d[i].overridden@.push(d[i].winner);
    assert(is_group(decls, d[i].property@, g));
    let po = g[t] as int;
    let pw = g[g.len() - 1] as int;
    assert(g[t] == d[i].overridden@[t]);
    assert(pw == d[i].winner);
    assert(applied_before(decls, po, pw));
    assert(0 <= po < decls.len() && 0 <= pw < decls.len());
    // Each record's order is its position.
    if po < a.len() {
        assert(decls[po].order == po);
    } else {
        assert(decls[a.len() + (po - a.len())].order == po);
    }
    if pw < a.len() {
        assert(decls[pw].order == pw);
    } else {
        assert(decls[a.len() + (pw - a.len())].order == pw);
    }
    assert(po < pw);
    if pw < a.len() {
        lemma_later_declaration_wins(sheets, ms, po, pw);
    } else {
        assert(decls[a.len() + (pw - a.len())].origin == "author-inline");
        if po >= a.len() {
            assert(decls[a.len() + (po - a.len())].origin == "author-inline");
        }
        assert(decls[pw].origin@ != "author"@);
    }
    if po >= a.len() {
        assert(decls[a.len() + (po - a.len())].origin == "author-inline");
    } else {
        assert(decls[po].origin == "author");
        assert(decls[po].origin@ != "author-inline"@);
    }
}

} // verus!
