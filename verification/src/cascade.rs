//! The stylesheet model the cascade reads, CSS custom properties
//! (collection from `:root` rules and `var()` substitution), and the
//! provenance records for inline `style=` declarations.
use vstd::prelude::*;
use crate::dom::StrMap;
use crate::style_trace::DeclarationRecord;
use crate::text::{
    chars_eq_str, chars_of, ends_with, ends_with_exec, find_exec, find_from, occurs_at, push_all,
    slice_vec, starts_with, starts_with_exec, string_of, to_lowercase, trim, trim_suffixes,
    trim_suffixes_exec, trimmed, unicode_lowercase,
};
use crate::dom::Attributes;
use crate::tokens::{split_on, split_on_char};
use crate::matching::{selector_defined, selector_matches, selector_matches_spec, ElementSummary};
use crate::specificity::{gt3, selector_specificity, specificity_defined, specificity_spec};

verus! {

/// A declared value.
#[derive(Debug, Clone)]
pub enum PropertyValue {
    Specified(String),
    Inherit,
    Initial,
}

/// One declaration of a rule.
#[derive(Debug, Clone)]
pub struct Declaration {
    pub property: String,
    pub value: PropertyValue,
    pub important: bool,
}

/// A style rule: a selector and its declarations.
#[derive(Debug, Clone)]
pub struct Rule {
    pub selector: String,
    pub declarations: Vec<Declaration>,
}

/// A parsed stylesheet.
#[derive(Debug, Clone)]
pub struct Stylesheet {
    pub rules: Vec<Rule>,
}

// ---------------------------------------------------------------------------
// Custom properties from :root
// ---------------------------------------------------------------------------

/// The text a declared value contributes as a custom-property value.
pub open spec fn value_text(v: PropertyValue) -> Seq<char> {
    match v {
        PropertyValue::Specified(s) => s@,
        PropertyValue::Inherit => "inherit"@,
        PropertyValue::Initial => "initial"@,
    }
}

/// The `(name, value)` custom properties a rule defines, in order: only a
/// rule whose trimmed selector is `:root` defines any, and only through
/// properties starting with `--`.
pub open spec fn rule_vars(r: Rule, n: int) -> Seq<(Seq<char>, Seq<char>)>
    decreases n,
{
    if n <= 0 || !(trim(r.selector@) == ":root"@) {
        Seq::empty()
    } else {
        let d = r.declarations@[n - 1];
        let prev = rule_vars(r, n - 1);
        if starts_with(d.property@, "--"@) {
            prev.push((d.property@, value_text(d.value)))
        } else {
            prev
        }
    }
}

/// The custom properties of the first `n` rules of a stylesheet.
pub open spec fn sheet_vars(s: Stylesheet, n: int) -> Seq<(Seq<char>, Seq<char>)>
    decreases n,
{
    if n <= 0 {
        Seq::empty()
    } else {
        sheet_vars(s, n - 1) + rule_vars(s.rules@[n - 1], s.rules@[n - 1].declarations@.len() as int)
    }
}

/// The custom properties of the first `n` stylesheets.
pub open spec fn all_vars(sheets: Seq<Stylesheet>, n: int) -> Seq<(Seq<char>, Seq<char>)>
    decreases n,
{
    if n <= 0 {
        Seq::empty()
    } else {
        all_vars(sheets, n - 1) + sheet_vars(sheets[n - 1], sheets[n - 1].rules@.len() as int)
    }
}

/// The value of the last definition of `name` in `pairs`.
pub open spec fn last_value(pairs: Seq<(Seq<char>, Seq<char>)>, name: Seq<char>) -> Option<
    Seq<char>,
>
    decreases pairs.len(),
{
    if pairs.len() == 0 {
        None
    } else if pairs.last().0 == name {
        Some(pairs.last().1)
    } else {
        last_value(pairs.drop_last(), name)
    }
}

proof fn lemma_last_value_concat_push(
    a: Seq<(Seq<char>, Seq<char>)>,
    b: Seq<(Seq<char>, Seq<char>)>,
    x: (Seq<char>, Seq<char>),
)
    ensures
        (a + b.push(x)) == (a + b).push(x),
{
    assert((a + b.push(x)) =~= (a + b).push(x));
}

/// Collects the custom properties (`--name: value`) declared in `:root`
/// rules; a later definition replaces an earlier one.
pub fn extract_css_variables(stylesheets: &[Stylesheet]) -> (vars: StrMap)
    ensures
        forall|name: Seq<char>|
            #[trigger] vars.get_spec(name) == last_value(
                all_vars(stylesheets@, stylesheets@.len() as int),
                name,
            ),
{
    let mut vars = StrMap::new();
    let mut i: usize = 0;
    while i < stylesheets.len()
        invariant
            i <= stylesheets@.len(),
            forall|name: Seq<char>|
                #[trigger] vars.get_spec(name) == last_value(all_vars(stylesheets@, i as int), name),
        decreases stylesheets@.len() - i,
    {
        let sheet = &stylesheets[i];
        let ghost base = all_vars(stylesheets@, i as int);
        let mut j: usize = 0;
        assert(base + sheet_vars(*sheet, 0) =~= base);
        while j < sheet.rules.len()
            invariant
                j <= sheet.rules@.len(),
                forall|name: Seq<char>|
                    #[trigger] vars.get_spec(name) == last_value(
                        base + sheet_vars(*sheet, j as int),
                        name,
                    ),
            decreases sheet.rules@.len() - j,
        {
            let rule = &sheet.rules[j];
            let ghost before = base + sheet_vars(*sheet, j as int);
            let sel = chars_of(rule.selector.as_str());
            let st = trimmed(&sel);
            let is_root = chars_eq_str(&st, ":root");
            let mut k: usize = 0;
            assert(before + rule_vars(*rule, 0) =~= before);
            while k < rule.declarations.len()
                invariant
                    k <= rule.declarations@.len(),
                    is_root == (trim(rule.selector@) == ":root"@),
                    forall|name: Seq<char>|
                        #[trigger] vars.get_spec(name) == last_value(
                            before + rule_vars(*rule, k as int),
                            name,
                        ),
                decreases rule.declarations@.len() - k,
            {
                let d = &rule.declarations[k];
                let pc = chars_of(d.property.as_str());
                let dash = chars_of("--");
                if is_root && starts_with_exec(&pc, &dash) {
                    let value: String = match &d.value {
                        PropertyValue::Specified(s) => s.clone(),
                        PropertyValue::Inherit => "inherit".to_owned(),
                        PropertyValue::Initial => "initial".to_owned(),
                    };
                    let ghost pair = (d.property@, value_text(d.value));
                    assert(value@ == value_text(d.value));
                    let ghost old_vars = vars;
                    vars.insert(d.property.as_str(), value.as_str());
                    proof {
                        lemma_last_value_concat_push(before, rule_vars(*rule, k as int), pair);
                        assert(rule_vars(*rule, k + 1) == rule_vars(*rule, k as int).push(pair));
                        let prev = before + rule_vars(*rule, k as int);
                        assert(before + rule_vars(*rule, k + 1) == prev.push(pair));
                        assert forall|name: Seq<char>| #[trigger]
                            vars.get_spec(name) == last_value(
                                before + rule_vars(*rule, k + 1),
                                name,
                            ) by {
                            assert(prev.push(pair).drop_last() =~= prev);
                            if name != d.property@ {
                                assert(old_vars.get_spec(name) == last_value(prev, name));
                            }
                        }
                    }
                } else {
                    assert(rule_vars(*rule, k + 1) == rule_vars(*rule, k as int));
                }
                k = k + 1;
            }
            proof {
                assert(base + sheet_vars(*sheet, j + 1) =~= before + rule_vars(
                    *rule,
                    rule.declarations@.len() as int,
                ));
            }
            j = j + 1;
        }
        proof {
            assert(all_vars(stylesheets@, i + 1) =~= base + sheet_vars(
                *sheet,
                sheet.rules@.len() as int,
            ));
        }
        i = i + 1;
    }
    vars
}

// ---------------------------------------------------------------------------
// var() substitution
// ---------------------------------------------------------------------------

/// One substitution step: the first `var(` that has a closing `)` after it
/// is replaced by the variable's value, else by the fallback after the
/// first comma, else by nothing. `None` when no `var(` is left, or the first
/// one is unclosed.
pub open spec fn var_step(v: Seq<char>, vars: StrMap) -> Option<Seq<char>> {
    match find_from(v, "var("@, 0) {
        None => None,
        Some(start) => {
            let after = v.subrange(start + 4, v.len() as int);
            match find_from(after, seq![')'], 0) {
                None => None,
                Some(end) => {
                    let content = after.subrange(0, end);
                    let name = match find_from(content, seq![','], 0) {
                        Some(c) => trim(content.subrange(0, c)),
                        None => trim(content),
                    };
                    let fallback = match find_from(content, seq![','], 0) {
                        Some(c) => Some(trim(content.subrange(c + 1, content.len() as int))),
                        None => None,
                    };
                    let repl = match vars.get_spec(name) {
                        Some(x) => x,
                        None => match fallback {
                            Some(f) => f,
                            None => Seq::empty(),
                        },
                    };
                    Some(v.subrange(0, start) + repl + after.subrange(end + 1, after.len() as int))
                },
            }
        },
    }
}

/// The result of repeating `var_step` until it stops, if that takes at most
/// `fuel` steps.
pub open spec fn resolve_within(v: Seq<char>, vars: StrMap, fuel: nat) -> Option<Seq<char>>
    decreases fuel,
{
    match var_step(v, vars) {
        None => Some(v),
        Some(next) => if fuel == 0 {
            None
        } else {
            resolve_within(next, vars, (fuel - 1) as nat)
        },
    }
}

/// Whether repeated substitution in `v` comes to an end (it does not when a
/// variable's value refers to itself).
pub open spec fn resolves(v: Seq<char>, vars: StrMap) -> bool {
    exists|fuel: nat| #[trigger] resolve_within(v, vars, fuel) is Some
}

/// The fully substituted value of `v`, when substitution ends.
pub open spec fn resolved(v: Seq<char>, vars: StrMap) -> Seq<char> {
    resolve_within(v, vars, choose|fuel: nat| #[trigger] resolve_within(v, vars, fuel) is Some)->0
}

/// Substitution reaches the same result whatever fuel suffices.
pub proof fn lemma_resolve_unique(v: Seq<char>, vars: StrMap, f1: nat, f2: nat)
    requires
        resolve_within(v, vars, f1) is Some,
        resolve_within(v, vars, f2) is Some,
    ensures
        resolve_within(v, vars, f1) == resolve_within(v, vars, f2),
    decreases f1,
{
    match var_step(v, vars) {
        None => {},
        Some(next) => {
            lemma_resolve_unique(next, vars, (f1 - 1) as nat, (f2 - 1) as nat);
        },
    }
}

/// Substitution stops only where no step applies: its result holds no
/// `var(` with a closing `)` after it.
pub proof fn lemma_resolved_is_final(v: Seq<char>, vars: StrMap, fuel: nat)
    requires
        resolve_within(v, vars, fuel) is Some,
    ensures
        var_step(resolve_within(v, vars, fuel)->0, vars) is None,
    decreases fuel,
{
    match var_step(v, vars) {
        None => {},
        Some(next) => {
            lemma_resolved_is_final(next, vars, (fuel - 1) as nat);
        },
    }
}

/// The first `c` in `s` at or after `i` is at `j` when `s[j]` is `c` and
/// no character in between is.
proof fn lemma_find_char_at(s: Seq<char>, c: char, i: int, j: int)
    requires
        0 <= i <= j < s.len(),
        s[j] == c,
        forall|k: int| i <= k < j ==> s[k] != c,
    ensures
        find_from(s, seq![c], i) == Some(j),
    decreases j - i,
{
    if i == j {
        assert(s.subrange(i, i + 1) =~= seq![c]);
    } else {
        assert(s.subrange(i, i + 1)[0] == s[i]);
        lemma_find_char_at(s, c, i + 1, j);
    }
}

/// In `var(name, fallback)` the variable's value is substituted when the
/// variable is defined, whatever the fallback; the trimmed fallback is
/// substituted only when it is undefined. `pre` is what precedes the first
/// `var(` of the value, and neither the name nor the fallback holds a `)`
/// (nor the name a `,`).
pub proof fn lemma_defined_variable_wins(
    pre: Seq<char>,
    name: Seq<char>,
    fallback: Seq<char>,
    post: Seq<char>,
    vars: StrMap,
)
    requires
        find_from(
            pre + "var("@ + name + seq![','] + fallback + seq![')'] + post,
            "var("@,
            0,
        ) == Some(pre.len() as int),
        forall|k: int| 0 <= k < name.len() ==> name[k] != ')' && name[k] != ',',
        forall|k: int| 0 <= k < fallback.len() ==> fallback[k] != ')',
    ensures
        ({
            let v = pre + "var("@ + name + seq![','] + fallback + seq![')'] + post;
            &&& (vars.get_spec(trim(name)) matches Some(x) ==> var_step(v, vars) == Some(
                pre + x + post,
            ))
            &&& (vars.get_spec(trim(name)) is None ==> var_step(v, vars) == Some(
                pre + trim(fallback) + post,
            ))
        }),
{
    reveal_strlit("var(");
    let v = pre + "var("@ + name + seq![','] + fallback + seq![')'] + post;
    let start = pre.len() as int;
    let after = v.subrange(start + 4, v.len() as int);
    assert(after =~= name + seq![','] + fallback + seq![')'] + post);
    let end = name.len() as int + 1 + fallback.len() as int;
    assert forall|k: int| 0 <= k < end implies after[k] != ')' by {
        if k < name.len() {
            assert(after[k] == name[k]);
        } else if k > name.len() {
            assert(after[k] == fallback[k - name.len() - 1]);
        }
    }
    lemma_find_char_at(after, ')', 0, end);
    let content = after.subrange(0, end);
    assert(content =~= name + seq![','] + fallback);
    assert forall|k: int| 0 <= k < name.len() implies content[k] != ',' by {
        assert(content[k] == name[k]);
    }
    lemma_find_char_at(content, ',', 0, name.len() as int);
    assert(content.subrange(0, name.len() as int) =~= name);
    assert(content.subrange(name.len() as int + 1, content.len() as int) =~= fallback);
    assert(after.subrange(end + 1, after.len() as int) =~= post);
    assert(v.subrange(0, start) =~= pre);
}

/// In `var(name)` with no fallback, the variable's value is substituted
/// when it is defined, and nothing when it is not. `pre` is what precedes
/// the first `var(` of the value, and the name holds no `)` and no `,`.
pub proof fn lemma_variable_without_fallback(
    pre: Seq<char>,
    name: Seq<char>,
    post: Seq<char>,
    vars: StrMap,
)
    requires
        find_from(pre + "var("@ + name + seq![')'] + post, "var("@, 0) == Some(pre.len() as int),
        forall|k: int| 0 <= k < name.len() ==> name[k] != ')' && name[k] != ',',
    ensures
        ({
            let v = pre + "var("@ + name + seq![')'] + post;
            &&& (vars.get_spec(trim(name)) matches Some(x) ==> var_step(v, vars) == Some(
                pre + x + post,
            ))
            &&& (vars.get_spec(trim(name)) is None ==> var_step(v, vars) == Some(pre + post))
        }),
{
    reveal_strlit("var(");
    let v = pre + "var("@ + name + seq![')'] + post;
    let start = pre.len() as int;
    let after = v.subrange(start + 4, v.len() as int);
    assert(after =~= name + seq![')'] + post);
    assert forall|k: int| 0 <= k < name.len() implies after[k] != ')' by {
        assert(after[k] == name[k]);
    }
    lemma_find_char_at(after, ')', 0, name.len() as int);
    let content = after.subrange(0, name.len() as int);
    assert(content =~= name);
    crate::text::lemma_find_none_iff(content, seq![',']);
    assert forall|i: int| !occurs_at(content, seq![','], i) by {
        if occurs_at(content, seq![','], i) {
            assert(content.subrange(i, i + 1)[0] == content[i]);
        }
    }
    assert(after.subrange(name.len() as int + 1, after.len() as int) =~= post);
    assert(v.subrange(0, start) =~= pre);
    assert(pre + Seq::<char>::empty() + post =~= pre + post);
}

/// One `var_step`, executed.
fn var_step_exec(v: &[char], vars: &StrMap) -> (r: Option<Vec<char>>)
    ensures
        match r {
            Some(x) => var_step(v@, *vars) == Some(x@),
            None => var_step(v@, *vars) is None,
        },
{
    let pat = chars_of("var(");
    proof {
        reveal_strlit("var(");
    }
    let n = v.len();
    match find_exec(v, &pat, 0) {
        None => None,
        Some(start) => {
            proof {
                crate::matching::lemma_find_from_ge(v@, pat@, 0);
            }
            let after = slice_vec(v, start + 4, n);
            let close = vec![')'];
            assert(close@ =~= seq![')']);
            match find_exec(&after, &close, 0) {
                None => None,
                Some(end) => {
                    proof {
                        crate::matching::lemma_find_from_ge(after@, close@, 0);
                    }
                    let content = slice_vec(&after, 0, end);
                    let comma = vec![','];
                    assert(comma@ =~= seq![',']);
                    let (name, fallback) = match find_exec(&content, &comma, 0) {
                        Some(c) => {
                            proof {
                                crate::matching::lemma_find_from_ge(content@, comma@, 0);
                            }
                            let head = slice_vec(&content, 0, c);
                            let tail = slice_vec(&content, c + 1, content.len());
                            (trimmed(&head), Some(trimmed(&tail)))
                        },
                        None => (trimmed(&content), None),
                    };
                    let repl: Vec<char> = match vars.get_chars(&name) {
                        Some(x) => x,
                        None => match fallback {
                            Some(f) => f,
                            None => Vec::new(),
                        },
                    };
                    let mut out = slice_vec(v, 0, start);
                    push_all(&mut out, &repl);
                    let rest = slice_vec(&after, end + 1, after.len());
                    push_all(&mut out, &rest);
                    Some(out)
                },
            }
        },
    }
}

/// Replaces `var(--name)` and `var(--name, fallback)` references in a value
/// until none is left (or the first left is unclosed). A known variable
/// gives its value, an unknown one its fallback, else nothing.
///
/// Requires that substitution ends: a variable whose value refers to itself
/// would substitute forever.
pub fn resolve_css_variables(value: &str, css_vars: &StrMap) -> (r: String)
    requires
        resolves(value@, *css_vars),
    ensures
        r@ == resolved(value@, *css_vars),
        var_step(r@, *css_vars) is None,
{
    let mut cur = chars_of(value);
    let ghost fuel0 = choose|fuel: nat| #[trigger] resolve_within(value@, *css_vars, fuel) is Some;
    let ghost mut fuel: nat = fuel0;
    loop
        invariant
            resolve_within(cur@, *css_vars, fuel) is Some,
            resolve_within(cur@, *css_vars, fuel) == resolve_within(value@, *css_vars, fuel0),
            resolve_within(value@, *css_vars, fuel0) is Some,
        ensures
            resolve_within(value@, *css_vars, fuel0) == Some(cur@),
            resolve_within(value@, *css_vars, fuel0) is Some,
        decreases fuel,
    {
        match var_step_exec(&cur, css_vars) {
            None => {
                break;
            },
            Some(next) => {
                cur = next;
                proof {
                    fuel = (fuel - 1) as nat;
                }
            },
        }
    }
    proof {
        lemma_resolve_unique(
            value@,
            *css_vars,
            fuel0,
            choose|fuel: nat| #[trigger] resolve_within(value@, *css_vars, fuel) is Some,
        );
        lemma_resolved_is_final(value@, *css_vars, fuel0);
    }
    string_of(&cur)
}

// ---------------------------------------------------------------------------
// Inline style provenance
// ---------------------------------------------------------------------------

/// The index of the first `:` in `d`, if any.
pub open spec fn colon_at(d: Seq<char>) -> Option<int> {
    find_from(d, seq![':'], 0)
}

/// The `(property, value)` texts of the inline declarations among the
/// `;`-separated pieces `pieces[0..n]`: each non-empty trimmed piece that
/// holds a `:` is split at its first colon and both halves trimmed.
pub open spec fn inline_pairs(pieces: Seq<Seq<char>>, n: int) -> Seq<(Seq<char>, Seq<char>)>
    decreases n,
{
    if n <= 0 {
        Seq::empty()
    } else {
        let prev = inline_pairs(pieces, n - 1);
        let d = trim(pieces[n - 1]);
        if d.len() > 0 && colon_at(d) is Some {
            let c = colon_at(d)->0;
            prev.push((trim(d.subrange(0, c)), trim(d.subrange(c + 1, d.len() as int))))
        } else {
            prev
        }
    }
}

/// The inline declarations of a `style` attribute.
pub open spec fn inline_decls(style: Seq<char>) -> Seq<(Seq<char>, Seq<char>)> {
    inline_pairs(split_on(style, ';'), split_on(style, ';').len() as int)
}

/// Whether `rec` is the record of the `k`-th inline declaration `(p, v)`
/// applied at position `order`.
pub open spec fn is_inline_record(
    rec: DeclarationRecord,
    p: Seq<char>,
    v: Seq<char>,
    vars: StrMap,
    order: int,
) -> bool {
    &&& rec.property@ == unicode_lowercase(p)
    &&& rec.value@ == resolved(v, vars)
    &&& rec.selector@ == "style="@
    &&& rec.specificity == (usize::MAX, 0usize, 0usize)
    &&& rec.origin == "author-inline"
    &&& !rec.important
    &&& rec.order == order
}

/// Appends a provenance record for each inline `style=` declaration, in
/// order, numbering them from `*order` on: the property lower-cased, the
/// value with `var()` substituted, selector `style=`, the inline
/// specificity `(usize::MAX, 0, 0)` and origin `author-inline`.
pub fn record_inline_style(
    style_attr: &str,
    css_vars: &StrMap,
    records: &mut Vec<DeclarationRecord>,
    order: &mut usize,
)
    requires
        forall|k: int|
            0 <= k < inline_decls(style_attr@).len() ==> resolves(
                #[trigger] inline_decls(style_attr@)[k].1,
                *css_vars,
            ),
        *old(order) + inline_decls(style_attr@).len() <= usize::MAX,
    ensures
        *final(order) == *old(order) + inline_decls(style_attr@).len(),
        final(records)@.len() == old(records)@.len() + inline_decls(style_attr@).len(),
        forall|k: int| 0 <= k < old(records)@.len() ==> final(records)@[k] == old(records)@[k],
        forall|k: int|
            0 <= k < inline_decls(style_attr@).len() ==> is_inline_record(
                #[trigger] final(records)@[old(records)@.len() + k],
                inline_decls(style_attr@)[k].0,
                inline_decls(style_attr@)[k].1,
                *css_vars,
                *old(order) + k,
            ),
{
    let s = chars_of(style_attr);
    let pieces = split_on_char(&s, ';');
    let ghost sp = split_on(style_attr@, ';');
    let ghost all = inline_decls(style_attr@);
    let ghost r0 = records@;
    let ghost o0 = *order;
    let mut i: usize = 0;
    proof {
        lemma_inline_pairs_prefix(sp, sp.len() as int);
    }
    while i < pieces.len()
        invariant
            i <= pieces@.len(),
            pieces@.len() == sp.len(),
            sp == split_on(style_attr@, ';'),
            all == inline_pairs(sp, sp.len() as int),
            forall|m: int| 0 <= m < pieces@.len() ==> #[trigger] pieces@[m]@ == sp[m],
            forall|m: int|
                0 <= m <= sp.len() ==> #[trigger] inline_pairs(sp, m).len() <= all.len()
                    && forall|q: int|
                    0 <= q < inline_pairs(sp, m).len() ==> inline_pairs(sp, m)[q] == all[q],
            forall|k: int| 0 <= k < all.len() ==> resolves(#[trigger] all[k].1, *css_vars),
            o0 + all.len() <= usize::MAX,
            *order == o0 + inline_pairs(sp, i as int).len(),
            records@.len() == r0.len() + inline_pairs(sp, i as int).len(),
            forall|k: int| 0 <= k < r0.len() ==> records@[k] == r0[k],
            forall|k: int|
                0 <= k < inline_pairs(sp, i as int).len() ==> is_inline_record(
                    #[trigger] records@[r0.len() + k],
                    all[k].0,
                    all[k].1,
                    *css_vars,
                    o0 + k,
                ),
        decreases pieces@.len() - i,
    {
        let d = trimmed(&pieces[i]);
        let colon = vec![':'];
        assert(colon@ =~= seq![':']);
        let ghost before = inline_pairs(sp, i as int);
        if d.len() > 0 {
            match find_exec(&d, &colon, 0) {
                Some(c) => {
                    proof {
                        crate::matching::lemma_find_from_ge(d@, colon@, 0);
                    }
                    let ph = slice_vec(&d, 0, c);
                    let pt = trimmed(&ph);
                    let prop = to_lowercase(&pt);
                    let vh = slice_vec(&d, c + 1, d.len());
                    let vt = trimmed(&vh);
                    proof {
                        assert(inline_pairs(sp, i + 1) == before.push((pt@, vt@)));
                        assert(inline_pairs(sp, i + 1).len() <= all.len());
                        assert(inline_pairs(sp, i + 1)[before.len() as int] == all[before.len() as int]);
                        assert(all[before.len() as int] == (pt@, vt@));
                        assert(resolves(all[before.len() as int].1, *css_vars));
                    }
                    let vs = string_of(&vt);
                    let value = resolve_css_variables(vs.as_str(), css_vars);
                    let rec = DeclarationRecord {
                        property: string_of(&prop),
                        value,
                        selector: "style=".to_owned(),
                        specificity: (usize::MAX, 0, 0),
                        origin: "author-inline",
                        important: false,
                        order: *order,
                    };
                    records.push(rec);
                    *order = *order + 1;
                },
                None => {
                    assert(inline_pairs(sp, i + 1) == before);
                },
            }
        } else {
            assert(inline_pairs(sp, i + 1) == before);
        }
        i = i + 1;
    }
}

proof fn lemma_inline_pairs_prefix(sp: Seq<Seq<char>>, n: int)
    requires
        0 <= n,
    ensures
        forall|m: int|
            0 <= m <= n ==> #[trigger] inline_pairs(sp, m).len() <= inline_pairs(sp, n).len()
                && forall|q: int|
                0 <= q < inline_pairs(sp, m).len() ==> inline_pairs(sp, m)[q] == inline_pairs(
                    sp,
                    n,
                )[q],
    decreases n,
{
    if n > 0 {
        lemma_inline_pairs_prefix(sp, n - 1);
    }
}


// ---------------------------------------------------------------------------
// Cascade order
// ---------------------------------------------------------------------------

/// The element a cascade runs for: its tag and attributes, its ancestors
/// (parent first), its preceding siblings, and its position among its
/// siblings.
pub struct ElementContext<'a> {
    pub tag_name: &'a str,
    pub attributes: &'a StrMap,
    pub ancestors: &'a [ElementSummary],
    pub siblings_before: &'a [ElementSummary],
    pub element_index: usize,
    pub sibling_count: usize,
}

/// Whether a selector matches the element of `cx`.
pub open spec fn matches_in(sel: Seq<char>, cx: ElementContext) -> bool {
    selector_matches_spec(
        sel,
        cx.tag_name@,
        *cx.attributes,
        cx.ancestors@,
        cx.siblings_before@,
        cx.element_index as int,
        cx.sibling_count as int,
    )
}

/// Whether matching `sel` against the element of `cx` is defined (see
/// `selector_defined`).
pub open spec fn defined_in(sel: Seq<char>, cx: ElementContext) -> bool {
    selector_defined(
        sel,
        cx.tag_name@,
        *cx.attributes,
        cx.ancestors@,
        cx.siblings_before@,
        cx.element_index as int,
        cx.sibling_count as int,
    )
}

/// Whether the cascade for the element of `cx` is defined: matching every
/// rule is, and so is the specificity of every rule that matches.
pub open spec fn cascade_defined(sheets: Seq<Stylesheet>, cx: ElementContext) -> bool {
    forall|s: int, q: int|
        0 <= s < sheets.len() && 0 <= q < sheets[s].rules@.len() ==> defined_in(
            #[trigger] sheets[s].rules@[q].selector@,
            cx,
        ) && (matches_in(sheets[s].rules@[q].selector@, cx) ==> specificity_defined(
            sheets[s].rules@[q].selector@,
        ))
}

/// A rule that matched: where it stands, its specificity, and its position
/// in document order across all stylesheets.
#[derive(Debug, Clone, Copy)]
pub struct MatchedRule {
    pub sheet: usize,
    pub rule: usize,
    pub specificity: (usize, usize, usize),
    pub index: usize,
}

/// Number of rules in the first `s` stylesheets.
pub open spec fn rules_before(sheets: Seq<Stylesheet>, s: int) -> int
    decreases s,
{
    if s <= 0 {
        0
    } else {
        rules_before(sheets, s - 1) + sheets[s - 1].rules@.len()
    }
}

/// The specificity of a matched rule, as integers.
pub open spec fn spec_of(m: MatchedRule) -> (int, int, int) {
    (m.specificity.0 as int, m.specificity.1 as int, m.specificity.2 as int)
}

/// Cascade order: lower specificity first, and document order among equal
/// specificities.
pub open spec fn applies_before(a: MatchedRule, b: MatchedRule) -> bool {
    gt3(spec_of(b), spec_of(a)) || (spec_of(a) == spec_of(b) && a.index < b.index)
}

/// `m` describes the `rule`-th rule of the `sheet`-th stylesheet, which
/// matches the element.
pub open spec fn describes(sheets: Seq<Stylesheet>, m: MatchedRule, cx: ElementContext) -> bool {
    &&& m.sheet < sheets.len()
    &&& m.rule < sheets[m.sheet as int].rules@.len()
    &&& m.index == rules_before(sheets, m.sheet as int) + m.rule
    &&& spec_of(m) == specificity_spec(sheets[m.sheet as int].rules@[m.rule as int].selector@)
    &&& matches_in(sheets[m.sheet as int].rules@[m.rule as int].selector@, cx)
}

/// `ms` lists the matching rules in cascade order.
pub open spec fn in_cascade_order(ms: Seq<MatchedRule>) -> bool {
    forall|i: int, j: int| 0 <= i < j < ms.len() ==> applies_before(ms[i], ms[j])
}

proof fn lemma_rules_before_mono(sheets: Seq<Stylesheet>, a: int, b: int)
    requires
        0 <= a <= b,
    ensures
        rules_before(sheets, a) <= rules_before(sheets, b),
    decreases b - a,
{
    if a < b {
        lemma_rules_before_mono(sheets, a, b - 1);
    }
}

/// Inserts `m`, which comes after every entry of `out` in document order,
/// into `out` at its place in cascade order: after every entry whose
/// specificity does not exceed its own. Returns the position it took.
fn insert_in_cascade_order(out: &mut Vec<MatchedRule>, m: MatchedRule) -> (p: usize)
    requires
        in_cascade_order(old(out)@),
        forall|k: int| 0 <= k < old(out)@.len() ==> (#[trigger] old(out)@[k]).index < m.index,
    ensures
        p <= old(out)@.len(),
        final(out)@ == old(out)@.insert(p as int, m),
        in_cascade_order(final(out)@),
{
    let sp = m.specificity;
    let mut p: usize = 0;
    while p < out.len() && !(out[p].specificity.0 > sp.0 || (out[p].specificity.0 == sp.0 && (
    out[p].specificity.1 > sp.1 || (out[p].specificity.1 == sp.1 && out[p].specificity.2
        > sp.2))))
        invariant
            p <= out@.len(),
            m.specificity == sp,
            forall|k: int| 0 <= k < p ==> !gt3(spec_of(#[trigger] out@[k]), spec_of(m)),
        decreases out@.len() - p,
    {
        p = p + 1;
    }
    let ghost before = out@;
    proof {
        // Entries from p on exceed m's specificity: specificities never
        // decrease along the list.
        assert forall|k: int| p <= k < before.len() implies gt3(
            spec_of(#[trigger] before[k]),
            spec_of(m),
        ) by {
            if k > p {
                assert(applies_before(before[p as int], before[k]));
            }
        }
    }
    out.insert(p, m);
    proof {
        let after = out@;
        assert forall|i: int, j: int| 0 <= i < j < after.len() implies applies_before(
            after[i],
            after[j],
        ) by {
            if j < p {
                assert(after[i] == before[i] && after[j] == before[j]);
            } else if j == p {
                assert(after[i] == before[i]);
                assert(!gt3(spec_of(before[i]), spec_of(m)));
                assert(before[i].index < m.index);
            } else if i == p {
                assert(after[j] == before[j - 1]);
            } else if i < p {
                assert(after[i] == before[i] && after[j] == before[j - 1]);
            } else {
                assert(after[i] == before[i - 1] && after[j] == before[j - 1]);
            }
        }
    }
    p
}

/// The rules of all stylesheets that match the element, in the order the
/// cascade applies them: by ascending specificity, and in document order
/// among equal specificities, so that a later entry overrides an earlier one.
pub fn matching_rules(stylesheets: &[Stylesheet], cx: &ElementContext) -> (r: Vec<MatchedRule>)
    requires
        cx.element_index < cx.sibling_count <= i32::MAX,
        rules_before(stylesheets@, stylesheets@.len() as int) <= usize::MAX,
        cascade_defined(stylesheets@, *cx),
    ensures
        in_cascade_order(r@),
        r@.len() <= rules_before(stylesheets@, stylesheets@.len() as int),
        forall|k: int| 0 <= k < r@.len() ==> describes(stylesheets@, #[trigger] r@[k], *cx),
        forall|s: int, q: int|
            0 <= s < stylesheets@.len() && 0 <= q < stylesheets@[s].rules@.len() && matches_in(
                #[trigger] stylesheets@[s].rules@[q].selector@,
                *cx,
            ) ==> exists|k: int|
                0 <= k < r@.len() && #[trigger] r@[k].sheet == s && r@[k].rule == q,
{
    let mut out: Vec<MatchedRule> = Vec::new();
    let mut g: usize = 0;
    let mut si: usize = 0;
    while si < stylesheets.len()
        invariant
            si <= stylesheets@.len(),
            cx.element_index < cx.sibling_count <= i32::MAX,
            rules_before(stylesheets@, stylesheets@.len() as int) <= usize::MAX,
            cascade_defined(stylesheets@, *cx),
            g == rules_before(stylesheets@, si as int),
            out@.len() <= g,
            in_cascade_order(out@),
            forall|k: int| 0 <= k < out@.len() ==> describes(stylesheets@, #[trigger] out@[k], *cx),
            forall|k: int| 0 <= k < out@.len() ==> #[trigger] out@[k].index < g,
            forall|s: int, q: int|
                0 <= s < si && 0 <= q < stylesheets@[s].rules@.len() && matches_in(
                    #[trigger] stylesheets@[s].rules@[q].selector@,
                    *cx,
                ) ==> exists|k: int|
                    0 <= k < out@.len() && #[trigger] out@[k].sheet == s && out@[k].rule == q,
        decreases stylesheets@.len() - si,
    {
        let sheet = &stylesheets[si];
        let mut ri: usize = 0;
        proof {
            lemma_rules_before_mono(stylesheets@, si + 1, stylesheets@.len() as int);
        }
        while ri < sheet.rules.len()
            invariant
                si < stylesheets@.len(),
                *sheet == stylesheets@[si as int],
                ri <= sheet.rules@.len(),
                cx.element_index < cx.sibling_count <= i32::MAX,
                cascade_defined(stylesheets@, *cx),
                rules_before(stylesheets@, si + 1) <= usize::MAX,
                rules_before(stylesheets@, si + 1) == rules_before(stylesheets@, si as int)
                    + sheet.rules@.len(),
                g == rules_before(stylesheets@, si as int) + ri,
                out@.len() <= g,
                in_cascade_order(out@),
                forall|k: int|
                    0 <= k < out@.len() ==> describes(stylesheets@, #[trigger] out@[k], *cx),
                forall|k: int| 0 <= k < out@.len() ==> #[trigger] out@[k].index < g,
                forall|s: int, q: int|
                    (0 <= s < si && 0 <= q < stylesheets@[s].rules@.len() || s == si && 0 <= q
                        < ri) && matches_in(#[trigger] stylesheets@[s].rules@[q].selector@, *cx)
                        ==> exists|k: int|
                        0 <= k < out@.len() && #[trigger] out@[k].sheet == s && out@[k].rule == q,
            decreases sheet.rules@.len() - ri,
        {
            let rule = &sheet.rules[ri];
            assert(defined_in(stylesheets@[si as int].rules@[ri as int].selector@, *cx));
            if selector_matches(
                rule.selector.as_str(),
                cx.tag_name,
                cx.attributes,
                cx.ancestors,
                cx.siblings_before,
                cx.element_index,
                cx.sibling_count,
            ) {
                let sp = selector_specificity(rule.selector.as_str());
                let m = MatchedRule { sheet: si, rule: ri, specificity: sp, index: g };
                let ghost before = out@;
                let p = insert_in_cascade_order(&mut out, m);
                proof {
                    let after = out@;
                    assert forall|k: int| 0 <= k < after.len() implies describes(
                        stylesheets@,
                        #[trigger] after[k],
                        *cx,
                    ) by {
                        if k < p {
                            assert(after[k] == before[k]);
                        } else if k > p {
                            assert(after[k] == before[k - 1]);
                        }
                    }
                    assert forall|k: int| 0 <= k < after.len() implies #[trigger] after[k].index < g
                        + 1 by {
                        if k < p {
                            assert(after[k] == before[k]);
                        } else if k > p {
                            assert(after[k] == before[k - 1]);
                        }
                    }
                    assert forall|s: int, q: int|
                        (0 <= s < si && 0 <= q < stylesheets@[s].rules@.len() || s == si && 0
                            <= q < ri + 1) && matches_in(
                            #[trigger] stylesheets@[s].rules@[q].selector@,
                            *cx,
                        ) implies exists|k: int|
                        0 <= k < after.len() && #[trigger] after[k].sheet == s && after[k].rule
                            == q by {
                        if s == si && q == ri {
                            assert(after[p as int].sheet == s && after[p as int].rule == q);
                        } else {
                            let k = choose|k: int|
                                0 <= k < before.len() && #[trigger] before[k].sheet == s
                                    && before[k].rule == q;
                            if k < p {
                                assert(after[k] == before[k]);
                                assert(after[k].sheet == s && after[k].rule == q);
                            } else {
                                assert(after[k + 1] == before[k]);
                                assert(after[k + 1].sheet == s && after[k + 1].rule == q);
                            }
                        }
                    }
                }
            } else {
                proof {
                    assert forall|s: int, q: int|
                        (0 <= s < si && 0 <= q < stylesheets@[s].rules@.len() || s == si && 0
                            <= q < ri + 1) && matches_in(
                            #[trigger] stylesheets@[s].rules@[q].selector@,
                            *cx,
                        ) implies exists|k: int|
                        0 <= k < out@.len() && #[trigger] out@[k].sheet == s && out@[k].rule
                            == q by {
                        if s == si && q == ri {
                            assert(false);
                        }
                    }
                    assert forall|k: int| 0 <= k < out@.len() implies #[trigger] out@[k].index < g
                        + 1 by {}
                }
            }
            ri = ri + 1;
            g = g + 1;
        }
        si = si + 1;
    }
    out
}


// ---------------------------------------------------------------------------
// Applying the matched rules
// ---------------------------------------------------------------------------

/// An author declaration as the cascade applies it: position in the matched
/// list, property, value before substitution, rule selector, specificity,
/// `!important`.
pub type AuthorDecl = (int, Seq<char>, Seq<char>, Seq<char>, (usize, usize, usize), bool);

/// The rule a matched entry refers to.
pub open spec fn rule_of(sheets: Seq<Stylesheet>, m: MatchedRule) -> Rule {
    sheets[m.sheet as int].rules@[m.rule as int]
}

/// The declarations with a specified value among the first `n` of rule `r`
/// (matched entry `m`, at position `pos` of the matched list); `inherit` and
/// `initial` are skipped.
pub open spec fn specified_decls(r: Rule, m: MatchedRule, pos: int, n: int) -> Seq<AuthorDecl>
    decreases n,
{
    if n <= 0 {
        Seq::empty()
    } else {
        let prev = specified_decls(r, m, pos, n - 1);
        let d = r.declarations@[n - 1];
        match d.value {
            PropertyValue::Specified(v) => prev.push(
                (pos, d.property@, v@, r.selector@, m.specificity, d.important),
            ),
            _ => prev,
        }
    }
}

/// The author declarations of the first `n` matched rules, in order.
pub open spec fn author_decls(sheets: Seq<Stylesheet>, ms: Seq<MatchedRule>, n: int) -> Seq<
    AuthorDecl,
>
    decreases n,
{
    if n <= 0 {
        Seq::empty()
    } else {
        let r = rule_of(sheets, ms[n - 1]);
        author_decls(sheets, ms, n - 1) + specified_decls(
            r,
            ms[n - 1],
            n - 1,
            r.declarations@.len() as int,
        )
    }
}

/// Whether `rec` records author declaration `d` applied at position `order`.
pub open spec fn is_author_record(rec: DeclarationRecord, d: AuthorDecl, vars: StrMap, order: int) -> bool {
    &&& rec.property@ == d.1
    &&& rec.value@ == resolved(d.2, vars)
    &&& rec.selector@ == d.3
    &&& rec.specificity == d.4
    &&& rec.origin == "author"
    &&& rec.important == d.5
    &&& rec.order == order
}

/// Whether `m` refers to an existing rule.
pub open spec fn in_range(sheets: Seq<Stylesheet>, m: MatchedRule) -> bool {
    m.sheet < sheets.len() && m.rule < sheets[m.sheet as int].rules@.len()
}

/// The provenance records of the author declarations the cascade applies,
/// in application order: for each matched rule in turn, each declaration
/// with a specified value (`inherit`/`initial` are skipped), its value with
/// `var()` substituted, numbered from 0.
pub fn applied_declarations(
    stylesheets: &[Stylesheet],
    matched: &[MatchedRule],
    css_vars: &StrMap,
) -> (r: Vec<DeclarationRecord>)
    requires
        forall|k: int| 0 <= k < matched@.len() ==> in_range(stylesheets@, #[trigger] matched@[k]),
        forall|k: int|
            0 <= k < author_decls(stylesheets@, matched@, matched@.len() as int).len()
                ==> resolves(
                #[trigger] author_decls(stylesheets@, matched@, matched@.len() as int)[k].2,
                *css_vars,
            ),
    ensures
        r@.len() == author_decls(stylesheets@, matched@, matched@.len() as int).len(),
        forall|k: int|
            0 <= k < r@.len() ==> is_author_record(
                #[trigger] r@[k],
                author_decls(stylesheets@, matched@, matched@.len() as int)[k],
                *css_vars,
                k,
            ),
{
    let ghost total = author_decls(stylesheets@, matched@, matched@.len() as int);
    let mut out: Vec<DeclarationRecord> = Vec::new();
    let mut i: usize = 0;
    proof {
        lemma_author_decls_prefix(stylesheets@, matched@, matched@.len() as int);
    }
    while i < matched.len()
        invariant
            i <= matched@.len(),
            total == author_decls(stylesheets@, matched@, matched@.len() as int),
            forall|k: int| 0 <= k < matched@.len() ==> in_range(stylesheets@, #[trigger] matched@[k]),
            forall|k: int| 0 <= k < total.len() ==> resolves(#[trigger] total[k].2, *css_vars),
            forall|n: int|
                0 <= n <= matched@.len() ==> #[trigger] author_decls(stylesheets@, matched@, n).len()
                    <= total.len() && forall|q: int|
                    0 <= q < author_decls(stylesheets@, matched@, n).len() ==> author_decls(
                        stylesheets@,
                        matched@,
                        n,
                    )[q] == total[q],
            out@.len() == author_decls(stylesheets@, matched@, i as int).len(),
            forall|k: int|
                0 <= k < out@.len() ==> is_author_record(#[trigger] out@[k], total[k], *css_vars, k),
        decreases matched@.len() - i,
    {
        let m = matched[i];
        assert(in_range(stylesheets@, matched@[i as int]));
        let rule = &stylesheets[m.sheet].rules[m.rule];
        let ghost base = author_decls(stylesheets@, matched@, i as int);
        let mut j: usize = 0;
        proof {
            assert(author_decls(stylesheets@, matched@, i + 1) == base + specified_decls(
                *rule,
                m,
                i as int,
                rule.declarations@.len() as int,
            ));
            assert(author_decls(stylesheets@, matched@, i + 1).len() <= total.len());
            lemma_specified_prefix(*rule, m, i as int, rule.declarations@.len() as int);
        }
        while j < rule.declarations.len()
            invariant
                j <= rule.declarations@.len(),
                base == author_decls(stylesheets@, matched@, i as int),
                author_decls(stylesheets@, matched@, i + 1) == base + specified_decls(
                    *rule,
                    m,
                    i as int,
                    rule.declarations@.len() as int,
                ),
                author_decls(stylesheets@, matched@, i + 1).len() <= total.len(),
                forall|q: int|
                    0 <= q < author_decls(stylesheets@, matched@, i + 1).len() ==> author_decls(
                        stylesheets@,
                        matched@,
                        i + 1,
                    )[q] == total[q],
                forall|n: int|
                    0 <= n <= rule.declarations@.len() ==> #[trigger] specified_decls(
                        *rule,
                        m,
                        i as int,
                        n,
                    ).len() <= specified_decls(
                        *rule,
                        m,
                        i as int,
                        rule.declarations@.len() as int,
                    ).len() && forall|q: int|
                        0 <= q < specified_decls(*rule, m, i as int, n).len() ==> specified_decls(
                            *rule,
                            m,
                            i as int,
                            n,
                        )[q] == specified_decls(
                            *rule,
                            m,
                            i as int,
                            rule.declarations@.len() as int,
                        )[q],
                forall|k: int| 0 <= k < total.len() ==> resolves(#[trigger] total[k].2, *css_vars),
                out@.len() == base.len() + specified_decls(*rule, m, i as int, j as int).len(),
                forall|k: int|
                    0 <= k < out@.len() ==> is_author_record(
                        #[trigger] out@[k],
                        total[k],
                        *css_vars,
                        k,
                    ),
            decreases rule.declarations@.len() - j,
        {
            let d = &rule.declarations[j];
            match &d.value {
                PropertyValue::Specified(v) => {
                    let ghost item = (i as int, d.property@, v@, rule.selector@, m.specificity, d.important);
                    proof {
                        let sd = specified_decls(*rule, m, i as int, j + 1);
                        assert(sd == specified_decls(*rule, m, i as int, j as int).push(item));
                        assert(sd.len() <= specified_decls(*rule, m, i as int, rule.declarations@.len() as int).len());
                        let at: int = (base.len() + specified_decls(*rule, m, i as int, j as int).len()) as int;
                        assert(sd[sd.len() - 1] == item);
                        assert(specified_decls(*rule, m, i as int, rule.declarations@.len() as int)[sd.len() - 1] == item);
                        assert(author_decls(stylesheets@, matched@, i + 1)[at] == item);
                        assert(total[at] == item);
                        assert(resolves(total[at].2, *css_vars));
                    }
                    let value = resolve_css_variables(v.as_str(), css_vars);
                    let order = out.len();
                    let rec = DeclarationRecord {
                        property: d.property.clone(),
                        value,
                        selector: rule.selector.clone(),
                        specificity: (m.specificity.0, m.specificity.1, m.specificity.2),
                        origin: "author",
                        important: d.important,
                        order,
                    };
                    out.push(rec);
                },
                _ => {
                    assert(specified_decls(*rule, m, i as int, j + 1) == specified_decls(
                        *rule,
                        m,
                        i as int,
                        j as int,
                    ));
                },
            }
            j = j + 1;
        }
        i = i + 1;
    }
    out
}

proof fn lemma_specified_prefix(r: Rule, m: MatchedRule, pos: int, n: int)
    requires
        0 <= n,
    ensures
        forall|k: int|
            0 <= k <= n ==> #[trigger] specified_decls(r, m, pos, k).len() <= specified_decls(
                r,
                m,
                pos,
                n,
            ).len() && forall|q: int|
                0 <= q < specified_decls(r, m, pos, k).len() ==> specified_decls(r, m, pos, k)[q]
                    == specified_decls(r, m, pos, n)[q],
    decreases n,
{
    if n > 0 {
        lemma_specified_prefix(r, m, pos, n - 1);
    }
}

proof fn lemma_author_decls_prefix(sheets: Seq<Stylesheet>, ms: Seq<MatchedRule>, n: int)
    requires
        0 <= n,
    ensures
        forall|k: int|
            0 <= k <= n ==> #[trigger] author_decls(sheets, ms, k).len() <= author_decls(
                sheets,
                ms,
                n,
            ).len() && forall|q: int|
                0 <= q < author_decls(sheets, ms, k).len() ==> author_decls(sheets, ms, k)[q]
                    == author_decls(sheets, ms, n)[q],
    decreases n,
{
    if n > 0 {
        lemma_author_decls_prefix(sheets, ms, n - 1);
    }
}


proof fn lemma_specified_fields(r: Rule, m: MatchedRule, pos: int, n: int)
    ensures
        forall|k: int|
            0 <= k < specified_decls(r, m, pos, n).len() ==> (#[trigger] specified_decls(
                r,
                m,
                pos,
                n,
            )[k]).0 == pos && specified_decls(r, m, pos, n)[k].4 == m.specificity,
    decreases n,
{
    if n > 0 {
        lemma_specified_fields(r, m, pos, n - 1);
        let prev = specified_decls(r, m, pos, n - 1);
        let cur = specified_decls(r, m, pos, n);
        assert forall|k: int| 0 <= k < cur.len() implies (#[trigger] cur[k]).0 == pos && cur[k].4
            == m.specificity by {
            match r.declarations@[n - 1].value {
                PropertyValue::Specified(v) => {
                    if k < prev.len() {
                        assert(cur[k] == prev[k]);
                    }
                },
                _ => {
                    assert(cur[k] == prev[k]);
                },
            }
        }
    }
}

proof fn lemma_author_positions(sheets: Seq<Stylesheet>, ms: Seq<MatchedRule>, n: int)
    requires
        0 <= n,
    ensures
        forall|k: int|
            0 <= k < author_decls(sheets, ms, n).len() ==> 0 <= (#[trigger] author_decls(
                sheets,
                ms,
                n,
            )[k]).0 < n,
        forall|i: int, j: int|
            0 <= i < j < author_decls(sheets, ms, n).len() ==> (#[trigger] author_decls(
                sheets,
                ms,
                n,
            )[i]).0 <= (#[trigger] author_decls(sheets, ms, n)[j]).0,
    decreases n,
{
    if n > 0 {
        lemma_author_positions(sheets, ms, n - 1);
        let r = rule_of(sheets, ms[n - 1]);
        lemma_specified_fields(r, ms[n - 1], n - 1, r.declarations@.len() as int);
        let a = author_decls(sheets, ms, n - 1);
        let b = specified_decls(r, ms[n - 1], n - 1, r.declarations@.len() as int);
        let c = author_decls(sheets, ms, n);
        assert(c == a + b);
        assert forall|k: int| 0 <= k < c.len() implies 0 <= (#[trigger] c[k]).0 < n by {
            if k < a.len() {
                assert(c[k] == a[k]);
            } else {
                assert(c[k] == b[k - a.len()]);
            }
        }
        assert forall|i: int, j: int| 0 <= i < j < c.len() implies (#[trigger] c[i]).0 <= (
        #[trigger] c[j]).0 by {
            if j < a.len() {
                assert(c[i] == a[i] && c[j] == a[j]);
            } else if i < a.len() {
                assert(c[i] == a[i] && c[j] == b[j - a.len()]);
            } else {
                assert(c[i] == b[i - a.len()] && c[j] == b[j - a.len()]);
            }
        }
    }
}

/// The cascade law: among the author declarations applied for an element,
/// a declaration applied later comes from the same rule or from a rule that
/// the cascade orders after (higher specificity, or equal specificity and
/// later in document order). So the declaration that takes effect for a
/// property, the last one applied, is from the most specific matching rule
/// that declares it, the latest such rule on a tie.
pub proof fn lemma_later_declaration_wins(
    sheets: Seq<Stylesheet>,
    ms: Seq<MatchedRule>,
    i: int,
    j: int,
)
    requires
        in_cascade_order(ms),
        0 <= i < j < author_decls(sheets, ms, ms.len() as int).len(),
    ensures
        ({
            let a = author_decls(sheets, ms, ms.len() as int)[i];
            let b = author_decls(sheets, ms, ms.len() as int)[j];
            &&& a.0 <= b.0
            &&& a.0 < b.0 ==> applies_before(ms[a.0], ms[b.0])
            &&& !gt3(
                (a.4.0 as int, a.4.1 as int, a.4.2 as int),
                (b.4.0 as int, b.4.1 as int, b.4.2 as int),
            )
        }),
{
    lemma_author_positions(sheets, ms, ms.len() as int);
    let d = author_decls(sheets, ms, ms.len() as int);
    lemma_author_specificity(sheets, ms, ms.len() as int);
    let a = d[i];
    let b = d[j];
    assert(a.0 <= b.0);
    assert(a.4 == ms[a.0].specificity);
    assert(b.4 == ms[b.0].specificity);
    if a.0 < b.0 {
        assert(applies_before(ms[a.0], ms[b.0]));
    }
}

proof fn lemma_author_specificity(sheets: Seq<Stylesheet>, ms: Seq<MatchedRule>, n: int)
    requires
        0 <= n <= ms.len(),
    ensures
        forall|k: int|
            0 <= k < author_decls(sheets, ms, n).len() ==> (#[trigger] author_decls(
                sheets,
                ms,
                n,
            )[k]).4 == ms[author_decls(sheets, ms, n)[k].0].specificity,
    decreases n,
{
    if n > 0 {
        lemma_author_specificity(sheets, ms, n - 1);
        lemma_author_positions(sheets, ms, n);
        let r = rule_of(sheets, ms[n - 1]);
        lemma_specified_fields(r, ms[n - 1], n - 1, r.declarations@.len() as int);
        let a = author_decls(sheets, ms, n - 1);
        let b = specified_decls(r, ms[n - 1], n - 1, r.declarations@.len() as int);
        let c = author_decls(sheets, ms, n);
        assert(c == a + b);
        assert forall|k: int| 0 <= k < c.len() implies (#[trigger] c[k]).4 == ms[c[k].0].specificity by {
            if k < a.len() {
                assert(c[k] == a[k]);
            } else {
                assert(c[k] == b[k - a.len()]);
            }
        }
    }
}


// ---------------------------------------------------------------------------
// The records of one element
// ---------------------------------------------------------------------------

/// Whether every specified value among `r`'s declarations resolves.
pub open spec fn values_resolve(r: Rule, vars: StrMap) -> bool {
    forall|d: int|
        0 <= d < r.declarations@.len() ==> match (#[trigger] r.declarations@[d]).value {
            PropertyValue::Specified(v) => resolves(v@, vars),
            _ => true,
        }
}

/// The largest number of declarations in one rule of `rules[0..n]`.
pub open spec fn sheet_max_declarations(rules: Seq<Rule>, n: int) -> nat
    decreases n,
{
    if n <= 0 {
        0
    } else {
        let a = sheet_max_declarations(rules, n - 1);
        let b = rules[n - 1].declarations@.len();
        if a >= b {
            a
        } else {
            b
        }
    }
}

/// The largest number of declarations in one rule of `sheets[0..n]`.
pub open spec fn max_declarations(sheets: Seq<Stylesheet>, n: int) -> nat
    decreases n,
{
    if n <= 0 {
        0
    } else {
        let a = max_declarations(sheets, n - 1);
        let b = sheet_max_declarations(sheets[n - 1].rules@, sheets[n - 1].rules@.len() as int);
        if a >= b {
            a
        } else {
            b
        }
    }
}

proof fn lemma_sheet_max_declarations(rules: Seq<Rule>, n: int, q: int)
    requires
        0 <= q < n <= rules.len(),
    ensures
        rules[q].declarations@.len() <= sheet_max_declarations(rules, n),
    decreases n,
{
    if q < n - 1 {
        lemma_sheet_max_declarations(rules, n - 1, q);
    }
}

proof fn lemma_max_declarations(sheets: Seq<Stylesheet>, n: int, s: int, q: int)
    requires
        0 <= s < n <= sheets.len(),
        0 <= q < sheets[s].rules@.len(),
    ensures
        sheets[s].rules@[q].declarations@.len() <= max_declarations(sheets, n),
    decreases n,
{
    if s < n - 1 {
        lemma_max_declarations(sheets, n - 1, s, q);
    } else {
        lemma_sheet_max_declarations(sheets[s].rules@, sheets[s].rules@.len() as int, q);
    }
}

proof fn lemma_specified_resolve(r: Rule, m: MatchedRule, pos: int, n: int, vars: StrMap)
    requires
        values_resolve(r, vars),
        0 <= n <= r.declarations@.len(),
    ensures
        specified_decls(r, m, pos, n).len() <= n,
        forall|k: int|
            0 <= k < specified_decls(r, m, pos, n).len() ==> resolves(
                (#[trigger] specified_decls(r, m, pos, n)[k]).2,
                vars,
            ),
    decreases n,
{
    if n > 0 {
        lemma_specified_resolve(r, m, pos, n - 1, vars);
        let prev = specified_decls(r, m, pos, n - 1);
        let cur = specified_decls(r, m, pos, n);
        let d = r.declarations@[n - 1];
        assert forall|k: int| 0 <= k < cur.len() implies resolves((#[trigger] cur[k]).2, vars) by {
            match d.value {
                PropertyValue::Specified(v) => {
                    if k < prev.len() {
                        assert(cur[k] == prev[k]);
                    } else {
                        assert(cur[k].2 == v@);
                    }
                },
                _ => {
                    assert(cur[k] == prev[k]);
                },
            }
        }
    }
}

proof fn lemma_author_resolve(
    sheets: Seq<Stylesheet>,
    ms: Seq<MatchedRule>,
    n: int,
    vars: StrMap,
    bound: nat,
)
    requires
        0 <= n <= ms.len(),
        forall|t: int|
            0 <= t < n ==> values_resolve(rule_of(sheets, #[trigger] ms[t]), vars)
                && rule_of(sheets, ms[t]).declarations@.len() <= bound,
    ensures
        author_decls(sheets, ms, n).len() <= n * bound,
        forall|k: int|
            0 <= k < author_decls(sheets, ms, n).len() ==> resolves(
                (#[trigger] author_decls(sheets, ms, n)[k]).2,
                vars,
            ),
    decreases n,
{
    if n > 0 {
        lemma_author_resolve(sheets, ms, n - 1, vars, bound);
        let r = rule_of(sheets, ms[n - 1]);
        assert(values_resolve(r, vars) && r.declarations@.len() <= bound);
        lemma_specified_resolve(r, ms[n - 1], n - 1, r.declarations@.len() as int, vars);
        let a = author_decls(sheets, ms, n - 1);
        let b = specified_decls(r, ms[n - 1], n - 1, r.declarations@.len() as int);
        let c = author_decls(sheets, ms, n);
        assert(c == a + b);
        assert((n - 1) * bound + bound == n * bound) by (nonlinear_arith);
        assert forall|k: int| 0 <= k < c.len() implies resolves((#[trigger] c[k]).2, vars) by {
            if k < a.len() {
                assert(c[k] == a[k]);
            } else {
                assert(c[k] == b[k - a.len()]);
            }
        }
    }
}

/// The inline declarations of an optional `style` attribute.
pub open spec fn style_decls(style: Option<Seq<char>>) -> Seq<(Seq<char>, Seq<char>)> {
    match style {
        Some(st) => inline_decls(st),
        None => Seq::empty(),
    }
}

/// `ms` lists the rules of `sheets` that match the element of `cx`, each
/// once, in cascade order (see `matching_rules`).
pub open spec fn lists_matches(sheets: Seq<Stylesheet>, cx: ElementContext, ms: Seq<MatchedRule>) -> bool {
    &&& in_cascade_order(ms)
    &&& forall|k: int| 0 <= k < ms.len() ==> describes(sheets, #[trigger] ms[k], cx)
    &&& forall|s: int, q: int|
        0 <= s < sheets.len() && 0 <= q < sheets[s].rules@.len() && matches_in(
            #[trigger] sheets[s].rules@[q].selector@,
            cx,
        ) ==> exists|k: int| 0 <= k < ms.len() && #[trigger] ms[k].sheet == s && ms[k].rule == q
}

/// `recs` holds the records of the author declarations of the rules `ms`,
/// then those of the inline declarations `inline`, numbered from 0.
pub open spec fn element_records(
    recs: Seq<DeclarationRecord>,
    sheets: Seq<Stylesheet>,
    ms: Seq<MatchedRule>,
    vars: StrMap,
    inline: Seq<(Seq<char>, Seq<char>)>,
) -> bool {
    let a = author_decls(sheets, ms, ms.len() as int);
    &&& recs.len() == a.len() + inline.len()
    &&& forall|k: int| 0 <= k < a.len() ==> is_author_record(#[trigger] recs[k], a[k], vars, k)
    &&& forall|k: int|
        0 <= k < inline.len() ==> is_inline_record(
            #[trigger] recs[a.len() + k],
            inline[k].0,
            inline[k].1,
            vars,
            a.len() + k,
        )
}

/// The records of an element name their origin as `author` or
/// `author-inline` only: the author declarations come first, each with its
/// rule's selector, and the inline ones after them, with selector `style=`
/// and the inline specificity.
pub proof fn lemma_record_origins(
    recs: Seq<DeclarationRecord>,
    sheets: Seq<Stylesheet>,
    ms: Seq<MatchedRule>,
    vars: StrMap,
    inline: Seq<(Seq<char>, Seq<char>)>,
    k: int,
)
    requires
        element_records(recs, sheets, ms, vars, inline),
        0 <= k < recs.len(),
    ensures
        k < author_decls(sheets, ms, ms.len() as int).len() ==> recs[k].origin == "author"
            && recs[k].selector@ == author_decls(sheets, ms, ms.len() as int)[k].3,
        k >= author_decls(sheets, ms, ms.len() as int).len() ==> recs[k].origin == "author-inline"
            && recs[k].selector@ == "style="@ && recs[k].specificity == (usize::MAX, 0usize, 0usize),
{
    let a = author_decls(sheets, ms, ms.len() as int);
    if k >= a.len() {
        assert(recs[a.len() + (k - a.len())] == recs[k]);
    }
}

/// The provenance records the cascade keeps for the element of `cx`: the
/// author declarations of the rules that match it, in cascade order (see
/// `matching_rules` and `applied_declarations`), then the declarations of
/// its `style` attribute (see `record_inline_style`), numbered in that
/// order from 0, so that a property's last record is the declaration that
/// set it.
pub fn element_declarations(
    stylesheets: &[Stylesheet],
    cx: &ElementContext,
    css_vars: &StrMap,
) -> (r: Vec<DeclarationRecord>)
    requires
        cx.element_index < cx.sibling_count <= i32::MAX,
        rules_before(stylesheets@, stylesheets@.len() as int) <= usize::MAX,
        forall|s: int, q: int|
            0 <= s < stylesheets@.len() && 0 <= q < stylesheets@[s].rules@.len() && matches_in(
                #[trigger] stylesheets@[s].rules@[q].selector@,
                *cx,
            ) ==> values_resolve(stylesheets@[s].rules@[q], *css_vars),
        cascade_defined(stylesheets@, *cx),
        forall|k: int|
            0 <= k < style_decls(cx.attributes.get_spec("style"@)).len() ==> resolves(
                #[trigger] style_decls(cx.attributes.get_spec("style"@))[k].1,
                *css_vars,
            ),
        rules_before(stylesheets@, stylesheets@.len() as int) * max_declarations(
            stylesheets@,
            stylesheets@.len() as int,
        ) + style_decls(cx.attributes.get_spec("style"@)).len() <= usize::MAX,
    ensures
        exists|ms: Seq<MatchedRule>|
            lists_matches(stylesheets@, *cx, ms) && #[trigger] element_records(
                r@,
                stylesheets@,
                ms,
                *css_vars,
                style_decls(cx.attributes.get_spec("style"@)),
            ),
{
    let matched = matching_rules(stylesheets, cx);
    let ghost ms = matched@;
    let ghost bound = max_declarations(stylesheets@, stylesheets@.len() as int);
    let ghost nrules = rules_before(stylesheets@, stylesheets@.len() as int);
    proof {
        assert forall|t: int| 0 <= t < ms.len() implies values_resolve(
            rule_of(stylesheets@, #[trigger] ms[t]),
            *css_vars,
        ) && rule_of(stylesheets@, ms[t]).declarations@.len() <= bound by {
            assert(describes(stylesheets@, ms[t], *cx));
            lemma_max_declarations(
                stylesheets@,
                stylesheets@.len() as int,
                ms[t].sheet as int,
                ms[t].rule as int,
            );
        }
        lemma_author_resolve(stylesheets@, ms, ms.len() as int, *css_vars, bound);
        assert(ms.len() * bound <= nrules * bound) by (nonlinear_arith)
            requires
                ms.len() <= nrules,
        ;
    }
    let mut records = applied_declarations(stylesheets, matched.as_slice(), css_vars);
    let ghost authored = records@;
    let mut order = records.len();
    let ghost inline = style_decls(cx.attributes.get_spec("style"@));
    match cx.attributes.get("style") {
        Some(st) => {
            record_inline_style(st.as_str(), css_vars, &mut records, &mut order);
        },
        None => {},
    }
    proof {
        let a = author_decls(stylesheets@, ms, ms.len() as int);
        assert forall|k: int| 0 <= k < a.len() implies is_author_record(
            #[trigger] records@[k],
            a[k],
            *css_vars,
            k,
        ) by {
            assert(records@[k] == authored[k]);
        }
        assert(element_records(records@, stylesheets@, ms, *css_vars, inline));
    }
    records
}


// ---------------------------------------------------------------------------
// Pseudo-elements
// ---------------------------------------------------------------------------

/// A pseudo-element that generated content comes from.
#[derive(Debug, Clone, Copy, PartialEq, Eq, Structural)]
pub enum PseudoElement {
    Before,
    After,
}

/// The `::` form of a pseudo-element and its legacy `:` form.
pub open spec fn pseudo_forms(p: PseudoElement) -> (Seq<char>, Seq<char>) {
    match p {
        PseudoElement::Before => ("::before"@, ":before"@),
        PseudoElement::After => ("::after"@, ":after"@),
    }
}

/// Whether a rule with selector `sel` styles pseudo-element `p` of the
/// element: `sel` ends with `p` (in either form), and what precedes it
/// matches the element, read without sibling context.
pub open spec fn pseudo_selects(
    sel: Seq<char>,
    p: PseudoElement,
    tag: Seq<char>,
    attrs: Attributes,
    ancestors: Seq<ElementSummary>,
) -> bool {
    let (long, short) = pseudo_forms(p);
    &&& ends_with(sel, long) || ends_with(sel, short)
    &&& selector_matches_spec(
        trim(trim_suffixes(trim_suffixes(sel, long), short)),
        tag,
        attrs,
        ancestors,
        Seq::empty(),
        0,
        1,
    )
}

/// The selector that must match the host element for a rule with selector
/// `sel` to style pseudo-element `p`: `sel` with the pseudo-element taken
/// off its end (in either form), trimmed.
pub open spec fn pseudo_base(sel: Seq<char>, p: PseudoElement) -> Seq<char> {
    let (long, short) = pseudo_forms(p);
    trim(trim_suffixes(trim_suffixes(sel, long), short))
}

/// Whether finding the rules of pseudo-element `p` is defined: for each rule
/// that ends with it, matching the rest against the element is, and so is
/// the specificity of each rule that styles it.
pub open spec fn pseudo_rules_defined(
    sheets: Seq<Stylesheet>,
    p: PseudoElement,
    tag: Seq<char>,
    attrs: Attributes,
    ancestors: Seq<ElementSummary>,
) -> bool {
    forall|s: int, q: int|
        0 <= s < sheets.len() && 0 <= q < sheets[s].rules@.len() ==> {
            let sel = #[trigger] sheets[s].rules@[q].selector@;
            &&& (ends_with(sel, pseudo_forms(p).0) || ends_with(sel, pseudo_forms(p).1))
                ==> crate::matching::selector_defined(
                pseudo_base(sel, p),
                tag,
                attrs,
                ancestors,
                Seq::empty(),
                0,
                1,
            )
            &&& pseudo_selects(sel, p, tag, attrs, ancestors) ==> specificity_defined(sel)
        }
}

/// `m` describes the `rule`-th rule of the `sheet`-th stylesheet, which
/// styles pseudo-element `p` of the element.
pub open spec fn describes_pseudo(
    sheets: Seq<Stylesheet>,
    m: MatchedRule,
    p: PseudoElement,
    tag: Seq<char>,
    attrs: Attributes,
    ancestors: Seq<ElementSummary>,
) -> bool {
    &&& m.sheet < sheets.len()
    &&& m.rule < sheets[m.sheet as int].rules@.len()
    &&& m.index == rules_before(sheets, m.sheet as int) + m.rule
    &&& spec_of(m) == specificity_spec(sheets[m.sheet as int].rules@[m.rule as int].selector@)
    &&& pseudo_selects(sheets[m.sheet as int].rules@[m.rule as int].selector@, p, tag, attrs, ancestors)
}

/// The rules that style pseudo-element `pseudo` of an element, in the order
/// the cascade applies them (ascending specificity of the whole selector,
/// document order among equals).
pub fn pseudo_element_rules(
    stylesheets: &[Stylesheet],
    tag_name: &str,
    attributes: &Attributes,
    ancestors: &[ElementSummary],
    pseudo: PseudoElement,
) -> (r: Vec<MatchedRule>)
    requires
        rules_before(stylesheets@, stylesheets@.len() as int) <= usize::MAX,
        pseudo_rules_defined(stylesheets@, pseudo, tag_name@, *attributes, ancestors@),
    ensures
        in_cascade_order(r@),
        forall|k: int|
            0 <= k < r@.len() ==> describes_pseudo(
                stylesheets@,
                #[trigger] r@[k],
                pseudo,
                tag_name@,
                *attributes,
                ancestors@,
            ),
        forall|s: int, q: int|
            0 <= s < stylesheets@.len() && 0 <= q < stylesheets@[s].rules@.len() && pseudo_selects(
                #[trigger] stylesheets@[s].rules@[q].selector@,
                pseudo,
                tag_name@,
                *attributes,
                ancestors@,
            ) ==> exists|k: int|
                0 <= k < r@.len() && #[trigger] r@[k].sheet == s && r@[k].rule == q,
{
    let (long, short) = match pseudo {
        PseudoElement::Before => (chars_of("::before"), chars_of(":before")),
        PseudoElement::After => (chars_of("::after"), chars_of(":after")),
    };
    let none: Vec<ElementSummary> = Vec::new();
    let mut out: Vec<MatchedRule> = Vec::new();
    let mut g: usize = 0;
    let mut si: usize = 0;
    while si < stylesheets.len()
        invariant
            si <= stylesheets@.len(),
            (long@, short@) == pseudo_forms(pseudo),
            none@ == Seq::<ElementSummary>::empty(),
            rules_before(stylesheets@, stylesheets@.len() as int) <= usize::MAX,
            pseudo_rules_defined(stylesheets@, pseudo, tag_name@, *attributes, ancestors@),
            g == rules_before(stylesheets@, si as int),
            in_cascade_order(out@),
            forall|k: int|
                0 <= k < out@.len() ==> describes_pseudo(
                    stylesheets@,
                    #[trigger] out@[k],
                    pseudo,
                    tag_name@,
                    *attributes,
                    ancestors@,
                ),
            forall|k: int| 0 <= k < out@.len() ==> #[trigger] out@[k].index < g,
            forall|s: int, q: int|
                0 <= s < si && 0 <= q < stylesheets@[s].rules@.len() && pseudo_selects(
                    #[trigger] stylesheets@[s].rules@[q].selector@,
                    pseudo,
                    tag_name@,
                    *attributes,
                    ancestors@,
                ) ==> exists|k: int|
                    0 <= k < out@.len() && #[trigger] out@[k].sheet == s && out@[k].rule == q,
        decreases stylesheets@.len() - si,
    {
        let sheet = &stylesheets[si];
        let mut ri: usize = 0;
        proof {
            lemma_rules_before_mono(stylesheets@, si + 1, stylesheets@.len() as int);
        }
        while ri < sheet.rules.len()
            invariant
                si < stylesheets@.len(),
                *sheet == stylesheets@[si as int],
                ri <= sheet.rules@.len(),
                (long@, short@) == pseudo_forms(pseudo),
                none@ == Seq::<ElementSummary>::empty(),
                pseudo_rules_defined(stylesheets@, pseudo, tag_name@, *attributes, ancestors@),
                rules_before(stylesheets@, si + 1) <= usize::MAX,
                rules_before(stylesheets@, si + 1) == rules_before(stylesheets@, si as int)
                    + sheet.rules@.len(),
                g == rules_before(stylesheets@, si as int) + ri,
                in_cascade_order(out@),
                forall|k: int|
                    0 <= k < out@.len() ==> describes_pseudo(
                        stylesheets@,
                        #[trigger] out@[k],
                        pseudo,
                        tag_name@,
                        *attributes,
                        ancestors@,
                    ),
                forall|k: int| 0 <= k < out@.len() ==> #[trigger] out@[k].index < g,
                forall|s: int, q: int|
                    (0 <= s < si && 0 <= q < stylesheets@[s].rules@.len() || s == si && 0 <= q
                        < ri) && pseudo_selects(
                        #[trigger] stylesheets@[s].rules@[q].selector@,
                        pseudo,
                        tag_name@,
                        *attributes,
                        ancestors@,
                    ) ==> exists|k: int|
                        0 <= k < out@.len() && #[trigger] out@[k].sheet == s && out@[k].rule == q,
            decreases sheet.rules@.len() - ri,
        {
            let rule = &sheet.rules[ri];
            let sel = chars_of(rule.selector.as_str());
            let ghost sv = stylesheets@[si as int].rules@[ri as int].selector@;
            assert(sel@ == sv);
            let selects = if ends_with_exec(&sel, &long) || ends_with_exec(&sel, &short) {
                let once = trim_suffixes_exec(&sel, &long);
                let twice = trim_suffixes_exec(&once, &short);
                let base = string_of(&trimmed(&twice));
                selector_matches(base.as_str(), tag_name, attributes, ancestors, none.as_slice(), 0, 1)
            } else {
                false
            };
            if selects {
                let sp = selector_specificity(rule.selector.as_str());
                let m = MatchedRule { sheet: si, rule: ri, specificity: sp, index: g };
                let ghost before = out@;
                let p = insert_in_cascade_order(&mut out, m);
                proof {
                    let after = out@;
                    assert forall|k: int| 0 <= k < after.len() implies describes_pseudo(
                        stylesheets@,
                        #[trigger] after[k],
                        pseudo,
                        tag_name@,
                        *attributes,
                        ancestors@,
                    ) by {
                        if k < p {
                            assert(after[k] == before[k]);
                        } else if k > p {
                            assert(after[k] == before[k - 1]);
                        }
                    }
                    assert forall|k: int| 0 <= k < after.len() implies #[trigger] after[k].index < g
                        + 1 by {
                        if k < p {
                            assert(after[k] == before[k]);
                        } else if k > p {
                            assert(after[k] == before[k - 1]);
                        }
                    }
                    assert forall|s: int, q: int|
                        (0 <= s < si && 0 <= q < stylesheets@[s].rules@.len() || s == si && 0
                            <= q < ri + 1) && pseudo_selects(
                            #[trigger] stylesheets@[s].rules@[q].selector@,
                            pseudo,
                            tag_name@,
                            *attributes,
                            ancestors@,
                        ) implies exists|k: int|
                        0 <= k < after.len() && #[trigger] after[k].sheet == s && after[k].rule
                            == q by {
                        if s == si && q == ri {
                            assert(after[p as int].sheet == s && after[p as int].rule == q);
                        } else {
                            let k = choose|k: int|
                                0 <= k < before.len() && #[trigger] before[k].sheet == s
                                    && before[k].rule == q;
                            if k < p {
                                assert(after[k] == before[k]);
                                assert(after[k].sheet == s && after[k].rule == q);
                            } else {
                                assert(after[k + 1] == before[k]);
                                assert(after[k + 1].sheet == s && after[k + 1].rule == q);
                            }
                        }
                    }
                }
            } else {
                proof {
                    assert forall|s: int, q: int|
                        (0 <= s < si && 0 <= q < stylesheets@[s].rules@.len() || s == si && 0
                            <= q < ri + 1) && pseudo_selects(
                            #[trigger] stylesheets@[s].rules@[q].selector@,
                            pseudo,
                            tag_name@,
                            *attributes,
                            ancestors@,
                        ) implies exists|k: int|
                        0 <= k < out@.len() && #[trigger] out@[k].sheet == s && out@[k].rule
                            == q by {
                        if s == si && q == ri {
                            assert(false);
                        }
                    }
                    assert forall|k: int| 0 <= k < out@.len() implies #[trigger] out@[k].index < g
                        + 1 by {}
                }
            }
            ri = ri + 1;
            g = g + 1;
        }
        si = si + 1;
    }
    out
}

} // verus!
