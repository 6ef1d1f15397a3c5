//! Selector matching against one element, given the element's tag and
//! attributes, its position among its siblings, and summaries of its
//! ancestors and preceding siblings.
use vstd::prelude::*;
use crate::dom::Attributes;
use crate::text::{
    chars_eq, chars_eq_ignore_ascii_case, chars_eq_str, chars_of, contains_exec, contains_seq,
    ends_with, ends_with_exec, eq_ignore_ascii_case, find_exec, find_from, lemma_find_none_iff,
    lemma_scan_to_any, member, occurs_at, parse_signed, parse_unsigned, scan_to_any,
    scan_to_any_exec, signed_value, slice_vec, split_whitespace, starts_with, starts_with_exec,
    to_lowercase, trim, trimmed, unicode_lowercase, unsigned_value, words,
};
use crate::tokens::{
    lemma_parse_pseudo, parse_pseudo, parse_pseudo_class, split_on,
    split_on_char, token_views, tokenize, tokenize_chars,
};

verus! {

// ---------------------------------------------------------------------------
// :nth-child arguments
// ---------------------------------------------------------------------------

/// `s` parsed as an `i32`, or 0 when it does not parse.
pub open spec fn i32_or_zero(s: Seq<char>) -> int {
    match signed_value(s) {
        Some(v) => if i32::MIN <= v <= i32::MAX {
            v
        } else {
            0
        },
        None => 0,
    }
}

/// `s` without any occurrence of `c`.
pub open spec fn remove_char(s: Seq<char>, c: char) -> Seq<char>
    decreases s.len(),
{
    if s.len() == 0 {
        s
    } else if s.last() == c {
        remove_char(s.drop_last(), c)
    } else {
        remove_char(s.drop_last(), c).push(s.last())
    }
}

/// The coefficients `(a, b)` of an `An+B` expression (already trimmed and
/// lower-cased). Unparseable parts count as 0; a bare `n`, `+n` and `-n`
/// have `a` of 1, 1 and -1.
pub open spec fn nth_coeffs(e: Seq<char>) -> (int, int) {
    match find_from(e, seq!['n'], 0) {
        Some(np) => {
            let ap = trim(e.subrange(0, np));
            let a = if ap.len() == 0 || ap == seq!['+'] {
                1
            } else if ap == seq!['-'] {
                -1
            } else {
                i32_or_zero(ap)
            };
            let bp = trim(e.subrange(np + 1, e.len() as int));
            let b = if bp.len() == 0 {
                0
            } else {
                i32_or_zero(trim(remove_char(bp, '+')))
            };
            (a, b)
        },
        None => (0, i32_or_zero(e)),
    }
}

/// Absolute value.
pub open spec fn abs(x: int) -> int {
    if x < 0 {
        -x
    } else {
        x
    }
}

/// Whether the 1-based position `n` satisfies an `:nth-child` argument:
/// `odd`, `even`, a plain number, or `An+B` (some `k >= 0` with
/// `n == A*k + B`).
pub open spec fn nth_matches(expr: Seq<char>, n: int) -> bool {
    let e = unicode_lowercase(trim(expr));
    if e == "odd"@ {
        n % 2 == 1
    } else if e == "even"@ {
        n % 2 == 0
    } else if unsigned_value(e) is Some && unsigned_value(e)->0 <= usize::MAX {
        n == unsigned_value(e)->0
    } else {
        let (a, b) = nth_coeffs(e);
        if a == 0 {
            n == b
        } else if a > 0 {
            n - b >= 0 && abs(n - b) % abs(a) == 0
        } else {
            n - b <= 0 && abs(n - b) % abs(a) == 0
        }
    }
}

fn parse_i32_or_zero(s: &[char]) -> (r: i64)
    ensures
        r as int == i32_or_zero(s@),
        i32::MIN <= r <= i32::MAX,
{
    match parse_signed(s, 2147483648, 2147483647) {
        Some((neg, m)) => {
            if neg {
                -(m as i64)
            } else {
                m as i64
            }
        },
        None => 0,
    }
}

fn remove_char_exec(s: &[char], c: char) -> (r: Vec<char>)
    ensures
        r@ == remove_char(s@, c),
{
    let mut r: Vec<char> = Vec::new();
    let mut i: usize = 0;
    while i < s.len()
        invariant
            i <= s@.len(),
            r@ == remove_char(s@.subrange(0, i as int), c),
        decreases s@.len() - i,
    {
        let ghost post = s@.subrange(0, i + 1);
        assert(post.drop_last() =~= s@.subrange(0, i as int));
        if s[i] != c {
            r.push(s[i]);
        }
        i = i + 1;
    }
    assert(s@.subrange(0, s@.len() as int) =~= s@);
    r
}

/// Whether 1-based position `n` satisfies the `:nth-child` argument `expr`
/// (see `nth_matches`).
pub fn match_nth(expr: &[char], n: usize) -> (r: bool)
    requires
        n <= i32::MAX,
        nth_defined(expr@, n as int),
    ensures
        r == nth_matches(expr@, n as int),
{
    let t = trimmed(expr);
    let e = to_lowercase(&t);
    if chars_eq_str(&e, "odd") {
        return n % 2 == 1;
    }
    if chars_eq_str(&e, "even") {
        return n % 2 == 0;
    }
    match parse_unsigned(&e, usize::MAX as u128) {
        Some(num) => {
            return n as u128 == num;
        },
        None => {},
    }
    let nv: i64 = n as i64;
    let mut a: i64 = 0;
    let mut b: i64 = 0;
    let nn = vec!['n'];
    assert(nn@ =~= seq!['n']);
    match find_exec(&e, &nn, 0) {
        Some(np) => {
            proof {
                assert(occurs_at(e@, nn@, np as int)) by {
                    crate::text::lemma_find_none_iff(e@, nn@);
                    assert(find_from(e@, nn@, 0) == Some(np as int));
                    lemma_find_some_occurs(e@, nn@, 0);
                }
            }
            assert(np + 1 <= e@.len());
            let head = slice_vec(&e, 0, np);
            let ap = trimmed(&head);
            if ap.len() == 0 || (ap.len() == 1 && ap[0] == '+') {
                a = 1;
                assert(ap@.len() == 0 || ap@ =~= seq!['+']);
            } else if ap.len() == 1 && ap[0] == '-' {
                a = -1;
                assert(ap@ =~= seq!['-']);
            } else {
                proof {
                    if ap@ == seq!['+'] {
                        assert(ap@[0] == '+');
                    }
                    if ap@ == seq!['-'] {
                        assert(ap@[0] == '-');
                    }
                }
                a = parse_i32_or_zero(&ap);
            }
            let tail = slice_vec(&e, np + 1, e.len());
            let bp = trimmed(&tail);
            if bp.len() > 0 {
                let stripped = remove_char_exec(&bp, '+');
                let st = trimmed(&stripped);
                b = parse_i32_or_zero(&st);
            }
        },
        None => {
            b = parse_i32_or_zero(&e);
        },
    }
    proof {
        assert(nth_coeffs(e@) == (a as int, b as int));
    }
    if a == 0 {
        return nv == b;
    }
    let diff: i64 = nv - b;
    let ad: u64 = if diff < 0 {
        (-diff) as u64
    } else {
        diff as u64
    };
    let aa: u64 = if a < 0 {
        (-a) as u64
    } else {
        a as u64
    };
    if a > 0 {
        diff >= 0 && ad % aa == 0
    } else {
        diff <= 0 && ad % aa == 0
    }
}

/// The `k`-th term `A*k + B` of an `An+B` argument.
pub open spec fn nth_term(a: int, b: int, k: int) -> int {
    a * k + b
}

/// For an `An+B` argument (one that is neither `odd`, `even` nor a plain
/// number), a position matches exactly when it is `A*k + B` for some
/// `k >= 0`. In particular, with `A > 0` no position before `B` matches,
/// and with `A < 0` no position after `B` matches.
pub proof fn lemma_nth_formula_positions(expr: Seq<char>, n: int)
    requires
        unicode_lowercase(trim(expr)) != "odd"@,
        unicode_lowercase(trim(expr)) != "even"@,
        !(unsigned_value(unicode_lowercase(trim(expr))) is Some && unsigned_value(
            unicode_lowercase(trim(expr)),
        )->0 <= usize::MAX),
    ensures
        ({
            let (a, b) = nth_coeffs(unicode_lowercase(trim(expr)));
            &&& nth_matches(expr, n) <==> exists|k: int| k >= 0 && n == #[trigger] nth_term(a, b, k)
            &&& (a > 0 && n < b ==> !nth_matches(expr, n))
            &&& (a < 0 && n > b ==> !nth_matches(expr, n))
        }),
{
    let e = unicode_lowercase(trim(expr));
    let (a, b) = nth_coeffs(e);
    if nth_matches(expr, n) {
        if a == 0 {
            assert(nth_term(a, b, 0) == b) by (nonlinear_arith)
                requires
                    a == 0,
            ;
        } else if a > 0 {
            let k = (n - b) / a;
            vstd::arithmetic::div_mod::lemma_fundamental_div_mod(n - b, a);
            assert(k >= 0 && n == nth_term(a, b, k)) by (nonlinear_arith)
                requires
                    a > 0,
                    n - b >= 0,
                    (n - b) % a == 0,
                    k == (n - b) / a,
                    n - b == a * ((n - b) / a) + (n - b) % a,
            ;
        } else {
            let k = (b - n) / (-a);
            vstd::arithmetic::div_mod::lemma_fundamental_div_mod(b - n, -a);
            assert(k >= 0 && n == nth_term(a, b, k)) by (nonlinear_arith)
                requires
                    a < 0,
                    b - n >= 0,
                    (b - n) % (-a) == 0,
                    k == (b - n) / (-a),
                    b - n == (-a) * ((b - n) / (-a)) + (b - n) % (-a),
            ;
        }
    }
    if exists|k: int| k >= 0 && n == #[trigger] nth_term(a, b, k) {
        let k = choose|k: int| k >= 0 && n == #[trigger] nth_term(a, b, k);
        if a == 0 {
            assert(n == b) by (nonlinear_arith)
                requires
                    a == 0,
                    n == a * k + b,
            ;
        } else if a > 0 {
            vstd::arithmetic::div_mod::lemma_mod_multiples_basic(k, a);
            assert(n - b >= 0 && n - b == k * a) by (nonlinear_arith)
                requires
                    a > 0,
                    k >= 0,
                    n == a * k + b,
            ;
        } else {
            vstd::arithmetic::div_mod::lemma_mod_multiples_basic(k, -a);
            assert(n - b <= 0 && b - n == k * (-a)) by (nonlinear_arith)
                requires
                    a < 0,
                    k >= 0,
                    n == a * k + b,
            ;
        }
    }
}

proof fn lemma_find_some_occurs(s: Seq<char>, p: Seq<char>, i: int)
    requires
        0 <= i,
        find_from(s, p, i) is Some,
    ensures
        occurs_at(s, p, find_from(s, p, i)->0),
    decreases s.len() + 1 - i,
{
    if i + p.len() <= s.len() && !occurs_at(s, p, i) {
        lemma_find_some_occurs(s, p, i + 1);
    }
}

// ---------------------------------------------------------------------------
// Attribute selectors
// ---------------------------------------------------------------------------

/// The attribute-selector operators, in the order they are tried.
pub open spec fn attr_op(k: int) -> Seq<char> {
    if k == 0 {
        seq!['~', '=']
    } else if k == 1 {
        seq!['|', '=']
    } else if k == 2 {
        seq!['^', '=']
    } else if k == 3 {
        seq!['$', '=']
    } else if k == 4 {
        seq!['*', '=']
    } else {
        seq!['=']
    }
}

/// A value with one layer of matching quotes removed. A lone quote
/// character becomes empty.
pub open spec fn unquote(v: Seq<char>) -> Seq<char> {
    if v.len() > 0 && ((v[0] == '"' && v.last() == '"') || (v[0] == '\'' && v.last() == '\'')) {
        if v.len() >= 2 {
            v.subrange(1, v.len() - 1)
        } else {
            Seq::empty()
        }
    } else {
        v
    }
}

/// Whether attribute value `el` satisfies operator `k` with value `v`.
pub open spec fn op_holds(k: int, el: Seq<char>, v: Seq<char>) -> bool {
    if k == 0 {
        words(el).contains(v)
    } else if k == 1 {
        el == v || starts_with(el, v.push('-'))
    } else if k == 2 {
        starts_with(el, v)
    } else if k == 3 {
        ends_with(el, v)
    } else if k == 4 {
        contains_seq(el, v)
    } else {
        el == v
    }
}

/// Matching of the inside of `[...]`, trying the operators from `k` on. The
/// first operator found in the text decides; with none, the attribute must
/// merely be present.
pub open spec fn attr_match_from(sel: Seq<char>, attrs: Attributes, k: int) -> bool
    decreases 6 - k,
{
    if k < 0 || k >= 6 {
        attrs.get_spec(trim(sel)) is Some
    } else {
        match find_from(sel, attr_op(k), 0) {
            None => attr_match_from(sel, attrs, k + 1),
            Some(pos) => {
                let name = trim(sel.subrange(0, pos));
                let v = unquote(trim(sel.subrange(pos + attr_op(k).len(), sel.len() as int)));
                match attrs.get_spec(name) {
                    Some(el) => op_holds(k, el, v),
                    None => false,
                }
            },
        }
    }
}

/// Whether an attribute selector (the text between `[` and `]`) matches.
pub open spec fn attr_matches(sel: Seq<char>, attrs: Attributes) -> bool {
    attr_match_from(sel, attrs, 0)
}

fn attr_op_exec(k: usize) -> (r: Vec<char>)
    requires
        k < 6,
    ensures
        r@ == attr_op(k as int),
{
    let r = if k == 0 {
        vec!['~', '=']
    } else if k == 1 {
        vec!['|', '=']
    } else if k == 2 {
        vec!['^', '=']
    } else if k == 3 {
        vec!['$', '=']
    } else if k == 4 {
        vec!['*', '=']
    } else {
        vec!['=']
    };
    assert(r@ =~= attr_op(k as int));
    r
}

fn unquote_exec(v: &[char]) -> (r: Vec<char>)
    ensures
        r@ == unquote(v@),
{
    let n = v.len();
    if n > 0 && ((v[0] == '"' && v[n - 1] == '"') || (v[0] == '\'' && v[n - 1] == '\'')) {
        if n >= 2 {
            slice_vec(v, 1, n - 1)
        } else {
            Vec::new()
        }
    } else {
        slice_vec(v, 0, n)
    }
}

fn words_contain(el: &[char], v: &[char]) -> (r: bool)
    ensures
        r == words(el@).contains(v@),
{
    let ws = split_whitespace(el);
    let mut k: usize = 0;
    while k < ws.len()
        invariant
            k <= ws@.len(),
            ws@.len() == words(el@).len(),
            forall|i: int| 0 <= i < ws@.len() ==> #[trigger] ws@[i]@ == words(el@)[i],
            forall|i: int| 0 <= i < k ==> words(el@)[i] != v@,
        decreases ws@.len() - k,
    {
        if chars_eq(&ws[k], v) {
            assert(words(el@)[k as int] == v@);
            return true;
        }
        k = k + 1;
    }
    false
}

fn op_holds_exec(k: usize, el: &[char], v: &[char]) -> (r: bool)
    requires
        k < 6,
    ensures
        r == op_holds(k as int, el@, v@),
{
    if k == 0 {
        words_contain(el, v)
    } else if k == 1 {
        if chars_eq(el, v) {
            true
        } else {
            let mut vd = slice_vec(v, 0, v.len());
            vd.push('-');
            assert(vd@ =~= v@.push('-'));
            starts_with_exec(el, &vd)
        }
    } else if k == 2 {
        starts_with_exec(el, v)
    } else if k == 3 {
        ends_with_exec(el, v)
    } else if k == 4 {
        contains_exec(el, v)
    } else {
        chars_eq(el, v)
    }
}

/// Matches the inside of an attribute selector (`name`, `name=value`,
/// `name~=value`, `name|=value`, `name^=value`, `name$=value`,
/// `name*=value`; the value may be quoted) against the attributes.
pub fn match_attribute_selector(sel: &[char], attributes: &Attributes) -> (r: bool)
    requires
        attr_defined_from(sel@, 0),
    ensures
        r == attr_matches(sel@, *attributes),
{
    let mut k: usize = 0;
    while k < 6
        invariant
            k <= 6,
            attr_matches(sel@, *attributes) == attr_match_from(sel@, *attributes, k as int),
        decreases 6 - k,
    {
        let op = attr_op_exec(k);
        match find_exec(sel, &op, 0) {
            Some(pos) => {
                proof {
                    lemma_find_some_occurs(sel@, op@, 0);
                }
                let n = sel.len();
                assert(pos + op@.len() <= n);
                let head = slice_vec(sel, 0, pos);
                let name = trimmed(&head);
                let tail = slice_vec(sel, pos + op.len(), sel.len());
                let vt = trimmed(&tail);
                let v = unquote_exec(&vt);
                return match attributes.get_chars(&name) {
                    Some(el) => op_holds_exec(k, &el, &v),
                    None => false,
                };
            },
            None => {},
        }
        k = k + 1;
    }
    let name = trimmed(sel);
    attributes.contains_key_chars(&name)
}

/// The characters that make up the attribute-selector operators.
pub open spec fn operator_char(c: char) -> bool {
    c == '~' || c == '|' || c == '^' || c == '$' || c == '*' || c == '='
}

/// The first occurrence of `p` in `s` at or after `i` is at `j` when it
/// occurs there and nowhere in between.
proof fn lemma_find_first_at(s: Seq<char>, p: Seq<char>, i: int, j: int)
    requires
        0 <= i <= j,
        occurs_at(s, p, j),
        forall|k: int| i <= k < j ==> !occurs_at(s, p, k),
    ensures
        find_from(s, p, i) == Some(j),
    decreases j - i,
{
    if i < j {
        lemma_find_first_at(s, p, i + 1, j);
    }
}

/// Operators that do not occur are skipped, in order.
proof fn lemma_attr_skip(sel: Seq<char>, attrs: Attributes, k: int, k0: int)
    requires
        0 <= k <= k0 <= 6,
        forall|j: int| k <= j < k0 ==> find_from(sel, #[trigger] attr_op(j), 0) is None,
    ensures
        attr_match_from(sel, attrs, k) == attr_match_from(sel, attrs, k0),
    decreases k0 - k,
{
    if k < k0 {
        lemma_attr_skip(sel, attrs, k + 1, k0);
    }
}

/// What each attribute-selector operator tests, for `[name OP value]` with
/// a name free of operator characters and a value free of `=`: `=` an
/// equal value, `~=` the value among the attribute's whitespace-separated
/// words, `|=` an equal value or one that starts with the value and a `-`,
/// `^=` a prefix, `$=` a suffix and `*=` a substring. An element without
/// the attribute never matches. The value is compared trimmed and with one
/// layer of quotes removed.
pub proof fn lemma_attribute_operators(
    name: Seq<char>,
    op: Seq<char>,
    value: Seq<char>,
    attrs: Attributes,
)
    requires
        op == seq!['~', '='] || op == seq!['|', '='] || op == seq!['^', '='] || op == seq![
            '$',
            '=',
        ] || op == seq!['*', '='] || op == seq!['='],
        forall|k: int| 0 <= k < name.len() ==> !operator_char(#[trigger] name[k]),
        forall|k: int| 0 <= k < value.len() ==> #[trigger] value[k] != '=',
    ensures
        ({
            let m = attr_matches(name + op + value, attrs);
            let v = unquote(trim(value));
            let found = attrs.get_spec(trim(name));
            &&& (op == seq!['='] ==> (m <==> found == Some(v)))
            &&& (op == seq!['~', '='] ==> (m <==> (found matches Some(el) && words(el).contains(
                v,
            ))))
            &&& (op == seq!['|', '='] ==> (m <==> (found matches Some(el) && (el == v
                || starts_with(el, v.push('-'))))))
            &&& (op == seq!['^', '='] ==> (m <==> (found matches Some(el) && starts_with(el, v))))
            &&& (op == seq!['$', '='] ==> (m <==> (found matches Some(el) && ends_with(el, v))))
            &&& (op == seq!['*', '='] ==> (m <==> (found matches Some(el) && contains_seq(el, v))))
        }),
{
    let sel = name + op + value;
    let n = name.len() as int;
    let eq_at = n + op.len() - 1;
    let k0: int = if op == seq!['~', '='] {
        0
    } else if op == seq!['|', '='] {
        1
    } else if op == seq!['^', '='] {
        2
    } else if op == seq!['$', '='] {
        3
    } else if op == seq!['*', '='] {
        4
    } else {
        5
    };
    assert(attr_op(k0) == op);
    // The only `=` of the selector is the operator's last character.
    assert forall|i: int| 0 <= i < sel.len() && sel[i] == '=' implies i == eq_at by {
        if i < n {
            assert(sel[i] == name[i]);
        } else if i >= n + op.len() {
            assert(sel[i] == value[i - n - op.len()]);
        } else {
            assert(sel[i] == op[i - n]);
        }
    }
    assert forall|j: int, i: int|
        #![trigger occurs_at(sel, attr_op(j), i)]
        0 <= j < k0 implies !occurs_at(sel, attr_op(j), i) by {
        let p = attr_op(j);
        assert(p.len() == 2 && p[1] == '=' && operator_char(p[0]) && p[0] != attr_op(k0)[0]) by {
            if j == 0 {
            } else if j == 1 {
            } else if j == 2 {
            } else if j == 3 {
            } else {
            }
        }
        if occurs_at(sel, p, i) {
            assert(sel.subrange(i, i + 2)[1] == sel[i + 1]);
            assert(sel.subrange(i, i + 2)[0] == sel[i]);
            assert(i + 1 == eq_at);
            if k0 < 5 {
                assert(sel[n] == op[0]);
            } else {
                assert(sel[n - 1] == name[n - 1]);
            }
        }
    }
    assert forall|j: int| 0 <= j < k0 implies find_from(sel, #[trigger] attr_op(j), 0) is None by {
        crate::text::lemma_find_none_iff(sel, attr_op(j));
    }
    lemma_attr_skip(sel, attrs, 0, k0);
    assert(sel.subrange(n, n + op.len()) =~= op);
    assert forall|i: int| 0 <= i < n implies !occurs_at(sel, op, i) by {
        if occurs_at(sel, op, i) {
            assert(sel.subrange(i, i + op.len())[op.len() - 1] == sel[i + op.len() - 1]);
        }
    }
    lemma_find_first_at(sel, op, 0, n);
    assert(sel.subrange(0, n) =~= name);
    assert(sel.subrange(n + op.len(), sel.len() as int) =~= value);
}

/// A selector with no `=` in it only asks that the attribute be present.
pub proof fn lemma_attribute_presence(sel: Seq<char>, attrs: Attributes)
    requires
        forall|k: int| 0 <= k < sel.len() ==> #[trigger] sel[k] != '=',
    ensures
        attr_matches(sel, attrs) <==> attrs.get_spec(trim(sel)) is Some,
{
    assert forall|j: int, i: int|
        #![trigger occurs_at(sel, attr_op(j), i)]
        0 <= j < 6 implies !occurs_at(sel, attr_op(j), i) by {
        let p = attr_op(j);
        if occurs_at(sel, p, i) {
            assert(sel.subrange(i, i + p.len())[p.len() - 1] == sel[i + p.len() - 1]);
        }
    }
    assert forall|j: int| 0 <= j < 6 implies find_from(sel, #[trigger] attr_op(j), 0) is None by {
        crate::text::lemma_find_none_iff(sel, attr_op(j));
    }
    lemma_attr_skip(sel, attrs, 0, 6);
}

// ---------------------------------------------------------------------------
// Compound selectors against the element itself
// ---------------------------------------------------------------------------

/// The characters that end a name inside a compound selector.
pub open spec fn compound_delims() -> Seq<char> {
    seq!['.', '#', ':', '[']
}

/// Whether the pseudo-classes other than `:not` hold for an element with
/// tag `tag`, attributes `attrs`, 0-based position `idx` among `count`
/// siblings. Dynamic states (`hover`, `focus`, `active`, `visited`) never
/// hold; unknown pseudo-classes always hold.
pub open spec fn pseudo_holds(
    name: Seq<char>,
    arg: Option<Seq<char>>,
    attrs: Attributes,
    idx: int,
    count: int,
) -> bool {
    if name == "first-child"@ {
        idx == 0
    } else if name == "last-child"@ {
        idx == (if count > 0 {
            count - 1
        } else {
            0
        })
    } else if name == "only-child"@ {
        count == 1
    } else if name == "nth-child"@ {
        arg is Some && nth_matches(arg->0, idx + 1)
    } else if name == "nth-last-child"@ {
        arg is Some && nth_matches(arg->0, count - idx)
    } else if name == "hover"@ || name == "focus"@ || name == "active"@ || name == "visited"@ {
        false
    } else if name == "disabled"@ {
        attrs.get_spec("disabled"@) is Some
    } else if name == "enabled"@ {
        attrs.get_spec("disabled"@) is None
    } else if name == "checked"@ {
        attrs.get_spec("checked"@) is Some
    } else if name == "empty"@ || name == "root"@ {
        false
    } else {
        true
    }
}

/// How the positional and state pseudo-classes relate, for an element at
/// 0-based position `idx` among `count` siblings: `:only-child` is
/// `:first-child:last-child`; `:nth-last-child(a)` counts from the end,
/// holding exactly where `:nth-child(a)` holds for the mirrored position;
/// `:enabled` is the negation of `:disabled`; and the dynamic states never
/// hold of a document that is not being interacted with.
pub proof fn lemma_pseudo_class_relations(
    arg: Option<Seq<char>>,
    attrs: Attributes,
    idx: int,
    count: int,
)
    requires
        0 <= idx < count,
    ensures
        pseudo_holds("only-child"@, arg, attrs, idx, count) <==> (pseudo_holds(
            "first-child"@,
            arg,
            attrs,
            idx,
            count,
        ) && pseudo_holds("last-child"@, arg, attrs, idx, count)),
        pseudo_holds("nth-last-child"@, arg, attrs, idx, count) <==> pseudo_holds(
            "nth-child"@,
            arg,
            attrs,
            count - 1 - idx,
            count,
        ),
        pseudo_holds("enabled"@, arg, attrs, idx, count) <==> !pseudo_holds(
            "disabled"@,
            arg,
            attrs,
            idx,
            count,
        ),
        !pseudo_holds("hover"@, arg, attrs, idx, count),
        !pseudo_holds("focus"@, arg, attrs, idx, count),
        !pseudo_holds("active"@, arg, attrs, idx, count),
        !pseudo_holds("visited"@, arg, attrs, idx, count),
{
    reveal_strlit("first-child");
    reveal_strlit("last-child");
    reveal_strlit("only-child");
    reveal_strlit("nth-child");
    reveal_strlit("nth-last-child");
    reveal_strlit("hover");
    reveal_strlit("focus");
    reveal_strlit("active");
    reveal_strlit("visited");
    reveal_strlit("disabled");
    reveal_strlit("enabled");
    assert("only-child"@.len() != "first-child"@.len());
    assert("only-child"@[0] != "last-child"@[0]);
    assert("nth-child"@.len() != "first-child"@.len());
    assert("nth-child"@[0] != "last-child"@[0]);
    assert("nth-child"@[0] != "only-child"@[0]);
    assert("nth-last-child"@.len() != "first-child"@.len());
    assert("nth-last-child"@[0] != "last-child"@[0]);
    assert("nth-last-child"@[0] != "only-child"@[0]);
    assert("nth-last-child"@.len() != "nth-child"@.len());
    assert("disabled"@.len() == 8 && "enabled"@.len() == 7);
    assert("enabled"@[0] != "visited"@[0]);
}

/// Whether the element carries class `c`.
pub open spec fn has_class_attr(attrs: Attributes, c: Seq<char>) -> bool {
    attrs.get_spec("class"@) is Some && words(attrs.get_spec("class"@)->0).contains(c)
}

/// Whether every non-empty piece in `pieces` is a class of the element.
pub open spec fn all_pieces_are_classes(pieces: Seq<Seq<char>>, attrs: Attributes) -> bool {
    forall|k: int|
        0 <= k < pieces.len() && (#[trigger] pieces[k]).len() > 0 ==> has_class_attr(
            attrs,
            pieces[k],
        )
}

/// Whether a simple (compound) selector matches the element.
///
/// `*` matches everything and `:root` matches `html`. `#id` compares the id
/// exactly. A selector made only of `.class` parts (no `#`, `[` or `:`)
/// needs every class. Otherwise a leading tag name (compared ignoring ASCII
/// case) is followed by `.class`, `#id`, `[attribute]` and `:pseudo` parts,
/// each of which must hold.
pub open spec fn simple_matches(
    sel: Seq<char>,
    tag: Seq<char>,
    attrs: Attributes,
    idx: int,
    count: int,
) -> bool
    decreases sel.len(), 1int, 0int,
{
    if sel == "*"@ {
        true
    } else if sel == ":root"@ {
        eq_ignore_ascii_case(tag, "html"@)
    } else if sel.len() > 0 && sel[0] == '#' {
        attrs.get_spec("id"@) == Some(sel.drop_first())
    } else if sel.len() > 0 && sel[0] == '.' && !sel.contains('#') && !sel.contains('[')
        && !sel.contains(':') {
        attrs.get_spec("class"@) is Some && all_pieces_are_classes(
            split_on(sel.drop_first(), '.'),
            attrs,
        )
    } else {
        let te = scan_to_any(sel, 0, compound_delims());
        proof {
            lemma_scan_to_any(sel, 0, compound_delims());
        }
        let tag_part = sel.subrange(0, te);
        if tag_part.len() > 0 && !eq_ignore_ascii_case(tag_part, tag) {
            false
        } else {
            compound_matches(sel, te, tag, attrs, idx, count)
        }
    }
}

/// Whether the parts of `sel` from position `p` on all hold (see
/// `simple_matches`). A position that starts no recognized part ends the
/// check successfully.
pub open spec fn compound_matches(
    sel: Seq<char>,
    p: int,
    tag: Seq<char>,
    attrs: Attributes,
    idx: int,
    count: int,
) -> bool
    decreases sel.len(), 0int, sel.len() - p,
{
    if p < 0 || p >= sel.len() {
        true
    } else if sel[p] == '.' || sel[p] == '#' {
        let end = scan_to_any(sel, p + 1, compound_delims());
        proof {
            lemma_scan_to_any(sel, p + 1, compound_delims());
        }
        let name = sel.subrange(p + 1, end);
        let ok = if sel[p] == '.' {
            has_class_attr(attrs, name)
        } else {
            attrs.get_spec("id"@) == Some(name)
        };
        ok && compound_matches(sel, end, tag, attrs, idx, count)
    } else if sel[p] == '[' {
        let be = match find_from(sel, seq![']'], p + 1) {
            Some(j) => j,
            None => sel.len() as int,
        };
        proof {
            lemma_find_from_ge(sel, seq![']'], p + 1);
        }
        let next = if be < sel.len() {
            be + 1
        } else {
            sel.len() as int
        };
        attr_matches(sel.subrange(p + 1, be), attrs) && compound_matches(
            sel,
            next,
            tag,
            attrs,
            idx,
            count,
        )
    } else if sel[p] == ':' {
        let rest = sel.subrange(p + 1, sel.len() as int);
        let (name, arg, consumed) = parse_pseudo(rest);
        proof {
            lemma_parse_pseudo(rest);
        }
        let next = if p + 1 + consumed < sel.len() {
            p + 1 + consumed
        } else {
            sel.len() as int
        };
        let ok = if name == "not"@ {
            match arg {
                Some(a) => !simple_matches(a, tag, attrs, idx, count),
                None => true,
            }
        } else {
            pseudo_holds(name, arg, attrs, idx, count)
        };
        ok && compound_matches(sel, next, tag, attrs, idx, count)
    } else {
        true
    }
}

/// A lone quote character, which has no inside to take out.
pub open spec fn lone_quote(v: Seq<char>) -> bool {
    v.len() == 1 && (v[0] == '"' || v[0] == '\'')
}

/// Whether reading the inside of `[...]` is defined, trying the operators
/// from `k` on: the value after the first operator found is not a lone
/// quote.
pub open spec fn attr_defined_from(sel: Seq<char>, k: int) -> bool
    decreases 6 - k,
{
    if k < 0 || k >= 6 {
        true
    } else {
        match find_from(sel, attr_op(k), 0) {
            None => attr_defined_from(sel, k + 1),
            Some(pos) => !lone_quote(trim(sel.subrange(pos + attr_op(k).len(), sel.len() as int))),
        }
    }
}

/// Whether testing position `n` against an `An+B` argument stays within
/// `i32`: the difference `n - B` it takes when `A` is not zero fits.
pub open spec fn nth_defined(expr: Seq<char>, n: int) -> bool {
    let e = unicode_lowercase(trim(expr));
    if e == "odd"@ || e == "even"@ || (unsigned_value(e) is Some && unsigned_value(e)->0
        <= usize::MAX) {
        true
    } else {
        let (a, b) = nth_coeffs(e);
        a != 0 ==> n - b <= i32::MAX
    }
}

/// Whether evaluating a pseudo-class other than `:not` is defined.
pub open spec fn pseudo_defined(name: Seq<char>, arg: Option<Seq<char>>, idx: int, count: int) -> bool {
    if name == "nth-child"@ {
        arg matches Some(a) ==> nth_defined(a, idx + 1)
    } else if name == "nth-last-child"@ {
        arg matches Some(a) ==> nth_defined(a, count - idx)
    } else {
        true
    }
}

/// Whether matching a compound selector against the element is defined
/// (see `simple_matches`): the parts read until one fails are all defined.
pub open spec fn simple_defined(
    sel: Seq<char>,
    tag: Seq<char>,
    attrs: Attributes,
    idx: int,
    count: int,
) -> bool
    decreases sel.len(), 1int, 0int,
{
    if sel == "*"@ || sel == ":root"@ || (sel.len() > 0 && sel[0] == '#') || (sel.len() > 0
        && sel[0] == '.' && !sel.contains('#') && !sel.contains('[') && !sel.contains(':')) {
        true
    } else {
        let te = scan_to_any(sel, 0, compound_delims());
        proof {
            lemma_scan_to_any(sel, 0, compound_delims());
        }
        let tag_part = sel.subrange(0, te);
        if tag_part.len() > 0 && !eq_ignore_ascii_case(tag_part, tag) {
            true
        } else {
            compound_defined(sel, te, tag, attrs, idx, count)
        }
    }
}

/// Whether checking the parts of `sel` from position `p` on is defined,
/// checking stopping at the first part that fails: no attribute value is a
/// lone quote, no pseudo-class's `(` is the last character, and no `An+B`
/// difference leaves `i32`.
pub open spec fn compound_defined(
    sel: Seq<char>,
    p: int,
    tag: Seq<char>,
    attrs: Attributes,
    idx: int,
    count: int,
) -> bool
    decreases sel.len(), 0int, sel.len() - p,
{
    if p < 0 || p >= sel.len() {
        true
    } else if sel[p] == '.' || sel[p] == '#' {
        let end = scan_to_any(sel, p + 1, compound_delims());
        proof {
            lemma_scan_to_any(sel, p + 1, compound_delims());
        }
        let name = sel.subrange(p + 1, end);
        let ok = if sel[p] == '.' {
            has_class_attr(attrs, name)
        } else {
            attrs.get_spec("id"@) == Some(name)
        };
        ok ==> compound_defined(sel, end, tag, attrs, idx, count)
    } else if sel[p] == '[' {
        let be = match find_from(sel, seq![']'], p + 1) {
            Some(j) => j,
            None => sel.len() as int,
        };
        proof {
            lemma_find_from_ge(sel, seq![']'], p + 1);
        }
        let next = if be < sel.len() {
            be + 1
        } else {
            sel.len() as int
        };
        &&& attr_defined_from(sel.subrange(p + 1, be), 0)
        &&& attr_matches(sel.subrange(p + 1, be), attrs) ==> compound_defined(
            sel,
            next,
            tag,
            attrs,
            idx,
            count,
        )
    } else if sel[p] == ':' {
        let rest = sel.subrange(p + 1, sel.len() as int);
        let (name, arg, consumed) = parse_pseudo(rest);
        proof {
            lemma_parse_pseudo(rest);
        }
        let next = if p + 1 + consumed < sel.len() {
            p + 1 + consumed
        } else {
            sel.len() as int
        };
        let ok = if name == "not"@ {
            match arg {
                Some(a) => !simple_matches(a, tag, attrs, idx, count),
                None => true,
            }
        } else {
            pseudo_holds(name, arg, attrs, idx, count)
        };
        &&& p + 1 + consumed <= sel.len()
        &&& name == "not"@ ==> match arg {
            Some(a) => simple_defined(a, tag, attrs, idx, count),
            None => true,
        }
        &&& name != "not"@ ==> pseudo_defined(name, arg, idx, count)
        &&& ok ==> compound_defined(sel, next, tag, attrs, idx, count)
    } else {
        true
    }
}

/// Where `find_from` can land.
pub proof fn lemma_find_from_ge(s: Seq<char>, p: Seq<char>, i: int)
    ensures
        find_from(s, p, i) matches Some(j) ==> i <= j && j + p.len() <= s.len(),
    decreases s.len() + 1 - i,
{
    if i >= 0 && i + p.len() <= s.len() && !occurs_at(s, p, i) {
        lemma_find_from_ge(s, p, i + 1);
    }
}

fn has_class_exec(attrs: &Attributes, c: &[char]) -> (r: bool)
    ensures
        r == has_class_attr(*attrs, c@),
{
    let cls = chars_of("class");
    match attrs.get_chars(&cls) {
        Some(el) => words_contain(&el, c),
        None => false,
    }
}

fn pseudo_holds_exec(
    name: &[char],
    arg: &Option<Vec<char>>,
    attrs: &Attributes,
    idx: usize,
    count: usize,
) -> (r: bool)
    requires
        idx < count <= i32::MAX,
        pseudo_defined(
            name@,
            match arg {
                Some(a) => Some(a@),
                None => None,
            },
            idx as int,
            count as int,
        ),
    ensures
        r == pseudo_holds(
            name@,
            match arg {
                Some(a) => Some(a@),
                None => None,
            },
            *attrs,
            idx as int,
            count as int,
        ),
{
    if chars_eq_str(name, "first-child") {
        idx == 0
    } else if chars_eq_str(name, "last-child") {
        idx == count - 1
    } else if chars_eq_str(name, "only-child") {
        count == 1
    } else if chars_eq_str(name, "nth-child") {
        match arg {
            Some(a) => match_nth(a, idx + 1),
            None => false,
        }
    } else if chars_eq_str(name, "nth-last-child") {
        match arg {
            Some(a) => match_nth(a, count - idx),
            None => false,
        }
    } else if chars_eq_str(name, "hover") || chars_eq_str(name, "focus") || chars_eq_str(
        name,
        "active",
    ) || chars_eq_str(name, "visited") {
        false
    } else if chars_eq_str(name, "disabled") {
        attrs.contains_key("disabled")
    } else if chars_eq_str(name, "enabled") {
        !attrs.contains_key("disabled")
    } else if chars_eq_str(name, "checked") {
        attrs.contains_key("checked")
    } else if chars_eq_str(name, "empty") || chars_eq_str(name, "root") {
        false
    } else {
        true
    }
}

/// Matches a simple (compound) selector, with pseudo-classes, against the
/// element (see `simple_matches`).
pub fn simple_selector_matches_with_pseudo(
    sel: &[char],
    tag_name: &[char],
    attributes: &Attributes,
    element_index: usize,
    sibling_count: usize,
) -> (r: bool)
    requires
        element_index < sibling_count <= i32::MAX,
        simple_defined(sel@, tag_name@, *attributes, element_index as int, sibling_count as int),
    ensures
        r == simple_matches(
            sel@,
            tag_name@,
            *attributes,
            element_index as int,
            sibling_count as int,
        ),
    decreases sel@.len(),
{
    let ghost tag = tag_name@;
    let ghost idx = element_index as int;
    let ghost cnt = sibling_count as int;
    if chars_eq_str(sel, "*") {
        return true;
    }
    if chars_eq_str(sel, ":root") {
        let html = chars_of("html");
        return chars_eq_ignore_ascii_case(tag_name, &html);
    }
    let n = sel.len();
    if n > 0 && sel[0] == '#' {
        let id = slice_vec(sel, 1, n);
        assert(id@ =~= sel@.drop_first());
        return match attributes.get("id") {
            Some(v) => {
                let vc = chars_of(v.as_str());
                chars_eq(&vc, &id)
            },
            None => false,
        };
    }
    if n > 0 && sel[0] == '.' && !member(sel, '#') && !member(sel, '[') && !member(sel, ':') {
        let rest = slice_vec(sel, 1, n);
        assert(rest@ =~= sel@.drop_first());
        let pieces = split_on_char(&rest, '.');
        let cls = chars_of("class");
        assert(simple_matches(sel@, tag, *attributes, idx, cnt) == (attributes.get_spec(
            "class"@,
        ) is Some && all_pieces_are_classes(split_on(rest@, '.'), *attributes)));
        match attributes.get_chars(&cls) {
            Some(el) => {
                let mut k: usize = 0;
                while k < pieces.len()
                    invariant
                        simple_matches(sel@, tag, *attributes, idx, cnt) == (attributes.get_spec(
                            "class"@,
                        ) is Some && all_pieces_are_classes(split_on(rest@, '.'), *attributes)),
                        tag == tag_name@,
                        idx == element_index as int,
                        cnt == sibling_count as int,
                        k <= pieces@.len(),
                        pieces@.len() == split_on(rest@, '.').len(),
                        forall|i: int|
                            0 <= i < pieces@.len() ==> #[trigger] pieces@[i]@ == split_on(
                                rest@,
                                '.',
                            )[i],
                        attributes.get_spec("class"@) == Some(el@),
                        cls@ == "class"@,
                        forall|i: int|
                            0 <= i < k && (#[trigger] split_on(rest@, '.')[i]).len() > 0
                                ==> has_class_attr(*attributes, split_on(rest@, '.')[i]),
                    decreases pieces@.len() - k,
                {
                    if pieces[k].len() > 0 && !words_contain(&el, &pieces[k]) {
                        assert(split_on(rest@, '.')[k as int].len() > 0);
                        assert(!has_class_attr(*attributes, split_on(rest@, '.')[k as int]));
                        assert(!all_pieces_are_classes(split_on(rest@, '.'), *attributes));
                        return false;
                    }
                    k = k + 1;
                }
                return true;
            },
            None => {
                return false;
            },
        }
    }
    let delims = vec!['.', '#', ':', '['];
    assert(delims@ =~= compound_delims());
    let te = scan_to_any_exec(sel, 0, &delims);
    proof {
        lemma_scan_to_any(sel@, 0, compound_delims());
    }
    if te > 0 {
        let tag_part = slice_vec(sel, 0, te);
        if !chars_eq_ignore_ascii_case(&tag_part, tag_name) {
            return false;
        }
    }
    let mut p = te;
    while p < n
        invariant
            te <= p <= n,
            n == sel@.len(),
            delims@ == compound_delims(),
            element_index < sibling_count <= i32::MAX,
            simple_matches(sel@, tag, *attributes, idx, cnt) == compound_matches(
                sel@,
                p as int,
                tag,
                *attributes,
                idx,
                cnt,
            ),
            compound_defined(sel@, p as int, tag, *attributes, idx, cnt),
            tag == tag_name@,
            idx == element_index,
            cnt == sibling_count,
        decreases n - p,
    {
        let c = sel[p];
        if c == '.' || c == '#' {
            let end = scan_to_any_exec(sel, p + 1, &delims);
            proof {
                lemma_scan_to_any(sel@, p + 1, compound_delims());
            }
            let name = slice_vec(sel, p + 1, end);
            let ok = if c == '.' {
                has_class_exec(attributes, &name)
            } else {
                match attributes.get("id") {
                    Some(v) => {
                        let vc = chars_of(v.as_str());
                        chars_eq(&vc, &name)
                    },
                    None => false,
                }
            };
            if !ok {
                return false;
            }
            p = end;
        } else if c == '[' {
            let close = vec![']'];
            let found = find_exec(sel, &close, p + 1);
            proof {
                lemma_find_from_ge(sel@, close@, p + 1);
                assert(close@ =~= seq![']']);
            }
            let be = match found {
                Some(j) => j,
                None => n,
            };
            let inner = slice_vec(sel, p + 1, be);
            if !match_attribute_selector(&inner, attributes) {
                return false;
            }
            p = if be < n {
                be + 1
            } else {
                n
            };
        } else if c == ':' {
            let rest = slice_vec(sel, p + 1, n);
            let (name, arg, consumed) = parse_pseudo_class(&rest);
            proof {
                lemma_parse_pseudo(rest@);
            }
            let ok = if chars_eq_str(&name, "not") {
                match &arg {
                    Some(a) => !simple_selector_matches_with_pseudo(
                        a,
                        tag_name,
                        attributes,
                        element_index,
                        sibling_count,
                    ),
                    None => true,
                }
            } else {
                pseudo_holds_exec(&name, &arg, attributes, element_index, sibling_count)
            };
            if !ok {
                return false;
            }
            p = if consumed < n - p - 1 {
                p + 1 + consumed
            } else {
                n
            };
        } else {
            return true;
        }
    }
    true
}

// ---------------------------------------------------------------------------
// Compound selectors against ancestors and siblings
// ---------------------------------------------------------------------------

/// The `.class` and `#id` parts of `sel` from position `p`, stopping at the
/// first `:` or `[`. Empty names are ignored; the last id wins.
pub open spec fn anc_parts(
    sel: Seq<char>,
    p: int,
    classes: Seq<Seq<char>>,
    id: Option<Seq<char>>,
) -> (Seq<Seq<char>>, Option<Seq<char>>)
    decreases sel.len() - p,
{
    if p < 0 || p >= sel.len() || !(sel[p] == '.' || sel[p] == '#') {
        (classes, id)
    } else {
        let end = scan_to_any(sel, p + 1, compound_delims());
        proof {
            lemma_scan_to_any(sel, p + 1, compound_delims());
        }
        let name = sel.subrange(p + 1, end);
        if sel[p] == '.' {
            anc_parts(
                sel,
                end,
                if name.len() > 0 {
                    classes.push(name)
                } else {
                    classes
                },
                id,
            )
        } else {
            anc_parts(
                sel,
                end,
                classes,
                if name.len() > 0 {
                    Some(name)
                } else {
                    id
                },
            )
        }
    }
}

/// Whether a compound selector matches an ancestor or sibling known only by
/// tag, classes and id. Attribute and pseudo-class parts are ignored.
pub open spec fn summary_matches(
    sel: Seq<char>,
    tag: Seq<char>,
    classes: Seq<Seq<char>>,
    id: Option<Seq<char>>,
) -> bool {
    if sel == "*"@ {
        true
    } else {
        let fd = scan_to_any(sel, 0, compound_delims());
        let req_tag = if fd > 0 {
            Some(sel.subrange(0, fd))
        } else {
            None
        };
        let parts = anc_parts(sel, fd, Seq::empty(), None);
        &&& (req_tag is Some ==> eq_ignore_ascii_case(req_tag->0, tag))
        &&& parts_ok(parts.0, parts.1, classes, id)
    }
}

/// Whether an element with `classes` and `id` has every required class and
/// the required id, if any.
pub open spec fn parts_ok(
    req_classes: Seq<Seq<char>>,
    req_id: Option<Seq<char>>,
    classes: Seq<Seq<char>>,
    id: Option<Seq<char>>,
) -> bool {
    &&& forall|k: int| 0 <= k < req_classes.len() ==> classes.contains(#[trigger] req_classes[k])
    &&& (req_id is Some ==> id == req_id)
}

/// An ancestor or sibling: `(tag, classes, id)`.
pub type ElementSummary = (String, Vec<String>, Option<String>);

/// The tag of a summary.
pub open spec fn sum_tag(e: ElementSummary) -> Seq<char> {
    e.0@
}

/// The classes of a summary.
pub open spec fn sum_classes(e: ElementSummary) -> Seq<Seq<char>> {
    e.1@.map_values(|c: String| c@)
}

/// The id of a summary.
pub open spec fn sum_id(e: ElementSummary) -> Option<Seq<char>> {
    match e.2 {
        Some(s) => Some(s@),
        None => None,
    }
}

/// Whether a compound selector matches a summarized element.
pub open spec fn summary_matches_elem(sel: Seq<char>, e: ElementSummary) -> bool {
    summary_matches(sel, sum_tag(e), sum_classes(e), sum_id(e))
}

fn classes_contain(classes: &Vec<String>, c: &[char]) -> (r: bool)
    ensures
        r == classes@.map_values(|s: String| s@).contains(c@),
{
    let mut k: usize = 0;
    while k < classes.len()
        invariant
            k <= classes@.len(),
            forall|i: int| 0 <= i < k ==> classes@[i]@ != c@,
        decreases classes@.len() - k,
    {
        let have = chars_of(classes[k].as_str());
        if chars_eq(&have, c) {
            assert(classes@.map_values(|s: String| s@)[k as int] == c@);
            return true;
        }
        k = k + 1;
    }
    proof {
        let m = classes@.map_values(|s: String| s@);
        if m.contains(c@) {
            let i = choose|i: int| 0 <= i < m.len() && #[trigger] m[i] == c@;
            assert(classes@[i]@ == c@);
        }
    }
    false
}

/// Matches a compound selector against an ancestor or sibling summary (see
/// `summary_matches`).
pub fn simple_selector_matches_ancestor(
    sel: &[char],
    tag_name: &[char],
    classes: &Vec<String>,
    id: &Option<String>,
) -> (r: bool)
    ensures
        r == summary_matches(
            sel@,
            tag_name@,
            classes@.map_values(|c: String| c@),
            match id {
                Some(s) => Some(s@),
                None => None,
            },
        ),
{
    if chars_eq_str(sel, "*") {
        return true;
    }
    let delims = vec!['.', '#', ':', '['];
    assert(delims@ =~= compound_delims());
    let n = sel.len();
    let fd = scan_to_any_exec(sel, 0, &delims);
    proof {
        lemma_scan_to_any(sel@, 0, compound_delims());
    }
    let mut req_classes: Vec<Vec<char>> = Vec::new();
    let mut req_id: Option<Vec<char>> = None;
    let mut p = fd;
    assert(req_classes@.map_values(|v: Vec<char>| v@) =~= Seq::<Seq<char>>::empty());
    while p < n && (sel[p] == '.' || sel[p] == '#')
        invariant
            fd <= p <= n,
            n == sel@.len(),
            fd == scan_to_any(sel@, 0, compound_delims()),
            sel@ != "*"@,
            delims@ == compound_delims(),
            anc_parts(sel@, fd as int, Seq::empty(), None) == anc_parts(
                sel@,
                p as int,
                req_classes@.map_values(|v: Vec<char>| v@),
                match req_id {
                    Some(v) => Some(v@),
                    None => None,
                },
            ),
        decreases n - p,
    {
        let end = scan_to_any_exec(sel, p + 1, &delims);
        proof {
            lemma_scan_to_any(sel@, p + 1, compound_delims());
        }
        let name = slice_vec(sel, p + 1, end);
        if name.len() > 0 {
            if sel[p] == '.' {
                let ghost before = req_classes@.map_values(|v: Vec<char>| v@);
                req_classes.push(name);
                assert(req_classes@.map_values(|v: Vec<char>| v@) =~= before.push(
                    sel@.subrange(p + 1, end as int),
                ));
            } else {
                req_id = Some(name);
            }
        }
        p = end;
    }
    let ghost rc = req_classes@.map_values(|v: Vec<char>| v@);
    if fd > 0 {
        let req_tag = slice_vec(sel, 0, fd);
        if !chars_eq_ignore_ascii_case(&req_tag, tag_name) {
            return false;
        }
    }
    let ghost idv = match &id {
        Some(s) => Some(s@),
        None => None::<Seq<char>>,
    };
    let ghost cv = classes@.map_values(|c: String| c@);
    let ghost rid = match &req_id {
        Some(v) => Some(v@),
        None => None::<Seq<char>>,
    };
    assert(anc_parts(sel@, fd as int, Seq::empty(), None) == (rc, rid));
    assert(fd > 0 ==> eq_ignore_ascii_case(sel@.subrange(0, fd as int), tag_name@));
    assert(summary_matches(sel@, tag_name@, cv, idv) == parts_ok(rc, rid, cv, idv));
    let mut k: usize = 0;
    while k < req_classes.len()
        invariant
            summary_matches(sel@, tag_name@, cv, idv) == parts_ok(rc, rid, cv, idv),
            idv == match id {
                Some(s) => Some(s@),
                None => None::<Seq<char>>,
            },
            rid == match &req_id {
                Some(v) => Some(v@),
                None => None::<Seq<char>>,
            },
            cv == classes@.map_values(|c: String| c@),
            k <= req_classes@.len(),
            rc == req_classes@.map_values(|v: Vec<char>| v@),
            forall|i: int|
                0 <= i < k ==> classes@.map_values(|c: String| c@).contains(#[trigger] rc[i]),
        decreases req_classes@.len() - k,
    {
        if !classes_contain(classes, &req_classes[k]) {
            assert(!classes@.map_values(|c: String| c@).contains(rc[k as int]));
            assert(!parts_ok(rc, rid, cv, idv));
            return false;
        }
        k = k + 1;
    }
    match &req_id {
        Some(want) => match id {
            Some(have) => {
                let hc = chars_of(have.as_str());
                chars_eq(&hc, want)
            },
            None => false,
        },
        None => true,
    }
}

fn summary_matches_exec(sel: &[char], e: &ElementSummary) -> (r: bool)
    ensures
        r == summary_matches_elem(sel@, *e),
{
    let t = chars_of(e.0.as_str());
    simple_selector_matches_ancestor(sel, &t, &e.1, &e.2)
}

// ---------------------------------------------------------------------------
// Complex selectors
// ---------------------------------------------------------------------------

/// Whether a selector names a pseudo-element (`::x`, `:before`, `:after`);
/// such rules style a generated box and never its host element.
pub open spec fn names_pseudo_element(t: Seq<char>) -> bool {
    contains_seq(t, "::"@) || ends_with(t, ":before"@) || ends_with(t, ":after"@) || contains_seq(
        t,
        ":before "@,
    ) || contains_seq(t, ":after "@)
}

/// Index of the first ancestor at or after `from` that matches `part`.
pub open spec fn first_matching(part: Seq<char>, ancestors: Seq<ElementSummary>, from: int) -> Option<
    int,
>
    decreases ancestors.len() - from,
{
    if from < 0 || from >= ancestors.len() {
        None
    } else if summary_matches_elem(part, ancestors[from]) {
        Some(from)
    } else {
        first_matching(part, ancestors, from + 1)
    }
}

/// Whether the tokens `toks[0..=i]` (walked from `i` down) are satisfied,
/// with the ancestor search resuming at `anc`. A descendant combinator takes
/// the nearest matching ancestor, a child combinator the next one; `+` needs
/// the immediately preceding sibling and `~` any preceding sibling.
pub open spec fn combinators_match(
    toks: Seq<(Seq<char>, Seq<char>)>,
    i: int,
    anc: int,
    ancestors: Seq<ElementSummary>,
    sibs: Seq<ElementSummary>,
) -> bool
    decreases i + 1,
{
    if i < 0 {
        true
    } else {
        let part = toks[i].0;
        let comb = toks[i].1;
        if comb == seq![' '] {
            match first_matching(part, ancestors, anc) {
                Some(k) => combinators_match(toks, i - 1, k + 1, ancestors, sibs),
                None => false,
            }
        } else if comb == seq!['>'] {
            0 <= anc < ancestors.len() && summary_matches_elem(part, ancestors[anc])
                && combinators_match(toks, i - 1, anc + 1, ancestors, sibs)
        } else if comb == seq!['+'] {
            sibs.len() > 0 && summary_matches_elem(part, sibs.last()) && combinators_match(
                toks,
                i - 1,
                anc,
                ancestors,
                sibs,
            )
        } else if comb == seq!['~'] {
            (exists|k: int| 0 <= k < sibs.len() && summary_matches_elem(part, #[trigger] sibs[k]))
                && combinators_match(toks, i - 1, anc, ancestors, sibs)
        } else {
            combinators_match(toks, i - 1, anc, ancestors, sibs)
        }
    }
}

/// Whether one complex selector (no commas, already trimmed) matches.
pub open spec fn complex_matches(
    t: Seq<char>,
    tag: Seq<char>,
    attrs: Attributes,
    ancestors: Seq<ElementSummary>,
    sibs: Seq<ElementSummary>,
    idx: int,
    count: int,
) -> bool {
    if names_pseudo_element(t) {
        false
    } else {
        let toks = tokenize(t);
        if toks.len() == 0 {
            false
        } else if toks.last().1.len() > 0 {
            false
        } else {
            simple_matches(toks.last().0, tag, attrs, idx, count) && combinators_match(
                toks,
                toks.len() - 2,
                0,
                ancestors,
                sibs,
            )
        }
    }
}

/// Whether matching one complex selector is defined: the compound that
/// must match the element itself is read defined (see `simple_defined`).
pub open spec fn complex_defined(
    t: Seq<char>,
    tag: Seq<char>,
    attrs: Attributes,
    idx: int,
    count: int,
) -> bool {
    if names_pseudo_element(t) {
        true
    } else {
        let toks = tokenize(t);
        if toks.len() == 0 || toks.last().1.len() > 0 {
            true
        } else {
            simple_defined(toks.last().0, tag, attrs, idx, count)
        }
    }
}

/// Whether matching a selector is defined: each member of a list that is
/// tried (every member up to the first that matches) is defined.
pub open spec fn selector_defined(
    sel: Seq<char>,
    tag: Seq<char>,
    attrs: Attributes,
    ancestors: Seq<ElementSummary>,
    sibs: Seq<ElementSummary>,
    idx: int,
    count: int,
) -> bool {
    let t = trim(sel);
    if t.contains(',') {
        forall|k: int|
            0 <= k < split_on(t, ',').len() && (forall|j: int|
                0 <= j < k ==> !complex_matches(
                    trim(#[trigger] split_on(t, ',')[j]),
                    tag,
                    attrs,
                    ancestors,
                    sibs,
                    idx,
                    count,
                )) ==> complex_defined(trim(#[trigger] split_on(t, ',')[k]), tag, attrs, idx, count)
    } else {
        complex_defined(t, tag, attrs, idx, count)
    }
}

/// Whether a selector (possibly a comma-separated list) matches the
/// element: a list matches when any of its trimmed members does.
pub open spec fn selector_matches_spec(
    sel: Seq<char>,
    tag: Seq<char>,
    attrs: Attributes,
    ancestors: Seq<ElementSummary>,
    sibs: Seq<ElementSummary>,
    idx: int,
    count: int,
) -> bool {
    let t = trim(sel);
    if t.contains(',') {
        exists|k: int|
            0 <= k < split_on(t, ',').len() && complex_matches(
                trim(#[trigger] split_on(t, ',')[k]),
                tag,
                attrs,
                ancestors,
                sibs,
                idx,
                count,
            )
    } else {
        complex_matches(t, tag, attrs, ancestors, sibs, idx, count)
    }
}

fn first_matching_exec(part: &[char], ancestors: &[ElementSummary], from: usize) -> (r: Option<
    usize,
>)
    requires
        from <= ancestors@.len(),
    ensures
        match r {
            Some(k) => first_matching(part@, ancestors@, from as int) == Some(k as int) && k
                < ancestors@.len(),
            None => first_matching(part@, ancestors@, from as int) is None,
        },
{
    let mut k = from;
    while k < ancestors.len()
        invariant
            from <= k <= ancestors@.len(),
            first_matching(part@, ancestors@, from as int) == first_matching(
                part@,
                ancestors@,
                k as int,
            ),
        decreases ancestors@.len() - k,
    {
        if summary_matches_exec(part, &ancestors[k]) {
            return Some(k);
        }
        k = k + 1;
    }
    None
}

fn any_sibling_matches(part: &[char], sibs: &[ElementSummary]) -> (r: bool)
    ensures
        r == exists|k: int| 0 <= k < sibs@.len() && summary_matches_elem(part@, #[trigger] sibs@[k]),
{
    let mut k: usize = 0;
    while k < sibs.len()
        invariant
            k <= sibs@.len(),
            forall|m: int| 0 <= m < k ==> !summary_matches_elem(part@, #[trigger] sibs@[m]),
        decreases sibs@.len() - k,
    {
        if summary_matches_exec(part, &sibs[k]) {
            return true;
        }
        k = k + 1;
    }
    false
}

fn complex_matches_exec(
    t: &[char],
    tag_name: &[char],
    attributes: &Attributes,
    ancestors: &[ElementSummary],
    siblings_before: &[ElementSummary],
    element_index: usize,
    sibling_count: usize,
) -> (r: bool)
    requires
        element_index < sibling_count <= i32::MAX,
        complex_defined(t@, tag_name@, *attributes, element_index as int, sibling_count as int),
    ensures
        r == complex_matches(
            t@,
            tag_name@,
            *attributes,
            ancestors@,
            siblings_before@,
            element_index as int,
            sibling_count as int,
        ),
{
    let dc = chars_of("::");
    let b1 = chars_of(":before");
    let a1 = chars_of(":after");
    let b2 = chars_of(":before ");
    let a2 = chars_of(":after ");
    if contains_exec(t, &dc) || ends_with_exec(t, &b1) || ends_with_exec(t, &a1) || contains_exec(
        t,
        &b2,
    ) || contains_exec(t, &a2) {
        return false;
    }
    let toks = tokenize_chars(t);
    let nt = toks.len();
    if nt == 0 {
        return false;
    }
    proof {
        assert(token_views(toks@).last() == (toks@[nt - 1].0@, toks@[nt - 1].1@));
    }
    if toks[nt - 1].1.len() > 0 {
        return false;
    }
    let last = &toks[nt - 1].0;
    if !simple_selector_matches_with_pseudo(
        last,
        tag_name,
        attributes,
        element_index,
        sibling_count,
    ) {
        return false;
    }
    let ghost tv = token_views(toks@);
    assert(tv == tokenize(t@));
    assert(complex_matches(
        t@,
        tag_name@,
        *attributes,
        ancestors@,
        siblings_before@,
        element_index as int,
        sibling_count as int,
    ) == combinators_match(tv, nt - 2, 0, ancestors@, siblings_before@));
    let mut anc: usize = 0;
    let mut i: usize = nt - 1;
    while i > 0
        invariant
            i < nt,
            nt == toks@.len(),
            tv == token_views(toks@),
            anc <= ancestors@.len(),
            ancestors@.len() == ancestors.len(),
            complex_matches(
                t@,
                tag_name@,
                *attributes,
                ancestors@,
                siblings_before@,
                element_index as int,
                sibling_count as int,
            ) == combinators_match(tv, nt - 2, 0, ancestors@, siblings_before@),
            combinators_match(tv, nt - 2, 0, ancestors@, siblings_before@) == combinators_match(
                tv,
                i - 1,
                anc as int,
                ancestors@,
                siblings_before@,
            ),
        decreases i,
    {
        let j = i - 1;
        let part = &toks[j].0;
        let comb = &toks[j].1;
        proof {
            assert(tv[j as int] == (toks@[j as int].0@, toks@[j as int].1@));
        }
        if comb.len() == 1 && comb[0] == ' ' {
            assert(comb@ =~= seq![' ']);
            match first_matching_exec(part, ancestors, anc) {
                Some(k) => {
                    anc = k + 1;
                },
                None => {
                    return false;
                },
            }
        } else if comb.len() == 1 && comb[0] == '>' {
            assert(comb@ =~= seq!['>']);
            assert(comb@ != seq![' ']);
            if anc < ancestors.len() && summary_matches_exec(part, &ancestors[anc]) {
                anc = anc + 1;
            } else {
                return false;
            }
        } else if comb.len() == 1 && comb[0] == '+' {
            assert(comb@ =~= seq!['+']);
            assert(comb@ != seq![' '] && comb@ != seq!['>']);
            let ns = siblings_before.len();
            if !(ns > 0 && summary_matches_exec(part, &siblings_before[ns - 1])) {
                return false;
            }
        } else if comb.len() == 1 && comb[0] == '~' {
            assert(comb@ =~= seq!['~']);
            assert(comb@ != seq![' '] && comb@ != seq!['>'] && comb@ != seq!['+']);
            let found = any_sibling_matches(part, siblings_before);
            if !found {
                return false;
            }
        } else {
            proof {
                if comb@ == seq![' '] || comb@ == seq!['>'] || comb@ == seq!['+'] || comb@ == seq![
                    '~',
                ] {
                    assert(comb@.len() == 1);
                    assert(comb@[0] == comb[0]);
                }
            }
        }
        i = j;
    }
    true
}

/// Whether a selector matches an element.
///
/// `ancestors` runs from the parent up to the root; `siblings_before` lists
/// the preceding siblings in document order; `element_index` is the
/// element's 0-based position among its `sibling_count` siblings. See
/// `selector_matches_spec`. Selectors whose reading is not defined (see
/// `selector_defined`: a lone-quote attribute value, a pseudo-class `(` at
/// the end of the compound, an `An+B` difference outside `i32`) are
/// excluded.
pub fn selector_matches(
    selector: &str,
    tag_name: &str,
    attributes: &Attributes,
    ancestors: &[ElementSummary],
    siblings_before: &[ElementSummary],
    element_index: usize,
    sibling_count: usize,
) -> (r: bool)
    requires
        element_index < sibling_count <= i32::MAX,
        selector_defined(
            selector@,
            tag_name@,
            *attributes,
            ancestors@,
            siblings_before@,
            element_index as int,
            sibling_count as int,
        ),
    ensures
        r == selector_matches_spec(
            selector@,
            tag_name@,
            *attributes,
            ancestors@,
            siblings_before@,
            element_index as int,
            sibling_count as int,
        ),
{
    let all = chars_of(selector);
    let tag = chars_of(tag_name);
    let t = trimmed(&all);
    if member(&t, ',') {
        let parts = split_on_char(&t, ',');
        let mut k: usize = 0;
        while k < parts.len()
            invariant
                k <= parts@.len(),
                parts@.len() == split_on(t@, ',').len(),
                forall|m: int| 0 <= m < parts@.len() ==> #[trigger] parts@[m]@ == split_on(t@, ',')[m],
                forall|m: int|
                    0 <= m < k ==> !complex_matches(
                        trim(#[trigger] split_on(t@, ',')[m]),
                        tag@,
                        *attributes,
                        ancestors@,
                        siblings_before@,
                        element_index as int,
                        sibling_count as int,
                    ),
                element_index < sibling_count <= i32::MAX,
                t@ == trim(selector@),
                t@.contains(','),
                tag@ == tag_name@,
                selector_defined(
                    selector@,
                    tag_name@,
                    *attributes,
                    ancestors@,
                    siblings_before@,
                    element_index as int,
                    sibling_count as int,
                ),
            decreases parts@.len() - k,
        {
            let p = trimmed(&parts[k]);
            proof {
                assert(complex_defined(
                    trim(split_on(t@, ',')[k as int]),
                    tag@,
                    *attributes,
                    element_index as int,
                    sibling_count as int,
                ));
            }
            if complex_matches_exec(
                &p,
                &tag,
                attributes,
                ancestors,
                siblings_before,
                element_index,
                sibling_count,
            ) {
                return true;
            }
            k = k + 1;
        }
        false
    } else {
        complex_matches_exec(
            &t,
            &tag,
            attributes,
            ancestors,
            siblings_before,
            element_index,
            sibling_count,
        )
    }
}

} // verus!
