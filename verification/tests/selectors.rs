use rustkit_engine::dom::Attributes;
use rustkit_engine::identity::{
    child_selector_path, child_selector_segments, enters_foreign_content, reported_selector,
    selector_segment,
};
use rustkit_engine::dom::ChildSummary;
use rustkit_engine::matching::{match_nth, selector_matches, ElementSummary};
use rustkit_engine::specificity::selector_specificity;
use rustkit_engine::tokens::tokenize_selector;

fn attrs(pairs: &[(&str, &str)]) -> Attributes {
    let mut a = Attributes::new();
    for (k, v) in pairs {
        a.insert(k, v);
    }
    a
}

fn summary(tag: &str, classes: &[&str], id: Option<&str>) -> ElementSummary {
    (
        tag.to_string(),
        classes.iter().map(|c| c.to_string()).collect(),
        id.map(|s| s.to_string()),
    )
}

#[test]
fn test_selector_specificity() {
    // Test type selector: (0, 0, 1)
    assert_eq!(selector_specificity("div"), (0, 0, 1));
    assert_eq!(selector_specificity("p"), (0, 0, 1));

    // Test class selector: (0, 1, 0)
    assert_eq!(selector_specificity(".class"), (0, 1, 0));
    assert_eq!(selector_specificity(".a.b"), (0, 2, 0));

    // Test ID selector: (1, 0, 0)
    assert_eq!(selector_specificity("#id"), (1, 0, 0));

    // Test combined selectors
    assert_eq!(selector_specificity("div.class"), (0, 1, 1));
    assert_eq!(selector_specificity("div#id"), (1, 0, 1));
    assert_eq!(selector_specificity("#id.class"), (1, 1, 0));

    // Test pseudo-classes: (0, 1, 0) each
    assert_eq!(selector_specificity(":hover"), (0, 1, 0));
    assert_eq!(selector_specificity(":first-child"), (0, 1, 0));
    assert_eq!(selector_specificity("div:first-child"), (0, 1, 1));

    // Test pseudo-elements: (0, 0, 1) each
    assert_eq!(selector_specificity("::before"), (0, 0, 1));
    assert_eq!(selector_specificity("div::before"), (0, 0, 2));

    // Test attribute selectors: (0, 1, 0) each
    assert_eq!(selector_specificity("[type]"), (0, 1, 0));
    assert_eq!(selector_specificity("[type=text]"), (0, 1, 0));
    assert_eq!(selector_specificity("input[type=text]"), (0, 1, 1));

    // Test descendant selectors
    assert_eq!(selector_specificity("body div"), (0, 0, 2));
    assert_eq!(selector_specificity("body .class"), (0, 1, 1));
    assert_eq!(selector_specificity("#id .class div"), (1, 1, 1));

    // Test :not() - adds specificity of argument
    assert_eq!(selector_specificity(":not(.class)"), (0, 1, 0));
    assert_eq!(selector_specificity("div:not(.class)"), (0, 1, 1));

    // Test universal selector: (0, 0, 0)
    assert_eq!(selector_specificity("*"), (0, 0, 0));

    // Test complex selectors
    assert_eq!(selector_specificity("div.a.b#id:hover"), (1, 3, 1));

    // Test ID beats multiple classes
    let id_spec = selector_specificity("#test");
    let multi_class_spec = selector_specificity(".a.b.c.d.e");
    assert!(id_spec > multi_class_spec, "ID should beat multiple classes");
}

#[test]
fn specificity_of_a_list_is_its_greatest_member() {
    assert_eq!(selector_specificity("p, #x, .a.b"), (1, 0, 0));
    assert_eq!(selector_specificity(":where(#a) p"), (0, 0, 1));
    assert_eq!(selector_specificity(":is(#a, .b)"), (1, 0, 0));
    assert_eq!(selector_specificity("li:nth-child(2n+1)"), (0, 1, 1));
    assert_eq!(selector_specificity("a > b + c ~ d"), (0, 0, 4));
}

#[test]
fn test_sibling_combinators_and_positional_pseudo_classes() {
    // .wrap children: a, b, x, c — evaluated with the sibling context the
    // cascade threads in.
    let wrap = [summary("div", &["wrap"], None), summary("body", &[], None), summary("html", &[], None)];
    let a = summary("div", &["a"], None);
    let b = summary("div", &["b"], None);
    let x = summary("div", &["x"], None);

    let a_attrs = attrs(&[("class", "a")]);
    let b_attrs = attrs(&[("class", "b")]);
    let x_attrs = attrs(&[("class", "x")]);
    let c_attrs = attrs(&[("class", "c")]);

    // .a matches no sibling rule
    assert!(!selector_matches(".a + .b", "div", &a_attrs, &wrap, &[], 0, 4));
    assert!(!selector_matches(".a ~ .c", "div", &a_attrs, &wrap, &[], 0, 4));
    // .a + .b should match adjacent sibling
    assert!(selector_matches(".a + .b", "div", &b_attrs, &wrap, &[a.clone()], 1, 4));
    // .x matches no sibling rule
    assert!(!selector_matches(".a + .b", "div", &x_attrs, &wrap, &[a.clone(), b.clone()], 2, 4));
    assert!(!selector_matches(".a ~ .c", "div", &x_attrs, &wrap, &[a.clone(), b.clone()], 2, 4));
    // .a ~ .c should match general sibling
    assert!(selector_matches(".a ~ .c", "div", &c_attrs, &wrap, &[a.clone(), b.clone(), x.clone()], 3, 4));
    assert!(!selector_matches(".a + .b", "div", &c_attrs, &wrap, &[a, b, x], 3, 4));

    // section children: p, p, p
    let section = [summary("section", &[], None), summary("body", &[], None)];
    let none = attrs(&[]);
    let p = summary("p", &[], None);
    assert!(selector_matches("p:first-child", "p", &none, &section, &[], 0, 3));
    assert!(!selector_matches("p:last-child", "p", &none, &section, &[], 0, 3));
    assert!(!selector_matches("p:first-child", "p", &none, &section, &[p.clone()], 1, 3));
    assert!(!selector_matches("p:last-child", "p", &none, &section, &[p.clone()], 1, 3));
    assert!(!selector_matches("p:first-child", "p", &none, &section, &[p.clone(), p.clone()], 2, 3));
    assert!(selector_matches("p:last-child", "p", &none, &section, &[p.clone(), p], 2, 3));
    // The comma list `div, p` matches both.
    assert!(selector_matches("div, p", "p", &none, &section, &[], 0, 3));
}

#[test]
fn descendant_and_child_combinators_walk_the_ancestor_chain() {
    let ancestors = [
        summary("span", &[], None),
        summary("div", &["card"], Some("main")),
        summary("body", &[], None),
        summary("html", &[], None),
    ];
    let a = attrs(&[("class", "title big"), ("id", "t")]);
    assert!(selector_matches("div b", "b", &a, &ancestors, &[], 0, 1));
    assert!(selector_matches("body .card span > b", "b", &a, &ancestors, &[], 0, 1));
    assert!(selector_matches("#main b.title", "B", &a, &ancestors, &[], 0, 1));
    assert!(!selector_matches("div > b", "b", &a, &ancestors, &[], 0, 1));
    assert!(!selector_matches("span div b", "b", &a, &ancestors, &[], 0, 1));
    assert!(selector_matches("html body div span b", "b", &a, &ancestors, &[], 0, 1));
    assert!(selector_matches("b.title.big#t", "b", &a, &ancestors, &[], 0, 1));
    assert!(!selector_matches("b::before", "b", &a, &ancestors, &[], 0, 1));
    assert!(!selector_matches("b:after", "b", &a, &ancestors, &[], 0, 1));
    assert!(selector_matches("*", "b", &a, &ancestors, &[], 0, 1));
    assert!(selector_matches(".title", "b", &a, &ancestors, &[], 0, 1));
    assert!(!selector_matches(".title.small", "b", &a, &ancestors, &[], 0, 1));
}

#[test]
fn attribute_and_pseudo_class_parts() {
    let none: [ElementSummary; 0] = [];
    let input = attrs(&[("type", "text"), ("lang", "en-US"), ("class", "a b"), ("disabled", "")]);
    assert!(selector_matches("input[type=text]", "input", &input, &none, &none, 0, 1));
    assert!(selector_matches("input[type=\"text\"]", "input", &input, &none, &none, 0, 1));
    assert!(!selector_matches("input[type=radio]", "input", &input, &none, &none, 0, 1));
    assert!(selector_matches("[lang|=en]", "input", &input, &none, &none, 0, 1));
    assert!(selector_matches("[class~=b]", "input", &input, &none, &none, 0, 1));
    assert!(selector_matches("[type^=te]", "input", &input, &none, &none, 0, 1));
    assert!(selector_matches("[type$=xt]", "input", &input, &none, &none, 0, 1));
    assert!(selector_matches("[type*=ex]", "input", &input, &none, &none, 0, 1));
    assert!(selector_matches("[disabled]", "input", &input, &none, &none, 0, 1));
    assert!(!selector_matches("[checked]", "input", &input, &none, &none, 0, 1));
    assert!(selector_matches("input:disabled", "input", &input, &none, &none, 0, 1));
    assert!(!selector_matches("input:enabled", "input", &input, &none, &none, 0, 1));
    assert!(!selector_matches("input:hover", "input", &input, &none, &none, 0, 1));
    assert!(selector_matches("input:not(.c)", "input", &input, &none, &none, 0, 1));
    assert!(!selector_matches("input:not(.a)", "input", &input, &none, &none, 0, 1));
    assert!(selector_matches("li:nth-child(odd)", "li", &input, &none, &none, 2, 5));
    assert!(!selector_matches("li:nth-child(even)", "li", &input, &none, &none, 2, 5));
    assert!(selector_matches("li:nth-last-child(1)", "li", &input, &none, &none, 4, 5));
    assert!(selector_matches(":root", "HTML", &input, &none, &none, 0, 1));
}

#[test]
fn nth_expressions() {
    let odd: Vec<char> = "odd".chars().collect();
    assert!(match_nth(&odd, 1));
    assert!(!match_nth(&odd, 2));
    let e: Vec<char> = " 2n+1 ".chars().collect();
    assert!(match_nth(&e, 1) && match_nth(&e, 3) && !match_nth(&e, 4));
    let e: Vec<char> = "-n+3".chars().collect();
    assert!(match_nth(&e, 1) && match_nth(&e, 3) && !match_nth(&e, 4));
    let e: Vec<char> = "3".chars().collect();
    assert!(match_nth(&e, 3) && !match_nth(&e, 2));
    let e: Vec<char> = "n".chars().collect();
    assert!(match_nth(&e, 1) && match_nth(&e, 7));
    let e: Vec<char> = "3n".chars().collect();
    assert!(match_nth(&e, 6) && !match_nth(&e, 7));
    let e: Vec<char> = "EVEN".chars().collect();
    assert!(match_nth(&e, 2));
}

#[test]
fn tokens_pair_compounds_with_the_following_combinator() {
    let t = tokenize_selector("div.a > p  span+em ~ [x=\"a b\"]");
    let t: Vec<(&str, &str)> = t.iter().map(|(a, b)| (a.as_str(), b.as_str())).collect();
    assert_eq!(
        t,
        vec![("div.a", ">"), ("p", " "), ("span", "+"), ("em", "~"), ("[x=\"a b\"]", "")]
    );
}

#[test]
fn selector_segments_match_committed_chrome_baseline() {
    // `body > div.header:nth-of-type(1)` — two sibling divs, so indexed.
    assert_eq!(
        selector_segment("div", &attrs(&[("class", "header")]), 1, 2, false),
        "div.header:nth-of-type(1)"
    );
    // `... > h1` — the only h1 among its siblings, so NO nth-of-type.
    assert_eq!(selector_segment("h1", &attrs(&[]), 1, 1, false), "h1");
    // A unique tag that nonetheless carries a class.
    assert_eq!(
        selector_segment("div", &attrs(&[("class", "grid")]), 2, 2, false),
        "div.grid:nth-of-type(2)"
    );
}

#[test]
fn multi_class_selector_keeps_the_baseline_space_form() {
    assert_eq!(
        selector_segment("div", &attrs(&[("class", "card-icon purple")]), 1, 1, false),
        "div.card-icon purple"
    );
}

#[test]
fn nth_of_type_is_omitted_for_a_lone_sibling_and_present_otherwise() {
    assert_eq!(selector_segment("p", &attrs(&[]), 1, 1, false), "p");
    assert_eq!(
        selector_segment("p", &attrs(&[]), 2, 3, false),
        "p:nth-of-type(2)"
    );
}

#[test]
fn reported_selector_honors_id_short_circuit_and_body_root() {
    assert_eq!(
        reported_selector("body > span.badge", &attrs(&[("id", "versionBadge")])),
        "#versionBadge"
    );
    assert_eq!(reported_selector("body", &attrs(&[])), "html > body");
    assert_eq!(
        reported_selector("body > div.header:nth-of-type(1)", &attrs(&[])),
        "body > div.header:nth-of-type(1)"
    );
    // An id on body still wins over the body special case.
    assert_eq!(reported_selector("body", &attrs(&[("id", "top")])), "#top");
}

#[test]
fn foreign_content_drops_classes_and_children_are_indexed_by_tag() {
    assert!(enters_foreign_content("svg") && enters_foreign_content("math"));
    assert!(!enters_foreign_content("div"));
    let children = vec![
        ChildSummary::Element { tag_name: "DIV".to_string(), attributes: attrs(&[("class", "  a   b ")]) },
        ChildSummary::Other,
        ChildSummary::Element { tag_name: "svg".to_string(), attributes: attrs(&[("class", "icon")]) },
        ChildSummary::Element { tag_name: "div".to_string(), attributes: attrs(&[]) },
    ];
    let segs = child_selector_segments(&children, false);
    assert_eq!(
        segs,
        vec![
            Some("div.a b:nth-of-type(1)".to_string()),
            None,
            Some("svg".to_string()),
            Some("div:nth-of-type(2)".to_string()),
        ]
    );
    assert_eq!(child_selector_path("body", Some("div")), "body > div");
    assert_eq!(child_selector_path("", Some("div")), "");
    assert_eq!(child_selector_path("body", None), "");
}

#[test]
fn an_unclosed_not_counts_all_but_its_last_character() {
    // With no closing parenthesis the argument runs to the end of the word,
    // less its final character.
    assert_eq!(selector_specificity("a:not(bc"), (0, 0, 2));
    assert_eq!(selector_specificity("a:not(#x.y"), (1, 1, 1));
    assert_eq!(selector_specificity("a:where(b"), (0, 0, 1));
}
