use rustkit_engine::cascade::{
    element_declarations, extract_css_variables, matching_rules, pseudo_element_rules,
    record_inline_style, resolve_css_variables, Declaration, ElementContext, PropertyValue,
    PseudoElement, Rule, Stylesheet,
};
use rustkit_engine::dom::StrMap;
use rustkit_engine::matching::ElementSummary;
use rustkit_engine::style_trace::{style_record, DeclarationRecord};

fn decl(property: &str, value: &str) -> Declaration {
    Declaration {
        property: property.to_string(),
        value: PropertyValue::Specified(value.to_string()),
        important: false,
    }
}

fn rule(selector: &str, declarations: Vec<Declaration>) -> Rule {
    Rule { selector: selector.to_string(), declarations }
}

fn map(pairs: &[(&str, &str)]) -> StrMap {
    let mut m = StrMap::new();
    for (k, v) in pairs {
        m.insert(k, v);
    }
    m
}

fn triple(r: &DeclarationRecord) -> (String, String, usize) {
    (r.property.clone(), r.value.clone(), r.order)
}

#[test]
fn root_custom_properties_are_collected_and_later_ones_win() {
    let sheets = vec![
        Stylesheet {
            rules: vec![
                rule(":root", vec![decl("--main", "red"), decl("color", "blue"), decl("--gap", "4px")]),
                rule("body", vec![decl("--main", "green")]),
            ],
        },
        Stylesheet {
            rules: vec![rule(
                " :root ",
                vec![
                    decl("--main", "navy"),
                    Declaration {
                        property: "--inh".to_string(),
                        value: PropertyValue::Inherit,
                        important: false,
                    },
                ],
            )],
        },
    ];
    let vars = extract_css_variables(&sheets);
    assert_eq!(vars.get("--main").as_deref(), Some("navy"));
    assert_eq!(vars.get("--gap").as_deref(), Some("4px"));
    assert_eq!(vars.get("--inh").as_deref(), Some("inherit"));
    assert_eq!(vars.get("color"), None);
}

#[test]
fn var_references_are_substituted() {
    let vars = map(&[("--c", "red"), ("--a", "var(--b)"), ("--b", "1px")]);
    assert_eq!(resolve_css_variables("var(--c)", &vars), "red");
    assert_eq!(resolve_css_variables("1px solid var( --c )", &vars), "1px solid red");
    assert_eq!(resolve_css_variables("var(--missing, blue)", &vars), "blue");
    assert_eq!(resolve_css_variables("var(--missing)", &vars), "");
    assert_eq!(resolve_css_variables("var(--a) var(--c)", &vars), "1px red");
    assert_eq!(resolve_css_variables("calc(var(--b))", &vars), "calc(1px)");
    // An unclosed reference stops substitution and is left as written.
    assert_eq!(resolve_css_variables("var(--c", &vars), "var(--c");
    assert_eq!(resolve_css_variables("plain", &vars), "plain");
}

fn sheets_for_cascade() -> Vec<Stylesheet> {
    vec![
        Stylesheet {
            rules: vec![
                rule("#hero", vec![decl("color", "red")]),
                rule("div", vec![decl("color", "blue"), decl("margin", "0")]),
                rule("span", vec![decl("color", "green")]),
            ],
        },
        Stylesheet {
            rules: vec![
                rule(".card", vec![decl("color", "var(--accent)")]),
                rule("div", vec![decl("color", "black")]),
            ],
        },
    ]
}

#[test]
fn matched_rules_come_in_cascade_order() {
    let sheets = sheets_for_cascade();
    let attrs = map(&[("id", "hero"), ("class", "card")]);
    let ancestors: Vec<ElementSummary> = vec![("body".to_string(), vec![], None)];
    let cx = ElementContext {
        tag_name: "div",
        attributes: &attrs,
        ancestors: &ancestors,
        siblings_before: &[],
        element_index: 0,
        sibling_count: 1,
    };
    let matched = matching_rules(&sheets, &cx);
    let order: Vec<(usize, usize, (usize, usize, usize), usize)> =
        matched.iter().map(|m| (m.sheet, m.rule, m.specificity, m.index)).collect();
    assert_eq!(
        order,
        vec![
            (0, 1, (0, 0, 1), 1),
            (1, 1, (0, 0, 1), 4),
            (1, 0, (0, 1, 0), 3),
            (0, 0, (1, 0, 0), 0),
        ]
    );
}

#[test]
fn element_records_follow_the_cascade_then_the_inline_style() {
    let sheets = sheets_for_cascade();
    let attrs = map(&[
        ("id", "hero"),
        ("class", "card wide"),
        ("style", " Color : var(--accent) ;; bogus ; padding:1px "),
    ]);
    let vars = map(&[("--accent", "teal")]);
    let cx = ElementContext {
        tag_name: "DIV",
        attributes: &attrs,
        ancestors: &[],
        siblings_before: &[],
        element_index: 0,
        sibling_count: 1,
    };
    let records = element_declarations(&sheets, &cx, &vars);
    let got: Vec<(String, String, usize)> = records.iter().map(triple).collect();
    let want: Vec<(String, String, usize)> = vec![
        ("color", "blue", 0),
        ("margin", "0", 1),
        ("color", "black", 2),
        ("color", "teal", 3),
        ("color", "red", 4),
        ("color", "teal", 5),
        ("padding", "1px", 6),
    ]
    .into_iter()
    .map(|(p, v, o)| (p.to_string(), v.to_string(), o))
    .collect();
    assert_eq!(got, want);
    assert_eq!(records[0].selector, "div");
    assert_eq!(records[0].specificity, (0, 0, 1));
    assert_eq!(records[0].origin, "author");
    assert_eq!(records[4].selector, "#hero");
    assert_eq!(records[4].specificity, (1, 0, 0));
    assert_eq!(records[5].selector, "style=");
    assert_eq!(records[5].specificity, (usize::MAX, 0, 0));
    assert_eq!(records[5].origin, "author-inline");
    assert!(!records[5].important);

    let rec = style_record("DIV", &attrs, records, vec![]);
    assert_eq!(rec.tag, "div");
    assert_eq!(rec.id.as_deref(), Some("hero"));
    assert_eq!(rec.classes, vec!["card".to_string(), "wide".to_string()]);
    assert_eq!(rec.declarations.len(), 7);
}

#[test]
fn inherit_and_initial_declarations_are_not_recorded() {
    let sheets = vec![Stylesheet {
        rules: vec![rule(
            "p",
            vec![
                Declaration { property: "color".into(), value: PropertyValue::Inherit, important: false },
                Declaration { property: "margin".into(), value: PropertyValue::Initial, important: false },
                Declaration {
                    property: "width".into(),
                    value: PropertyValue::Specified("10px".into()),
                    important: true,
                },
            ],
        )],
    }];
    let attrs = map(&[]);
    let cx = ElementContext {
        tag_name: "p",
        attributes: &attrs,
        ancestors: &[],
        siblings_before: &[],
        element_index: 0,
        sibling_count: 1,
    };
    let records = element_declarations(&sheets, &cx, &map(&[]));
    assert_eq!(records.len(), 1);
    assert_eq!(records[0].property, "width");
    assert!(records[0].important);
    assert_eq!(records[0].order, 0);
}

#[test]
fn inline_records_continue_the_numbering() {
    let mut records: Vec<DeclarationRecord> = Vec::new();
    let mut order = 7usize;
    record_inline_style("COLOR: Red; width :  var(--w, 3px) ; novalue", &map(&[]), &mut records, &mut order);
    assert_eq!(order, 9);
    let got: Vec<(String, String, usize)> = records.iter().map(triple).collect();
    assert_eq!(
        got,
        vec![("color".to_string(), "Red".to_string(), 7), ("width".to_string(), "3px".to_string(), 8)]
    );
}

#[test]
fn no_style_attribute_means_no_inline_records() {
    let sheets: Vec<Stylesheet> = vec![];
    let attrs = map(&[("class", "  ")]);
    let cx = ElementContext {
        tag_name: "p",
        attributes: &attrs,
        ancestors: &[],
        siblings_before: &[],
        element_index: 0,
        sibling_count: 1,
    };
    let records = element_declarations(&sheets, &cx, &map(&[]));
    assert!(records.is_empty());
    let rec = style_record("p", &attrs, records, vec![]);
    assert!(rec.classes.is_empty());
    assert_eq!(rec.id, None);
}

#[test]
fn pseudo_element_rules_match_either_form_in_cascade_order() {
    let sheets = vec![Stylesheet {
        rules: vec![
            rule("p::before", vec![decl("content", "'a'")]),
            rule("p:before", vec![decl("content", "'b'")]),
            rule(".x::after", vec![decl("content", "'c'")]),
            rule("div p::before", vec![decl("content", "'d'")]),
            rule("span::before", vec![decl("content", "'e'")]),
            rule("p", vec![decl("color", "red")]),
        ],
    }];
    let attrs = map(&[("class", "x")]);
    let ancestors: Vec<ElementSummary> = vec![("div".to_string(), vec![], None)];
    let before = pseudo_element_rules(&sheets, "p", &attrs, &ancestors, PseudoElement::Before);
    let got: Vec<(usize, (usize, usize, usize))> =
        before.iter().map(|m| (m.rule, m.specificity)).collect();
    assert_eq!(got, vec![(0, (0, 0, 2)), (3, (0, 0, 3)), (1, (0, 1, 1))]);
    let after = pseudo_element_rules(&sheets, "p", &attrs, &ancestors, PseudoElement::After);
    let got: Vec<usize> = after.iter().map(|m| m.rule).collect();
    assert_eq!(got, vec![2]);
    let none = pseudo_element_rules(&sheets, "span", &map(&[]), &[], PseudoElement::After);
    assert!(none.is_empty());
}
