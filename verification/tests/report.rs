use rustkit_engine::report::{
    computed_properties, computed_value_of_recorded, element_report, reported_specificity,
    style_report, ReportedSpecificity,
};
use rustkit_engine::cascade::{
    element_declarations, Declaration, ElementContext, PropertyValue, Rule, Stylesheet,
};
use rustkit_engine::dom::StrMap;
use rustkit_engine::style_trace::{style_record, DeclarationRecord, StyleRecord};

fn rec(property: &str, value: &str, selector: &str, specificity: (usize, usize, usize), order: usize) -> DeclarationRecord {
    DeclarationRecord {
        property: property.to_string(),
        value: value.to_string(),
        selector: selector.to_string(),
        specificity,
        origin: if specificity.0 == usize::MAX { "author-inline" } else { "author" },
        important: false,
        order,
    }
}

fn element(tag: &str, classes: &[&str], declarations: Vec<DeclarationRecord>) -> StyleRecord {
    StyleRecord {
        tag: tag.to_string(),
        id: None,
        classes: classes.iter().map(|c| c.to_string()).collect(),
        declarations,
        computed: vec![
            ("color".to_string(), "rgba(255, 0, 0, 1)".to_string()),
            ("width".to_string(), "100px".to_string()),
            ("color".to_string(), "shadowed".to_string()),
        ],
    }
}

#[test]
fn declared_properties_are_sorted_with_winner_and_overridden() {
    let r = element(
        "div",
        &["card"],
        vec![
            rec("color", "blue", "div", (0, 0, 1), 0),
            rec("margin", "0", "div", (0, 0, 1), 1),
            rec("color", "red", ".card", (0, 1, 0), 2),
            rec("border", "none", ".card", (0, 1, 0), 3),
            rec("color", "green", "style=", (usize::MAX, 0, 0), 4),
        ],
    );
    let rep = element_report(&r, 3);
    assert_eq!(rep.record, 3);
    let props: Vec<&str> = rep.declared.iter().map(|p| p.property.as_str()).collect();
    assert_eq!(props, vec!["border", "color", "margin"]);
    let color = &rep.declared[1];
    assert_eq!(color.winner, 4);
    assert_eq!(color.overridden, vec![0, 2]);
    assert_eq!(color.computed.as_deref(), Some("rgba(255, 0, 0, 1)"));
    assert_eq!(rep.declared[0].winner, 3);
    assert!(rep.declared[0].overridden.is_empty());
    assert_eq!(rep.declared[0].computed, None);
    // Read-back properties nothing declared, in their fixed order.
    let undeclared: Vec<&str> = rep.undeclared.iter().map(|u| u.property.as_str()).collect();
    let expected: Vec<&str> = computed_properties().into_iter().filter(|p| *p != "color").collect();
    assert_eq!(undeclared, expected);
    assert_eq!(rep.undeclared[0].property, "width");
    assert_eq!(rep.undeclared[0].computed.as_deref(), Some("100px"));
    assert_eq!(rep.undeclared[1].computed, None);
}

#[test]
fn the_winner_is_the_highest_order_not_the_last_position() {
    let r = element(
        "p",
        &[],
        vec![
            rec("color", "late", "p", (0, 0, 1), 9),
            rec("color", "early", "p", (0, 0, 1), 1),
            rec("color", "tie-first", "p", (0, 0, 1), 5),
            rec("color", "tie-second", "p", (0, 0, 1), 5),
        ],
    );
    let rep = element_report(&r, 0);
    assert_eq!(rep.declared.len(), 1);
    assert_eq!(rep.declared[0].winner, 0);
    assert_eq!(rep.declared[0].overridden, vec![1, 2, 3]);
}

#[test]
fn properties_sort_by_code_point() {
    let r = element(
        "p",
        &[],
        vec![
            rec("b", "1", "p", (0, 0, 1), 0),
            rec("B", "1", "p", (0, 0, 1), 1),
            rec("ab", "1", "p", (0, 0, 1), 2),
            rec("a", "1", "p", (0, 0, 1), 3),
            rec("é", "1", "p", (0, 0, 1), 4),
            rec("--x", "1", "p", (0, 0, 1), 5),
        ],
    );
    let rep = element_report(&r, 0);
    let props: Vec<&str> = rep.declared.iter().map(|p| p.property.as_str()).collect();
    assert_eq!(props, vec!["--x", "B", "a", "ab", "b", "é"]);
}

#[test]
fn the_report_selects_records_by_simple_selector() {
    let trace = vec![
        element("div", &["card"], vec![]),
        element("p", &["card"], vec![]),
        element("div", &["other"], vec![]),
        element("div", &["card", "wide"], vec![]),
    ];
    let reps = style_report(&trace, "div.card").unwrap();
    let picked: Vec<usize> = reps.iter().map(|r| r.record).collect();
    assert_eq!(picked, vec![0, 3]);
    assert_eq!(style_report(&trace, ".nothing").unwrap().len(), 0);
    assert!(style_report(&trace, "div p").is_none());
    assert!(style_report(&trace, "").is_none());
}

#[test]
fn with_no_declarations_every_read_back_property_is_undeclared() {
    let r = element("span", &[], vec![]);
    let rep = element_report(&r, 0);
    assert!(rep.declared.is_empty());
    let names: Vec<&str> = rep.undeclared.iter().map(|u| u.property.as_str()).collect();
    assert_eq!(names, computed_properties());
    assert_eq!(names.len(), 15);
}

#[test]
fn computed_lookup_takes_the_first_entry() {
    let r = element("span", &[], vec![]);
    assert_eq!(computed_value_of_recorded(&r, "color").as_deref(), Some("rgba(255, 0, 0, 1)"));
    assert_eq!(computed_value_of_recorded(&r, "display"), None);
}

#[test]
fn inline_specificity_is_reported_as_inline() {
    assert_eq!(
        reported_specificity(&rec("color", "x", "style=", (usize::MAX, 0, 0), 0)),
        ReportedSpecificity::Inline
    );
    assert_eq!(
        reported_specificity(&rec("color", "x", "#a .b", (1, 1, 0), 0)),
        ReportedSpecificity::Selector(1, 1, 0)
    );
}

#[test]
fn the_report_of_a_cascade_names_the_most_specific_declaration() {
    let decl = |p: &str, v: &str| Declaration {
        property: p.to_string(),
        value: PropertyValue::Specified(v.to_string()),
        important: false,
    };
    let sheets = vec![Stylesheet {
        rules: vec![
            Rule { selector: "#main".into(), declarations: vec![decl("color", "red"), decl("width", "1px")] },
            Rule { selector: "div".into(), declarations: vec![decl("color", "blue"), decl("width", "2px")] },
            Rule { selector: ".card".into(), declarations: vec![decl("color", "green")] },
        ],
    }];
    let mut attrs = StrMap::new();
    attrs.insert("id", "main");
    attrs.insert("class", "card");
    attrs.insert("style", "width: 3px");
    let cx = ElementContext {
        tag_name: "div",
        attributes: &attrs,
        ancestors: &[],
        siblings_before: &[],
        element_index: 0,
        sibling_count: 1,
    };
    let records = element_declarations(&sheets, &cx, &StrMap::new());
    let record = style_record("div", &attrs, records, vec![]);
    let rep = element_report(&record, 0);
    let color = rep.declared.iter().find(|p| p.property == "color").unwrap();
    assert_eq!(record.declarations[color.winner].value, "red");
    assert_eq!(record.declarations[color.winner].selector, "#main");
    let losers: Vec<&str> =
        color.overridden.iter().map(|&k| record.declarations[k].value.as_str()).collect();
    assert_eq!(losers, vec!["blue", "green"]);
    let width = rep.declared.iter().find(|p| p.property == "width").unwrap();
    assert_eq!(record.declarations[width.winner].value, "3px");
    assert_eq!(record.declarations[width.winner].origin, "author-inline");
}
