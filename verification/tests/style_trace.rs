use rustkit_engine::style_trace::{SimpleSelector, StyleRecord};
use rustkit_engine::values::split_by_comma;

fn record(tag: &str, id: Option<&str>, classes: &[&str]) -> StyleRecord {
    StyleRecord {
        tag: tag.to_string(),
        id: id.map(str::to_string),
        classes: classes.iter().map(|c| c.to_string()).collect(),
        declarations: Vec::new(),
        computed: Vec::new(),
    }
}

#[test]
fn simple_selector_matches_tag_class_and_id() {
    let hero = record("div", Some("main"), &["hero", "wide"]);

    assert!(SimpleSelector::parse(".hero").unwrap().matches(&hero));
    assert!(SimpleSelector::parse("div").unwrap().matches(&hero));
    assert!(SimpleSelector::parse("#main").unwrap().matches(&hero));
    assert!(SimpleSelector::parse("div.hero").unwrap().matches(&hero));
    // Every class in the query must be present, not just one.
    assert!(SimpleSelector::parse(".hero.wide").unwrap().matches(&hero));
    assert!(!SimpleSelector::parse(".hero.narrow").unwrap().matches(&hero));
    assert!(!SimpleSelector::parse("span.hero").unwrap().matches(&hero));
    assert!(!SimpleSelector::parse("#other").unwrap().matches(&hero));
}

#[test]
fn simple_selector_refuses_what_it_cannot_answer() {
    for unsupported in [
        "div p", "div > p", "div + p", "div ~ p", "a, b", "[type=text]",
        "a:hover", "*", "", "   ", ".", "#",
    ] {
        assert!(
            SimpleSelector::parse(unsupported).is_none(),
            "should have refused {unsupported:?}"
        );
    }
}

#[test]
fn simple_selector_lowercases_the_tag_only() {
    let r = record("div", None, &["Hero"]);
    assert!(SimpleSelector::parse("  DIV.Hero ").unwrap().matches(&r));
    assert!(!SimpleSelector::parse("div.hero").unwrap().matches(&r));
}

#[test]
fn test_split_by_comma() {
    // Simple case
    let parts = split_by_comma("a, b, c");
    assert_eq!(parts, vec!["a", " b", " c"]);

    // With nested parentheses
    let parts = split_by_comma("rgb(255, 0, 0), blue, rgba(0, 255, 0, 0.5)");
    assert_eq!(parts.len(), 3);
    assert_eq!(parts[0], "rgb(255, 0, 0)");
    assert_eq!(parts[1].trim(), "blue");
    assert_eq!(parts[2].trim(), "rgba(0, 255, 0, 0.5)");
}
