use rustkit_engine::dom::StrMap;
use rustkit_engine::links::resolve_url;
use rustkit_engine::forms::{
    edit_seed, enclosing_form, focus_target, form_entries, form_submission_entries, FormElement,
};

fn attrs(pairs: &[(&str, &str)]) -> StrMap {
    let mut a = StrMap::new();
    for (k, v) in pairs {
        a.insert(k, v);
    }
    a
}

fn control(tag: &str, pairs: &[(&str, &str)], edited: Option<&str>) -> FormElement {
    FormElement {
        tag_name: tag.to_string(),
        attributes: attrs(pairs),
        text_content: String::new(),
        edited_value: edited.map(str::to_string),
    }
}

fn pairs(elements: &[FormElement]) -> Vec<(String, String)> {
    form_entries(elements).into_iter().map(|e| (e.name, e.value)).collect()
}

#[test]
fn submitting_carries_what_the_user_typed_not_the_authored_value() {
    let chain: Vec<String> = ["input", "form", "body", "html"].iter().map(|s| s.to_string()).collect();
    assert_eq!(enclosing_form(&chain), Some(1));
    let els = vec![control("input", &[("name", "q"), ("value", "old")], Some("typed"))];
    let got = pairs(&els);
    assert_eq!(got, vec![("q".to_string(), "typed".to_string())]);
    // The action resolves against the document URL.
    assert_eq!(
        resolve_url(Some("https://example.com/page"), "/search").as_deref(),
        Some("https://example.com/search")
    );
}

#[test]
fn unnamed_disabled_and_unchecked_controls_do_not_submit() {
    let els = vec![
        control("input", &[("name", "kept"), ("value", "1")], None),
        control("input", &[("value", "no-name")], None),
        control("input", &[("name", "off"), ("value", "2"), ("disabled", "")], None),
        control("input", &[("type", "checkbox"), ("name", "box"), ("value", "3")], None),
        control("input", &[("type", "submit"), ("name", "btn"), ("value", "Go")], None),
        control("input", &[("name", "btn2"), ("type", "RESET")], None),
        control("select", &[("name", "sel")], None),
    ];
    assert_eq!(pairs(&els), vec![("kept".to_string(), "1".to_string())]);
}

#[test]
fn checked_toggles_and_textareas_submit() {
    let mut area = control("TEXTAREA", &[("name", "t"), ("value", "ignored")], None);
    area.text_content = "body text".to_string();
    let els = vec![
        control("input", &[("name", "c"), ("type", "checkbox"), ("checked", "")], None),
        area,
        control("input", &[("name", "r"), ("type", "radio"), ("checked", ""), ("value", "on")], None),
        control("input", &[("name", "empty")], None),
    ];
    assert_eq!(
        pairs(&els),
        vec![
            ("c".to_string(), String::new()),
            ("t".to_string(), "body text".to_string()),
            ("r".to_string(), "on".to_string()),
            ("empty".to_string(), String::new()),
        ]
    );
}

#[test]
fn a_post_form_is_declined_rather_than_downgraded_to_get() {
    let els = vec![control("input", &[("name", "q"), ("value", "x")], None)];
    assert!(form_submission_entries(false, &els).is_none());
    assert_eq!(form_submission_entries(true, &els).unwrap().len(), 1);
}

#[test]
fn a_form_with_nothing_to_submit_gives_no_submission() {
    let els = vec![control("input", &[("value", "x")], None)];
    assert!(form_submission_entries(true, &els).is_none());
    assert!(form_submission_entries(true, &[]).is_none());
}

#[test]
fn a_field_outside_any_form_submits_nothing() {
    let chain: Vec<String> = ["input", "body", "html", ""].iter().map(|s| s.to_string()).collect();
    assert_eq!(enclosing_form(&chain), None);
    let chain: Vec<String> = ["input", "div", "FORM", "form", "body"].iter().map(|s| s.to_string()).collect();
    assert_eq!(enclosing_form(&chain), Some(2));
}

#[test]
fn clicking_a_form_control_focuses_it_and_clicking_away_clears_focus() {
    assert_eq!(focus_target("input").as_deref(), Some("input"));
    assert_eq!(focus_target("div"), None);
}

#[test]
fn clicks_focus_form_controls_only() {
    assert_eq!(focus_target("INPUT").as_deref(), Some("input"));
    assert_eq!(focus_target("textarea").as_deref(), Some("textarea"));
    assert_eq!(focus_target("select").as_deref(), Some("select"));
    assert_eq!(focus_target("div"), None);
    assert_eq!(focus_target("button"), None);
}

#[test]
fn edit_state_is_seeded_once_from_the_authored_value() {
    let a = attrs(&[("value", "ab")]);
    assert_eq!(edit_seed("input", &a, "", false).as_deref(), Some("ab"));
    assert_eq!(edit_seed("input", &a, "", true), None);
    assert_eq!(edit_seed("textarea", &a, "text", false).as_deref(), Some("text"));
    assert_eq!(edit_seed("select", &a, "", false), None);
    assert_eq!(edit_seed("input", &attrs(&[]), "", false).as_deref(), Some(""));
}
