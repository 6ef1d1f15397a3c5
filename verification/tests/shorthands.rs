use rustkit_engine::shorthands::{border_shorthand, box_sides, BorderWidth};

fn words(s: &str) -> Vec<String> {
    s.split_whitespace().map(str::to_string).collect()
}

fn border(s: &str, lengths: &[bool]) -> Option<(BorderWidth, Vec<String>)> {
    border_shorthand(&words(s), lengths).map(|p| (p.width, p.color_words))
}

#[test]
fn box_sides_follow_the_one_to_four_value_rule() {
    assert_eq!(box_sides(1), Some((0, 0, 0, 0)));
    assert_eq!(box_sides(2), Some((0, 1, 0, 1)));
    assert_eq!(box_sides(3), Some((0, 1, 2, 1)));
    assert_eq!(box_sides(4), Some((0, 1, 2, 3)));
    assert_eq!(box_sides(0), None);
    assert_eq!(box_sides(5), None);
}

#[test]
fn border_words_divide_into_width_style_and_colour() {
    assert_eq!(
        border("1px solid red", &[true, false, false]),
        Some((BorderWidth::Length(0), vec!["red".to_string()]))
    );
    assert_eq!(border("solid", &[false]), Some((BorderWidth::Medium, vec![])));
    assert_eq!(border("THICK Dashed", &[false, false]), Some((BorderWidth::Thick, vec![])));
    assert_eq!(
        border("thin dashed rgb(1, 2, 3)", &[false, false, false, false, false]),
        Some((
            BorderWidth::Thin,
            vec!["rgb(1,".to_string(), "2,".to_string(), "3)".to_string()]
        ))
    );
    // Only the first width counts; a second one is taken as colour.
    assert_eq!(
        border("2px 3px", &[true, true]),
        Some((BorderWidth::Length(0), vec!["3px".to_string()]))
    );
    assert_eq!(border("red", &[false]), Some((BorderWidth::Medium, vec!["red".to_string()])));
}

#[test]
fn a_hiding_style_zeroes_the_width() {
    assert_eq!(border("5px none", &[true, false]), Some((BorderWidth::Zero, vec![])));
    assert_eq!(border("hidden", &[false]), Some((BorderWidth::Zero, vec![])));
    // The last style keyword decides.
    assert_eq!(border("none solid", &[false, false]), Some((BorderWidth::Medium, vec![])));
    assert_eq!(border("solid NONE", &[false, false]), Some((BorderWidth::Zero, vec![])));
}

#[test]
fn an_empty_border_value_sets_nothing() {
    assert_eq!(border("", &[]), None);
    assert_eq!(border("   ", &[]), None);
}
