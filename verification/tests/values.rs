use rustkit_engine::values::{
    find_matching_paren, is_inherited_property, parse_grid_line, parse_grid_line_shorthand,
    parse_overflow, GridLine, Overflow,
};

#[test]
fn matching_paren_skips_nested_pairs() {
    assert_eq!(find_matching_paren("a, b)"), Some(4));
    assert_eq!(find_matching_paren("rgb(1, 2, 3), 4) tail"), Some(15));
    assert_eq!(find_matching_paren(")"), Some(0));
    assert_eq!(find_matching_paren("(()"), None);
    assert_eq!(find_matching_paren(""), None);
}

#[test]
fn matching_paren_reports_a_byte_position() {
    // "é" takes two bytes, "€" three.
    assert_eq!(find_matching_paren("é)"), Some(2));
    assert_eq!(find_matching_paren("€(x))"), Some(6));
}

#[test]
fn inherited_properties_are_the_text_and_font_ones() {
    for p in [
        "color", "font", "font-family", "font-size", "font-style", "font-weight", "line-height",
        "text-align", "text-decoration", "text-transform", "letter-spacing", "word-spacing",
        "white-space", "visibility", "cursor", "direction", "writing-mode",
    ] {
        assert!(is_inherited_property(p), "{p}");
    }
    for p in ["margin", "padding-top", "display", "background-color", "Color", " color", ""] {
        assert!(!is_inherited_property(p), "{p}");
    }
}

#[test]
fn overflow_keywords() {
    assert_eq!(parse_overflow("visible"), Overflow::Visible);
    assert_eq!(parse_overflow(" hidden "), Overflow::Hidden);
    assert_eq!(parse_overflow("scroll"), Overflow::Scroll);
    assert_eq!(parse_overflow("auto"), Overflow::Auto);
    assert_eq!(parse_overflow("clip"), Overflow::Clip);
    assert_eq!(parse_overflow("HIDDEN"), Overflow::Visible);
    assert_eq!(parse_overflow("overlay"), Overflow::Visible);
}

#[test]
fn grid_lines() {
    assert_eq!(parse_grid_line("auto"), Some(GridLine::Auto));
    assert_eq!(parse_grid_line(" 3 "), Some(GridLine::Number(3)));
    assert_eq!(parse_grid_line("-1"), Some(GridLine::Number(-1)));
    assert_eq!(parse_grid_line("+2"), Some(GridLine::Number(2)));
    assert_eq!(parse_grid_line("span 2"), Some(GridLine::Span(2)));
    assert_eq!(parse_grid_line("span2"), Some(GridLine::Span(2)));
    assert_eq!(parse_grid_line("header-start"), Some(GridLine::Auto));
    assert_eq!(parse_grid_line("2147483647"), Some(GridLine::Number(i32::MAX)));
    assert_eq!(parse_grid_line("-2147483648"), Some(GridLine::Number(i32::MIN)));
    assert_eq!(parse_grid_line("2147483648"), Some(GridLine::Auto));
    assert_eq!(parse_grid_line("span 4294967295"), Some(GridLine::Span(u32::MAX)));
}

#[test]
fn grid_line_shorthand() {
    assert_eq!(
        parse_grid_line_shorthand("1 / 3"),
        Some((GridLine::Number(1), GridLine::Number(3)))
    );
    assert_eq!(
        parse_grid_line_shorthand("span 2"),
        Some((GridLine::Span(2), GridLine::Auto))
    );
    assert_eq!(
        parse_grid_line_shorthand(" 2 / span 3 "),
        Some((GridLine::Number(2), GridLine::Span(3)))
    );
}
