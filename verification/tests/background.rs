use rustkit_engine::background::{
    parse_background_origin, parse_background_position, parse_background_position_value,
    parse_background_repeat, parse_background_size, parse_gradient_direction, BackgroundOrigin,
    BackgroundPositionValue, BackgroundRepeat, BackgroundSize, GradientDirection,
};
use rustkit_engine::units::SizeDimension;

#[test]
fn repeat_and_origin_keywords() {
    assert_eq!(parse_background_repeat("no-repeat"), Some(BackgroundRepeat::NoRepeat));
    assert_eq!(parse_background_repeat(" Repeat-X "), Some(BackgroundRepeat::RepeatX));
    assert_eq!(parse_background_repeat("round"), Some(BackgroundRepeat::Round));
    assert_eq!(parse_background_repeat("tile"), None);
    assert_eq!(parse_background_origin("content-box"), Some(BackgroundOrigin::ContentBox));
    assert_eq!(parse_background_origin("PADDING-BOX"), Some(BackgroundOrigin::PaddingBox));
    assert_eq!(parse_background_origin("margin-box"), None);
}

#[test]
fn gradient_directions_accept_either_corner_order() {
    assert_eq!(parse_gradient_direction("to right"), Some(GradientDirection::ToRight));
    assert_eq!(parse_gradient_direction("To Top Left"), Some(GradientDirection::ToTopLeft));
    assert_eq!(parse_gradient_direction("to left top"), Some(GradientDirection::ToTopLeft));
    assert_eq!(parse_gradient_direction("to right bottom"), Some(GradientDirection::ToBottomRight));
    assert_eq!(parse_gradient_direction("45deg"), None);
    assert_eq!(parse_gradient_direction("to  right"), None);
}

#[test]
fn background_sizes() {
    assert_eq!(parse_background_size("COVER"), BackgroundSize::Cover);
    assert_eq!(parse_background_size("contain"), BackgroundSize::Contain);
    assert_eq!(parse_background_size(" auto"), BackgroundSize::Auto);
    assert_eq!(
        parse_background_size("100PX 50%"),
        BackgroundSize::Explicit(
            Some(SizeDimension::Px("100".to_string())),
            Some(SizeDimension::Percent("50".to_string()))
        )
    );
    assert_eq!(
        parse_background_size("50% auto extra"),
        BackgroundSize::Explicit(Some(SizeDimension::Percent("50".to_string())), Some(SizeDimension::Auto))
    );
    assert_eq!(
        parse_background_size("12"),
        BackgroundSize::Explicit(Some(SizeDimension::Number("12".to_string())), None)
    );
    assert_eq!(parse_background_size(""), BackgroundSize::Explicit(None, None));
}

#[test]
fn background_positions() {
    assert_eq!(parse_background_position_value("LEFT"), BackgroundPositionValue::Start);
    assert_eq!(parse_background_position_value("center"), BackgroundPositionValue::Center);
    assert_eq!(parse_background_position_value("bottom"), BackgroundPositionValue::End);
    assert_eq!(parse_background_position_value("25%"), BackgroundPositionValue::Percent("25".to_string()));
    assert_eq!(parse_background_position_value("10PX"), BackgroundPositionValue::Px("10".to_string()));
    assert_eq!(parse_background_position_value("7"), BackgroundPositionValue::Number("7".to_string()));
    assert_eq!(
        parse_background_position("Right 20px"),
        (Some(BackgroundPositionValue::End), Some(BackgroundPositionValue::Px("20".to_string())))
    );
    assert_eq!(parse_background_position("top"), (Some(BackgroundPositionValue::Start), None));
    assert_eq!(parse_background_position("  "), (None, None));
}
