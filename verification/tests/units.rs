use rustkit_engine::units::{
    parse_timing_function, position_axes_swapped, position_value, split_angle,
    split_size_dimension, split_time, srcset_candidates, AngleUnit, Descriptor, PositionValue,
    SizeDimension, TimeUnit, TimingFunction,
};

#[test]
fn grad_is_not_read_as_rad() {
    assert_eq!(split_angle("200grad"), (AngleUnit::Grad, "200".to_string()));
    assert_eq!(split_angle("3.14159rad"), (AngleUnit::Rad, "3.14159".to_string()));
    assert_eq!(split_angle(" 90deg "), (AngleUnit::Deg, "90".to_string()));
    assert_eq!(split_angle("0.5turn"), (AngleUnit::Turn, "0.5".to_string()));
    assert_eq!(split_angle("45"), (AngleUnit::Unitless, "45".to_string()));
}

#[test]
fn time_units() {
    assert_eq!(split_time("300ms"), Some((TimeUnit::Milliseconds, "300".to_string())));
    assert_eq!(split_time(" 0.3s"), Some((TimeUnit::Seconds, "0.3".to_string())));
    assert_eq!(split_time("3"), None);
}

#[test]
fn background_size_dimensions() {
    assert_eq!(split_size_dimension(" auto "), SizeDimension::Auto);
    assert_eq!(split_size_dimension("10px"), SizeDimension::Px("10".to_string()));
    assert_eq!(split_size_dimension("50%"), SizeDimension::Percent("50".to_string()));
    assert_eq!(split_size_dimension("7"), SizeDimension::Number("7".to_string()));
}

#[test]
fn position_keywords_and_axes() {
    assert_eq!(position_value("LEFT"), PositionValue::Start);
    assert_eq!(position_value(" bottom "), PositionValue::End);
    assert_eq!(position_value("center"), PositionValue::Center);
    assert_eq!(position_value("25%"), PositionValue::Percent("25".to_string()));
    assert_eq!(position_value("10px"), PositionValue::Center);
    assert!(position_axes_swapped("top", "right"));
    assert!(position_axes_swapped("center", "left"));
    assert!(!position_axes_swapped("right", "top"));
    assert!(!position_axes_swapped("25%", "75%"));
}

#[test]
fn srcset_candidates_in_order() {
    assert_eq!(
        srcset_candidates("small.jpg 400w, medium.jpg 800w,large.jpg 1600w"),
        vec![
            ("small.jpg".to_string(), Descriptor::Width("400".to_string())),
            ("medium.jpg".to_string(), Descriptor::Width("800".to_string())),
            ("large.jpg".to_string(), Descriptor::Width("1600".to_string())),
        ]
    );
    assert_eq!(
        srcset_candidates("a.png, b.png 2x, c.png 3q extra"),
        vec![
            ("a.png".to_string(), Descriptor::Bare),
            ("b.png".to_string(), Descriptor::Density("2".to_string())),
            ("c.png".to_string(), Descriptor::Other),
        ]
    );
    assert!(srcset_candidates("").is_empty());
    assert!(srcset_candidates("  , ,").is_empty());
}

#[test]
fn test_parse_timing_function() {
    assert_eq!(parse_timing_function("ease"), TimingFunction::Ease);
    assert_eq!(parse_timing_function(" linear "), TimingFunction::Linear);
    assert_eq!(parse_timing_function("ease-in"), TimingFunction::EaseIn);
    assert_eq!(parse_timing_function("ease-out"), TimingFunction::EaseOut);
    assert_eq!(parse_timing_function("ease-in-out"), TimingFunction::EaseInOut);
    assert_eq!(parse_timing_function("step-start"), TimingFunction::StepStart);
    assert_eq!(parse_timing_function("step-end"), TimingFunction::StepEnd);
    assert_eq!(
        parse_timing_function("cubic-bezier(0.1, 0.2, 0.3, 0.4)"),
        TimingFunction::CubicBezier(vec![
            "0.1".to_string(),
            "0.2".to_string(),
            "0.3".to_string(),
            "0.4".to_string()
        ])
    );
    assert_eq!(parse_timing_function("steps(4, jump-start)"), TimingFunction::Steps(4, true));
    assert_eq!(parse_timing_function("steps(3,start)"), TimingFunction::Steps(3, true));
    assert_eq!(parse_timing_function("steps(2)"), TimingFunction::Steps(2, false));
    assert_eq!(parse_timing_function("steps(x)"), TimingFunction::StepEnd);
    assert_eq!(parse_timing_function("bounce"), TimingFunction::Ease);
    assert_eq!(parse_timing_function("EASE"), TimingFunction::Ease);
}
