use handwrite_sim::models::{
    region_font_size_error, region_placement_error, Align, MiswriteMode, ParamsError, StrikeoutStyle,
};

#[test]
fn align_parse_roundtrip() {
    assert_eq!(Align::parse("center").unwrap(), Align::Center);
    assert_eq!(Align::Center.as_str(), "center");
    assert!(Align::parse("top").is_err());
}

#[test]
fn miswrite_mode_parse_roundtrip() {
    assert_eq!(MiswriteMode::parse("above").unwrap(), MiswriteMode::Above);
    assert_eq!(MiswriteMode::Above.as_str(), "above");
    assert_eq!(MiswriteMode::parse("rewrite").unwrap(), MiswriteMode::Rewrite);
    assert_eq!(MiswriteMode::Rewrite.as_str(), "rewrite");
    assert!(MiswriteMode::parse("inline").is_err());
}

#[test]
fn test_strikeout_style_parsing() {
    assert_eq!(StrikeoutStyle::parse("line").unwrap(), StrikeoutStyle::Line);
    assert_eq!(StrikeoutStyle::parse("double_line").unwrap(), StrikeoutStyle::DoubleLine);
    assert_eq!(StrikeoutStyle::parse("slash").unwrap(), StrikeoutStyle::Slash);
    assert_eq!(StrikeoutStyle::parse("cross").unwrap(), StrikeoutStyle::Cross);
    assert!(StrikeoutStyle::parse("invalid").is_err());
}

#[test]
fn region_placement_checks_in_order() {
    assert!(region_placement_error(1, 0, 0, 10, 10, 1).is_none());
    assert!(matches!(region_placement_error(2, -1, -1, 0, 10, 0), Some(ParamsError::RegionSize { index: 2 })));
    assert!(matches!(region_placement_error(3, 5, -1, 10, 10, 0), Some(ParamsError::RegionPosition { index: 3 })));
    assert!(matches!(region_placement_error(4, 5, 5, 10, 10, 0), Some(ParamsError::RegionPage { index: 4 })));
    assert!(matches!(region_font_size_error(5, -1), Some(ParamsError::RegionFontSize { index: 5 })));
    assert!(region_font_size_error(5, 0).is_none());
}
