use desktop_logo_core::{
    default_margin, default_position, infer_format_from_extension, parse_position, OutputFormat,
    Position,
};

#[test]
fn parse_position_accepts_the_four_corners() {
    assert_eq!(parse_position("tl"), Some(Position::TopLeft));
    assert_eq!(parse_position("tr"), Some(Position::TopRight));
    assert_eq!(parse_position("bl"), Some(Position::BottomLeft));
    assert_eq!(parse_position("br"), Some(Position::BottomRight));
}

#[test]
fn parse_position_is_case_insensitive() {
    assert_eq!(parse_position("TL"), Some(Position::TopLeft));
    assert_eq!(parse_position("Tr"), Some(Position::TopRight));
    assert_eq!(parse_position("bL"), Some(Position::BottomLeft));
    assert_eq!(parse_position("BR"), Some(Position::BottomRight));
}

#[test]
fn parse_position_rejects_everything_else() {
    assert_eq!(parse_position(""), None);
    assert_eq!(parse_position("t"), None);
    assert_eq!(parse_position("tlx"), None);
    assert_eq!(parse_position("xx"), None);
    assert_eq!(parse_position("lt"), None);
}

#[test]
fn infer_format_recognizes_png_and_jpeg() {
    assert_eq!(infer_format_from_extension("png"), Some(OutputFormat::Png));
    assert_eq!(infer_format_from_extension("PNG"), Some(OutputFormat::Png));
    assert_eq!(infer_format_from_extension("jpg"), Some(OutputFormat::Jpeg));
    assert_eq!(infer_format_from_extension("jpeg"), Some(OutputFormat::Jpeg));
    assert_eq!(infer_format_from_extension("JPeG"), Some(OutputFormat::Jpeg));
}

#[test]
fn infer_format_rejects_unknown_extensions() {
    assert_eq!(infer_format_from_extension(""), None);
    assert_eq!(infer_format_from_extension("webp"), None);
    assert_eq!(infer_format_from_extension("pngx"), None);
    assert_eq!(infer_format_from_extension("jp"), None);
}

#[test]
fn defaults_match_the_configuration() {
    assert_eq!(default_position(), "BottomRight");
    assert_eq!(default_margin(), 64);
}
