use lsystem::export::{normalized_png_dimension, parse_u32, suggested_filename, ExportKind};
use lsystem::util::sanitize_filename;

#[test]
fn ascii_alphanumeric_lowercased() {
    assert_eq!(sanitize_filename("Koch", "svg"), "koch.svg");
    assert_eq!(sanitize_filename("DragonCurve3D", "png"), "dragoncurve3d.png");
}

#[test]
fn spaces_and_punctuation_become_underscores() {
    assert_eq!(sanitize_filename("Koch Curve", "svg"), "koch_curve.svg");
    assert_eq!(sanitize_filename("L-System!", "png"), "l_system_.png");
}

#[test]
fn non_ascii_become_underscores() {
    assert_eq!(sanitize_filename("étoile", "svg"), "_toile.svg");
    assert_eq!(sanitize_filename("ñ", "png"), "_.png");
}

#[test]
fn empty_name_produces_bare_extension() {
    assert_eq!(sanitize_filename("", "svg"), ".svg");
}

#[test]
fn consecutive_specials_are_not_collapsed() {
    assert_eq!(sanitize_filename("A  B", "svg"), "a__b.svg");
}

// --- Further cases ---

#[test]
fn export_kinds_name_their_files() {
    assert_eq!(suggested_filename("Koch Snowflake", ExportKind::Svg), "koch_snowflake.svg");
    assert_eq!(suggested_filename("Plant 2", ExportKind::Png), "plant_2.png");
    assert_eq!(ExportKind::Svg.label(), "SVG");
    assert_eq!(ExportKind::Png.filter_name(), "PNG Image");
    assert_eq!(ExportKind::Png.extension(), "png");
}

#[test]
fn png_dimension_text_is_trimmed_parsed_and_clamped() {
    assert_eq!(normalized_png_dimension("800", 16, 8192), Some(800));
    assert_eq!(normalized_png_dimension("  640\n", 16, 8192), Some(640));
    assert_eq!(normalized_png_dimension("+32", 16, 8192), Some(32));
    assert_eq!(normalized_png_dimension("9000", 16, 8192), Some(8192));
    assert_eq!(normalized_png_dimension("0", 16, 8192), Some(16));
    assert_eq!(normalized_png_dimension("4294967295", 16, 8192), Some(8192));
}

#[test]
fn png_dimension_text_that_is_not_a_u32_is_refused() {
    assert_eq!(normalized_png_dimension("", 16, 8192), None);
    assert_eq!(normalized_png_dimension("   ", 16, 8192), None);
    assert_eq!(normalized_png_dimension("+", 16, 8192), None);
    assert_eq!(normalized_png_dimension("-5", 16, 8192), None);
    assert_eq!(normalized_png_dimension("12px", 16, 8192), None);
    assert_eq!(normalized_png_dimension("1 2", 16, 8192), None);
    assert_eq!(normalized_png_dimension("4294967296", 16, 8192), None);
}

#[test]
fn parse_u32_reads_like_from_str() {
    let chars = |s: &str| s.chars().collect::<Vec<char>>();
    for s in ["0", "7", "+7", "007", "4294967295", "", "+", "++1", "-0", "4294967296", "99999999999"] {
        assert_eq!(parse_u32(&chars(s)), s.parse::<u32>().ok(), "{s}");
    }
}
